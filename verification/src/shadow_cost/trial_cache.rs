//! The candidates seen so far, found again by their key, and their ranking by mean loss.
use vstd::prelude::*;
use vstd::multiset::Multiset;
use std::rc::Rc;
use crate::shadow_cost::cards::Cards;
use crate::shadow_cost::cards::costs_in_range;
use crate::shadow_cost::cards::lemma_random_change;
use crate::shadow_cost::cards::lemma_random_exchange;
use crate::shadow_cost::cards::random_change_spec;
use crate::shadow_cost::cards::random_exchange_spec;
use crate::shadow_cost::player::budget_total;
use crate::shadow_cost::player::opening_draws;
use crate::shadow_cost::score::lemma_below_total;
use crate::shadow_cost::score::lemma_below_transitive;
use crate::shadow_cost::trial::Candidate;
use crate::shadow_cost::trial::Trial;
use crate::shadow_cost::trial::batch;
use crate::shadow_cost::trial::lemma_batch_loss;
use crate::shadow_cost::trial::share;
use crate::shadow_cost::xor_rand::XorRand;

verus! {

/// The number of cards that a candidate differs in from the one it was made from.
pub const CHANGE_COUNT: u32 = 3;

/// A ranking is in order: every snapshot has a game played, and no snapshot has a smaller
/// mean loss than one that stands before it.
pub open spec fn ranked(r: Seq<Candidate>) -> bool {
    &&& forall|i: int| 0 <= i < r.len() ==> (#[trigger] r[i]).score.samples > 0
    &&& forall|i: int, j: int|
        0 <= i < j < r.len() ==> !(#[trigger] r[j]).score.below((#[trigger] r[i]).score)
}

/// The place of `t` in the ranking: before the first snapshot that it is below. In a
/// ranking in order that is behind every snapshot of a smaller or the same mean loss, so
/// that of two level snapshots the earlier one stays in front.
pub open spec fn rank_place(r: Seq<Candidate>, t: Candidate) -> nat
    decreases r.len(),
{
    if r.len() == 0 || t.score.below(r[0].score) {
        0
    } else {
        1 + rank_place(r.drop_first(), t)
    }
}

/// The ranking with `t` put in at its place; every snapshot that was there stays.
pub open spec fn rank_insert(r: Seq<Candidate>, t: Candidate) -> Seq<Candidate> {
    r.insert(rank_place(r, t) as int, t)
}

/// The place of `t` lies within the ranking; `t` is below no snapshot before its place,
/// and below the one at its place.
pub proof fn lemma_rank_place_bounds(r: Seq<Candidate>, t: Candidate)
    ensures
        rank_place(r, t) <= r.len(),
        forall|j: int| 0 <= j < rank_place(r, t) ==> !t.score.below((#[trigger] r[j]).score),
        rank_place(r, t) < r.len() ==> t.score.below(r[rank_place(r, t) as int].score),
    decreases r.len(),
{
    if r.len() > 0 && !t.score.below(r[0].score) {
        let rest = r.drop_first();
        lemma_rank_place_bounds(rest, t);
        let p = rank_place(rest, t) as int;
        assert forall|j: int| 0 <= j < p + 1 implies !t.score.below((#[trigger] r[j]).score) by {
            if j > 0 {
                assert(rest[j - 1] == r[j]);
            }
        }
        if p < rest.len() {
            assert(rest[p] == r[p + 1]);
        }
    }
}

/// The place of `t` is `i` where `t` is below none of the first `i` snapshots and below
/// the next.
pub proof fn lemma_rank_place(r: Seq<Candidate>, t: Candidate, i: int)
    requires
        0 <= i <= r.len(),
        forall|j: int| 0 <= j < i ==> !t.score.below((#[trigger] r[j]).score),
        i < r.len() ==> t.score.below(r[i].score),
    ensures
        rank_place(r, t) == i,
    decreases i,
{
    if i > 0 {
        let rest = r.drop_first();
        assert(!t.score.below(r[0].score));
        assert forall|j: int| 0 <= j < i - 1 implies !t.score.below((#[trigger] rest[j]).score) by {
            assert(rest[j] == r[j + 1]);
        }
        if i < r.len() {
            assert(rest[i - 1] == r[i]);
        }
        lemma_rank_place(rest, t, i - 1);
    }
}

/// After `t` was put in, the ranking is one snapshot longer: `t` stands at its place, and
/// every snapshot that was there stands where it stood, or one place further back.
pub proof fn lemma_rank_insert_keeps(r: Seq<Candidate>, t: Candidate)
    ensures
        rank_place(r, t) <= r.len(),
        rank_insert(r, t).len() == r.len() + 1,
        rank_insert(r, t)[rank_place(r, t) as int] == t,
        forall|i: int| 0 <= i < rank_place(r, t) ==> rank_insert(r, t)[i] == r[i],
        forall|i: int| rank_place(r, t) < i <= r.len() ==> rank_insert(r, t)[i] == r[i - 1],
{
    lemma_rank_place_bounds(r, t);
}

/// Putting a candidate in makes the ranking one snapshot longer.
pub proof fn lemma_rank_insert_len(r: Seq<Candidate>, t: Candidate)
    ensures
        rank_insert(r, t).len() == r.len() + 1,
{
    lemma_rank_insert_keeps(r, t);
}

/// Whoever stands in the ranking after `t` was put in stood there before, or is `t`.
pub proof fn lemma_rank_insert_members(r: Seq<Candidate>, t: Candidate)
    ensures
        forall|i: int|
            0 <= i < rank_insert(r, t).len() ==> (#[trigger] rank_insert(r, t)[i]) == t || exists|
                k: int,
            |
                0 <= k < r.len() && r[k] == rank_insert(r, t)[i],
{
    lemma_rank_insert_keeps(r, t);
    let out = rank_insert(r, t);
    let p = rank_place(r, t) as int;
    assert forall|i: int| 0 <= i < out.len() implies (#[trigger] out[i]) == t || exists|k: int|
        0 <= k < r.len() && r[k] == out[i] by {
        if i < p {
            assert(r[i] == out[i]);
        } else if i > p {
            assert(r[i - 1] == out[i]);
        }
    }
}

/// A ranking in order stays in order when a candidate with a game played is put in.
pub proof fn lemma_rank_insert_ranked(r: Seq<Candidate>, t: Candidate)
    requires
        ranked(r),
        t.score.samples > 0,
    ensures
        ranked(rank_insert(r, t)),
{
    lemma_rank_place_bounds(r, t);
    lemma_rank_insert_keeps(r, t);
    let out = rank_insert(r, t);
    let p = rank_place(r, t) as int;
    assert forall|i: int| 0 <= i < out.len() implies (#[trigger] out[i]).score.samples > 0 by {
        if i < p {
            assert(out[i] == r[i]);
        } else if i > p {
            assert(out[i] == r[i - 1]);
        }
    }
    assert forall|i: int, j: int| 0 <= i < j < out.len() implies !(#[trigger] out[j]).score.below(
        (#[trigger] out[i]).score,
    ) by {
        if j < p {
            assert(out[i] == r[i] && out[j] == r[j]);
        } else if j == p {
            assert(out[i] == r[i]);
        } else if i == p {
            assert(out[j] == r[j - 1]);
            lemma_below_total(t.score, r[p].score);
            if j - 1 > p {
                assert(!r[j - 1].score.below(r[p].score));
            }
            lemma_below_transitive(r[j - 1].score, t.score, r[p].score);
        } else if i < p {
            assert(out[i] == r[i] && out[j] == r[j - 1]);
        } else {
            assert(out[i] == r[i - 1] && out[j] == r[j - 1]);
        }
    }
}

/// The cache as a mathematical value: the candidates by their key, the ranking of their
/// snapshots, and the number of turns that a game has.
pub struct Ledger {
    pub entries: Map<Multiset<u32>, Candidate>,
    pub ranking: Seq<Candidate>,
    pub turn_max: nat,
}

impl Ledger {
    /// The cache that has seen nothing.
    pub open spec fn empty(turn_max: nat) -> Ledger {
        Ledger { entries: Map::empty(), ranking: Seq::empty(), turn_max }
    }

    /// The candidate under `key`; where the key is new, the fresh pair of `hand` and `deck`.
    pub open spec fn entry(self, key: Multiset<u32>, hand: Multiset<u32>, deck: Multiset<u32>)
        -> Candidate {
        if self.entries.contains_key(key) {
            self.entries[key]
        } else {
            Candidate::fresh(hand, deck)
        }
    }

    /// A batch of `count` games can be played on the candidate under `key` and folded
    /// in, and the candidate then has a game played, so that its snapshot can be ranked.
    pub open spec fn can_record(
        self,
        key: Multiset<u32>,
        hand: Multiset<u32>,
        deck: Multiset<u32>,
        count: nat,
        rng: u32,
    ) -> bool {
        &&& self.entry(key, hand, deck).score.samples + count > 0
        &&& self.entry(key, hand, deck).can_sample(self.turn_max, count, rng)
    }

    /// The cache after a batch of `count` games was played on the candidate under `key`:
    /// the candidate holds the longer statistic, and a snapshot of it went into the ranking.
    /// With it comes the generator state after the batch.
    pub open spec fn record(
        self,
        key: Multiset<u32>,
        hand: Multiset<u32>,
        deck: Multiset<u32>,
        count: nat,
        rng: u32,
    ) -> (Ledger, u32) {
        let before = self.entry(key, hand, deck);
        let after = before.sampled(self.turn_max, count, rng);
        (
            Ledger {
                entries: self.entries.insert(key, after),
                ranking: rank_insert(self.ranking, after),
                turn_max: self.turn_max,
            },
            batch(before.hand, before.deck, rng, self.turn_max, count).1,
        )
    }

    /// A candidate can be made from `parent` by changing cards of its deck, and a batch
    /// of `count` games recorded for it.
    pub open spec fn can_deck_trial(self, parent: Candidate, count: nat, rng: u32) -> bool {
        let made = random_change_spec(parent.deck, rng, CHANGE_COUNT as nat);
        parent.deck.len() >= CHANGE_COUNT && self.can_record(
            made.0,
            Multiset::empty(),
            made.0,
            count,
            made.1,
        )
    }

    /// The cache after a candidate was made from `parent` by changing cards of its deck:
    /// the new deck, with an empty hand, is recorded under the deck as its key.
    pub open spec fn deck_trial(self, parent: Candidate, count: nat, rng: u32) -> (Ledger, u32) {
        let made = random_change_spec(parent.deck, rng, CHANGE_COUNT as nat);
        self.record(made.0, Multiset::empty(), made.0, count, made.1)
    }

    /// A candidate can be made from `parent` by exchanging cards between its hand and its
    /// deck, and a batch of `count` games recorded for it.
    pub open spec fn can_hand_trial(self, parent: Candidate, count: nat, rng: u32) -> bool {
        let made = random_exchange_spec(parent.hand, parent.deck, rng, CHANGE_COUNT as nat);
        parent.hand.len() > 0 && parent.deck.len() < u32::MAX && self.can_record(
            made.0,
            made.0,
            made.1,
            count,
            made.2,
        )
    }

    /// The cache after a candidate was made from `parent` by exchanging cards between its
    /// hand and its deck: the new pair is recorded under the hand as its key.
    pub open spec fn hand_trial(self, parent: Candidate, count: nat, rng: u32) -> (Ledger, u32) {
        let made = random_exchange_spec(parent.hand, parent.deck, rng, CHANGE_COUNT as nat);
        self.record(made.0, made.0, made.1, count, made.2)
    }

    /// The first `n` candidates of the ranking, or all where there are fewer.
    pub open spec fn top_group(self, n: nat) -> Seq<Candidate> {
        if n <= self.ranking.len() {
            self.ranking.take(n as int)
        } else {
            self.ranking
        }
    }
}

impl Ledger {
    /// `s` is a snapshot of a candidate that stands under a key: of its hand and its deck,
    /// taken when its statistic was no longer than it is now.
    pub open spec fn holds(self, s: Candidate) -> bool {
        exists|k: Multiset<u32>|
            {
                &&& #[trigger] self.entries.contains_key(k)
                &&& self.entries[k].hand == s.hand
                &&& self.entries[k].deck == s.deck
                &&& s.score.samples <= self.entries[k].score.samples
                &&& s.score.loss <= self.entries[k].score.loss
            }
    }

    /// The ranking is in order, every snapshot in it is one of a candidate that stands
    /// under a key, and the keys are finitely many.
    pub open spec fn wf(self) -> bool {
        &&& ranked(self.ranking)
        &&& self.entries.dom().finite()
        &&& forall|i: int| 0 <= i < self.ranking.len() ==> self.holds(#[trigger] self.ranking[i])
    }
}

/// Recording a batch keeps a ledger in order, wherever the candidate has a game played
/// afterwards.
pub proof fn lemma_record_wf(
    l: Ledger,
    key: Multiset<u32>,
    hand: Multiset<u32>,
    deck: Multiset<u32>,
    count: nat,
    rng: u32,
)
    requires
        l.wf(),
        l.entry(key, hand, deck).score.samples + count > 0,
    ensures
        l.record(key, hand, deck, count, rng).0.wf(),
{
    let after = l.entry(key, hand, deck).sampled(l.turn_max, count, rng);
    let out = l.record(key, hand, deck, count, rng).0;
    lemma_rank_insert_ranked(l.ranking, after);
    lemma_rank_insert_members(l.ranking, after);
    assert forall|i: int| 0 <= i < out.ranking.len() implies out.holds(
        #[trigger] out.ranking[i],
    ) by {
        let s = out.ranking[i];
        if s == after {
            assert(out.entries.contains_key(key));
        } else {
            let j = choose|j: int| 0 <= j < l.ranking.len() && l.ranking[j] == s;
            assert(l.holds(l.ranking[j]));
            let k = choose|k: Multiset<u32>|
                {
                    &&& #[trigger] l.entries.contains_key(k)
                    &&& l.entries[k].hand == s.hand
                    &&& l.entries[k].deck == s.deck
                    &&& s.score.samples <= l.entries[k].score.samples
                    &&& s.score.loss <= l.entries[k].score.loss
                };
            assert(out.entries.contains_key(k));
        }
    }
}

/// Recording puts a snapshot of the candidate under the key into the ranking, at its
/// place; every snapshot that was there stays, and so does the number of turns.
pub proof fn lemma_record_ranking(
    l: Ledger,
    key: Multiset<u32>,
    hand: Multiset<u32>,
    deck: Multiset<u32>,
    count: nat,
    rng: u32,
)
    ensures
        ({
            let out = l.record(key, hand, deck, count, rng).0;
            let place = rank_place(l.ranking, out.entries[key]);
            &&& out.entries.contains_key(key)
            &&& place <= l.ranking.len()
            &&& out.ranking == l.ranking.insert(place as int, out.entries[key])
            &&& out.ranking.len() == l.ranking.len() + 1
            &&& out.ranking[place as int] == out.entries[key]
            &&& out.turn_max == l.turn_max
        }),
{
    lemma_rank_insert_keeps(
        l.ranking,
        l.entry(key, hand, deck).sampled(l.turn_max, count, rng),
    );
}

/// A key that is recorded a second time keeps its one candidate, on the hand and the deck
/// it was first recorded with, and the second batch lengthens the statistic of the first.
pub proof fn lemma_record_twice(
    l: Ledger,
    key: Multiset<u32>,
    hand: Multiset<u32>,
    deck: Multiset<u32>,
    first: nat,
    second: nat,
    rng1: u32,
    rng2: u32,
)
    ensures
        ({
            let before = l.entry(key, hand, deck);
            let once = l.record(key, hand, deck, first, rng1).0;
            let twice = once.record(key, hand, deck, second, rng2).0;
            &&& twice.entries.dom() == l.entries.dom().insert(key)
            &&& twice.entries.dom() == once.entries.dom()
            &&& twice.entries[key].hand == before.hand
            &&& twice.entries[key].deck == before.deck
            &&& twice.entries[key].score.samples == before.score.samples + first + second
            &&& twice.entries[key].score.loss == before.score.loss + batch(
                before.hand,
                before.deck,
                rng1,
                l.turn_max,
                first,
            ).0 + batch(before.hand, before.deck, rng2, l.turn_max, second).0
            &&& forall|k: Multiset<u32>|
                k != key && l.entries.contains_key(k) ==> twice.entries[k] == l.entries[k]
        }),
{
    let once = l.record(key, hand, deck, first, rng1).0;
    let twice = once.record(key, hand, deck, second, rng2).0;
    assert(twice.entries.dom() =~= l.entries.dom().insert(key));
    assert(twice.entries.dom() =~= once.entries.dom());
}

/// The hand and the deck have the given numbers of cards, with costs from 1 to `COST_MAX`.
pub open spec fn shaped(c: Candidate, hand_len: nat, deck_len: nat) -> bool {
    &&& costs_in_range(c.hand)
    &&& costs_in_range(c.deck)
    &&& c.hand.len() == hand_len
    &&& c.deck.len() == deck_len
}

/// A candidate of that shape with at most `samples` games played, each of which lost no
/// more than the budgets of `turn_max` turns.
pub open spec fn within(c: Candidate, hand_len: nat, deck_len: nat, samples: nat, turn_max: nat)
    -> bool {
    &&& shaped(c, hand_len, deck_len)
    &&& c.score.samples <= samples
    &&& c.score.loss <= c.score.samples * budget_total(turn_max)
}

/// There is room for one more batch of `count` games on candidates of that shape that
/// have at most `samples` games played: the deck lasts for a game, and the numbers fit.
pub open spec fn room(hand_len: nat, deck_len: nat, turn_max: nat, count: nat, samples: nat)
    -> bool {
    &&& count > 0
    &&& deck_len >= opening_draws(hand_len, true) + turn_max
    &&& samples + count <= u32::MAX
    &&& count * budget_total(turn_max) <= u32::MAX
}

impl Ledger {
    /// The ledger is in order, and all its candidates, under the keys and in the ranking,
    /// have the given shape and at most `samples` games played.
    pub open spec fn bounded(self, hand_len: nat, deck_len: nat, samples: nat) -> bool {
        &&& self.wf()
        &&& forall|k: Multiset<u32>| #[trigger]
            self.entries.contains_key(k) ==> within(
                self.entries[k],
                hand_len,
                deck_len,
                samples,
                self.turn_max,
            )
        &&& forall|i: int|
            0 <= i < self.ranking.len() ==> within(
                #[trigger] self.ranking[i],
                hand_len,
                deck_len,
                samples,
                self.turn_max,
            )
    }
}

/// What holds of candidates with at most `a` games holds with a larger bound too.
pub proof fn lemma_bounded_grows(l: Ledger, hand_len: nat, deck_len: nat, a: nat, b: nat)
    requires
        l.bounded(hand_len, deck_len, a),
        a <= b,
    ensures
        l.bounded(hand_len, deck_len, b),
{
}

/// Where there is room, a batch can be recorded for a pair of the ledger's shape, and
/// the ledger keeps its shape, with the batch added to the bound on the games.
pub proof fn lemma_record_bounded(
    l: Ledger,
    key: Multiset<u32>,
    hand: Multiset<u32>,
    deck: Multiset<u32>,
    count: nat,
    rng: u32,
    hand_len: nat,
    deck_len: nat,
    samples: nat,
)
    requires
        l.bounded(hand_len, deck_len, samples),
        shaped(Candidate::fresh(hand, deck), hand_len, deck_len),
        room(hand_len, deck_len, l.turn_max, count, samples),
    ensures
        l.can_record(key, hand, deck, count, rng),
        l.record(key, hand, deck, count, rng).0.bounded(hand_len, deck_len, samples + count),
        l.record(key, hand, deck, count, rng).0.turn_max == l.turn_max,
{
    lemma_record_wf(l, key, hand, deck, count, rng);
    let e = l.entry(key, hand, deck);
    let top = budget_total(l.turn_max);
    assert(within(e, hand_len, deck_len, samples, l.turn_max)) by {
        if !l.entries.contains_key(key) {
            assert(0 * top == 0);
        }
    }
    let lost = batch(e.hand, e.deck, rng, l.turn_max, count).0;
    lemma_batch_loss(e.hand, e.deck, rng, l.turn_max, count);
    let had = e.score.samples;
    assert((had + count) * top == had * top + count * top) by (nonlinear_arith);
    assert(top <= count * top) by (nonlinear_arith)
        requires
            count >= 1,
    ;
    assert((had + count) * top <= 0xffff_ffff * 0xffff_ffff) by (nonlinear_arith)
        requires
            had + count <= 0xffff_ffff,
            top <= 0xffff_ffff,
    ;
    let after = e.sampled(l.turn_max, count, rng);
    assert(within(after, hand_len, deck_len, samples + count, l.turn_max));
    let out = l.record(key, hand, deck, count, rng).0;
    lemma_rank_insert_ranked(l.ranking, after);
    lemma_rank_insert_members(l.ranking, after);
    assert forall|i: int| 0 <= i < out.ranking.len() implies within(
        #[trigger] out.ranking[i],
        hand_len,
        deck_len,
        samples + count,
        out.turn_max,
    ) by {
        if out.ranking[i] != after {
            let k = choose|k: int| 0 <= k < l.ranking.len() && l.ranking[k] == out.ranking[i];
            assert(within(l.ranking[k], hand_len, deck_len, samples, l.turn_max));
        }
    }
    assert forall|k: Multiset<u32>| #[trigger] out.entries.contains_key(k) implies within(
        out.entries[k],
        hand_len,
        deck_len,
        samples + count,
        out.turn_max,
    ) by {
        if k != key {
            assert(l.entries.contains_key(k));
        }
    }
}

/// Where there is room, a deck candidate can be made from a parent of the ledger's shape
/// and recorded, and the ledger keeps its shape.
pub proof fn lemma_deck_trial_bounded(
    l: Ledger,
    parent: Candidate,
    count: nat,
    rng: u32,
    deck_len: nat,
    samples: nat,
)
    requires
        l.bounded(0, deck_len, samples),
        shaped(parent, 0, deck_len),
        room(0, deck_len, l.turn_max, count, samples),
        deck_len >= CHANGE_COUNT,
    ensures
        l.can_deck_trial(parent, count, rng),
        l.deck_trial(parent, count, rng).0.bounded(0, deck_len, samples + count),
        l.deck_trial(parent, count, rng).0.turn_max == l.turn_max,
{
    let made = random_change_spec(parent.deck, rng, CHANGE_COUNT as nat);
    lemma_random_change(parent.deck, rng, CHANGE_COUNT as nat);
    lemma_record_bounded(
        l,
        made.0,
        Multiset::empty(),
        made.0,
        count,
        made.1,
        0,
        deck_len,
        samples,
    );
}

/// Where there is room, a hand candidate can be made from a parent of the ledger's shape
/// and recorded, and the ledger keeps its shape.
pub proof fn lemma_hand_trial_bounded(
    l: Ledger,
    parent: Candidate,
    count: nat,
    rng: u32,
    hand_len: nat,
    deck_len: nat,
    samples: nat,
)
    requires
        l.bounded(hand_len, deck_len, samples),
        shaped(parent, hand_len, deck_len),
        room(hand_len, deck_len, l.turn_max, count, samples),
        hand_len > 0,
        deck_len < u32::MAX,
    ensures
        l.can_hand_trial(parent, count, rng),
        l.hand_trial(parent, count, rng).0.bounded(hand_len, deck_len, samples + count),
        l.hand_trial(parent, count, rng).0.turn_max == l.turn_max,
{
    let made = random_exchange_spec(parent.hand, parent.deck, rng, CHANGE_COUNT as nat);
    lemma_random_exchange(parent.hand, parent.deck, rng, CHANGE_COUNT as nat);
    lemma_record_bounded(l, made.0, made.0, made.1, count, made.2, hand_len, deck_len, samples);
}

/// One candidate of the cache with the key it is found by.
struct Entry {
    key: Rc<Cards>,
    trial: Trial,
}

/// The candidates that the entries stand for, each under its key.
spec fn map_of(s: Seq<Entry>) -> Map<Multiset<u32>, Candidate>
    decreases s.len(),
{
    if s.len() == 0 {
        Map::empty()
    } else {
        map_of(s.drop_last()).insert(s.last().key@, s.last().trial@)
    }
}

/// No two entries have the same key.
spec fn distinct(s: Seq<Entry>) -> bool {
    forall|i: int, j: int| 0 <= i < j < s.len() ==> (#[trigger] s[i]).key@ != (#[trigger] s[j]).key@
}

/// The candidates that the snapshots stand for.
pub open spec fn views(v: Seq<Rc<Trial>>) -> Seq<Candidate> {
    v.map_values(|t: Rc<Trial>| t@)
}

/// The keys of the map are the keys of the entries; where no two entries have the same
/// key, each stands for its own candidate, and there are as many keys as entries.
proof fn lemma_map_of(s: Seq<Entry>)
    ensures
        forall|k: Multiset<u32>|
            map_of(s).contains_key(k) <==> exists|i: int|
                0 <= i < s.len() && (#[trigger] s[i]).key@ == k,
        distinct(s) ==> forall|i: int|
            0 <= i < s.len() ==> map_of(s)[(#[trigger] s[i]).key@] == s[i].trial@,
        map_of(s).dom().finite(),
        distinct(s) ==> map_of(s).dom().len() == s.len(),
    decreases s.len(),
{
    if s.len() > 0 {
        let init = s.drop_last();
        lemma_map_of(init);
        assert forall|k: Multiset<u32>| map_of(s).contains_key(k) implies exists|i: int|
            0 <= i < s.len() && (#[trigger] s[i]).key@ == k by {
            if k == s.last().key@ {
                assert(s[s.len() - 1].key@ == k);
            } else {
                let i = choose|i: int| 0 <= i < init.len() && (#[trigger] init[i]).key@ == k;
                assert(s[i].key@ == k);
            }
        }
        assert forall|k: Multiset<u32>|
            (exists|i: int| 0 <= i < s.len() && (#[trigger] s[i]).key@ == k) implies map_of(
            s,
        ).contains_key(k) by {
            let i = choose|i: int| 0 <= i < s.len() && (#[trigger] s[i]).key@ == k;
            if i < s.len() - 1 {
                assert(init[i].key@ == k);
            }
        }
        if distinct(s) {
            assert(distinct(init)) by {
                assert forall|i: int, j: int| 0 <= i < j < init.len() implies (
                #[trigger] init[i]).key@ != (#[trigger] init[j]).key@ by {
                    assert(init[i] == s[i] && init[j] == s[j]);
                }
            }
            assert forall|i: int| 0 <= i < s.len() implies map_of(s)[(#[trigger] s[i]).key@]
                == s[i].trial@ by {
                if i < s.len() - 1 {
                    assert(init[i] == s[i]);
                    assert(s[i].key@ != s[s.len() - 1].key@);
                }
            }
            assert(!map_of(init).contains_key(s.last().key@)) by {
                if map_of(init).contains_key(s.last().key@) {
                    let i = choose|i: int|
                        0 <= i < init.len() && (#[trigger] init[i]).key@ == s.last().key@;
                    assert(s[i].key@ == s[s.len() - 1].key@);
                }
            }
        }
    }
}

/// A new statistic under a key that an entry has already takes that entry's place.
proof fn lemma_map_of_update(s: Seq<Entry>, i: int, e: Entry)
    requires
        distinct(s),
        0 <= i < s.len(),
        e.key@ == s[i].key@,
    ensures
        distinct(s.update(i, e)),
        map_of(s.update(i, e)) == map_of(s).insert(e.key@, e.trial@),
    decreases s.len(),
{
    let u = s.update(i, e);
    assert(distinct(u)) by {
        assert forall|a: int, b: int| 0 <= a < b < u.len() implies (#[trigger] u[a]).key@ != (
        #[trigger] u[b]).key@ by {
            assert(s[a].key@ != s[b].key@);
        }
    }
    let init = s.drop_last();
    if i == s.len() - 1 {
        assert(u.drop_last() =~= init);
        assert(map_of(u) =~= map_of(s).insert(e.key@, e.trial@));
    } else {
        assert(distinct(init)) by {
            assert forall|a: int, b: int| 0 <= a < b < init.len() implies (#[trigger] init[a]).key@
                != (#[trigger] init[b]).key@ by {
                assert(init[a] == s[a] && init[b] == s[b]);
            }
        }
        assert(init[i] == s[i]);
        lemma_map_of_update(init, i, e);
        assert(u.drop_last() =~= init.update(i, e));
        assert(s[i].key@ != s[s.len() - 1].key@);
        assert(map_of(u) =~= map_of(s).insert(e.key@, e.trial@));
    }
}

/// Puts a snapshot into the ranking at its place: behind every snapshot of a smaller or
/// the same mean loss.
fn rank(top: &mut Vec<Rc<Trial>>, t: Rc<Trial>)
    requires
        ranked(views(old(top)@)),
        t@.score.samples > 0,
    ensures
        views(final(top)@) == rank_insert(views(old(top)@), t@),
{
    let ghost before = views(top@);
    let mut i: usize = 0;
    proof {
        assert forall|j: int| 0 <= j < top@.len() implies (#[trigger] top@[j])@.score.samples
            > 0 by {
            assert(before[j] == top@[j]@);
        }
    }
    while i < top.len() && !t.better_than(&top[i])
        invariant
            top == old(top),
            before == views(top@),
            t@.score.samples > 0,
            i <= top@.len(),
            forall|j: int| 0 <= j < top@.len() ==> (#[trigger] top@[j])@.score.samples > 0,
            forall|j: int| 0 <= j < i ==> !t@.score.below((#[trigger] before[j]).score),
        decreases top@.len() - i,
    {
        assert(before[i as int] == top@[i as int]@);
        i = i + 1;
    }
    proof {
        if i < top@.len() {
            assert(before[i as int] == top@[i as int]@);
        }
        lemma_rank_place(before, t@, i as int);
        assert(views(top@.insert(i as int, t)) =~= before.insert(i as int, t@));
    }
    top.insert(i, t);
}

/// The candidates seen so far, each found again by its key and holding all the games
/// played on it, and the ranking of the snapshots taken after each batch. Its view is the
/// `Ledger` it stands for.
pub struct TrialCache {
    cache: Vec<Entry>,
    top_grp: Vec<Rc<Trial>>,
    turn_max: u32,
    empty_hand: Rc<Cards>,
}

impl View for TrialCache {
    type V = Ledger;

    closed spec fn view(&self) -> Ledger {
        Ledger {
            entries: map_of(self.cache@),
            ranking: views(self.top_grp@),
            turn_max: self.turn_max as nat,
        }
    }
}

impl TrialCache {
    /// The cache is in order: no key stands twice, and the ledger it stands for is in
    /// order.
    pub closed spec fn wf(&self) -> bool {
        &&& distinct(self.cache@)
        &&& self.empty_hand@ == Multiset::<u32>::empty()
        &&& self@.wf()
    }

    /// A cache in order stands for a ledger in order.
    pub proof fn lemma_wf(&self)
        requires
            self.wf(),
        ensures
            self@.wf(),
    {
    }

    /// A cache that has seen nothing, for games of `turn_max` turns.
    pub fn new(turn_max: u32) -> (c: TrialCache)
        ensures
            c@ == Ledger::empty(turn_max as nat),
            c.wf(),
    {
        let c = TrialCache {
            cache: Vec::new(),
            top_grp: Vec::new(),
            turn_max: turn_max,
            empty_hand: Rc::new(Cards::new()),
        };
        proof {
            assert(views(c.top_grp@) =~= Seq::<Candidate>::empty());
        }
        c
    }

    /// The place of the entry with the given key, if there is one.
    fn find(&self, key: &Cards) -> (found: Option<usize>)
        ensures
            match found {
                Some(i) => i < self.cache@.len() && self.cache@[i as int].key@ == key@,
                None => forall|i: int|
                    0 <= i < self.cache@.len() ==> (#[trigger] self.cache@[i]).key@ != key@,
            },
    {
        let mut i: usize = 0;
        while i < self.cache.len()
            invariant
                i <= self.cache@.len(),
                forall|j: int| 0 <= j < i ==> (#[trigger] self.cache@[j]).key@ != key@,
            decreases self.cache@.len() - i,
        {
            if self.cache[i].key.same_as(key) {
                return Some(i);
            }
            i = i + 1;
        }
        None
    }

    /// Plays `trial_count` games on the candidate under `key`, which is made of `hd` and
    /// `dk` where the key is new, and ranks a snapshot of what the candidate then holds.
    pub fn trial(
        &mut self,
        key: &Rc<Cards>,
        hd: &Rc<Cards>,
        dk: &Rc<Cards>,
        trial_count: u32,
        rng: &mut XorRand,
    )
        requires
            old(self).wf(),
            old(self)@.can_record(key@, hd@, dk@, trial_count as nat, old(rng)@),
        ensures
            final(self).wf(),
            (final(self)@, final(rng)@) == old(self)@.record(
                key@,
                hd@,
                dk@,
                trial_count as nat,
                old(rng)@,
            ),
            final(self)@.entries.contains_key(key@),
            rank_place(old(self)@.ranking, final(self)@.entries[key@]) <= old(self)@.ranking.len(),
            final(self)@.ranking == old(self)@.ranking.insert(
                rank_place(old(self)@.ranking, final(self)@.entries[key@]) as int,
                final(self)@.entries[key@],
            ),
            final(self)@.ranking.len() == old(self)@.ranking.len() + 1,
            final(self)@.ranking[rank_place(
                old(self)@.ranking,
                final(self)@.entries[key@],
            ) as int] == final(self)@.entries[key@],
    {
        proof {
            lemma_record_ranking(old(self)@, key@, hd@, dk@, trial_count as nat, old(rng)@);
            lemma_map_of(self.cache@);
            lemma_record_wf(old(self)@, key@, hd@, dk@, trial_count as nat, old(rng)@);
        }
        let found = self.find(key);
        let mut t: Trial = match found {
            Some(i) => self.cache[i].trial.clone(),
            None => Trial::new(share(hd), share(dk)),
        };
        t.trial(self.turn_max, trial_count, rng);
        let snapshot = Rc::new(t.clone());
        let entry = Entry { key: share(key), trial: t };
        match found {
            Some(i) => {
                proof {
                    lemma_map_of_update(self.cache@, i as int, entry);
                }
                self.cache[i] = entry;
            },
            None => {
                proof {
                    let s = self.cache@.push(entry);
                    assert(s.drop_last() =~= self.cache@);
                    assert(distinct(s));
                }
                self.cache.push(entry);
            },
        }
        rank(&mut self.top_grp, snapshot);
    }
    /// Makes a candidate from `trial` by changing `CHANGE_COUNT` cards of its deck, pairs
    /// the new deck with an empty hand, and records `trial_count` games for it under the
    /// deck as its key.
    pub fn deck_trial(&mut self, trial: &Rc<Trial>, trial_count: u32, rng: &mut XorRand)
        requires
            old(self).wf(),
            old(self)@.can_deck_trial(trial@, trial_count as nat, old(rng)@),
        ensures
            final(self).wf(),
            (final(self)@, final(rng)@) == old(self)@.deck_trial(
                trial@,
                trial_count as nat,
                old(rng)@,
            ),
            final(self)@.ranking.len() == old(self)@.ranking.len() + 1,
    {
        let hd = share(&self.empty_hand);
        let dk = Rc::new(trial.deck().random_change(CHANGE_COUNT, rng));
        self.trial(&dk, &hd, &dk, trial_count, rng);
    }

    /// Makes a candidate from `trial` by exchanging `CHANGE_COUNT` cards between its hand
    /// and its deck, and records `trial_count` games for it under the hand as its key.
    pub fn hand_trial(&mut self, trial: &Rc<Trial>, trial_count: u32, rng: &mut XorRand)
        requires
            old(self).wf(),
            old(self)@.can_hand_trial(trial@, trial_count as nat, old(rng)@),
        ensures
            final(self).wf(),
            (final(self)@, final(rng)@) == old(self)@.hand_trial(
                trial@,
                trial_count as nat,
                old(rng)@,
            ),
            final(self)@.ranking.len() == old(self)@.ranking.len() + 1,
    {
        let mut h: Cards = (*trial.hand()).clone();
        let mut d: Cards = (*trial.deck()).clone();
        h.random_exchange(&mut d, CHANGE_COUNT, rng);
        let hd = Rc::new(h);
        let dk = Rc::new(d);
        self.trial(&hd, &hd, &dk, trial_count, rng);
    }

    /// Up to `n` snapshots with the smallest mean loss, the smallest first.
    pub fn top_group(&self, n: usize) -> (group: Vec<Rc<Trial>>)
        ensures
            views(group@) == self@.top_group(n as nat),
    {
        let len: usize = if n < self.top_grp.len() {
            n
        } else {
            self.top_grp.len()
        };
        let mut group: Vec<Rc<Trial>> = Vec::new();
        let mut i: usize = 0;
        while i < len
            invariant
                i <= len <= self.top_grp@.len(),
                group@ == self.top_grp@.take(i as int),
            decreases len - i,
        {
            group.push(share(&self.top_grp[i]));
            assert(self.top_grp@.take(i as int).push(self.top_grp@[i as int])
                =~= self.top_grp@.take(i + 1));
            i = i + 1;
        }
        proof {
            assert(views(self.top_grp@.take(len as int)) =~= views(self.top_grp@).take(len as int));
            assert(self.top_grp@.take(self.top_grp@.len() as int) =~= self.top_grp@);
        }
        group
    }

    /// The number of candidates seen so far.
    pub fn len(&self) -> (n: usize)
        requires
            self.wf(),
        ensures
            n == self@.entries.dom().len(),
    {
        proof {
            lemma_map_of(self.cache@);
        }
        self.cache.len()
    }

    /// The candidate under `key` with all the games played on it, if the key was seen.
    pub fn get(&self, key: &Cards) -> (found: Option<Trial>)
        requires
            self.wf(),
        ensures
            match found {
                Some(t) => self@.entries.contains_key(key@) && t@ == self@.entries[key@],
                None => !self@.entries.contains_key(key@),
            },
    {
        proof {
            lemma_map_of(self.cache@);
        }
        match self.find(key) {
            Some(i) => Some(self.cache[i].trial.clone()),
            None => None,
        }
    }

    /// The number of turns of the games played here.
    pub fn turn_max(&self) -> (n: u32)
        ensures
            n == self@.turn_max,
    {
        self.turn_max
    }
}

} // verus!

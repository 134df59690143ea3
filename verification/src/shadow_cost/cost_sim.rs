//! The search: hill climbing over decks, then over opening hands of the winning deck.
use vstd::prelude::*;
use vstd::multiset::Multiset;
use std::rc::Rc;
use crate::shadow_cost::cards::Cards;
use crate::shadow_cost::cards::costs_in_range;
use crate::shadow_cost::cards::lemma_random_add;
use crate::shadow_cost::cards::lemma_split;
use crate::shadow_cost::cards::random_add_spec;
use crate::shadow_cost::cards::random_change_spec;
use crate::shadow_cost::cards::random_exchange_spec;
use crate::shadow_cost::cards::split_spec;
use crate::shadow_cost::player::INITIAL_HAND_COUNT;
use crate::shadow_cost::player::budget_sum;
use crate::shadow_cost::player::budget_total;
use crate::shadow_cost::player::lemma_budget_total_bound;
use crate::shadow_cost::player::opening_draws;
use crate::shadow_cost::trial::Candidate;
use crate::shadow_cost::trial::Trial;
use crate::shadow_cost::trial::share;
use crate::shadow_cost::trial_cache::CHANGE_COUNT;
use crate::shadow_cost::trial_cache::Ledger;
use crate::shadow_cost::trial_cache::lemma_bounded_grows;
use crate::shadow_cost::trial_cache::lemma_deck_trial_bounded;
use crate::shadow_cost::trial_cache::lemma_hand_trial_bounded;
use crate::shadow_cost::trial_cache::lemma_record_bounded;
use crate::shadow_cost::trial_cache::lemma_record_ranking;
use crate::shadow_cost::trial_cache::room;
use crate::shadow_cost::trial_cache::shaped;
use crate::shadow_cost::trial_cache::TrialCache;
use crate::shadow_cost::trial_cache::views;
use crate::shadow_cost::xor_rand::XorRand;

verus! {

/// The number of best candidates that a generation makes new candidates from.
pub const TOP_GROUP_SIZE: usize = 8;

/// What a search varies: the deck, or the split of a deck into hand and deck.
#[derive(Debug, Clone, Copy)]
pub enum Phase {
    Deck,
    Hand,
}

/// A candidate can be made from `parent` as the phase asks, and recorded.
pub open spec fn can_step(l: Ledger, phase: Phase, parent: Candidate, count: nat, rng: u32)
    -> bool {
    match phase {
        Phase::Deck => l.can_deck_trial(parent, count, rng),
        Phase::Hand => l.can_hand_trial(parent, count, rng),
    }
}

/// The cache and the generator after a candidate was made from `parent` and recorded.
pub open spec fn step(l: Ledger, phase: Phase, parent: Candidate, count: nat, rng: u32) -> (
    Ledger,
    u32,
) {
    match phase {
        Phase::Deck => l.deck_trial(parent, count, rng),
        Phase::Hand => l.hand_trial(parent, count, rng),
    }
}

/// The cache and the generator after one candidate was made from each of the first `j`
/// parents, in their order.
pub open spec fn round(
    l: Ledger,
    phase: Phase,
    parents: Seq<Candidate>,
    j: nat,
    count: nat,
    rng: u32,
) -> (Ledger, u32)
    decreases j,
{
    if j == 0 {
        (l, rng)
    } else {
        let before = round(l, phase, parents, (j - 1) as nat, count, rng);
        step(before.0, phase, parents[j - 1], count, before.1)
    }
}

/// Each of those `j` steps can be made.
pub open spec fn can_round(
    l: Ledger,
    phase: Phase,
    parents: Seq<Candidate>,
    j: nat,
    count: nat,
    rng: u32,
) -> bool
    decreases j,
{
    j == 0 || {
        let before = round(l, phase, parents, (j - 1) as nat, count, rng);
        can_round(l, phase, parents, (j - 1) as nat, count, rng) && can_step(
            before.0,
            phase,
            parents[j - 1],
            count,
            before.1,
        )
    }
}

/// The cache and the generator after `g` generations: each takes the top group as it
/// stands at its start and makes one candidate from each of its members.
pub open spec fn rounds(l: Ledger, phase: Phase, g: nat, count: nat, rng: u32) -> (Ledger, u32)
    decreases g,
{
    if g == 0 {
        (l, rng)
    } else {
        let before = rounds(l, phase, (g - 1) as nat, count, rng);
        let parents = before.0.top_group(TOP_GROUP_SIZE as nat);
        round(before.0, phase, parents, parents.len(), count, before.1)
    }
}

/// Each step of those `g` generations can be made.
pub open spec fn can_rounds(l: Ledger, phase: Phase, g: nat, count: nat, rng: u32) -> bool
    decreases g,
{
    g == 0 || {
        let before = rounds(l, phase, (g - 1) as nat, count, rng);
        let parents = before.0.top_group(TOP_GROUP_SIZE as nat);
        can_rounds(l, phase, (g - 1) as nat, count, rng) && can_round(
            before.0,
            phase,
            parents,
            parents.len(),
            count,
            before.1,
        )
    }
}

/// Where `b` steps of a round can be made, the first `a` of them can.
pub proof fn lemma_can_round_prefix(
    l: Ledger,
    phase: Phase,
    parents: Seq<Candidate>,
    a: nat,
    b: nat,
    count: nat,
    rng: u32,
)
    requires
        a <= b,
        can_round(l, phase, parents, b, count, rng),
    ensures
        can_round(l, phase, parents, a, count, rng),
    decreases b,
{
    if a < b {
        lemma_can_round_prefix(l, phase, parents, a, (b - 1) as nat, count, rng);
    }
}

/// Where `b` generations can be made, the first `a` of them can.
pub proof fn lemma_can_rounds_prefix(l: Ledger, phase: Phase, a: nat, b: nat, count: nat, rng: u32)
    requires
        a <= b,
        can_rounds(l, phase, b, count, rng),
    ensures
        can_rounds(l, phase, a, count, rng),
    decreases b,
{
    if a < b {
        lemma_can_rounds_prefix(l, phase, a, (b - 1) as nat, count, rng);
    }
}

/// A step puts one snapshot more into the ranking and leaves the number of turns.
pub proof fn lemma_step_ranking(l: Ledger, phase: Phase, parent: Candidate, count: nat, rng: u32)
    ensures
        step(l, phase, parent, count, rng).0.ranking.len() == l.ranking.len() + 1,
        step(l, phase, parent, count, rng).0.turn_max == l.turn_max,
{
    match phase {
        Phase::Deck => {
            let made = random_change_spec(parent.deck, rng, CHANGE_COUNT as nat);
            lemma_record_ranking(l, made.0, Multiset::empty(), made.0, count, made.1);
        },
        Phase::Hand => {
            let made = random_exchange_spec(parent.hand, parent.deck, rng, CHANGE_COUNT as nat);
            lemma_record_ranking(l, made.0, made.0, made.1, count, made.2);
        },
    }
}

/// The first `j` steps of a round put `j` snapshots more into the ranking and leave the
/// number of turns.
pub proof fn lemma_round_ranking(
    l: Ledger,
    phase: Phase,
    parents: Seq<Candidate>,
    j: nat,
    count: nat,
    rng: u32,
)
    ensures
        round(l, phase, parents, j, count, rng).0.ranking.len() == l.ranking.len() + j,
        round(l, phase, parents, j, count, rng).0.turn_max == l.turn_max,
    decreases j,
{
    if j > 0 {
        lemma_round_ranking(l, phase, parents, (j - 1) as nat, count, rng);
        let before = round(l, phase, parents, (j - 1) as nat, count, rng);
        lemma_step_ranking(before.0, phase, parents[j - 1], count, before.1);
    }
}

/// Generations leave no fewer snapshots in the ranking, and the number of turns.
pub proof fn lemma_rounds_ranking(l: Ledger, phase: Phase, g: nat, count: nat, rng: u32)
    ensures
        rounds(l, phase, g, count, rng).0.ranking.len() >= l.ranking.len(),
        rounds(l, phase, g, count, rng).0.turn_max == l.turn_max,
    decreases g,
{
    if g > 0 {
        lemma_rounds_ranking(l, phase, (g - 1) as nat, count, rng);
        let before = rounds(l, phase, (g - 1) as nat, count, rng);
        let parents = before.0.top_group(TOP_GROUP_SIZE as nat);
        lemma_round_ranking(before.0, phase, parents, parents.len(), count, before.1);
    }
}

/// A search as a mathematical value: the number of cards of a deck and the number of
/// turns of a game.
pub struct Plan {
    pub deck_size: nat,
    pub turn_max: nat,
}

impl Plan {
    /// Limits under which both searches can be made, one after the other: a batch holds a
    /// game, a deck gives a hand and lasts for a game, and the games of one candidate and
    /// the summed budgets of one batch fit 32 bits.
    pub open spec fn searchable(self, loop_count: nat, count: nat) -> bool {
        self.searchable_on(self.deck_size, loop_count, count)
    }

    /// The same limits for a search on a deck of `deck_len` cards.
    pub open spec fn searchable_on(self, deck_len: nat, loop_count: nat, count: nat) -> bool {
        &&& count > 0
        &&& deck_len >= INITIAL_HAND_COUNT + self.turn_max
        &&& batches(loop_count) * count <= u32::MAX
        &&& count * budget_total(self.turn_max) <= u32::MAX
    }

    /// The deck search before its first generation: a deck of made-up cards, with an
    /// empty hand, recorded under the deck as its key.
    pub open spec fn deck_seed(self, count: nat, rng: u32) -> (Ledger, u32) {
        let seed = random_add_spec(Multiset::empty(), rng, self.deck_size);
        Ledger::empty(self.turn_max).record(seed.0, Multiset::empty(), seed.0, count, seed.1)
    }

    /// The cache and the generator at the end of the deck search.
    pub open spec fn deck_search(self, loop_count: nat, count: nat, rng: u32) -> (Ledger, u32) {
        let first = self.deck_seed(count, rng);
        rounds(first.0, Phase::Deck, loop_count, count, first.1)
    }

    /// Every batch of the deck search can be played and folded in.
    pub open spec fn can_search_deck(self, loop_count: nat, count: nat, rng: u32) -> bool {
        let seed = random_add_spec(Multiset::empty(), rng, self.deck_size);
        let first = self.deck_seed(count, rng);
        &&& Ledger::empty(self.turn_max).can_record(
            seed.0,
            Multiset::empty(),
            seed.0,
            count,
            seed.1,
        )
        &&& can_rounds(first.0, Phase::Deck, loop_count, count, first.1)
    }

    /// The hand search before its first generation: `INITIAL_HAND_COUNT` cards drawn
    /// from `deck` as the hand, the others as the deck, recorded under the hand as key.
    pub open spec fn hand_seed(self, deck: Multiset<u32>, count: nat, rng: u32) -> (Ledger, u32) {
        let parts = split_spec(deck, rng, INITIAL_HAND_COUNT as nat);
        Ledger::empty(self.turn_max).record(parts.1, parts.1, parts.0, count, parts.2)
    }

    /// The cache and the generator at the end of the hand search.
    pub open spec fn hand_search(self, deck: Multiset<u32>, loop_count: nat, count: nat, rng: u32)
        -> (Ledger, u32) {
        let first = self.hand_seed(deck, count, rng);
        rounds(first.0, Phase::Hand, loop_count, count, first.1)
    }

    /// The deck holds a hand, and every batch of the hand search can be played and
    /// folded in.
    pub open spec fn can_search_hand(
        self,
        deck: Multiset<u32>,
        loop_count: nat,
        count: nat,
        rng: u32,
    ) -> bool {
        let parts = split_spec(deck, rng, INITIAL_HAND_COUNT as nat);
        let first = self.hand_seed(deck, count, rng);
        &&& deck.len() >= INITIAL_HAND_COUNT
        &&& Ledger::empty(self.turn_max).can_record(parts.1, parts.1, parts.0, count, parts.2)
        &&& can_rounds(first.0, Phase::Hand, loop_count, count, first.1)
    }
}

/// The largest number of batches that a search of `loop_count` generations records for
/// one candidate: one before the generations, and `TOP_GROUP_SIZE` in each of them.
pub open spec fn batches(loop_count: nat) -> nat {
    1 + (TOP_GROUP_SIZE as nat) * loop_count
}

/// The phase can make candidates from parents of this shape.
pub open spec fn fits(phase: Phase, hand_len: nat, deck_len: nat) -> bool {
    match phase {
        Phase::Deck => hand_len == 0 && deck_len >= CHANGE_COUNT,
        Phase::Hand => hand_len > 0 && deck_len < u32::MAX,
    }
}

/// Where there is room, a step can be made from a parent of the ledger's shape, and the
/// ledger keeps its shape, with the batch added to the bound on the games.
pub proof fn lemma_step_bounded(
    l: Ledger,
    phase: Phase,
    parent: Candidate,
    count: nat,
    rng: u32,
    hand_len: nat,
    deck_len: nat,
    samples: nat,
)
    requires
        l.bounded(hand_len, deck_len, samples),
        shaped(parent, hand_len, deck_len),
        room(hand_len, deck_len, l.turn_max, count, samples),
        fits(phase, hand_len, deck_len),
    ensures
        can_step(l, phase, parent, count, rng),
        step(l, phase, parent, count, rng).0.bounded(hand_len, deck_len, samples + count),
        step(l, phase, parent, count, rng).0.turn_max == l.turn_max,
{
    match phase {
        Phase::Deck => {
            lemma_deck_trial_bounded(l, parent, count, rng, deck_len, samples);
        },
        Phase::Hand => {
            lemma_hand_trial_bounded(l, parent, count, rng, hand_len, deck_len, samples);
        },
    }
}

/// Where there is room for `j` batches, the first `j` steps of a round can be made from
/// parents of the ledger's shape, and the ledger keeps its shape.
pub proof fn lemma_round_bounded(
    l: Ledger,
    phase: Phase,
    parents: Seq<Candidate>,
    j: nat,
    count: nat,
    rng: u32,
    hand_len: nat,
    deck_len: nat,
    samples: nat,
)
    requires
        l.bounded(hand_len, deck_len, samples),
        j <= parents.len(),
        forall|i: int| 0 <= i < parents.len() ==> shaped(#[trigger] parents[i], hand_len, deck_len),
        fits(phase, hand_len, deck_len),
        count > 0,
        deck_len >= opening_draws(hand_len, true) + l.turn_max,
        samples + j * count <= u32::MAX,
        count * budget_total(l.turn_max) <= u32::MAX,
    ensures
        can_round(l, phase, parents, j, count, rng),
        round(l, phase, parents, j, count, rng).0.bounded(hand_len, deck_len, samples + j * count),
        round(l, phase, parents, j, count, rng).0.turn_max == l.turn_max,
    decreases j,
{
    if j > 0 {
        assert((j - 1) * count + count == j * count) by (nonlinear_arith);
        assert((j - 1) * count >= 0) by (nonlinear_arith)
            requires
                j >= 1,
                count >= 0,
        ;
        lemma_round_bounded(
            l,
            phase,
            parents,
            (j - 1) as nat,
            count,
            rng,
            hand_len,
            deck_len,
            samples,
        );
        let before = round(l, phase, parents, (j - 1) as nat, count, rng);
        lemma_step_bounded(
            before.0,
            phase,
            parents[j - 1],
            count,
            before.1,
            hand_len,
            deck_len,
            (samples + (j - 1) * count) as nat,
        );
    }
}

/// Where there is room for `TOP_GROUP_SIZE` batches in each of `g` generations, they can
/// all be made, and the ledger keeps its shape.
pub proof fn lemma_rounds_bounded(
    l: Ledger,
    phase: Phase,
    g: nat,
    count: nat,
    rng: u32,
    hand_len: nat,
    deck_len: nat,
    samples: nat,
)
    requires
        l.bounded(hand_len, deck_len, samples),
        g > 0 ==> fits(phase, hand_len, deck_len),
        count > 0,
        deck_len >= opening_draws(hand_len, true) + l.turn_max,
        samples + g * (TOP_GROUP_SIZE as nat) * count <= u32::MAX,
        count * budget_total(l.turn_max) <= u32::MAX,
    ensures
        can_rounds(l, phase, g, count, rng),
        rounds(l, phase, g, count, rng).0.bounded(
            hand_len,
            deck_len,
            samples + g * (TOP_GROUP_SIZE as nat) * count,
        ),
        rounds(l, phase, g, count, rng).0.turn_max == l.turn_max,
    decreases g,
{
    if g > 0 {
        let group = TOP_GROUP_SIZE as nat;
        assert((g - 1) * group * count + group * count == g * group * count)
            by (nonlinear_arith);
        assert((g - 1) * group * count >= 0) by (nonlinear_arith)
            requires
                g >= 1,
                count >= 0,
        ;
        lemma_rounds_bounded(l, phase, (g - 1) as nat, count, rng, hand_len, deck_len, samples);
        let before = rounds(l, phase, (g - 1) as nat, count, rng);
        let had: nat = (samples + (g - 1) * (TOP_GROUP_SIZE as nat) * count) as nat;
        let parents = before.0.top_group(TOP_GROUP_SIZE as nat);
        assert forall|i: int| 0 <= i < parents.len() implies shaped(
            #[trigger] parents[i],
            hand_len,
            deck_len,
        ) by {
            assert(parents[i] == before.0.ranking[i]);
        }
        assert(parents.len() * count <= (TOP_GROUP_SIZE as nat) * count) by (nonlinear_arith)
            requires
                parents.len() <= (TOP_GROUP_SIZE as nat),
                count >= 0,
        ;
        lemma_round_bounded(
            before.0,
            phase,
            parents,
            parents.len(),
            count,
            before.1,
            hand_len,
            deck_len,
            had,
        );
        lemma_bounded_grows(
            round(before.0, phase, parents, parents.len(), count, before.1).0,
            hand_len,
            deck_len,
            had + parents.len() * count,
            samples + g * (TOP_GROUP_SIZE as nat) * count,
        );
    }
}

/// A deck search can be made wherever a deck lasts for a game and the numbers fit:
/// the games of one candidate summed, at most one batch before the generations and
/// `TOP_GROUP_SIZE` in each of them, and the summed budgets of a batch. All its
/// candidates then have an empty hand and a deck of `deck_size` cards, and a winner
/// stands at the head of the ranking.
pub proof fn lemma_search_deck(plan: Plan, loop_count: nat, count: nat, rng: u32)
    requires
        count > 0,
        plan.deck_size >= INITIAL_HAND_COUNT + plan.turn_max,
        batches(loop_count) * count <= u32::MAX,
        count * budget_total(plan.turn_max) <= u32::MAX,
    ensures
        plan.can_search_deck(loop_count, count, rng),
        plan.deck_search(loop_count, count, rng).0.bounded(
            0,
            plan.deck_size,
            batches(loop_count) * count,
        ),
        plan.deck_search(loop_count, count, rng).0.ranking.len() >= 1,
{
    let seed = random_add_spec(Multiset::empty(), rng, plan.deck_size);
    lemma_random_add(Multiset::empty(), rng, plan.deck_size);
    let l0 = Ledger::empty(plan.turn_max);
    assert(batches(loop_count) * count == count + loop_count * (TOP_GROUP_SIZE as nat)
        * count) by (nonlinear_arith);
    assert(loop_count * (TOP_GROUP_SIZE as nat) * count >= 0) by (nonlinear_arith)
        requires
            loop_count >= 0,
            count >= 0,
    ;
    lemma_record_bounded(
        l0,
        seed.0,
        Multiset::empty(),
        seed.0,
        count,
        seed.1,
        0,
        plan.deck_size,
        0,
    );
    let first = plan.deck_seed(count, rng);
    lemma_record_ranking(l0, seed.0, Multiset::empty(), seed.0, count, seed.1);
    lemma_rounds_bounded(
        first.0,
        Phase::Deck,
        loop_count,
        count,
        first.1,
        0,
        plan.deck_size,
        count,
    );
    lemma_rounds_ranking(first.0, Phase::Deck, loop_count, count, first.1);
}

/// A hand search can be made on a deck wherever the deck gives a hand and lasts for a
/// game, and the numbers fit as for the deck search. All its candidates then have a hand
/// of `INITIAL_HAND_COUNT` cards and the other cards as their deck, and a winner stands
/// at the head of the ranking.
pub proof fn lemma_search_hand(
    plan: Plan,
    deck: Multiset<u32>,
    loop_count: nat,
    count: nat,
    rng: u32,
)
    requires
        count > 0,
        costs_in_range(deck),
        deck.len() >= INITIAL_HAND_COUNT + plan.turn_max,
        deck.len() <= u32::MAX,
        batches(loop_count) * count <= u32::MAX,
        count * budget_total(plan.turn_max) <= u32::MAX,
    ensures
        plan.can_search_hand(deck, loop_count, count, rng),
        plan.hand_search(deck, loop_count, count, rng).0.bounded(
            INITIAL_HAND_COUNT as nat,
            (deck.len() - INITIAL_HAND_COUNT) as nat,
            batches(loop_count) * count,
        ),
        plan.hand_search(deck, loop_count, count, rng).0.ranking.len() >= 1,
{
    let parts = split_spec(deck, rng, INITIAL_HAND_COUNT as nat);
    lemma_split(deck, rng, INITIAL_HAND_COUNT as nat);
    let l0 = Ledger::empty(plan.turn_max);
    let hand_len = INITIAL_HAND_COUNT as nat;
    let deck_len = (deck.len() - INITIAL_HAND_COUNT) as nat;
    assert(batches(loop_count) * count == count + loop_count * (TOP_GROUP_SIZE as nat)
        * count) by (nonlinear_arith);
    assert(loop_count * (TOP_GROUP_SIZE as nat) * count >= 0) by (nonlinear_arith)
        requires
            loop_count >= 0,
            count >= 0,
    ;
    lemma_record_bounded(l0, parts.1, parts.1, parts.0, count, parts.2, hand_len, deck_len, 0);
    let first = plan.hand_seed(deck, count, rng);
    lemma_record_ranking(l0, parts.1, parts.1, parts.0, count, parts.2);
    lemma_rounds_bounded(
        first.0,
        Phase::Hand,
        loop_count,
        count,
        first.1,
        hand_len,
        deck_len,
        count,
    );
    lemma_rounds_ranking(first.0, Phase::Hand, loop_count, count, first.1);
}

/// One generation: a candidate is made from each member of the top group as it stands
/// at the start, and recorded.
fn generation(cache: &mut TrialCache, phase: Phase, trial_count: u32, rng: &mut XorRand)
    requires
        old(cache).wf(),
        can_round(
            old(cache)@,
            phase,
            old(cache)@.top_group(TOP_GROUP_SIZE as nat),
            old(cache)@.top_group(TOP_GROUP_SIZE as nat).len(),
            trial_count as nat,
            old(rng)@,
        ),
    ensures
        final(cache).wf(),
        (final(cache)@, final(rng)@) == round(
            old(cache)@,
            phase,
            old(cache)@.top_group(TOP_GROUP_SIZE as nat),
            old(cache)@.top_group(TOP_GROUP_SIZE as nat).len(),
            trial_count as nat,
            old(rng)@,
        ),
{
    let parents = cache.top_group(TOP_GROUP_SIZE);
    let ghost group = views(parents@);
    let mut j: usize = 0;
    while j < parents.len()
        invariant
            cache.wf(),
            j <= parents@.len(),
            group == views(parents@),
            can_round(old(cache)@, phase, group, group.len(), trial_count as nat, old(rng)@),
            (cache@, rng@) == round(
                old(cache)@,
                phase,
                group,
                j as nat,
                trial_count as nat,
                old(rng)@,
            ),
        decreases parents@.len() - j,
    {
        proof {
            lemma_can_round_prefix(
                old(cache)@,
                phase,
                group,
                (j + 1) as nat,
                group.len(),
                trial_count as nat,
                old(rng)@,
            );
            assert(group[j as int] == parents@[j as int]@);
        }
        match phase {
            Phase::Deck => {
                cache.deck_trial(&parents[j], trial_count, rng);
            },
            Phase::Hand => {
                cache.hand_trial(&parents[j], trial_count, rng);
            },
        }
        j = j + 1;
    }
}

/// `loop_count` generations, one after the other.
fn generations(
    cache: &mut TrialCache,
    phase: Phase,
    loop_count: u32,
    trial_count: u32,
    rng: &mut XorRand,
)
    requires
        old(cache).wf(),
        can_rounds(old(cache)@, phase, loop_count as nat, trial_count as nat, old(rng)@),
    ensures
        final(cache).wf(),
        (final(cache)@, final(rng)@) == rounds(
            old(cache)@,
            phase,
            loop_count as nat,
            trial_count as nat,
            old(rng)@,
        ),
{
    let mut g: u32 = 0;
    while g < loop_count
        invariant
            cache.wf(),
            g <= loop_count,
            can_rounds(old(cache)@, phase, loop_count as nat, trial_count as nat, old(rng)@),
            (cache@, rng@) == rounds(old(cache)@, phase, g as nat, trial_count as nat, old(rng)@),
        decreases loop_count - g,
    {
        proof {
            lemma_can_rounds_prefix(
                old(cache)@,
                phase,
                (g + 1) as nat,
                loop_count as nat,
                trial_count as nat,
                old(rng)@,
            );
        }
        generation(cache, phase, trial_count, rng);
        g = g + 1;
    }
}

/// The snapshot with the smallest mean loss.
fn winner(cache: &TrialCache) -> (best: Rc<Trial>)
    requires
        cache@.ranking.len() >= 1,
    ensures
        best@ == cache@.ranking[0],
{
    let top = cache.top_group(1);
    assert(views(top@).len() == top@.len());
    assert(views(top@)[0] == top@[0]@);
    share(&top[0])
}

/// The setup of a search: the number of cards of a deck and the number of turns of a
/// game. Its view is the `Plan` it stands for.
#[derive(Debug)]
pub struct CostSim {
    deck_size: u32,
    turn_max: u32,
}

impl View for CostSim {
    type V = Plan;

    closed spec fn view(&self) -> Plan {
        Plan { deck_size: self.deck_size as nat, turn_max: self.turn_max as nat }
    }
}

impl CostSim {
    /// A search for decks of `deck_size` cards in games of `turn_max` turns.
    pub fn new(deck_size: u32, turn_max: u32) -> (sim: CostSim)
        ensures
            sim@ == (Plan { deck_size: deck_size as nat, turn_max: turn_max as nat }),
    {
        CostSim { deck_size: deck_size, turn_max: turn_max }
    }

    /// Whether the limits hold for a search on a deck of `deck_len` cards.
    fn limits_hold(&self, deck_len: u32, loop_count: u32, trial_count: u32) -> (ok: bool)
        ensures
            ok == self@.searchable_on(deck_len as nat, loop_count as nat, trial_count as nat),
    {
        let most: u64 = 0xffff_ffff;
        let group: u64 = TOP_GROUP_SIZE as u64;
        assert(group == 8);
        let rounds: u64 = 1 + group * (loop_count as u64);
        let budgets: u64 = budget_sum(self.turn_max);
        proof {
            lemma_budget_total_bound(self.turn_max as nat);
            let n = trial_count as int;
            let r = rounds as int;
            let b = budgets as int;
            assert(r * n <= 0x8_0000_0001 * 0xffff_ffff) by (nonlinear_arith)
                requires
                    0 <= r <= 0x8_0000_0001,
                    0 <= n <= 0xffff_ffff,
            ;
            assert(n * b <= 0xffff_ffff * 0xa_0000_0000) by (nonlinear_arith)
                requires
                    0 <= b <= 0xa_0000_0000,
                    0 <= n <= 0xffff_ffff,
            ;
        }
        let holds_game: bool = (deck_len as u64) >= (INITIAL_HAND_COUNT as u64) + (
        self.turn_max as u64);
        let games_fit: bool = (rounds as u128) * (trial_count as u128) <= (most as u128);
        let budgets_fit: bool = (trial_count as u128) * (budgets as u128) <= (most as u128);
        trial_count > 0 && holds_game && games_fit && budgets_fit
    }

    /// Whether the limits hold under which both searches can be made. Where they hold,
    /// the deck search can be made from every state of the generator.
    pub fn can_search(&self, loop_count: u32, trial_count: u32) -> (ok: bool)
        ensures
            ok == self@.searchable(loop_count as nat, trial_count as nat),
            ok ==> forall|rng: u32| #[trigger]
                self@.can_search_deck(loop_count as nat, trial_count as nat, rng),
    {
        let ok = self.limits_hold(self.deck_size, loop_count, trial_count);
        proof {
            if ok {
                assert forall|rng: u32| #[trigger]
                    self@.can_search_deck(loop_count as nat, trial_count as nat, rng) by {
                    lemma_search_deck(self@, loop_count as nat, trial_count as nat, rng);
                }
            }
        }
        ok
    }

    /// Whether the limits hold under which the hand search can be made on `deck`. Where
    /// they hold, it can be made from every state of the generator.
    pub fn can_search_on(&self, deck: &Cards, loop_count: u32, trial_count: u32) -> (ok: bool)
        ensures
            ok == self@.searchable_on(deck@.len(), loop_count as nat, trial_count as nat),
            ok ==> forall|rng: u32| #[trigger]
                self@.can_search_hand(deck@, loop_count as nat, trial_count as nat, rng),
    {
        let ok = self.limits_hold(deck.size(), loop_count, trial_count);
        proof {
            if ok {
                deck.lemma_view();
                assert forall|rng: u32| #[trigger]
                    self@.can_search_hand(deck@, loop_count as nat, trial_count as nat, rng) by {
                    lemma_search_hand(self@, deck@, loop_count as nat, trial_count as nat, rng);
                }
            }
        }
        ok
    }

    /// Runs the deck search and then the hand search on the deck that won, wherever the
    /// limits of `can_search` hold; returns the winner of either search. Outside those
    /// limits nothing is searched and the generator stays as it was.
    pub fn search(&self, loop_count: u32, trial_count: u32, rng: &mut XorRand) -> (found: Option<
        (Rc<Trial>, Rc<Trial>),
    >)
        ensures
            found is Some <==> self@.searchable(loop_count as nat, trial_count as nat),
            found is None ==> final(rng)@ == old(rng)@,
            found matches Some(pair) ==> ({
                let decks = self@.deck_search(loop_count as nat, trial_count as nat, old(rng)@);
                let hands = self@.hand_search(
                    decks.0.ranking[0].deck,
                    loop_count as nat,
                    trial_count as nat,
                    decks.1,
                );
                &&& decks.0.ranking.len() >= 1
                &&& hands.0.ranking.len() >= 1
                &&& pair.0@ == decks.0.ranking[0]
                &&& pair.1@ == hands.0.ranking[0]
                &&& final(rng)@ == hands.1
            }),
    {
        if !self.can_search(loop_count, trial_count) {
            return None;
        }
        proof {
            lemma_search_deck(self@, loop_count as nat, trial_count as nat, rng@);
        }
        let deck_winner = self.search_deck(loop_count, trial_count, rng);
        proof {
            lemma_search_hand(
                self@,
                deck_winner@.deck,
                loop_count as nat,
                trial_count as nat,
                rng@,
            );
        }
        let hand_winner = self.search_hand(deck_winner.deck(), loop_count, trial_count, rng);
        Some((deck_winner, hand_winner))
    }

    /// Searches for a deck with a small mean loss: a deck of made-up cards is played
    /// `trial_count` times; then, `loop_count` times, a changed deck is made from each of
    /// the best decks so far and played as often. Returns the best snapshot at the end.
    pub fn search_deck(&self, loop_count: u32, trial_count: u32, rng: &mut XorRand) -> (best: Rc<
        Trial,
    >)
        requires
            self@.can_search_deck(loop_count as nat, trial_count as nat, old(rng)@),
        ensures
            self@.deck_search(loop_count as nat, trial_count as nat, old(rng)@).0.wf(),
            self@.deck_search(
                loop_count as nat,
                trial_count as nat,
                old(rng)@,
            ).0.ranking.len() >= 1,
            best@ == self@.deck_search(
                loop_count as nat,
                trial_count as nat,
                old(rng)@,
            ).0.ranking[0],
            final(rng)@ == self@.deck_search(loop_count as nat, trial_count as nat, old(rng)@).1,
    {
        let mut deck = Cards::new();
        deck.random_add(self.deck_size, rng);
        let mut cache = TrialCache::new(self.turn_max);
        let hd = Rc::new(Cards::new());
        let dk = Rc::new(deck);
        cache.trial(&dk, &hd, &dk, trial_count, rng);
        proof {
            let first = self@.deck_seed(trial_count as nat, old(rng)@);
            lemma_rounds_ranking(
                first.0,
                Phase::Deck,
                loop_count as nat,
                trial_count as nat,
                first.1,
            );
        }
        generations(&mut cache, Phase::Deck, loop_count, trial_count, rng);
        proof {
            cache.lemma_wf();
        }
        winner(&cache)
    }

    /// Searches for a split of `deck` into an opening hand and a deck with a small mean
    /// loss: `INITIAL_HAND_COUNT` cards are drawn as the hand and the pair is played
    /// `trial_count` times; then, `loop_count` times, a pair with cards exchanged is made
    /// from each of the best pairs so far and played as often. Returns the best snapshot
    /// at the end.
    pub fn search_hand(
        &self,
        deck: Rc<Cards>,
        loop_count: u32,
        trial_count: u32,
        rng: &mut XorRand,
    ) -> (best: Rc<Trial>)
        requires
            self@.can_search_hand(deck@, loop_count as nat, trial_count as nat, old(rng)@),
        ensures
            self@.hand_search(deck@, loop_count as nat, trial_count as nat, old(rng)@).0.wf(),
            self@.hand_search(
                deck@,
                loop_count as nat,
                trial_count as nat,
                old(rng)@,
            ).0.ranking.len() >= 1,
            best@ == self@.hand_search(
                deck@,
                loop_count as nat,
                trial_count as nat,
                old(rng)@,
            ).0.ranking[0],
            final(rng)@ == self@.hand_search(
                deck@,
                loop_count as nat,
                trial_count as nat,
                old(rng)@,
            ).1,
    {
        let mut cache = TrialCache::new(self.turn_max);
        let mut d: Cards = (*deck).clone();
        let hd = Rc::new(d.split(INITIAL_HAND_COUNT, rng));
        let dk = Rc::new(d);
        cache.trial(&hd, &hd, &dk, trial_count, rng);
        proof {
            let first = self@.hand_seed(deck@, trial_count as nat, old(rng)@);
            lemma_rounds_ranking(
                first.0,
                Phase::Hand,
                loop_count as nat,
                trial_count as nat,
                first.1,
            );
        }
        generations(&mut cache, Phase::Hand, loop_count, trial_count, rng);
        proof {
            cache.lemma_wf();
        }
        winner(&cache)
    }
}

} // verus!

//! A candidate pair of hand and deck with the statistic of the games played on it.
use vstd::prelude::*;
use vstd::multiset::Multiset;
use std::cmp::Ordering;
use std::rc::Rc;
use crate::shadow_cost::cards::Cards;
use crate::shadow_cost::player::game;
use crate::shadow_cost::player::budget_total;
use crate::shadow_cost::player::lemma_game_loss;
use crate::shadow_cost::player::opening_draws;
use crate::shadow_cost::player::run_game;
use crate::shadow_cost::score::Mean;
use crate::shadow_cost::score::Score;
use crate::shadow_cost::score::lemma_below_total;
use crate::shadow_cost::xor_rand::XorRand;

verus! {

/// `n` games with the initiative, played one after the other on the same hand and deck.
/// Gives their summed loss and the generator state afterwards.
pub open spec fn batch(
    hand: Multiset<u32>,
    deck: Multiset<u32>,
    rng: u32,
    turn_max: nat,
    n: nat,
) -> (nat, u32)
    decreases n,
{
    if n == 0 {
        (0, rng)
    } else {
        let before = batch(hand, deck, rng, turn_max, (n - 1) as nat);
        let last = game(hand, deck, before.1, true, turn_max);
        (before.0 + last.loss, last.rng)
    }
}

/// The summed loss of a batch never shrinks from game to game.
pub proof fn lemma_batch_mono(
    hand: Multiset<u32>,
    deck: Multiset<u32>,
    rng: u32,
    turn_max: nat,
    a: nat,
    b: nat,
)
    requires
        a <= b,
    ensures
        batch(hand, deck, rng, turn_max, a).0 <= batch(hand, deck, rng, turn_max, b).0,
    decreases b,
{
    if a < b {
        lemma_batch_mono(hand, deck, rng, turn_max, a, (b - 1) as nat);
    }
}

/// A batch of `n` games loses at most `n` times the budgets of a game's turns.
pub proof fn lemma_batch_loss(
    hand: Multiset<u32>,
    deck: Multiset<u32>,
    rng: u32,
    turn_max: nat,
    n: nat,
)
    ensures
        batch(hand, deck, rng, turn_max, n).0 <= n * budget_total(turn_max),
    decreases n,
{
    if n > 0 {
        let before = batch(hand, deck, rng, turn_max, (n - 1) as nat);
        lemma_batch_loss(hand, deck, rng, turn_max, (n - 1) as nat);
        lemma_game_loss(hand, deck, before.1, true, turn_max);
        assert(n * budget_total(turn_max) == (n - 1) * budget_total(turn_max) + budget_total(
            turn_max,
        )) by (nonlinear_arith);
    }
}

/// A trial as a mathematical value: the hand, the deck and the statistic reached.
pub struct Candidate {
    pub hand: Multiset<u32>,
    pub deck: Multiset<u32>,
    pub score: Mean,
}

impl Candidate {
    /// The candidate on which no game was played yet.
    pub open spec fn fresh(hand: Multiset<u32>, deck: Multiset<u32>) -> Candidate {
        Candidate { hand, deck, score: Mean { samples: 0, loss: 0 } }
    }

    /// The deck holds the cards that a game of `turn_max` turns draws.
    pub open spec fn playable(self, turn_max: nat) -> bool {
        self.deck.len() >= opening_draws(self.hand.len(), true) + turn_max
    }

    /// A batch of `count` games can be played and folded in: the deck holds enough cards,
    /// and the numbers fit their types.
    pub open spec fn can_sample(self, turn_max: nat, count: nat, rng: u32) -> bool {
        &&& count > 0 ==> self.playable(turn_max)
        &&& self.score.samples + count <= u32::MAX
        &&& batch(self.hand, self.deck, rng, turn_max, count).0 <= u32::MAX
        &&& self.score.loss + batch(self.hand, self.deck, rng, turn_max, count).0 <= u64::MAX
    }

    /// The candidate after a batch of `count` games was played and folded in.
    pub open spec fn sampled(self, turn_max: nat, count: nat, rng: u32) -> Candidate {
        Candidate {
            hand: self.hand,
            deck: self.deck,
            score: self.score.plus(count, batch(self.hand, self.deck, rng, turn_max, count).0),
        }
    }
}

/// `Rc::clone`: another pointer to the same allocation, so the value behind the result is
/// the value behind `rc`.
#[verifier::external_body]
pub(crate) fn share<T>(rc: &Rc<T>) -> (other: Rc<T>)
    ensures
        other == rc,
{
    rc.clone()
}

/// A hand and a deck, shared and never changed, with the statistic of the games played on
/// them so far. Its view is the `Candidate` it stands for.
#[derive(Debug, PartialEq, Eq, Hash)]
pub struct Trial {
    hand: Rc<Cards>,
    deck: Rc<Cards>,
    score: Score,
}

impl View for Trial {
    type V = Candidate;

    closed spec fn view(&self) -> Candidate {
        Candidate { hand: self.hand@, deck: self.deck@, score: self.score@ }
    }
}

impl Clone for Trial {
    fn clone(&self) -> (t: Trial)
        ensures
            t == *self,
    {
        Trial { hand: share(&self.hand), deck: share(&self.deck), score: self.score.clone() }
    }
}

impl Trial {
    /// A trial on which no game was played yet.
    pub fn new(hand: Rc<Cards>, deck: Rc<Cards>) -> (t: Trial)
        ensures
            t@ == Candidate::fresh(hand@, deck@),
    {
        Trial { hand: hand, deck: deck, score: Score::new() }
    }

    /// Plays `count` games of `turn_max` turns, with the initiative, and folds their summed
    /// loss into the statistic.
    pub fn trial(&mut self, turn_max: u32, count: u32, rng: &mut XorRand)
        requires
            old(self)@.can_sample(turn_max as nat, count as nat, old(rng)@),
        ensures
            final(self)@ == old(self)@.sampled(turn_max as nat, count as nat, old(rng)@),
            final(rng)@ == batch(
                old(self)@.hand,
                old(self)@.deck,
                old(rng)@,
                turn_max as nat,
                count as nat,
            ).1,
    {
        let mut ls: u32 = 0;
        let mut i: u32 = 0;
        while i < count
            invariant
                i <= count,
                self == old(self),
                self@.can_sample(turn_max as nat, count as nat, old(rng)@),
                (ls as nat, rng@) == batch(
                    self@.hand,
                    self@.deck,
                    old(rng)@,
                    turn_max as nat,
                    i as nat,
                ),
            decreases count - i,
        {
            proof {
                lemma_batch_mono(
                    self@.hand,
                    self@.deck,
                    old(rng)@,
                    turn_max as nat,
                    (i + 1) as nat,
                    count as nat,
                );
            }
            let loss: u32 = run_game(&self.hand, &self.deck, true, turn_max, rng);
            ls = ls + loss;
            i = i + 1;
        }
        self.score.add(count, ls);
    }

    /// The hand.
    pub fn hand(&self) -> (hand: Rc<Cards>)
        ensures
            hand@ == self@.hand,
    {
        share(&self.hand)
    }

    /// The deck.
    pub fn deck(&self) -> (deck: Rc<Cards>)
        ensures
            deck@ == self@.deck,
    {
        share(&self.deck)
    }

    /// The number of games played so far.
    pub fn count(&self) -> (n: u32)
        ensures
            n == self@.score.samples,
    {
        self.score.count()
    }

    /// The summed loss of the games played so far.
    pub fn loss(&self) -> (l: u64)
        ensures
            l == self@.score.loss,
    {
        self.score.loss()
    }

    /// Whether this trial has the smaller mean loss of the two; both need a game played.
    pub fn better_than(&self, other: &Trial) -> (better: bool)
        requires
            self@.score.samples > 0,
            other@.score.samples > 0,
        ensures
            better == self@.score.below(other@.score),
    {
        proof {
            lemma_below_total(self@.score, other@.score);
        }
        match self.cmp(other) {
            Ordering::Less => true,
            _ => false,
        }
    }

    /// Whether the two trials have the same mean loss; both need a game played.
    pub fn level_with(&self, other: &Trial) -> (level: bool)
        requires
            self@.score.samples > 0,
            other@.score.samples > 0,
        ensures
            level == self@.score.level(other@.score),
    {
        proof {
            lemma_below_total(self@.score, other@.score);
        }
        match self.cmp(other) {
            Ordering::Equal => true,
            _ => false,
        }
    }

    /// Orders two trials by their mean loss, the smaller first; both need a game played.
    pub fn cmp(&self, other: &Trial) -> (o: Ordering)
        requires
            self@.score.samples > 0,
            other@.score.samples > 0,
        ensures
            o == Ordering::Less <==> self@.score.below(other@.score),
            o == Ordering::Equal <==> self@.score.level(other@.score),
            o == Ordering::Greater <==> other@.score.below(self@.score),
    {
        self.score.cmp(&other.score)
    }
}

} // verus!

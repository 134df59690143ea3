//! One simulated game: an opening hand, then one drawn card and one greedy play per turn.
use vstd::prelude::*;
use vstd::multiset::Multiset;
use crate::shadow_cost::cards::Cards;
use crate::shadow_cost::cards::COST_MAX;
use crate::shadow_cost::cards::drawn;
use crate::shadow_cost::cards::greedy_play;
use crate::shadow_cost::cards::lemma_greedy_play;
use crate::shadow_cost::xor_rand::XorRand;
use crate::shadow_cost::xor_rand::xorshift;

verus! {

/// The number of cards a hand is filled up to before the first turn.
pub const INITIAL_HAND_COUNT: u32 = 3;

/// The number of cards from which on a hand takes no drawn card: the card is lost.
pub const HAND_MAX: u32 = 9;

/// A game in progress: the hand, the deck, the generator state and the loss so far.
pub struct Table {
    pub hand: Multiset<u32>,
    pub deck: Multiset<u32>,
    pub rng: u32,
    pub loss: nat,
}

/// One card drawn from the deck into the hand.
pub open spec fn deal(t: Table) -> Table {
    let c = drawn(t.deck, t.rng);
    Table { hand: t.hand.insert(c), deck: t.deck.remove(c), rng: xorshift(t.rng), loss: t.loss }
}

/// `n` cards drawn from the deck into the hand, one after the other.
pub open spec fn deal_n(t: Table, n: nat) -> Table
    decreases n,
{
    if n == 0 {
        t
    } else {
        deal(deal_n(t, (n - 1) as nat))
    }
}

/// The number of cards drawn before the first turn: what the hand lacks of
/// `INITIAL_HAND_COUNT`, and one more for the player who moves second.
pub open spec fn opening_draws(hand_len: nat, initiative: bool) -> nat {
    let lacking: nat = if hand_len < INITIAL_HAND_COUNT {
        (INITIAL_HAND_COUNT - hand_len) as nat
    } else {
        0
    };
    if initiative {
        lacking
    } else {
        lacking + 1
    }
}

/// The game before its first turn.
pub open spec fn opening(hand: Multiset<u32>, deck: Multiset<u32>, rng: u32, initiative: bool)
    -> Table {
    deal_n(Table { hand, deck, rng, loss: 0 }, opening_draws(hand.len(), initiative))
}

/// The budget of a turn: its number, capped at `COST_MAX`.
pub open spec fn budget(turn: nat) -> nat {
    if turn < COST_MAX {
        turn
    } else {
        COST_MAX as nat
    }
}

/// The budgets of the first `n` turns, summed.
pub open spec fn budget_total(n: nat) -> nat
    decreases n,
{
    if n == 0 {
        0
    } else {
        budget_total((n - 1) as nat) + budget(n)
    }
}

/// The turn with number `n`: a card is drawn, and kept unless the hand is full; then the
/// turn's budget is spent greedily, and what stays of it is lost.
pub open spec fn turn(t: Table, n: nat) -> Table {
    let c = drawn(t.deck, t.rng);
    let hand = if t.hand.len() < HAND_MAX {
        t.hand.insert(c)
    } else {
        t.hand
    };
    let played = greedy_play(hand, budget(n));
    Table { hand: played.0, deck: t.deck.remove(c), rng: xorshift(t.rng), loss: t.loss + played.1 }
}

/// The first `n` turns, from 1 to `n`.
pub open spec fn turns(t: Table, n: nat) -> Table
    decreases n,
{
    if n == 0 {
        t
    } else {
        turn(turns(t, (n - 1) as nat), n)
    }
}

/// A whole game of `turn_max` turns.
pub open spec fn game(
    hand: Multiset<u32>,
    deck: Multiset<u32>,
    rng: u32,
    initiative: bool,
    turn_max: nat,
) -> Table {
    turns(opening(hand, deck, rng, initiative), turn_max)
}

/// No turn has a budget above `COST_MAX`, so `n` turns have at most `COST_MAX * n`.
pub proof fn lemma_budget_total_bound(n: nat)
    ensures
        budget_total(n) <= COST_MAX * n,
    decreases n,
{
    if n > 0 {
        lemma_budget_total_bound((n - 1) as nat);
    }
}

/// From turn `COST_MAX` on every turn adds `COST_MAX` to the summed budgets.
pub proof fn lemma_budget_total_capped(n: nat)
    requires
        n >= COST_MAX,
    ensures
        budget_total(n) == budget_total(COST_MAX as nat) + COST_MAX * (n - COST_MAX),
    decreases n,
{
    if n > COST_MAX {
        lemma_budget_total_capped((n - 1) as nat);
    }
}

/// A game loses at most the budgets of its turns.
pub proof fn lemma_turns_loss(t: Table, n: nat)
    ensures
        turns(t, n).loss <= t.loss + budget_total(n),
    decreases n,
{
    if n > 0 {
        lemma_turns_loss(t, (n - 1) as nat);
        let before = turns(t, (n - 1) as nat);
        let c = drawn(before.deck, before.rng);
        lemma_greedy_play(before.hand.insert(c), budget(n));
        lemma_greedy_play(before.hand, budget(n));
    }
}

/// The loss of a game never shrinks from turn to turn.
pub proof fn lemma_turns_loss_mono(t: Table, a: nat, b: nat)
    requires
        a <= b,
    ensures
        turns(t, a).loss <= turns(t, b).loss,
    decreases b,
{
    if a < b {
        lemma_turns_loss_mono(t, a, (b - 1) as nat);
    }
}

/// Dealing cards loses nothing.
pub proof fn lemma_deal_n_loss(t: Table, n: nat)
    ensures
        deal_n(t, n).loss == t.loss,
    decreases n,
{
    if n > 0 {
        lemma_deal_n_loss(t, (n - 1) as nat);
    }
}

/// A whole game loses at most the budgets of its turns.
pub proof fn lemma_game_loss(
    hand: Multiset<u32>,
    deck: Multiset<u32>,
    rng: u32,
    initiative: bool,
    turn_max: nat,
)
    ensures
        game(hand, deck, rng, initiative, turn_max).loss <= budget_total(turn_max),
{
    lemma_deal_n_loss(Table { hand, deck, rng, loss: 0 }, opening_draws(hand.len(), initiative));
    lemma_turns_loss(opening(hand, deck, rng, initiative), turn_max);
}

/// The budgets of the first `turn_max` turns, summed: the most that a game can lose.
pub fn budget_sum(turn_max: u32) -> (sum: u64)
    ensures
        sum == budget_total(turn_max as nat),
{
    let mut sum: u64 = 0;
    let mut t: u32 = 0;
    while t < turn_max && t < COST_MAX
        invariant
            t <= turn_max,
            t <= COST_MAX,
            sum == budget_total(t as nat),
            sum <= COST_MAX * t,
        decreases COST_MAX - t,
    {
        t = t + 1;
        sum = sum + t as u64;
    }
    if turn_max > COST_MAX {
        proof {
            lemma_budget_total_capped(turn_max as nat);
        }
        sum = sum + (COST_MAX as u64) * ((turn_max - COST_MAX) as u64);
    }
    sum
}

/// Spends `cost` from the hand greedily and returns what could not be spent.
fn play(hand: &mut Cards, cost: u32) -> (rest: u32)
    ensures
        final(hand)@ == greedy_play(old(hand)@, cost as nat).0,
        rest == greedy_play(old(hand)@, cost as nat).1,
        rest <= cost,
{
    hand.play(cost)
}

/// Plays one game on copies of `hand` and `deck` and returns its loss: the budget that
/// the turns could not spend.
pub fn run_game(
    hand: &Cards,
    deck: &Cards,
    initiative: bool,
    turn_max: u32,
    rng: &mut XorRand,
) -> (loss: u32)
    requires
        deck@.len() >= opening_draws(hand@.len(), initiative) + turn_max,
        !initiative ==> hand@.len() < u32::MAX,
        game(hand@, deck@, old(rng)@, initiative, turn_max as nat).loss <= u32::MAX,
    ensures
        loss == game(hand@, deck@, old(rng)@, initiative, turn_max as nat).loss,
        final(rng)@ == game(hand@, deck@, old(rng)@, initiative, turn_max as nat).rng,
        loss <= budget_total(turn_max as nat),
{
    let mut hd = hand.clone();
    let mut dk = deck.clone();
    let ghost start = Table { hand: hand@, deck: deck@, rng: rng@, loss: 0 };
    let ghost draws = opening_draws(hand@.len(), initiative);
    let ghost lacking: nat = if initiative {
        draws
    } else {
        (draws - 1) as nat
    };
    let ghost dealt: nat = 0;
    while hd.size() < INITIAL_HAND_COUNT
        invariant
            dealt <= lacking,
            lacking == if hand@.len() < INITIAL_HAND_COUNT {
                INITIAL_HAND_COUNT - hand@.len()
            } else {
                0
            },
            deck@.len() >= lacking,
            hd@.len() == hand@.len() + dealt,
            dk@.len() == deck@.len() - dealt,
            (Table { hand: hd@, deck: dk@, rng: rng@, loss: 0 }) == deal_n(start, dealt),
        decreases INITIAL_HAND_COUNT - hd@.len(),
    {
        let c: u32 = dk.draw(rng);
        hd.add(c);
        proof {
            dealt = dealt + 1;
        }
    }
    if !initiative {
        let c: u32 = dk.draw(rng);
        hd.add(c);
    }
    assert((Table { hand: hd@, deck: dk@, rng: rng@, loss: 0 }) == opening(
        hand@,
        deck@,
        old(rng)@,
        initiative,
    ));
    let ghost opened = opening(hand@, deck@, old(rng)@, initiative);
    let mut loss: u32 = 0;
    let mut done: u32 = 0;
    while done < turn_max
        invariant
            done <= turn_max,
            turns(opened, turn_max as nat).loss <= u32::MAX,
            dk@.len() >= turn_max - done,
            (Table { hand: hd@, deck: dk@, rng: rng@, loss: loss as nat }) == turns(
                opened,
                done as nat,
            ),
        decreases turn_max - done,
    {
        let turn_no: u32 = done + 1;
        let cost: u32 = dk.draw(rng);
        if hd.size() < HAND_MAX {
            hd.add(cost);
        }
        let spend: u32 = if turn_no < COST_MAX {
            turn_no
        } else {
            COST_MAX
        };
        let rest: u32 = play(&mut hd, spend);
        proof {
            lemma_turns_loss_mono(opened, turn_no as nat, turn_max as nat);
        }
        loss = loss + rest;
        done = turn_no;
    }
    proof {
        lemma_game_loss(hand@, deck@, old(rng)@, initiative, turn_max as nat);
    }
    loss
}

} // verus!

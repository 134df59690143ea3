//! A multiset of card costs, kept as one counter per cost.
use vstd::prelude::*;
use vstd::multiset::Multiset;
use crate::shadow_cost::xor_rand::XorRand;
use crate::shadow_cost::xor_rand::rnd;
use crate::shadow_cost::xor_rand::xorshift;

verus! {

/// The largest cost a card can have; the smallest is 1.
pub const COST_MAX: u32 = 10;

/// `n` copies of the cost `v`.
spec fn copies(v: u32, n: nat) -> Multiset<u32>
    decreases n,
{
    if n == 0 {
        Multiset::empty()
    } else {
        copies(v, (n - 1) as nat).insert(v)
    }
}

/// The cards that the first `k` counters stand for: `counts[c - 1]` copies of each
/// cost `c` from 1 to `k`.
spec fn bag(counts: Seq<u32>, k: nat) -> Multiset<u32>
    decreases k,
{
    if k == 0 {
        Multiset::empty()
    } else {
        bag(counts, (k - 1) as nat).add(copies(k as u32, counts[k - 1] as nat))
    }
}

/// The sum of the first `k` counters.
spec fn total(counts: Seq<u32>, k: nat) -> nat
    decreases k,
{
    if k == 0 {
        0
    } else {
        total(counts, (k - 1) as nat) + counts[k - 1] as nat
    }
}

/// How many cards of `m` cost at most `c`.
pub open spec fn count_upto(m: Multiset<u32>, c: nat) -> nat
    decreases c,
{
    if c == 0 {
        0
    } else {
        count_upto(m, (c - 1) as nat) + m.count(c as u32)
    }
}

/// The costs of the cards of `m` that cost at most `c`, summed.
pub open spec fn cost_sum_upto(m: Multiset<u32>, c: nat) -> nat
    decreases c,
{
    if c == 0 {
        0
    } else {
        cost_sum_upto(m, (c - 1) as nat) + c * m.count(c as u32)
    }
}

/// The costs of all cards of `m`, summed.
pub open spec fn cost_sum(m: Multiset<u32>) -> nat {
    cost_sum_upto(m, COST_MAX as nat)
}

/// Every card of `m` has a cost from 1 to `COST_MAX`.
pub open spec fn costs_in_range(m: Multiset<u32>) -> bool {
    forall|c: u32| m.count(c) > 0 ==> 1 <= c <= COST_MAX
}

/// `copies(v, n)` holds `v` exactly `n` times and nothing else.
proof fn lemma_copies(v: u32, n: nat)
    ensures
        copies(v, n).len() == n,
        copies(v, n).count(v) == n,
        forall|w: u32| w != v ==> copies(v, n).count(w) == 0,
    decreases n,
{
    if n > 0 {
        lemma_copies(v, (n - 1) as nat);
    }
}

/// The first `k` counters stand for as many cards as they sum to, and for each cost from
/// 1 to `k` as many as its counter says.
proof fn lemma_bag(counts: Seq<u32>, k: nat)
    requires
        k <= counts.len(),
        k <= u32::MAX,
    ensures
        bag(counts, k).len() == total(counts, k),
        forall|c: u32| 1 <= c <= k ==> bag(counts, k).count(c) == counts[c - 1],
        forall|c: u32| !(1 <= c <= k) ==> bag(counts, k).count(c) == 0,
    decreases k,
{
    if k > 0 {
        lemma_bag(counts, (k - 1) as nat);
        lemma_copies(k as u32, counts[k - 1] as nat);
    }
}

/// The cards up to a cost are counted by the counters up to that cost.
proof fn lemma_bag_upto(counts: Seq<u32>, k: nat, c: nat)
    requires
        c <= k <= counts.len(),
        k <= u32::MAX,
    ensures
        count_upto(bag(counts, k), c) == total(counts, c),
    decreases c,
{
    if c > 0 {
        lemma_bag_upto(counts, k, (c - 1) as nat);
        lemma_bag(counts, k);
    }
}

/// With the cards of `m` laid out by ascending cost, the position `k`, counted from 0,
/// holds a card of cost `c`.
pub open spec fn lies_at(m: Multiset<u32>, k: nat, c: u32) -> bool {
    1 <= c <= COST_MAX && count_upto(m, (c - 1) as nat) <= k < count_upto(m, c as nat)
}

/// The card at position `k`, counted from 0, when the cards of `m` are laid out by
/// ascending cost.
pub open spec fn kth_card(m: Multiset<u32>, k: nat) -> u32 {
    choose|c: u32| lies_at(m, k, c)
}

/// The card that a draw from `m` takes when the generator is in state `rng` before the draw.
pub open spec fn drawn(m: Multiset<u32>, rng: u32) -> u32 {
    kth_card(m, (xorshift(rng) as nat) % m.len())
}

/// The cost that a generator state stands for when a card is made up at random.
pub open spec fn random_cost(rng: u32) -> u32 {
    (rng % COST_MAX + 1) as u32
}

/// The largest cost of a card of `m` that is at most `budget`, if there is one.
pub open spec fn largest_fit(m: Multiset<u32>, budget: nat) -> Option<u32>
    decreases budget,
{
    if budget == 0 {
        None
    } else if budget <= COST_MAX && m.count(budget as u32) > 0 {
        Some(budget as u32)
    } else {
        largest_fit(m, (budget - 1) as nat)
    }
}

/// Spends `budget` greedily: as long as a card fits into what is left of the budget, the
/// dearest such card is played. Gives the cards that stay and the budget that stays.
pub open spec fn greedy_play(m: Multiset<u32>, budget: nat) -> (Multiset<u32>, nat)
    decreases budget,
{
    match largest_fit(m, budget) {
        Some(c) => if 1 <= c <= budget {
            greedy_play(m.remove(c), (budget - c) as nat)
        } else {
            (m, budget)
        },
        None => (m, budget),
    }
}

/// `n` made-up cards put into `m`, one after the other; gives the cards and the generator
/// state afterwards.
pub open spec fn random_add_spec(m: Multiset<u32>, rng: u32, n: nat) -> (Multiset<u32>, u32)
    decreases n,
{
    if n == 0 {
        (m, rng)
    } else {
        let (m1, r1) = random_add_spec(m, rng, (n - 1) as nat);
        (m1.insert(random_cost(xorshift(r1))), xorshift(r1))
    }
}

/// `n` times: one card drawn from `m` and thrown away, one made-up card put in.
pub open spec fn random_change_spec(m: Multiset<u32>, rng: u32, n: nat) -> (Multiset<u32>, u32)
    decreases n,
{
    if n == 0 {
        (m, rng)
    } else {
        let (m1, r1) = random_change_spec(m, rng, (n - 1) as nat);
        let r2 = xorshift(xorshift(r1));
        (m1.remove(drawn(m1, r1)).insert(random_cost(r2)), r2)
    }
}

/// `n` times: one card drawn from `a` goes to `b`, then one card drawn from `b` goes to `a`.
/// Gives `a`, `b` and the generator state afterwards.
pub open spec fn random_exchange_spec(a: Multiset<u32>, b: Multiset<u32>, rng: u32, n: nat) -> (
    Multiset<u32>,
    Multiset<u32>,
    u32,
)
    decreases n,
{
    if n == 0 {
        (a, b, rng)
    } else {
        let (a1, b1, r1) = random_exchange_spec(a, b, rng, (n - 1) as nat);
        let to_b = drawn(a1, r1);
        let b2 = b1.insert(to_b);
        let to_a = drawn(b2, xorshift(r1));
        (a1.remove(to_b).insert(to_a), b2.remove(to_a), xorshift(xorshift(r1)))
    }
}

/// `n` cards drawn from `m`, one after the other. Gives what stays of `m`, the cards drawn
/// and the generator state afterwards.
pub open spec fn split_spec(m: Multiset<u32>, rng: u32, n: nat) -> (
    Multiset<u32>,
    Multiset<u32>,
    u32,
)
    decreases n,
{
    if n == 0 {
        (m, Multiset::empty(), rng)
    } else {
        let (m1, d1, r1) = split_spec(m, rng, (n - 1) as nat);
        (m1.remove(drawn(m1, r1)), d1.insert(drawn(m1, r1)), xorshift(r1))
    }
}

/// The number of cards up to a cost grows with the cost.
pub proof fn lemma_count_upto_mono(m: Multiset<u32>, a: nat, b: nat)
    requires
        a <= b,
    ensures
        count_upto(m, a) <= count_upto(m, b),
    decreases b,
{
    if a < b {
        lemma_count_upto_mono(m, a, (b - 1) as nat);
    }
}

/// The position `k` falls on one cost only.
pub proof fn lemma_kth_card(m: Multiset<u32>, k: nat, c: u32)
    requires
        lies_at(m, k, c),
    ensures
        kth_card(m, k) == c,
{
    let d = kth_card(m, k);
    if d < c {
        lemma_count_upto_mono(m, d as nat, (c - 1) as nat);
    } else if c < d {
        lemma_count_upto_mono(m, c as nat, (d - 1) as nat);
    }
}

/// A budget above `COST_MAX` finds what `COST_MAX` finds.
pub proof fn lemma_largest_fit_clamp(m: Multiset<u32>, budget: nat)
    requires
        budget >= COST_MAX,
    ensures
        largest_fit(m, budget) == largest_fit(m, COST_MAX as nat),
    decreases budget,
{
    if budget > COST_MAX {
        lemma_largest_fit_clamp(m, (budget - 1) as nat);
    }
}

/// What `largest_fit` finds is a card of `m` within the budget, and no dearer card fits;
/// it finds nothing only where no card fits.
pub proof fn lemma_largest_fit(m: Multiset<u32>, budget: nat)
    ensures
        match largest_fit(m, budget) {
            Some(c) => 1 <= c <= budget && c <= COST_MAX && m.count(c) > 0 && forall|d: u32|
                c < d <= budget && d <= COST_MAX ==> m.count(d) == 0,
            None => forall|d: u32| 1 <= d <= budget && d <= COST_MAX ==> m.count(d) == 0,
        },
    decreases budget,
{
    if budget > 0 {
        lemma_largest_fit(m, (budget - 1) as nat);
    }
}

/// A card taken out takes its cost out of the summed costs.
pub proof fn lemma_cost_sum_remove(m: Multiset<u32>, x: u32, c: nat)
    requires
        c <= COST_MAX,
        m.count(x) > 0,
    ensures
        cost_sum_upto(m.remove(x), c) == cost_sum_upto(m, c) - if 1 <= x <= c {
            x as int
        } else {
            0
        },
    decreases c,
{
    if c > 0 {
        lemma_cost_sum_remove(m, x, (c - 1) as nat);
        if x == c {
            let n = m.count(x) as int;
            assert(c * (n - 1) == c * n - c) by (nonlinear_arith);
        }
    }
}

/// The cards that greedy play takes cost together what it spends of the budget.
pub proof fn lemma_greedy_play_spends(m: Multiset<u32>, budget: nat)
    ensures
        cost_sum(m) == cost_sum(greedy_play(m, budget).0) + (budget - greedy_play(m, budget).1),
    decreases budget,
{
    lemma_largest_fit(m, budget);
    match largest_fit(m, budget) {
        Some(c) => {
            lemma_greedy_play_spends(m.remove(c), (budget - c) as nat);
            lemma_cost_sum_remove(m, c, COST_MAX as nat);
        },
        None => {},
    }
}

/// Greedy play never leaves more than the budget, takes cards away only, and leaves no
/// card that would still fit.
pub proof fn lemma_greedy_play(m: Multiset<u32>, budget: nat)
    ensures
        greedy_play(m, budget).1 <= budget,
        greedy_play(m, budget).0.subset_of(m),
        forall|d: u32|
            1 <= d <= greedy_play(m, budget).1 && d <= COST_MAX ==> greedy_play(m, budget).0.count(
                d,
            ) == 0,
    decreases budget,
{
    lemma_largest_fit(m, budget);
    match largest_fit(m, budget) {
        Some(c) => {
            lemma_greedy_play(m.remove(c), (budget - c) as nat);
        },
        None => {},
    }
}

/// One more card of cost `x` is one more card up to every cost from `x` on.
pub proof fn lemma_count_upto_insert(m: Multiset<u32>, x: u32, c: nat)
    requires
        c <= COST_MAX,
    ensures
        count_upto(m.insert(x), c) == count_upto(m, c) + if 1 <= x <= c {
            1nat
        } else {
            0nat
        },
    decreases c,
{
    if c > 0 {
        lemma_count_upto_insert(m, x, (c - 1) as nat);
    }
}

/// Where no card is, none is counted.
pub proof fn lemma_count_upto_empty(m: Multiset<u32>, c: nat)
    requires
        m.len() == 0,
    ensures
        count_upto(m, c) == 0,
    decreases c,
{
    if c > 0 {
        lemma_count_upto_empty(m, (c - 1) as nat);
        assert(m.count(c as u32) <= m.len());
    }
}

/// A multiset of costs from 1 to `COST_MAX` has as many cards as `count_upto` counts.
pub proof fn lemma_len_is_count_upto(m: Multiset<u32>)
    requires
        costs_in_range(m),
    ensures
        m.len() == count_upto(m, COST_MAX as nat),
    decreases m.len(),
{
    if m.len() == 0 {
        lemma_count_upto_empty(m, COST_MAX as nat);
    } else {
        let x = m.choose();
        assert(m.count(x) > 0);
        let rest = m.remove(x);
        assert(m =~= rest.insert(x));
        assert(rest.len() == m.len() - 1);
        assert(costs_in_range(rest)) by {
            assert forall|c: u32| rest.count(c) > 0 implies 1 <= c <= COST_MAX by {
                assert(m.count(c) >= rest.count(c));
            }
        }
        lemma_len_is_count_upto(rest);
        lemma_count_upto_insert(rest, x, COST_MAX as nat);
        assert(count_upto(m, COST_MAX as nat) == count_upto(rest, COST_MAX as nat) + 1);
    }
}

/// Every position below the number of cards up to `hi` holds a card.
pub proof fn lemma_position(m: Multiset<u32>, k: nat, hi: nat)
    requires
        k < count_upto(m, hi),
        hi <= COST_MAX,
    ensures
        exists|c: u32| lies_at(m, k, c),
    decreases hi,
{
    if k < count_upto(m, (hi - 1) as nat) {
        lemma_position(m, k, (hi - 1) as nat);
    } else {
        assert(lies_at(m, k, hi as u32));
    }
}

/// What a draw takes from a multiset that is not empty is one of its cards.
pub proof fn lemma_drawn(m: Multiset<u32>, rng: u32)
    requires
        costs_in_range(m),
        m.len() > 0,
    ensures
        1 <= drawn(m, rng) <= COST_MAX,
        m.count(drawn(m, rng)) > 0,
        costs_in_range(m.remove(drawn(m, rng))),
        m.remove(drawn(m, rng)).len() == m.len() - 1,
{
    lemma_len_is_count_upto(m);
    let k = (xorshift(rng) as nat) % m.len();
    lemma_position(m, k, COST_MAX as nat);
    let c = drawn(m, rng);
    assert(lies_at(m, k, c));
    assert forall|d: u32| m.remove(c).count(d) > 0 implies 1 <= d <= COST_MAX by {
        assert(m.count(d) >= m.remove(c).count(d));
    }
}

/// A card put in and taken out again leaves the multiset as it was.
pub proof fn lemma_insert_remove(m: Multiset<u32>, cost: u32)
    ensures
        m.insert(cost).remove(cost) == m,
        m.insert(cost).remove(cost).len() == m.len(),
        forall|c: u32| m.insert(cost).remove(cost).count(c) == m.count(c),
{
    assert(m.insert(cost).remove(cost) =~= m);
}

/// Made-up cards have costs from 1 to `COST_MAX`, and each is one card more.
pub proof fn lemma_random_add(m: Multiset<u32>, rng: u32, n: nat)
    requires
        costs_in_range(m),
    ensures
        costs_in_range(random_add_spec(m, rng, n).0),
        random_add_spec(m, rng, n).0.len() == m.len() + n,
    decreases n,
{
    if n > 0 {
        lemma_random_add(m, rng, (n - 1) as nat);
    }
}

/// Changing cards keeps their number, and the costs from 1 to `COST_MAX`.
pub proof fn lemma_random_change(m: Multiset<u32>, rng: u32, n: nat)
    requires
        costs_in_range(m),
        n > 0 ==> m.len() > 0,
    ensures
        costs_in_range(random_change_spec(m, rng, n).0),
        random_change_spec(m, rng, n).0.len() == m.len(),
    decreases n,
{
    if n > 0 {
        lemma_random_change(m, rng, (n - 1) as nat);
        let before = random_change_spec(m, rng, (n - 1) as nat);
        lemma_drawn(before.0, before.1);
    }
}

/// Exchanging cards keeps the number of cards on either side, the costs from 1 to
/// `COST_MAX`, and the cards of both sides taken together.
pub proof fn lemma_random_exchange(a: Multiset<u32>, b: Multiset<u32>, rng: u32, n: nat)
    requires
        costs_in_range(a),
        costs_in_range(b),
        n > 0 ==> a.len() > 0,
    ensures
        costs_in_range(random_exchange_spec(a, b, rng, n).0),
        costs_in_range(random_exchange_spec(a, b, rng, n).1),
        random_exchange_spec(a, b, rng, n).0.len() == a.len(),
        random_exchange_spec(a, b, rng, n).1.len() == b.len(),
        random_exchange_spec(a, b, rng, n).0.add(random_exchange_spec(a, b, rng, n).1) == a.add(b),
    decreases n,
{
    if n > 0 {
        lemma_random_exchange(a, b, rng, (n - 1) as nat);
        let before = random_exchange_spec(a, b, rng, (n - 1) as nat);
        lemma_drawn(before.0, before.2);
        let to_b = drawn(before.0, before.2);
        let b2 = before.1.insert(to_b);
        lemma_drawn(b2, xorshift(before.2));
        let to_a = drawn(b2, xorshift(before.2));
        assert(before.0.remove(to_b).insert(to_a).add(b2.remove(to_a)) =~= before.0.add(before.1));
    }
}

/// Splitting `n` cards off takes exactly `n` cards, and what stays and what was taken
/// are together what was there.
pub proof fn lemma_split(m: Multiset<u32>, rng: u32, n: nat)
    requires
        costs_in_range(m),
        n <= m.len(),
    ensures
        costs_in_range(split_spec(m, rng, n).0),
        costs_in_range(split_spec(m, rng, n).1),
        split_spec(m, rng, n).1.len() == n,
        split_spec(m, rng, n).0.len() == m.len() - n,
        split_spec(m, rng, n).0.add(split_spec(m, rng, n).1) == m,
    decreases n,
{
    if n > 0 {
        lemma_split(m, rng, (n - 1) as nat);
        let before = split_spec(m, rng, (n - 1) as nat);
        lemma_drawn(before.0, before.2);
        let c = drawn(before.0, before.2);
        assert(before.0.remove(c).add(before.1.insert(c)) =~= before.0.add(before.1));
    }
}

/// A multiset of costs from 1 to `COST_MAX`; its view is that multiset.
#[derive(Debug, PartialEq, Eq, Hash, PartialOrd, Ord)]
pub struct Cards {
    nums: [u32; 10],
    size: u32,
}

impl View for Cards {
    type V = Multiset<u32>;

    closed spec fn view(&self) -> Multiset<u32> {
        bag(self.nums@, 10)
    }
}

impl Clone for Cards {
    fn clone(&self) -> (c: Cards)
        ensures
            c == *self,
    {
        proof {
            use_type_invariant(self);
        }
        Cards { nums: self.nums, size: self.size }
    }
}

impl Cards {
    #[verifier::type_invariant]
    spec fn inv(self) -> bool {
        self.size == total(self.nums@, 10)
    }

    /// The view holds only costs from 1 to `COST_MAX`, and its cards are counted by `count_upto`.
    pub proof fn lemma_view(self)
        ensures
            costs_in_range(self@),
            self@.len() == count_upto(self@, COST_MAX as nat),
    {
        lemma_bag(self.nums@, 10);
        lemma_bag_upto(self.nums@, 10, 10);
    }

    /// The empty multiset.
    pub fn new() -> (c: Cards)
        ensures
            c@ == Multiset::<u32>::empty(),
    {
        let nums: [u32; 10] = [0u32;10];
        proof {
            lemma_total_zero(nums@, 10);
        }
        let c = Cards { nums, size: 0 };
        proof {
            lemma_bag(c.nums@, 10);
            assert(c@ =~= Multiset::<u32>::empty());
        }
        c
    }

    /// The number of cards.
    pub fn size(&self) -> (n: u32)
        ensures
            n == self@.len(),
    {
        proof {
            use_type_invariant(self);
            lemma_bag(self.nums@, 10);
        }
        self.size
    }

    /// The number of cards of the given cost; none where the cost is no cost of a card.
    pub fn count(&self, cost: u32) -> (n: u32)
        ensures
            n == self@.count(cost),
    {
        proof {
            lemma_bag(self.nums@, 10);
        }
        if 1 <= cost && cost <= COST_MAX {
            self.nums[(cost - 1) as usize]
        } else {
            0
        }
    }

    /// Whether the two multisets hold the same cards.
    pub fn same_as(&self, other: &Cards) -> (same: bool)
        ensures
            same == (self@ == other@),
    {
        proof {
            lemma_bag(self.nums@, 10);
            lemma_bag(other.nums@, 10);
        }
        let mut i: usize = 0;
        while i < 10
            invariant
                i <= 10,
                forall|j: int| 0 <= j < i ==> self.nums@[j] == other.nums@[j],
                forall|c: u32| 1 <= c <= 10 ==> self@.count(c) == self.nums@[c - 1],
                forall|c: u32| 1 <= c <= 10 ==> other@.count(c) == other.nums@[c - 1],
            decreases 10 - i,
        {
            if self.nums[i] != other.nums[i] {
                assert(self@.count((i + 1) as u32) != other@.count((i + 1) as u32));
                return false;
            }
            i = i + 1;
        }
        assert(self.nums@ =~= other.nums@);
        true
    }

    /// Puts one card of the given cost in.
    pub fn add(&mut self, cost: u32)
        requires
            1 <= cost <= COST_MAX,
            old(self)@.len() < u32::MAX,
        ensures
            final(self)@ == old(self)@.insert(cost),
    {
        proof {
            use_type_invariant(&*self);
            lemma_bag(self.nums@, 10);
            lemma_total_update(
                self.nums@,
                10,
                (cost - 1) as nat,
                (self.nums[cost - 1] + 1) as u32,
            );
        }
        let mut nums = self.nums;
        let i: usize = (cost - 1) as usize;
        assert(nums[i as int] <= self@.len()) by {
            assert(self@.count(cost) <= self@.len());
        }
        nums[i] = nums[i] + 1;
        *self = Cards { nums, size: self.size + 1 };
        proof {
            lemma_bag(self.nums@, 10);
            assert(self@ =~= old(self)@.insert(cost));
        }
    }
    /// Takes one card of the given cost out.
    pub fn remove(&mut self, cost: u32)
        requires
            1 <= cost <= COST_MAX,
            old(self)@.count(cost) > 0,
        ensures
            final(self)@ == old(self)@.remove(cost),
    {
        proof {
            use_type_invariant(&*self);
            lemma_bag(self.nums@, 10);
            lemma_total_update(
                self.nums@,
                10,
                (cost - 1) as nat,
                (self.nums[cost - 1] - 1) as u32,
            );
        }
        let mut nums = self.nums;
        let i: usize = (cost - 1) as usize;
        nums[i] = nums[i] - 1;
        *self = Cards { nums, size: self.size - 1 };
        proof {
            lemma_bag(self.nums@, 10);
            assert(self@ =~= old(self)@.remove(cost));
        }
    }

    /// Draws one card: each card is as likely as any other, so a cost comes with the weight
    /// of its count. The card leaves the multiset.
    pub fn draw(&mut self, rng: &mut XorRand) -> (cost: u32)
        requires
            old(self)@.len() > 0,
        ensures
            final(rng)@ == xorshift(old(rng)@),
            cost == drawn(old(self)@, old(rng)@),
            1 <= cost <= COST_MAX,
            old(self)@.count(cost) > 0,
            final(self)@ == old(self)@.remove(cost),
            final(self)@.len() == old(self)@.len() - 1,
    {
        proof {
            use_type_invariant(&*self);
            lemma_bag(self.nums@, 10);
        }
        let r: u32 = rnd(rng, self.size);
        let mut i: usize = 0;
        let mut sum: u32 = self.nums[0];
        proof {
            reveal_with_fuel(total, 2);
        }
        while sum <= r
            invariant
                i < 10,
                sum == total(self.nums@, (i + 1) as nat),
                total(self.nums@, i as nat) <= r < total(self.nums@, 10) <= u32::MAX,
            decreases 10 - i,
        {
            proof {
                lemma_total_mono(self.nums@, (i + 2) as nat, 10);
                assert(total(self.nums@, (i + 2) as nat) == total(self.nums@, (i + 1) as nat)
                    + self.nums@[i + 1]);
            }
            i = i + 1;
            sum = sum + self.nums[i];
        }
        let cost: u32 = (i + 1) as u32;
        proof {
            lemma_bag_upto(self.nums@, 10, i as nat);
            lemma_bag_upto(self.nums@, 10, (i + 1) as nat);
            lemma_kth_card(self@, r as nat, cost);
        }
        self.remove(cost);
        cost
    }

    /// The largest cost of a card here that is at most `cost`, if there is one.
    pub fn less_than(&self, cost: u32) -> (found: Option<u32>)
        ensures
            found == largest_fit(self@, cost as nat),
            found matches Some(c) ==> 1 <= c <= cost && c <= COST_MAX && self@.count(c) > 0
                && forall|d: u32| c < d <= cost ==> self@.count(d) == 0,
            found is None <==> forall|d: u32| 1 <= d <= cost ==> self@.count(d) == 0,
    {
        proof {
            lemma_bag(self.nums@, 10);
            lemma_largest_fit(self@, cost as nat);
            if cost >= COST_MAX {
                lemma_largest_fit_clamp(self@, cost as nat);
            }
        }
        let mut c: u32 = if cost > COST_MAX {
            COST_MAX
        } else {
            cost
        };
        while c > 0
            invariant
                c <= COST_MAX,
                c <= cost,
                largest_fit(self@, c as nat) == largest_fit(self@, cost as nat),
                forall|d: u32| 1 <= d <= COST_MAX ==> self@.count(d) == self.nums@[d - 1],
            decreases c,
        {
            if self.nums[(c - 1) as usize] > 0 {
                proof {
                    lemma_bag(self.nums@, 10);
                    lemma_largest_fit(self@, cost as nat);
                }
                return Some(c);
            }
            c = c - 1;
        }
        None
    }

    /// Spends `cost` greedily: as long as a card fits into what is left, the dearest such
    /// card is played. Returns what could not be spent.
    pub fn play(&mut self, cost: u32) -> (rest: u32)
        ensures
            final(self)@ == greedy_play(old(self)@, cost as nat).0,
            rest == greedy_play(old(self)@, cost as nat).1,
            rest <= cost,
            final(self)@.subset_of(old(self)@),
            cost_sum(old(self)@) == cost_sum(final(self)@) + (cost - rest),
            forall|d: u32| 1 <= d <= rest ==> final(self)@.count(d) == 0,
    {
        proof {
            lemma_greedy_play(self@, cost as nat);
            lemma_greedy_play_spends(self@, cost as nat);
        }
        let mut rest: u32 = cost;
        while rest > 0
            invariant
                rest <= cost,
                greedy_play(self@, rest as nat) == greedy_play(old(self)@, cost as nat),
            ensures
                greedy_play(old(self)@, cost as nat) == (self@, rest as nat),
            decreases rest,
        {
            match self.less_than(rest) {
                Some(c) => {
                    self.remove(c);
                    rest = rest - c;
                },
                None => {
                    break ;
                },
            }
        }
        proof {
            self.lemma_view();
        }
        rest
    }

    /// Puts `n` made-up cards in, each with a cost drawn evenly from 1 to `COST_MAX`.
    pub fn random_add(&mut self, n: u32, rng: &mut XorRand)
        requires
            old(self)@.len() + n <= u32::MAX,
        ensures
            (final(self)@, final(rng)@) == random_add_spec(old(self)@, old(rng)@, n as nat),
            final(self)@.len() == old(self)@.len() + n,
    {
        let mut i: u32 = 0;
        while i < n
            invariant
                i <= n,
                old(self)@.len() + n <= u32::MAX,
                self@.len() == old(self)@.len() + i,
                (self@, rng@) == random_add_spec(old(self)@, old(rng)@, i as nat),
            decreases n - i,
        {
            let c: u32 = rnd(rng, COST_MAX) + 1;
            self.add(c);
            i = i + 1;
        }
    }

    /// A copy in which `n` times a card was drawn and thrown away and a made-up card put in.
    pub fn random_change(&self, n: u32, rng: &mut XorRand) -> (deck: Cards)
        requires
            self@.len() >= n,
        ensures
            (deck@, final(rng)@) == random_change_spec(self@, old(rng)@, n as nat),
            deck@.len() == self@.len(),
    {
        let mut deck = self.clone();
        let mut i: u32 = 0;
        proof {
            use_type_invariant(self);
            lemma_bag(self.nums@, 10);
        }
        while i < n
            invariant
                i <= n,
                n <= self@.len() <= u32::MAX,
                deck@.len() == self@.len(),
                (deck@, rng@) == random_change_spec(self@, old(rng)@, i as nat),
            decreases n - i,
        {
            deck.draw(rng);
            deck.random_add(1, rng);
            proof {
                reveal_with_fuel(random_add_spec, 2);
            }
            i = i + 1;
        }
        deck
    }

    /// `n` times: a card drawn here goes to `other`, then a card drawn from `other` comes
    /// here.
    pub fn random_exchange(&mut self, other: &mut Cards, n: u32, rng: &mut XorRand)
        requires
            n > 0 ==> old(self)@.len() > 0 && old(other)@.len() < u32::MAX,
        ensures
            (final(self)@, final(other)@, final(rng)@) == random_exchange_spec(
                old(self)@,
                old(other)@,
                old(rng)@,
                n as nat,
            ),
            final(self)@.len() == old(self)@.len(),
            final(other)@.len() == old(other)@.len(),
            final(self)@.add(final(other)@) == old(self)@.add(old(other)@),
    {
        let mut i: u32 = 0;
        while i < n
            invariant
                i <= n,
                n > 0 ==> old(self)@.len() > 0 && old(other)@.len() < u32::MAX,
                self@.len() == old(self)@.len(),
                other@.len() == old(other)@.len(),
                self@.add(other@) =~= old(self)@.add(old(other)@),
                (self@, other@, rng@) == random_exchange_spec(
                    old(self)@,
                    old(other)@,
                    old(rng)@,
                    i as nat,
                ),
            decreases n - i,
        {
            proof {
                use_type_invariant(&*self);
                lemma_bag(self.nums@, 10);
            }
            let to_other: u32 = self.draw(rng);
            other.add(to_other);
            let to_here: u32 = other.draw(rng);
            self.add(to_here);
            i = i + 1;
        }
    }

    /// Draws `n` cards and returns them as a multiset of their own.
    pub fn split(&mut self, n: u32, rng: &mut XorRand) -> (deck: Cards)
        requires
            old(self)@.len() >= n,
        ensures
            (final(self)@, deck@, final(rng)@) == split_spec(old(self)@, old(rng)@, n as nat),
            deck@.len() == n,
            final(self)@.len() == old(self)@.len() - n,
            final(self)@.add(deck@) == old(self)@,
    {
        let mut deck = Cards::new();
        let mut i: u32 = 0;
        while i < n
            invariant
                i <= n,
                old(self)@.len() >= n,
                deck@.len() == i,
                self@.len() == old(self)@.len() - i,
                self@.add(deck@) =~= old(self)@,
                (self@, deck@, rng@) == split_spec(old(self)@, old(rng)@, i as nat),
            decreases n - i,
        {
            let c: u32 = self.draw(rng);
            deck.add(c);
            i = i + 1;
        }
        deck
    }
}

/// The sum of the first counters grows with their number.
proof fn lemma_total_mono(counts: Seq<u32>, a: nat, b: nat)
    requires
        a <= b,
    ensures
        total(counts, a) <= total(counts, b),
    decreases b,
{
    if a < b {
        lemma_total_mono(counts, a, (b - 1) as nat);
    }
}

/// Counters that are all zero sum to zero.
proof fn lemma_total_zero(counts: Seq<u32>, k: nat)
    requires
        k <= counts.len(),
        forall|i: int| 0 <= i < k ==> counts[i] == 0,
    ensures
        total(counts, k) == 0,
    decreases k,
{
    if k > 0 {
        lemma_total_zero(counts, (k - 1) as nat);
    }
}

/// Changing one counter changes the sum by the difference.
proof fn lemma_total_update(counts: Seq<u32>, k: nat, i: nat, v: u32)
    requires
        k <= counts.len(),
        i < counts.len(),
    ensures
        total(counts.update(i as int, v), k) == if i < k {
            total(counts, k) - counts[i as int] + v
        } else {
            total(counts, k) as int
        },
    decreases k,
{
    if k > 0 {
        lemma_total_update(counts, (k - 1) as nat, i, v);
    }
}

} // verus!

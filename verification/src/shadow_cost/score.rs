//! A running mean of losses, kept as a sample count and a summed loss.
use vstd::prelude::*;
use std::cmp::Ordering;

verus! {

/// A running statistic as a mathematical value: the number of samples and their summed
/// loss. Its mean loss is the fraction `loss / samples`.
pub struct Mean {
    pub samples: nat,
    pub loss: nat,
}

impl Mean {
    /// The statistic with a batch of `samples` samples and summed loss `loss` folded in.
    pub open spec fn plus(self, samples: nat, loss: nat) -> Mean {
        Mean { samples: self.samples + samples, loss: self.loss + loss }
    }

    /// The mean loss of `self` is smaller than that of `other`; both have a sample.
    pub open spec fn below(self, other: Mean) -> bool {
        self.loss * other.samples < other.loss * self.samples
    }

    /// The mean loss of `self` is that of `other`; both have a sample.
    pub open spec fn level(self, other: Mean) -> bool {
        self.loss * other.samples == other.loss * self.samples
    }
}

/// Two batches folded in one after the other give what one batch of their sums gives,
/// whichever of the two came first; so the mean loss is the same in all three cases.
pub proof fn lemma_plus_combines(s: Mean, c1: nat, l1: nat, c2: nat, l2: nat)
    ensures
        s.plus(c1, l1).plus(c2, l2) == s.plus(c1 + c2, l1 + l2),
        s.plus(c1, l1).plus(c2, l2) == s.plus(c2, l2).plus(c1, l1),
        s.plus(c1, l1).plus(c2, l2).level(s.plus(c1 + c2, l1 + l2)),
        s.plus(c1, l1).plus(c2, l2).level(s.plus(c2, l2).plus(c1, l1)),
{
}

/// Of two statistics with a sample each, exactly one holds: the first is below the
/// second, they are level, or the second is below the first.
pub proof fn lemma_below_total(a: Mean, b: Mean)
    ensures
        a.below(b) || a.level(b) || b.below(a),
        !(a.below(b) && a.level(b)),
        !(a.below(b) && b.below(a)),
        !(a.level(b) && b.below(a)),
        a.level(b) == b.level(a),
{
}

/// The order by mean loss is transitive, and being level carries an order over.
pub proof fn lemma_below_transitive(a: Mean, b: Mean, c: Mean)
    requires
        a.samples > 0,
        b.samples > 0,
        c.samples > 0,
    ensures
        a.below(b) && b.below(c) ==> a.below(c),
        a.below(b) && b.level(c) ==> a.below(c),
        a.level(b) && b.below(c) ==> a.below(c),
        a.level(b) && b.level(c) ==> a.level(c),
{
    let (al, an) = (a.loss as int, a.samples as int);
    let (bl, bn) = (b.loss as int, b.samples as int);
    let (cl, cn) = (c.loss as int, c.samples as int);
    assert((al * bn) * cn == (al * cn) * bn) by (nonlinear_arith);
    assert((bl * an) * cn == (bl * cn) * an) by (nonlinear_arith);
    assert((cl * bn) * an == (cl * an) * bn) by (nonlinear_arith);
    assert(al * bn < bl * an ==> (al * bn) * cn < (bl * an) * cn) by (nonlinear_arith)
        requires
            cn > 0,
    ;
    assert(al * bn == bl * an ==> (al * bn) * cn == (bl * an) * cn) by (nonlinear_arith);
    assert(bl * cn < cl * bn ==> (bl * cn) * an < (cl * bn) * an) by (nonlinear_arith)
        requires
            an > 0,
    ;
    assert(bl * cn == cl * bn ==> (bl * cn) * an == (cl * bn) * an) by (nonlinear_arith);
    assert((al * cn) * bn < (cl * an) * bn ==> al * cn < cl * an) by (nonlinear_arith)
        requires
            bn > 0,
    ;
    assert((al * cn) * bn == (cl * an) * bn ==> al * cn == cl * an) by (nonlinear_arith)
        requires
            bn > 0,
    ;
}

/// A running mean of losses; its view is the statistic it has reached.
#[derive(Debug, PartialEq, Eq, Hash)]
pub struct Score {
    count: u32,
    loss: u64,
}

impl View for Score {
    type V = Mean;

    closed spec fn view(&self) -> Mean {
        Mean { samples: self.count as nat, loss: self.loss as nat }
    }
}

impl Clone for Score {
    fn clone(&self) -> (s: Score)
        ensures
            s == *self,
    {
        Score { count: self.count, loss: self.loss }
    }
}

/// The product of a summed loss and a sample count, which fits 128 bits.
fn cross(loss: u64, count: u32) -> (p: u128)
    ensures
        p == loss * count,
{
    assert(loss * count <= 0xffff_ffff_ffff_ffff * 0xffff_ffff) by (nonlinear_arith)
        requires
            loss <= 0xffff_ffff_ffff_ffff,
            count <= 0xffff_ffff,
    ;
    (loss as u128) * (count as u128)
}

impl Score {
    /// The statistic of no samples.
    pub fn new() -> (s: Score)
        ensures
            s@ == (Mean { samples: 0, loss: 0 }),
    {
        Score { count: 0, loss: 0 }
    }

    /// Folds in a batch of `count` samples whose losses sum to `loss`.
    pub fn add(&mut self, count: u32, loss: u32)
        requires
            old(self)@.samples + count <= u32::MAX,
            old(self)@.loss + loss <= u64::MAX,
        ensures
            final(self)@ == old(self)@.plus(count as nat, loss as nat),
    {
        self.count = self.count + count;
        self.loss = self.loss + loss as u64;
    }

    /// The number of samples.
    pub fn count(&self) -> (n: u32)
        ensures
            n == self@.samples,
    {
        self.count
    }

    /// The summed loss of all samples.
    pub fn loss(&self) -> (l: u64)
        ensures
            l == self@.loss,
    {
        self.loss
    }

    /// Orders two statistics by their mean loss, the smaller first; both need a sample.
    pub fn cmp(&self, other: &Score) -> (o: Ordering)
        requires
            self@.samples > 0,
            other@.samples > 0,
        ensures
            o == Ordering::Less <==> self@.below(other@),
            o == Ordering::Equal <==> self@.level(other@),
            o == Ordering::Greater <==> other@.below(self@),
    {
        let mine: u128 = cross(self.loss, other.count);
        let theirs: u128 = cross(other.loss, self.count);
        if mine > theirs {
            Ordering::Greater
        } else if mine < theirs {
            Ordering::Less
        } else {
            Ordering::Equal
        }
    }
}

} // verus!

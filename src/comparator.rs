//! Ordering strategies: which of two items should be emitted first.
use core::cmp::Ordering;
use std::marker::PhantomData;
use vstd::prelude::*;
use vstd::relations::total_ordering;
use vstd::std_specs::cmp::OrdSpec;

verus! {

/// A strategy that compares two items of a tournament to decide which one
/// wins, that is, is emitted first. `Ordering::Less` means the first operand
/// wins; `Ordering::Equal` is a draw, and either contestant may win.
pub trait Comparator<I> {
    /// The order this strategy stands for. A strategy that does not state
    /// it declares every two items a draw.
    open spec fn spec_cmp(&self, a: I, b: I) -> Ordering {
        Ordering::Equal
    }

    /// Whether `cmp` is known to compute `spec_cmp`. A strategy that does
    /// not state its order makes no such claim.
    open spec fn lawful(&self) -> bool {
        false
    }

    fn cmp(&self, a: &I, b: &I) -> (r: Ordering)
        ensures
            self.lawful() ==> r == self.spec_cmp(*a, *b),
    ;
}

/// `a` may be emitted no later than `b`: `b` does not beat `a`.
pub open spec fn wins<I, C: Comparator<I>>(c: C, a: I, b: I) -> bool {
    c.spec_cmp(a, b) != Ordering::Greater
}

/// The strategy is a total preorder: every two items are comparable, the
/// order is transitive, and it is antisymmetric in its results.
pub open spec fn total_preorder<I, C: Comparator<I>>(c: C) -> bool {
    &&& forall|a: I, b: I| #[trigger] c.spec_cmp(a, b) == Ordering::Less <==> c.spec_cmp(b, a) == Ordering::Greater
    &&& forall|a: I, b: I| #[trigger] c.spec_cmp(a, b) == Ordering::Equal <==> c.spec_cmp(b, a) == Ordering::Equal
    &&& forall|a: I, b: I, d: I| #[trigger] wins(c, a, b) && #[trigger] wins(c, b, d) ==> wins(c, a, d)
}

/// A strategy under which the smaller of two items wins.
#[derive(Copy)]
pub struct MinComparator<I: Ord> {
    _p: PhantomData<I>,
}

impl<I: Ord> Default for MinComparator<I> {
    fn default() -> (r: Self) {
        MinComparator { _p: PhantomData }
    }
}

impl<I: Ord> Clone for MinComparator<I> {
    fn clone(&self) -> (r: Self) {
        MinComparator { _p: PhantomData }
    }
}

impl<I: Ord> Comparator<I> for MinComparator<I> {
    open spec fn spec_cmp(&self, a: I, b: I) -> Ordering {
        a.cmp_spec(&b)
    }

    open spec fn lawful(&self) -> bool {
        I::obeys_cmp_spec()
    }

    fn cmp(&self, a: &I, b: &I) -> (r: Ordering) {
        a.cmp(b)
    }
}

/// A strategy under which the larger of two items wins.
#[derive(Copy)]
pub struct MaxComparator<I: Ord> {
    _p: PhantomData<I>,
}

impl<I: Ord> Default for MaxComparator<I> {
    fn default() -> (r: Self) {
        MaxComparator { _p: PhantomData }
    }
}

impl<I: Ord> Clone for MaxComparator<I> {
    fn clone(&self) -> (r: Self) {
        MaxComparator { _p: PhantomData }
    }
}

impl<I: Ord> Comparator<I> for MaxComparator<I> {
    open spec fn spec_cmp(&self, a: I, b: I) -> Ordering {
        b.cmp_spec(&a)
    }

    open spec fn lawful(&self) -> bool {
        I::obeys_cmp_spec()
    }

    fn cmp(&self, a: &I, b: &I) -> (r: Ordering) {
        b.cmp(a)
    }
}

/// On `u64` the ascending strategy is lawful, is the integer order, and is
/// a total preorder.
pub proof fn lemma_min_u64(c: MinComparator<u64>)
    ensures
        c.lawful(),
        total_preorder(c),
        forall|a: u64, b: u64| #[trigger] wins(c, a, b) <==> a <= b,
        total_ordering(|a: u64, b: u64| wins(c, a, b)),
{
}


/// On `u64` the descending strategy is lawful, is the reversed integer
/// order, and is a total preorder.
pub proof fn lemma_max_u64(c: MaxComparator<u64>)
    ensures
        c.lawful(),
        total_preorder(c),
        forall|a: u64, b: u64| #[trigger] wins(c, a, b) <==> a >= b,
        total_ordering(|a: u64, b: u64| wins(c, a, b)),
{
}


/// `cmp` computes the strategy's order, and that order is a total preorder:
/// what the merge needs to emit its items in order.
pub open spec fn consistent<I, C: Comparator<I>>(c: C) -> bool {
    c.lawful() && total_preorder(c)
}

} // verus!

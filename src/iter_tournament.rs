//! The eager engine: merges sources of owned items and hands out owned
//! items one at a time.
use core::cmp::Ordering;
use vstd::multiset::Multiset;
use vstd::prelude::*;

use crate::comparator::{consistent, wins, Comparator, MaxComparator, MinComparator};
use crate::merge::{
    all_sorted, exhausted, is_winner, items, leads, lemma_leads_first, lemma_leads_keep,
    lemma_leads_switch, lemma_exhausted_counts, lemma_step_counts,
    lemma_winner_wins_all, sorted_by, step, total, wins_all,
};

verus! {

broadcast use vstd::seq_lib::group_to_multiset_ensures;

/// The items of each source, in order.
pub open spec fn views<I>(v: Seq<Vec<I>>) -> Seq<Seq<I>> {
    Seq::new(v.len(), |i: int| v[i]@)
}

/// The items a source still holds: its pending entry, then its remaining
/// continuation (stored back to front, so that the next item is the last).
pub open spec fn pending_of<I>(head: Option<I>, rest: Seq<I>) -> Seq<I> {
    match head {
        Some(x) => seq![x] + rest.reverse(),
        None => Seq::empty(),
    }
}

/// `v` in reverse order.
fn reversed<T>(v: Vec<T>) -> (r: Vec<T>)
    ensures
        r@ == v@.reverse(),
{
    let mut src = v;
    let mut r: Vec<T> = Vec::new();
    while src.len() > 0
        invariant
            r@ + src@.reverse() == v@.reverse(),
        decreases src.len(),
    {
        let ghost s0 = src@;
        let x = src.pop().unwrap();
        proof {
            assert(s0.reverse() =~= seq![x] + src@.reverse());
        }
        r.push(x);
        assert(r@ + src@.reverse() =~= v@.reverse());
    }
    assert(src@.reverse() =~= Seq::<T>::empty());
    assert(r@ =~= r@ + src@.reverse());
    r
}

/// A tournament that merges sources of owned items.
///
/// `tree[i]` is the pending entry of source `i`: its next item, pulled from
/// it ahead of time, or `None` once the source is exhausted. `results[i]` is
/// what is left of source `i` after that entry, next item last.
pub struct Tournament<I, C> {
    tree: Vec<Option<I>>,
    results: Vec<Vec<I>>,
    comparator: C,
}

impl<I, C: Comparator<I>> Tournament<I, C> {
    /// A source without a pending entry holds nothing more.
    pub closed spec fn wf(&self) -> bool {
        &&& self.tree.len() == self.results.len()
        &&& forall|i: int| 0 <= i < self.tree.len() && (#[trigger] self.tree[i]) is None ==> self.results[i].len() == 0
    }

    /// The items each source has left, in order.
    pub closed spec fn sources(&self) -> Seq<Seq<I>> {
        Seq::new(self.tree.len() as nat, |i: int| pending_of(self.tree[i], self.results[i]@))
    }

    pub closed spec fn strategy(&self) -> C {
        self.comparator
    }

    /// Creates a tournament over `iters`, whose items are emitted in the order
    /// of `comparator`. Each source must be sorted by it, or the order of
    /// the output is unspecified.
    pub fn from_iters(iters: Vec<Vec<I>>, comparator: C) -> (r: Self)
        ensures
            r.wf(),
            r.sources() == views(iters@),
            r.strategy() == comparator,
    {
        let ghost orig = views(iters@);
        let mut srcs = reversed(iters);
        let mut tree: Vec<Option<I>> = Vec::new();
        let mut results: Vec<Vec<I>> = Vec::new();
        while srcs.len() > 0
            invariant
                tree.len() == results.len(),
                tree.len() + srcs.len() == orig.len(),
                forall|i: int| 0 <= i < tree.len() && (#[trigger] tree[i]) is None ==> results[i].len() == 0,
                forall|i: int| 0 <= i < tree.len() ==> pending_of(#[trigger] tree[i], results[i]@) == orig[i],
                forall|i: int| 0 <= i < srcs.len() ==> (#[trigger] srcs[i])@ == orig[orig.len() - 1 - i],
            decreases srcs.len(),
        {
            let s = srcs.pop().unwrap();
            let ghost n = tree.len() as int;
            assert(s@ == orig[n]);
            let mut rest = reversed(s);
            let head = rest.pop();
            proof {
                if s@.len() > 0 {
                    assert(s@ =~= seq![head.unwrap()] + rest@.reverse());
                } else {
                    assert(s@ =~= Seq::<I>::empty());
                }
            }
            tree.push(head);
            results.push(rest);
        }
        let r = Tournament { tree, results, comparator };
        assert(r.sources() =~= orig);
        r
    }

    /// The source whose pending entry wins the round, or `None` when every
    /// source is exhausted.
    fn winner(&self) -> (r: Option<usize>)
        requires
            self.wf(),
        ensures
            r is None <==> exhausted(self.sources()),
            r matches Some(b) ==> b < self.tree.len() && self.sources()[b as int].len() > 0,
            r matches Some(b) ==> (consistent(self.comparator) ==> is_winner(self.comparator, self.sources(), b as int)),
    {
        let ghost ss = self.sources();
        let mut best: Option<usize> = None;
        let mut i: usize = 0;
        while i < self.tree.len()
            invariant
                self.wf(),
                ss == self.sources(),
                i <= self.tree.len(),
                best is None ==> forall|j: int| 0 <= j < i ==> (#[trigger] ss[j]).len() == 0,
                best matches Some(b) ==> b < i && self.tree[b as int] is Some,
                best matches Some(b) ==> (consistent(self.comparator) ==> leads(self.comparator, ss, b as int, i as int)),
            decreases self.tree.len() - i,
        {
            let ghost c = self.comparator;
            if let Some(item) = &self.tree[i] {
                assert(ss[i as int][0] == *item);
                match best {
                    None => {
                        proof {
                            if consistent(c) {
                                lemma_leads_first(c, ss, i as int);
                            }
                        }
                        best = Some(i);
                    },
                    Some(b) => {
                        if let Some(held) = &self.tree[b] {
                            assert(ss[b as int][0] == *held);
                            match self.comparator.cmp(item, held) {
                                Ordering::Less => {
                                    proof {
                                        if consistent(c) {
                                            lemma_leads_switch(c, ss, b as int, i as int);
                                        }
                                    }
                                    best = Some(i);
                                },
                                _ => {
                                    proof {
                                        if consistent(c) {
                                            lemma_leads_keep(c, ss, b as int, i as int);
                                        }
                                    }
                                },
                            }
                        }
                    },
                }
            } else {
                proof {
                    if best is Some && consistent(c) {
                        lemma_leads_keep(c, ss, best.unwrap() as int, i as int);
                    }
                }
            }
            i = i + 1;
        }
        proof {
            if let Some(b) = best {
                assert(ss[b as int].len() > 0);
            }
        }
        best
    }

    /// Emits the next item: the first item of the winning source, which then
    /// moves on by one. Once every source is exhausted it returns `None` and
    /// changes nothing, and keeps doing so.
    pub fn next(&mut self) -> (r: Option<I>)
        requires
            old(self).wf(),
        ensures
            final(self).wf(),
            final(self).strategy() == old(self).strategy(),
            r is None <==> exhausted(old(self).sources()),
            r is None ==> final(self).sources() == old(self).sources(),
            r matches Some(x) ==> exists|b: int|
                0 <= b < old(self).sources().len()
                && old(self).sources()[b].len() > 0
                && x == #[trigger] old(self).sources()[b][0]
                && final(self).sources() == step(old(self).sources(), b)
                && (consistent(old(self).strategy()) ==> is_winner(old(self).strategy(), old(self).sources(), b)),
    {
        let ghost ss = self.sources();
        match self.winner() {
            None => None,
            Some(b) => {
                let mut slot = self.results[b].pop();
                std::mem::swap(&mut self.tree[b], &mut slot);
                proof {
                    assert(slot == old(self).tree[b as int]);
                    assert(ss[b as int][0] == slot.unwrap());
                    let t = self.sources();
                    assert(t =~= step(ss, b as int)) by {
                        let rest = old(self).results[b as int]@;
                        if rest.len() > 0 {
                            assert(ss[b as int].drop_first() =~= seq![rest.last()] + rest.drop_last().reverse());
                        } else {
                            assert(ss[b as int].drop_first() =~= Seq::<I>::empty());
                        }
                    }
                }
                slot
            },
        }
    }

    /// Emits every item left, in merge order. When the strategy is lawful and
    /// a total preorder and every source is sorted by it, the result is
    /// sorted by it too; in any case it holds exactly the items the sources
    /// had left, and the tournament is exhausted afterwards.
    pub fn collect_all(&mut self) -> (r: Vec<I>)
        requires
            old(self).wf(),
        ensures
            final(self).wf(),
            final(self).strategy() == old(self).strategy(),
            exhausted(final(self).sources()),
            r@.len() == total(old(self).sources()),
            r@.to_multiset() == items(old(self).sources()),
            consistent(old(self).strategy()) && all_sorted(old(self).strategy(), old(self).sources())
                ==> sorted_by(old(self).strategy(), r@),
    {
        let ghost c = self.comparator;
        let ghost ss0 = self.sources();
        let mut out: Vec<I> = Vec::new();
        loop
            invariant
                self.wf(),
                self.strategy() == c,
                out@.len() + total(self.sources()) == total(ss0),
                out@.to_multiset().add(items(self.sources())) == items(ss0),
                consistent(c) && all_sorted(c, ss0) ==> {
                    &&& all_sorted(c, self.sources())
                    &&& sorted_by(c, out@)
                    &&& forall|a: int| 0 <= a < out@.len() ==> wins_all(c, #[trigger] out@[a], self.sources())
                },
            ensures
                self.wf(),
                self.strategy() == c,
                exhausted(self.sources()),
                out@.len() == total(ss0),
                out@.to_multiset() == items(ss0),
                consistent(c) && all_sorted(c, ss0) ==> sorted_by(c, out@),
            decreases total(self.sources()),
        {
            let ghost before = self.sources();
            match self.next() {
                None => {
                    proof {
                        lemma_exhausted_counts(before);
                        assert(out@.to_multiset().add(items(before)) =~= out@.to_multiset());
                    }
                    break;
                },
                Some(x) => {
                    let ghost b = choose|b: int|
                        0 <= b < before.len()
                        && before[b].len() > 0
                        && x == #[trigger] before[b][0]
                        && self.sources() == step(before, b)
                        && (consistent(c) ==> is_winner(c, before, b));
                    proof {
                        lemma_step_counts(before, b);
                        if consistent(c) && all_sorted(c, ss0) {
                            lemma_winner_wins_all(c, before, b);
                            assert forall|a: int| 0 <= a < out@.len() implies wins(c, #[trigger] out@[a], x) by {
                                assert(wins_all(c, out@[a], before));
                            }
                            assert forall|a: int| 0 <= a < out@.len() implies wins_all(c, #[trigger] out@[a], self.sources()) by {
                                assert(wins_all(c, out@[a], before));
                                let t = self.sources();
                                assert forall|j: int, k: int| 0 <= j < t.len() && 0 <= k < t[j].len() implies wins(c, out@[a], #[trigger] t[j][k]) by {
                                    if j == b {
                                        assert(t[j][k] == before[j][k + 1]);
                                    } else {
                                        assert(t[j][k] == before[j][k]);
                                    }
                                }
                            }
                        }
                    }
                    let ghost prev = out@;
                    out.push(x);
                    proof {
                        assert(out@ == prev.push(x));
                        assert(out@.to_multiset().add(items(self.sources())) =~= items(ss0));
                        if consistent(c) && all_sorted(c, ss0) {
                            assert forall|a: int, d: int| 0 <= a < d < out@.len() implies wins(c, #[trigger] out@[a], #[trigger] out@[d]) by {
                                if d < prev.len() {
                                    assert(sorted_by(c, prev));
                                    assert(out@[a] == prev[a] && out@[d] == prev[d]);
                                } else {
                                    assert(out@[a] == prev[a]);
                                }
                            }
                        }
                    }
                },
            }
        }
        out
    }
}

impl<I: Ord> Tournament<I, MinComparator<I>> {
    /// A tournament that emits items from smallest to largest. Each source
    /// must be sorted from smallest to largest.
    pub fn from_iters_min(iters: Vec<Vec<I>>) -> (r: Self)
        ensures
            r.wf(),
            r.sources() == views(iters@),
    {
        Tournament::from_iters(iters, MinComparator::default())
    }
}

impl<I: Ord> Tournament<I, MaxComparator<I>> {
    /// A tournament that emits items from largest to smallest. Each source
    /// must be sorted from largest to smallest.
    pub fn from_iters_max(iters: Vec<Vec<I>>) -> (r: Self)
        ensures
            r.wf(),
            r.sources() == views(iters@),
    {
        Tournament::from_iters(iters, MaxComparator::default())
    }
}

} // verus!

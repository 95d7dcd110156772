//! The streaming engine: merges sources that lend out their current item,
//! which must be advanced before that item is first available.
use core::cmp::Ordering;
use vstd::prelude::*;

use crate::comparator::{consistent, Comparator, MaxComparator, MinComparator};
use crate::merge::{
    exhausted, is_winner, leads, lemma_leads_first, lemma_leads_keep, lemma_leads_switch, step,
    total,
};

verus! {

/// A source that owns its items and lends out the current one.
///
/// It starts before its first item: `advance` must be called once before
/// `get` can return anything. Once started, the current item is
/// `items[pos]`, and the source is exhausted when `pos` reaches the end.
pub struct BufferSource<I> {
    items: Vec<I>,
    started: bool,
    pos: usize,
}

impl<I> BufferSource<I> {
    pub closed spec fn wf(&self) -> bool {
        &&& self.pos <= self.items.len()
        &&& !self.started ==> self.pos == 0
    }

    /// Whether `advance` has been called.
    pub closed spec fn started(&self) -> bool {
        self.started
    }

    /// The items not yet passed over: before the first advance, all of
    /// them; after it, the current item and those after it.
    pub closed spec fn remaining(&self) -> Seq<I> {
        if !self.started {
            self.items@
        } else {
            self.items@.subrange(self.pos as int, self.items.len() as int)
        }
    }

    /// What `remaining` becomes after one more advance.
    pub open spec fn advanced(&self) -> Seq<I> {
        if !self.started() || self.remaining().len() == 0 {
            self.remaining()
        } else {
            self.remaining().drop_first()
        }
    }

    /// A source over `items`, not yet started.
    pub fn new(items: Vec<I>) -> (r: Self)
        ensures
            r.wf(),
            !r.started(),
            r.remaining() == items@,
    {
        BufferSource { items, started: false, pos: 0 }
    }

    /// Moves to the next item.
    pub fn advance(&mut self)
        requires
            old(self).wf(),
        ensures
            final(self).wf(),
            final(self).started(),
            final(self).remaining() == old(self).advanced(),
    {
        if !self.started {
            self.started = true;
        } else if self.pos < self.items.len() {
            self.pos = self.pos + 1;
        }
        assert(self.remaining() =~= old(self).advanced());
    }

    /// The current item, if the source has been started and is not
    /// exhausted.
    pub fn get(&self) -> (r: Option<&I>)
        requires
            self.wf(),
        ensures
            r is Some <==> self.started() && self.remaining().len() > 0,
            r matches Some(x) ==> *x == self.remaining()[0],
    {
        if self.started && self.pos < self.items.len() {
            Some(&self.items[self.pos])
        } else {
            None
        }
    }

    /// How many items follow the current one (all of them before the
    /// first advance), as a lower and an upper bound.
    pub fn size_hint(&self) -> (r: (usize, Option<usize>))
        requires
            self.wf(),
        ensures
            r.0 == self.advanced().len(),
            r.1 == Some(r.0),
    {
        let n: usize = if !self.started {
            self.items.len()
        } else if self.pos < self.items.len() {
            self.items.len() - self.pos - 1
        } else {
            0
        };
        (n, Some(n))
    }
}

/// A tournament that merges sources which lend out their current item.
///
/// `tree[i]` is source `i`, already advanced once; it competes with its
/// current item while it has one. `started` records whether `advance` has
/// been called on the tournament itself.
pub struct StreamingTournament<I, C> {
    started: bool,
    tree: Vec<BufferSource<I>>,
    comparator: C,
}

impl<I, C: Comparator<I>> StreamingTournament<I, C> {
    pub closed spec fn wf(&self) -> bool {
        forall|i: int| 0 <= i < self.tree.len() ==> (#[trigger] self.tree[i]).wf() && self.tree[i].started()
    }

    /// Whether `advance` has been called on the tournament.
    pub closed spec fn started(&self) -> bool {
        self.started
    }

    /// The items each source has left, its current item first.
    pub closed spec fn sources(&self) -> Seq<Seq<I>> {
        Seq::new(self.tree.len() as nat, |i: int| self.tree[i].remaining())
    }

    pub closed spec fn strategy(&self) -> C {
        self.comparator
    }

    /// Creates a tournament over `iters`, whose items are emitted in the order
    /// of `comparator`, and advances each source once. Each source must be
    /// sorted by the strategy, or the order of the output is unspecified.
    pub fn from_iters(iters: Vec<BufferSource<I>>, comparator: C) -> (r: Self)
        requires
            forall|i: int| 0 <= i < iters.len() ==> (#[trigger] iters[i]).wf(),
        ensures
            r.wf(),
            !r.started(),
            r.strategy() == comparator,
            r.sources().len() == iters.len(),
            forall|i: int| 0 <= i < iters.len() ==> r.sources()[i] == (#[trigger] iters[i]).advanced(),
    {
        let ghost orig = iters@;
        let mut tree = iters;
        let mut i: usize = 0;
        while i < tree.len()
            invariant
                tree.len() == orig.len(),
                i <= tree.len(),
                forall|j: int| 0 <= j < orig.len() ==> (#[trigger] orig[j]).wf(),
                forall|j: int| 0 <= j < i ==> (#[trigger] tree[j]).wf() && tree[j].started() && tree[j].remaining() == orig[j].advanced(),
                forall|j: int| i <= j < tree.len() ==> #[trigger] tree[j] == orig[j],
            decreases tree.len() - i,
        {
            tree[i].advance();
            i = i + 1;
        }
        StreamingTournament { started: false, tree, comparator }
    }

    /// The source whose current item wins the round, or `None` when every
    /// source is exhausted.
    fn winner(&self) -> (r: Option<usize>)
        requires
            self.wf(),
        ensures
            r is None <==> exhausted(self.sources()),
            r matches Some(b) ==> b < self.tree.len() && self.sources()[b as int].len() > 0,
            r matches Some(b) ==> (consistent(self.comparator) ==> is_winner(self.comparator, self.sources(), b as int)),
    {
        let ghost ss = self.sources();
        let ghost c = self.comparator;
        let mut best: Option<usize> = None;
        let mut i: usize = 0;
        while i < self.tree.len()
            invariant
                self.wf(),
                ss == self.sources(),
                c == self.comparator,
                i <= self.tree.len(),
                best is None ==> forall|j: int| 0 <= j < i ==> (#[trigger] ss[j]).len() == 0,
                best matches Some(b) ==> b < i && ss[b as int].len() > 0,
                best matches Some(b) ==> (consistent(c) ==> leads(c, ss, b as int, i as int)),
            decreases self.tree.len() - i,
        {
            assert(self.tree[i as int].wf());
            if let Some(item) = self.tree[i].get() {
                match best {
                    None => {
                        proof {
                            if consistent(c) {
                                lemma_leads_first(c, ss, i as int);
                            }
                        }
                        best = Some(i);
                    },
                    Some(b) => {
                        assert(self.tree[b as int].wf());
                        if let Some(held) = self.tree[b].get() {
                            match self.comparator.cmp(item, held) {
                                Ordering::Less => {
                                    proof {
                                        if consistent(c) {
                                            lemma_leads_switch(c, ss, b as int, i as int);
                                        }
                                    }
                                    best = Some(i);
                                },
                                _ => {
                                    proof {
                                        if consistent(c) {
                                            lemma_leads_keep(c, ss, b as int, i as int);
                                        }
                                    }
                                },
                            }
                        }
                    },
                }
            } else {
                proof {
                    if best is Some && consistent(c) {
                        lemma_leads_keep(c, ss, best.unwrap() as int, i as int);
                    }
                }
            }
            i = i + 1;
        }
        best
    }

    /// The first call only marks the tournament as started. Each later call
    /// moves the winning source on by one item; once every source is
    /// exhausted it changes nothing, and keeps doing so.
    pub fn advance(&mut self)
        requires
            old(self).wf(),
        ensures
            final(self).wf(),
            final(self).started(),
            final(self).strategy() == old(self).strategy(),
            !old(self).started() || exhausted(old(self).sources()) ==> final(self).sources() == old(self).sources(),
            old(self).started() && !exhausted(old(self).sources()) ==> exists|b: int|
                0 <= b < old(self).sources().len()
                && old(self).sources()[b].len() > 0
                && final(self).sources() == #[trigger] step(old(self).sources(), b)
                && (consistent(old(self).strategy()) ==> is_winner(old(self).strategy(), old(self).sources(), b)),
    {
        if !self.started {
            self.started = true;
            assert(self.sources() =~= old(self).sources());
            return;
        }
        let ghost ss = self.sources();
        match self.winner() {
            None => {},
            Some(b) => {
                assert(self.tree[b as int].wf());
                self.tree[b].advance();
                assert(self.sources() =~= step(ss, b as int));
            },
        }
    }

    /// The current item: the first item of the winning source, or `None`
    /// when every source is exhausted. It stays valid until the next
    /// advance.
    pub fn get(&self) -> (r: Option<&I>)
        requires
            self.wf(),
        ensures
            r is None <==> exhausted(self.sources()),
            r matches Some(x) ==> exists|b: int|
                0 <= b < self.sources().len()
                && self.sources()[b].len() > 0
                && *x == #[trigger] self.sources()[b][0]
                && (consistent(self.strategy()) ==> is_winner(self.strategy(), self.sources(), b)),
    {
        match self.winner() {
            None => None,
            Some(b) => {
                assert(self.tree[b as int].wf());
                let r = self.tree[b].get();
                assert(self.sources()[b as int][0] == self.tree[b as int].remaining()[0]);
                r
            },
        }
    }

    /// The number of items left over all sources, current items included,
    /// as a lower and an upper bound. The lower bound saturates at
    /// `usize::MAX`; the upper bound is `None` where the count does not fit.
    pub fn size_hint(&self) -> (r: (usize, Option<usize>))
        requires
            self.wf(),
        ensures
            r.0 == if total(self.sources()) <= usize::MAX { total(self.sources()) } else { usize::MAX as nat },
            r.1 == if total(self.sources()) <= usize::MAX { Some(total(self.sources()) as usize) } else { None },
    {
        let ghost ss = self.sources();
        let mut lower: usize = 0;
        let mut upper: Option<usize> = Some(0);
        let mut i: usize = 0;
        while i < self.tree.len()
            invariant
                self.wf(),
                ss == self.sources(),
                i <= self.tree.len(),
                lower == if total(ss.take(i as int)) <= usize::MAX { total(ss.take(i as int)) } else { usize::MAX as nat },
                upper == if total(ss.take(i as int)) <= usize::MAX { Some(total(ss.take(i as int)) as usize) } else { None },
            decreases self.tree.len() - i,
        {
            let src = &self.tree[i];
            assert(src.wf());
            let (l, u) = src.size_hint();
            let here: usize = if src.get().is_some() { 1 } else { 0 };
            assert(ss[i as int].len() == here + l);
            assert(ss.take(i + 1).drop_last() =~= ss.take(i as int));
            assert(ss.take(i + 1).last() == ss[i as int]);
            lower = lower.saturating_add(here).saturating_add(l);
            upper = match upper {
                None => None,
                Some(n) => match n.checked_add(here) {
                    None => None,
                    Some(m) => m.checked_add(l),
                },
            };
            i = i + 1;
        }
        assert(ss.take(self.tree.len() as int) =~= ss);
        (lower, upper)
    }
}

impl<I: Ord> StreamingTournament<I, MinComparator<I>> {
    /// A tournament that emits items from smallest to largest. Each source
    /// must be sorted from smallest to largest.
    pub fn from_iters_min(iters: Vec<BufferSource<I>>) -> (r: Self)
        requires
            forall|i: int| 0 <= i < iters.len() ==> (#[trigger] iters[i]).wf(),
        ensures
            r.wf(),
            !r.started(),
            r.sources().len() == iters.len(),
            forall|i: int| 0 <= i < iters.len() ==> r.sources()[i] == (#[trigger] iters[i]).advanced(),
    {
        StreamingTournament::from_iters(iters, MinComparator::default())
    }
}

impl<I: Ord> StreamingTournament<I, MaxComparator<I>> {
    /// A tournament that emits items from largest to smallest. Each source
    /// must be sorted from largest to smallest.
    pub fn from_iters_max(iters: Vec<BufferSource<I>>) -> (r: Self)
        requires
            forall|i: int| 0 <= i < iters.len() ==> (#[trigger] iters[i]).wf(),
        ensures
            r.wf(),
            !r.started(),
            r.sources().len() == iters.len(),
            forall|i: int| 0 <= i < iters.len() ==> r.sources()[i] == (#[trigger] iters[i]).advanced(),
    {
        StreamingTournament::from_iters(iters, MaxComparator::default())
    }
}

} // verus!

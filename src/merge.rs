//! The mathematical model of a `k`-way merge shared by both engines: the
//! pending items of each source, which source wins a round, and what one
//! round leaves behind.
use core::cmp::Ordering;
use vstd::multiset::Multiset;
use vstd::prelude::*;

use crate::comparator::{total_preorder, wins, Comparator};
use vstd::relations::total_ordering;

verus! {

broadcast use vstd::seq_lib::group_to_multiset_ensures;

/// Every item of `s` may be emitted no later than every item after it.
pub open spec fn sorted_by<I, C: Comparator<I>>(c: C, s: Seq<I>) -> bool {
    forall|a: int, b: int| 0 <= a < b < s.len() ==> wins(c, #[trigger] s[a], #[trigger] s[b])
}

/// Every source is sorted by the strategy.
pub open spec fn all_sorted<I, C: Comparator<I>>(c: C, ss: Seq<Seq<I>>) -> bool {
    forall|i: int| 0 <= i < ss.len() ==> sorted_by(c, #[trigger] ss[i])
}

/// No source has an item left.
pub open spec fn exhausted<I>(ss: Seq<Seq<I>>) -> bool {
    forall|i: int| 0 <= i < ss.len() ==> (#[trigger] ss[i]).len() == 0
}

/// The number of items left over all sources.
pub open spec fn total<I>(ss: Seq<Seq<I>>) -> nat
    decreases ss.len(),
{
    if ss.len() == 0 {
        0
    } else {
        total(ss.drop_last()) + ss.last().len()
    }
}

/// The multiset union of the items left in all sources.
pub open spec fn items<I>(ss: Seq<Seq<I>>) -> Multiset<I>
    decreases ss.len(),
{
    if ss.len() == 0 {
        Multiset::empty()
    } else {
        items(ss.drop_last()).add(ss.last().to_multiset())
    }
}

/// Source `b` wins the round: it is not empty, its first item wins over the
/// first item of every other source, and it strictly beats the first item
/// of every earlier source (so a draw goes to the lowest index).
pub open spec fn is_winner<I, C: Comparator<I>>(c: C, ss: Seq<Seq<I>>, b: int) -> bool {
    &&& 0 <= b < ss.len()
    &&& ss[b].len() > 0
    &&& forall|j: int| 0 <= j < ss.len() && ss[j].len() > 0 ==> wins(c, ss[b][0], #[trigger] ss[j][0])
    &&& forall|j: int|
        0 <= j < b && ss[j].len() > 0 ==> c.spec_cmp(#[trigger] ss[j][0], ss[b][0]) == Ordering::Greater
}

/// Among the first `n` sources, `b` is the one that wins the round.
pub open spec fn leads<I, C: Comparator<I>>(c: C, ss: Seq<Seq<I>>, b: int, n: int) -> bool {
    &&& 0 <= b < n <= ss.len()
    &&& ss[b].len() > 0
    &&& forall|j: int| 0 <= j < n && ss[j].len() > 0 ==> wins(c, ss[b][0], #[trigger] ss[j][0])
    &&& forall|j: int|
        0 <= j < b && ss[j].len() > 0 ==> c.spec_cmp(#[trigger] ss[j][0], ss[b][0]) == Ordering::Greater
}

/// The first source that is not empty leads.
pub proof fn lemma_leads_first<I, C: Comparator<I>>(c: C, ss: Seq<Seq<I>>, i: int)
    requires
        total_preorder(c),
        0 <= i < ss.len(),
        ss[i].len() > 0,
        forall|j: int| 0 <= j < i ==> (#[trigger] ss[j]).len() == 0,
    ensures
        leads(c, ss, i, i + 1),
{
    assert(c.spec_cmp(ss[i][0], ss[i][0]) != Ordering::Greater);
}

/// Source `i` does not beat the leader, which keeps the lead.
pub proof fn lemma_leads_keep<I, C: Comparator<I>>(c: C, ss: Seq<Seq<I>>, b: int, i: int)
    requires
        total_preorder(c),
        leads(c, ss, b, i),
        i < ss.len(),
        ss[i].len() > 0 ==> c.spec_cmp(ss[i][0], ss[b][0]) != Ordering::Less,
    ensures
        leads(c, ss, b, i + 1),
{
    if ss[i].len() > 0 {
        assert(c.spec_cmp(ss[b][0], ss[i][0]) != Ordering::Greater);
    }
}

/// Source `i` strictly beats the leader, and takes the lead.
pub proof fn lemma_leads_switch<I, C: Comparator<I>>(c: C, ss: Seq<Seq<I>>, b: int, i: int)
    requires
        total_preorder(c),
        leads(c, ss, b, i),
        i < ss.len(),
        ss[i].len() > 0,
        c.spec_cmp(ss[i][0], ss[b][0]) == Ordering::Less,
    ensures
        leads(c, ss, i, i + 1),
{
    let x = ss[i][0];
    let h = ss[b][0];
    assert(c.spec_cmp(x, x) != Ordering::Greater);
    assert(c.spec_cmp(h, x) == Ordering::Greater);
    assert forall|j: int| 0 <= j < i + 1 && ss[j].len() > 0 implies wins(c, x, #[trigger] ss[j][0]) by {
        if j != i {
            assert(wins(c, x, h) && wins(c, h, ss[j][0]));
        }
    }
    assert forall|j: int| 0 <= j < i && ss[j].len() > 0 implies c.spec_cmp(#[trigger] ss[j][0], x) == Ordering::Greater by {
        let y = ss[j][0];
        if j == b {
        } else if j < b {
            if wins(c, y, x) {
                assert(wins(c, y, h));
            }
        } else {
            assert(wins(c, h, y));
            if wins(c, y, x) {
                assert(wins(c, h, x));
            }
        }
    }
}

/// The sources after source `b` gave up its first item.
pub open spec fn step<I>(ss: Seq<Seq<I>>, b: int) -> Seq<Seq<I>> {
    ss.update(b, ss[b].drop_first())
}

/// Every item of `ss` comes no earlier than `x`.
pub open spec fn wins_all<I, C: Comparator<I>>(c: C, x: I, ss: Seq<Seq<I>>) -> bool {
    forall|j: int, k: int| 0 <= j < ss.len() && 0 <= k < ss[j].len() ==> wins(c, x, #[trigger] ss[j][k])
}

pub proof fn lemma_step_counts<I>(ss: Seq<Seq<I>>, b: int)
    requires
        0 <= b < ss.len(),
        ss[b].len() > 0,
    ensures
        total(ss) == total(step(ss, b)) + 1,
        items(ss) == items(step(ss, b)).insert(ss[b][0]),
    decreases ss.len(),
{
    let t = step(ss, b);
    if b == ss.len() - 1 {
        assert(t.drop_last() =~= ss.drop_last());
        let s = ss[b];
        assert(s.drop_first() =~= s.remove(0));
        assert(s.to_multiset().count(s[0]) > 0) by {
            assert(s.contains(s[0]));
        }
        assert(s.to_multiset() =~= s.drop_first().to_multiset().insert(s[0]));
        assert(items(ss) =~= items(t).insert(ss[b][0]));
    } else {
        lemma_step_counts(ss.drop_last(), b);
        assert(t.drop_last() =~= step(ss.drop_last(), b));
        assert(items(ss) =~= items(t).insert(ss[b][0]));
    }
}

pub proof fn lemma_exhausted_counts<I>(ss: Seq<Seq<I>>)
    requires
        exhausted(ss),
    ensures
        total(ss) == 0,
        items(ss) == Multiset::<I>::empty(),
    decreases ss.len(),
{
    if ss.len() > 0 {
        assert(exhausted(ss.drop_last()));
        lemma_exhausted_counts(ss.drop_last());
        assert(ss.last().len() == 0);
        assert(ss.last().to_multiset() =~= Multiset::<I>::empty());
        assert(items(ss) =~= Multiset::<I>::empty());
    }
}

pub proof fn lemma_total_zero<I>(ss: Seq<Seq<I>>)
    requires
        total(ss) == 0,
    ensures
        exhausted(ss),
    decreases ss.len(),
{
    if ss.len() > 0 {
        lemma_total_zero(ss.drop_last());
        assert forall|i: int| 0 <= i < ss.len() implies (#[trigger] ss[i]).len() == 0 by {
            if i < ss.len() - 1 {
                assert(ss[i] == ss.drop_last()[i]);
            }
        }
    }
}

/// After a round, the winning item comes no later than anything left, and
/// the sources stay sorted.
pub proof fn lemma_winner_wins_all<I, C: Comparator<I>>(c: C, ss: Seq<Seq<I>>, b: int)
    requires
        total_preorder(c),
        all_sorted(c, ss),
        is_winner(c, ss, b),
    ensures
        wins_all(c, ss[b][0], step(ss, b)),
        all_sorted(c, step(ss, b)),
{
    let t = step(ss, b);
    let x = ss[b][0];
    assert forall|j: int, k: int| 0 <= j < t.len() && 0 <= k < t[j].len() implies wins(c, x, #[trigger] t[j][k]) by {
        if j == b {
            assert(t[j][k] == ss[b][k + 1]);
            assert(sorted_by(c, ss[b]));
        } else {
            assert(t[j] == ss[j]);
            assert(sorted_by(c, ss[j]));
            assert(wins(c, x, ss[j][0]));
            if k > 0 {
                assert(wins(c, ss[j][0], ss[j][k]));
            }
        }
    }
    assert forall|i: int| 0 <= i < t.len() implies sorted_by(c, #[trigger] t[i]) by {
        assert(sorted_by(c, ss[i]));
        if i == b {
            assert forall|a: int, d: int| 0 <= a < d < t[i].len() implies wins(c, #[trigger] t[i][a], #[trigger] t[i][d]) by {
                assert(t[i][a] == ss[i][a + 1]);
                assert(t[i][d] == ss[i][d + 1]);
            }
        }
    }
}

/// Two engines in the same state emit the same item: the source that wins a
/// round is determined by the pending items alone.
pub proof fn lemma_winner_unique<I, C: Comparator<I>>(c: C, ss: Seq<Seq<I>>, b1: int, b2: int)
    requires
        is_winner(c, ss, b1),
        is_winner(c, ss, b2),
    ensures
        b1 == b2,
{
    if b1 < b2 {
        assert(c.spec_cmp(ss[b1][0], ss[b2][0]) == Ordering::Greater);
        assert(wins(c, ss[b1][0], ss[b2][0]));
    } else if b2 < b1 {
        assert(c.spec_cmp(ss[b2][0], ss[b1][0]) == Ordering::Greater);
        assert(wins(c, ss[b2][0], ss[b1][0]));
    }
}

/// The items of the sources, counted with multiplicity, are those of their
/// concatenation, and so is their number.
pub proof fn lemma_items_flatten<I>(ss: Seq<Seq<I>>)
    ensures
        items(ss) == ss.flatten().to_multiset(),
        total(ss) == ss.flatten().len(),
    decreases ss.len(),
{
    ss.lemma_flatten_and_flatten_alt_are_equivalent();
    if ss.len() > 0 {
        lemma_items_flatten(ss.drop_last());
        ss.drop_last().lemma_flatten_and_flatten_alt_are_equivalent();
        vstd::seq_lib::lemma_multiset_commutative(ss.drop_last().flatten_alt(), ss.last());
    }
}

/// A merge output that is sorted by a strategy whose order is total, and
/// that holds exactly the items of the sources, is the concatenation of the
/// sources sorted by that order.
pub proof fn lemma_equals_global_sort<I, C: Comparator<I>>(c: C, out: Seq<I>, ss: Seq<Seq<I>>)
    requires
        total_ordering(|a: I, b: I| wins(c, a, b)),
        sorted_by(c, out),
        out.to_multiset() == items(ss),
    ensures
        out == ss.flatten().sort_by(|a: I, b: I| wins(c, a, b)),
{
    let leq = |a: I, b: I| wins(c, a, b);
    let flat = ss.flatten();
    lemma_items_flatten(ss);
    flat.lemma_sort_by_ensures(leq);
    assert(vstd::relations::sorted_by(out, leq)) by {
        assert forall|i: int, j: int| 0 <= i < j < out.len() implies #[trigger] leq(out[i], out[j]) by {
            assert(wins(c, out[i], out[j]));
        }
    }
    vstd::seq_lib::lemma_sorted_unique(out, flat.sort_by(leq), leq);
}

/// An eager and a streaming engine whose sources hold the same items emit
/// the same item in a round and are left with the same sources: whichever
/// winning source each picked, it is the same one.
pub proof fn lemma_lockstep<I, C: Comparator<I>>(c: C, ss: Seq<Seq<I>>, b1: int, b2: int)
    requires
        is_winner(c, ss, b1),
        is_winner(c, ss, b2),
    ensures
        ss[b1][0] == ss[b2][0],
        step(ss, b1) == step(ss, b2),
{
    lemma_winner_unique(c, ss, b1, b2);
}

} // verus!

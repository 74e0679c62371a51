//! What holds of every sequence of reports and clears.

use vstd::prelude::*;
use crate::order::{AttrBytes, canonical, lemma_canonical, lemma_canonical_same_set, same_set};
use crate::point::wrapping_sum;
use crate::store::CounterView;

verus! {

/// The number of lists in `calls` that are empty.
pub open spec fn count_empty(calls: Seq<Seq<AttrBytes>>) -> nat
    decreases calls.len(),
{
    if calls.len() == 0 {
        0
    } else {
        count_empty(calls.drop_last()) + if calls.last().len() == 0 {
            1nat
        } else {
            0nat
        }
    }
}

/// Reporting one attribute set in one order, then in another, then in the
/// first again, leaves a fresh store with a single counter, at three.
pub proof fn lemma_order_invariance(p1: Seq<AttrBytes>, p2: Seq<AttrBytes>)
    requires
        p1.len() > 0,
        same_set(p1, p2),
    ensures
        CounterView::empty().added(p1).added(p2).added(p1).metrics == map![canonical(p1) => 3u64],
{
    lemma_canonical_same_set(p1, p2);
    lemma_canonical(p1);
    lemma_canonical(p2);
    let c = canonical(p1);
    let s1 = CounterView::empty().added(p1);
    assert(s1.metrics =~= map![c => 1u64]);
    let s2 = s1.added(p2);
    assert(wrapping_sum(1, 1) == 2);
    assert(s2.metrics =~= map![c => 2u64]);
    let s3 = s2.added(p1);
    assert(wrapping_sum(2, 1) == 3);
    assert(s3.metrics =~= map![c => 3u64]);
}

/// A report without attributes touches no key and no counter; it adds one
/// to the count kept apart for such reports.
pub proof fn lemma_zero_isolation(s: CounterView)
    ensures
        s.added(Seq::empty()).keys == s.keys,
        s.added(Seq::empty()).metrics == s.metrics,
        s.added(Seq::empty()).zero == wrapping_sum(s.zero, 1),
{
}

/// From a fresh store, whatever reports with attributes come in between,
/// the count apart is the number of reports without attributes, and no key
/// is empty.
pub proof fn lemma_zero_count(calls: Seq<Seq<AttrBytes>>)
    requires
        calls.len() < 0x1_0000_0000_0000_0000,
    ensures
        CounterView::empty().added_all(calls).zero == count_empty(calls),
        forall|k: Seq<AttrBytes>| #[trigger]
            CounterView::empty().added_all(calls).keys.contains(k) ==> k.len() > 0,
    decreases calls.len(),
{
    if calls.len() > 0 {
        lemma_zero_count(calls.drop_last());
        lemma_count_empty_bound(calls.drop_last());
        lemma_canonical(calls.last());
    }
}

proof fn lemma_count_empty_bound(calls: Seq<Seq<AttrBytes>>)
    ensures
        count_empty(calls) <= calls.len(),
    decreases calls.len(),
{
    if calls.len() > 0 {
        lemma_count_empty_bound(calls.drop_last());
    }
}

/// After a clear, one report of a non-empty list leaves exactly one counter,
/// at one, reached from the list and from its canonical form, and nothing
/// counted apart.
pub proof fn lemma_clear_resets(s: CounterView, k: Seq<AttrBytes>)
    requires
        k.len() > 0,
    ensures
        s.cleared().added(k).metrics == map![canonical(k) => 1u64],
        s.cleared().added(k).keys == set![k, canonical(k)],
        s.cleared().added(k).zero == 0,
{
    assert(s.cleared().added(k).metrics =~= map![canonical(k) => 1u64]);
    assert(s.cleared().added(k).keys =~= set![k, canonical(k)]);
}

/// Reports of one attribute set, in any orderings, add up on its count.
pub proof fn lemma_reports_add_up(s: CounterView, k: Seq<AttrBytes>, calls: Seq<Seq<AttrBytes>>)
    requires
        k.len() > 0,
        forall|i: int| 0 <= i < calls.len() ==> same_set(#[trigger] calls[i], k),
        s.count(k) + calls.len() < 0x1_0000_0000_0000_0000,
    ensures
        s.added_all(calls).count(k) == s.count(k) + calls.len(),
    decreases calls.len(),
{
    if calls.len() > 0 {
        let rest = calls.drop_last();
        assert forall|i: int| 0 <= i < rest.len() implies same_set(#[trigger] rest[i], k) by {
            assert(same_set(calls[i], k));
        }
        lemma_reports_add_up(s, k, rest);
        let last = calls.last();
        assert(same_set(calls[calls.len() - 1], k));
        lemma_canonical_same_set(last, k);
        lemma_canonical(last);
        lemma_canonical(k);
    }
}

/// A report of one attribute set leaves the count of every other set as it
/// is. Hashes take no part: two lists whose hashes agree are still counted
/// apart.
pub proof fn lemma_sets_independent(s: CounterView, k: Seq<AttrBytes>, other: Seq<AttrBytes>)
    requires
        !same_set(k, other),
    ensures
        s.added(k).count(other) == s.count(other),
{
    lemma_canonical_same_set(k, other);
}

} // verus!

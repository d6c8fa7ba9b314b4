//! Sorting one partition's values.

use rayon::slice::ParallelSliceMut;
use vstd::prelude::*;
use vstd::seq_lib::lemma_sorted_unique;

verus! {

/// The values are in non-decreasing order.
pub open spec fn sorted(s: Seq<u64>) -> bool {
    forall|i: int, j: int| 0 <= i <= j < s.len() ==> s[i] <= s[j]
}

/// The order of the values.
pub open spec fn at_most() -> spec_fn(u64, u64) -> bool {
    |x: u64, y: u64| x <= y
}

/// The values of `s` in non-decreasing order.
pub open spec fn sorted_values(s: Seq<u64>) -> Seq<u64> {
    s.sort_by(at_most())
}

/// Sorts `v` in place, in non-decreasing order, on the threads of rayon's pool.
///
/// Trusted: the body is rayon's `ParallelSliceMut::par_sort_unstable` on the
/// vector's slice. Its documentation says that it sorts the slice in place and
/// may reorder equal elements; for plain integers that leaves one result, the
/// values of `v` in non-decreasing order, each as often as before.
#[verifier::external_body]
pub fn sort(v: &mut Vec<u64>)
    ensures
        sorted(final(v)@),
        final(v)@.to_multiset() == old(v)@.to_multiset(),
{
    v.par_sort_unstable();
}

/// Two sorted sequences that hold the same values, each as often, are equal.
pub proof fn lemma_sorted_same_values(a: Seq<u64>, b: Seq<u64>)
    requires
        sorted(a),
        sorted(b),
        a.to_multiset() == b.to_multiset(),
    ensures
        a == b,
{
    lemma_sorted_unique(a, b, at_most());
}

/// `sorted_values(s)` is the one sorted sequence that holds the values of `s`, each
/// as often.
pub proof fn lemma_sorted_values(s: Seq<u64>, t: Seq<u64>)
    ensures
        sorted(sorted_values(s)),
        sorted_values(s).to_multiset() == s.to_multiset(),
        sorted(t) && t.to_multiset() == s.to_multiset() ==> t == sorted_values(s),
{
    let leq = at_most();
    let r = sorted_values(s);
    s.lemma_sort_by_ensures(leq);
    assert forall|i: int, j: int| 0 <= i <= j < r.len() implies r[i] <= r[j] by {
        if i < j {
            assert(leq(r[i], r[j]));
        }
    }
    if sorted(t) && t.to_multiset() == s.to_multiset() {
        lemma_sorted_same_values(t, sorted_values(s));
    }
}

/// Every value of a sequence occurs in any sequence that holds the same values.
pub proof fn lemma_same_values_member(a: Seq<u64>, b: Seq<u64>, i: int) -> (j: int)
    requires
        a.to_multiset() == b.to_multiset(),
        0 <= i < a.len(),
    ensures
        0 <= j < b.len(),
        b[j] == a[i],
{
    broadcast use vstd::seq_lib::group_to_multiset_ensures;

    assert(b.to_multiset().count(a[i]) > 0);
    choose|j: int| 0 <= j < b.len() && b[j] == a[i]
}

/// A sorted sequence followed by a sorted sequence of no smaller values is sorted.
pub proof fn lemma_sorted_concat(a: Seq<u64>, b: Seq<u64>)
    requires
        sorted(a),
        sorted(b),
        forall|i: int, j: int| 0 <= i < a.len() && 0 <= j < b.len() ==> a[i] <= b[j],
    ensures
        sorted(a + b),
{
}

} // verus!

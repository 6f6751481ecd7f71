//! Sorting by the standard library.
//!
//! Nothing in this file is proved: the function hands its work to the sort of
//! the standard library, and its contract says what that sort is documented to
//! do.
use vstd::prelude::*;

verus! {

/// The numbers stand in rising order; equal ones may follow each other.
pub open spec fn is_sorted(s: Seq<i64>) -> bool {
    forall|i: int, j: int| 0 <= i <= j < s.len() ==> s[i] <= s[j]
}

/// `slice::sort` on numbers: afterwards the same numbers, each as often as
/// before, stand in rising order.
#[verifier::external_body]
pub(crate) fn sort_numbers(v: &mut Vec<i64>)
    ensures
        is_sorted(final(v)@),
        final(v)@.to_multiset() == old(v)@.to_multiset(),
{
    v.sort();
}

/// The pairs stand in rising order of their first numbers; pairs with equal
/// first numbers may follow each other.
pub open spec fn is_sorted_by_key(s: Seq<(u32, usize)>) -> bool {
    forall|i: int, j: int| 0 <= i <= j < s.len() ==> s[i].0 <= s[j].0
}

/// `slice::sort_by_key` with the first number of a pair as the key: afterwards
/// the same pairs, each as often as before, stand in rising order of their first
/// numbers. The sort is stable, but the contract does not say so.
#[verifier::external_body]
pub(crate) fn sort_by_first(v: &mut Vec<(u32, usize)>)
    ensures
        is_sorted_by_key(final(v)@),
        final(v)@.to_multiset() == old(v)@.to_multiset(),
{
    v.sort_by_key(|p| p.0);
}

} // verus!

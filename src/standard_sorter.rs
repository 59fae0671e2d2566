//! The standard library's sort, as a baseline for the other sorters.
use crate::arrange::{lemma_stable_sorted_unchanged, stable_rearrangement};
use crate::order::sorted;
use crate::Sorter;
use vstd::laws_cmp::obeys_cmp;
use vstd::prelude::*;

verus! {

/// Sorts with the standard library's stable sort. Used as the reference
/// that the other sorters are checked against.
pub struct StandardSorter;

/// Relies on `<[T]>::sort`: a stable sort, so the result is sorted and holds
/// the input's elements with equal ones in their original order. It can
/// panic only when `Ord` is not a total order, which `obeys_cmp` excludes.
#[verifier::external_body]
fn std_sort<T: Ord>(slice: &mut [T])
    requires
        obeys_cmp::<T>(),
    ensures
        sorted(final(slice)@),
        final(slice)@.to_multiset() == old(slice)@.to_multiset(),
        stable_rearrangement(old(slice)@, final(slice)@),
{
    slice.sort();
}

/// Sorts `slice` with the standard library's sort. The result is sorted,
/// holds the input's elements, and keeps equal elements in their order; a
/// sorted input is left as it is.
pub fn standard_sort<T: Ord>(slice: &mut [T])
    requires
        obeys_cmp::<T>(),
    ensures
        sorted(final(slice)@),
        final(slice)@.to_multiset() == old(slice)@.to_multiset(),
        stable_rearrangement(old(slice)@, final(slice)@),
        sorted(old(slice)@) ==> final(slice)@ == old(slice)@,
{
    std_sort(slice);
    proof {
        if sorted(old(slice)@) {
            lemma_stable_sorted_unchanged(old(slice)@, slice@);
        }
    }
}

impl<T: Ord> Sorter<T> for StandardSorter {
    fn sort(self, slice: &mut [T])
        ensures
            stable_rearrangement(old(slice)@, final(slice)@),
            sorted(old(slice)@) ==> final(slice)@ == old(slice)@,
    {
        standard_sort(slice);
    }
}

} // verus!

//! Cocktail shaker sort: bubble sort that scans in both directions.
use crate::arrange::{
    identity_perm, lemma_stable_by_identity, lemma_stable_sorted_unchanged, lemma_swap_multiset,
    lemma_swap_stable, stable_by, stable_rearrangement, swap_at, swapped,
};
use crate::order::{
    front_settled, le, lemma_sorted_from_parts, lemma_swap_keeps_settled, lemma_total_order,
    settled, sorted, sorted_between,
};
use crate::Sorter;
use vstd::laws_cmp::obeys_cmp;
use vstd::prelude::*;
use vstd::std_specs::cmp::{OrdSpec, PartialOrdSpec};

verus! {

/// Cocktail shaker sort (bidirectional bubble sort). A forward scan moves
/// the largest element of the window `left - 1..right` to its end, a
/// backward scan moves the smallest to its front, and the window shrinks to
/// the last swaps. Stable, in place, O(n^2) in general.
#[derive(Debug, Default, Clone, Copy)]
pub struct CocktailShakerSorter;

/// Sorts `slice` by alternating forward and backward passes of adjacent
/// swaps over a shrinking window. The result is sorted, holds the input's
/// elements, and keeps equal elements in their order; a sorted input is left
/// as it is.
pub fn cocktail_shaker_sort<T: Ord>(slice: &mut [T])
    requires
        obeys_cmp::<T>(),
    ensures
        sorted(final(slice)@),
        final(slice)@.to_multiset() == old(slice)@.to_multiset(),
        stable_rearrangement(old(slice)@, final(slice)@),
        sorted(old(slice)@) ==> final(slice)@ == old(slice)@,
{
    let ghost s0 = slice@;
    let ghost mut p = identity_perm(s0.len() as int);
    proof {
        lemma_stable_by_identity(s0);
    }
    let slice_len = slice.len();
    let mut left: usize = 1;
    let mut right = slice_len;
    let mut is_sorted = false;
    while !is_sorted
        invariant
            obeys_cmp::<T>(),
            slice_len == slice@.len() == s0.len(),
            1 <= left,
            right <= slice_len,
            left <= right || (left == 1 && right == 0),
            front_settled(slice@, left - 1),
            settled(slice@, right as int),
            is_sorted ==> sorted(slice@),
            slice@.to_multiset() == s0.to_multiset(),
            stable_by(s0, slice@, p),
        decreases right as int + if is_sorted {
            0int
        } else {
            1int
        },
    {
        proof {
            lemma_total_order::<T>();
        }
        let ghost right0 = right as int;
        // The forward pass leaves `fm..end` sorted: `fm` is its last swap,
        // or the window's start when it swaps nothing.
        let ghost mut fwd_swapped = false;
        let ghost mut fm: int = left - 1;
        is_sorted = true;
        let end = right;
        let mut i = left;
        while i < end
            invariant
                obeys_cmp::<T>(),
                T::obeys_partial_cmp_spec(),
                slice_len == slice@.len() == s0.len(),
                end == right0,
                1 <= left <= i,
                left <= end ==> i <= end,
                end <= slice_len,
                left - 1 <= fm < i,
                is_sorted == !fwd_swapped,
                fwd_swapped ==> right == fm && left <= fm && fm < end,
                !fwd_swapped ==> right == end && fm == left - 1,
                forall|k: int| left - 1 <= k < i ==> le(#[trigger] slice@[k], slice@[i - 1]),
                sorted_between(slice@, fm, i as int),
                forall|a: int, c: int|
                    left - 1 <= a < fm <= c < i ==> le(#[trigger] slice@[a], #[trigger] slice@[c]),
                front_settled(slice@, left - 1),
                settled(slice@, end as int),
                slice@.to_multiset() == s0.to_multiset(),
                stable_by(s0, slice@, p),
            decreases end - i,
        {
            if slice[i - 1] > slice[i] {
                let ghost s = slice@;
                proof {
                    lemma_total_order::<T>();
                    lemma_swap_multiset(s, i - 1, i as int);
                    lemma_swap_stable(s0, s, p, i as int);
                    lemma_swap_keeps_settled(s, left - 1, end as int, i - 1, i as int);
                    p = swapped(p, i - 1, i as int);
                }
                swap_at(slice, i - 1, i);
                right = i;
                is_sorted = false;
                proof {
                    fwd_swapped = true;
                    fm = i as int;
                    assert forall|k: int| left - 1 <= k < i + 1 implies le(
                        #[trigger] slice@[k],
                        slice@[i as int],
                    ) by {
                        if k < i - 1 {
                            assert(le(s[k], s[i - 1]));
                        }
                    }
                    assert forall|a: int, c: int|
                        left - 1 <= a < i <= c < i + 1 implies le(
                        #[trigger] slice@[a],
                        #[trigger] slice@[c],
                    ) by {
                        if a < i - 1 {
                            assert(le(s[a], s[i - 1]));
                        }
                    }
                }
            } else {
                proof {
                    lemma_total_order::<T>();
                    let s = slice@;
                    assert(le(s[i - 1], s[i as int]));
                    assert forall|k: int| left - 1 <= k < i + 1 implies le(
                        #[trigger] s[k],
                        s[i as int],
                    ) by {
                        if k < i {
                            assert(le(s[k], s[i - 1]));
                        }
                    }
                }
            }
            i += 1;
        }
        proof {
            let s = slice@;
            if fwd_swapped {
                assert forall|a: int, c: int|
                    fm <= a < c < s.len() implies le(#[trigger] s[a], #[trigger] s[c]) by {
                    if c < end {
                    } else if a < end {
                    } else {
                        assert(sorted_between(s, end as int, s.len() as int));
                    }
                }
                assert forall|a: int, c: int|
                    0 <= a < fm <= c < s.len() implies le(#[trigger] s[a], #[trigger] s[c]) by {
                    if a < left - 1 {
                    } else if c < end {
                    } else {
                    }
                }
            } else if left <= end {
                lemma_sorted_from_parts(s, left - 1, end as int);
            } else {
                assert(sorted(s));
            }
        }
        let ghost right1 = right as int;
        // The backward pass leaves `lo - 1..bm` sorted: `bm` is its last
        // swap, or the window's end when it swaps nothing.
        let ghost mut bm: int = right as int;
        let lo = left;
        let mut j = right;
        while j > lo
            invariant
                obeys_cmp::<T>(),
                T::obeys_partial_cmp_spec(),
                slice_len == slice@.len() == s0.len(),
                right == right1,
                1 <= lo,
                right <= slice_len,
                lo <= right ==> lo <= j <= right,
                lo > right ==> j == right,
                j <= bm <= right,
                bm < right ==> left == bm && !is_sorted,
                bm == right ==> left == lo,
                fwd_swapped ==> !is_sorted && right < right0,
                !fwd_swapped ==> is_sorted && sorted(slice@) && bm == right,
                lo <= right ==> forall|k: int|
                    j - 1 <= k < right ==> le(slice@[j - 1], #[trigger] slice@[k]),
                lo <= right ==> sorted_between(slice@, j - 1, bm),
                lo <= right ==> forall|a: int, c: int|
                    j - 1 <= a < bm <= c < right ==> le(#[trigger] slice@[a], #[trigger] slice@[c]),
                front_settled(slice@, lo - 1),
                settled(slice@, right as int),
                slice@.to_multiset() == s0.to_multiset(),
                stable_by(s0, slice@, p),
            decreases j,
        {
            j -= 1;
            let i = j;
            if slice[i - 1] > slice[i] {
                let ghost s = slice@;
                proof {
                    lemma_total_order::<T>();
                    if !fwd_swapped {
                        assert(le(s[i - 1], s[i as int]));
                    }
                    lemma_swap_multiset(s, i - 1, i as int);
                    lemma_swap_stable(s0, s, p, i as int);
                    lemma_swap_keeps_settled(s, lo - 1, right as int, i - 1, i as int);
                    p = swapped(p, i - 1, i as int);
                }
                swap_at(slice, i - 1, i);
                left = i;
                is_sorted = false;
                proof {
                    bm = i as int;
                    assert forall|k: int| i - 1 <= k < right implies le(
                        slice@[i - 1],
                        #[trigger] slice@[k],
                    ) by {
                        if k > i {
                            assert(le(s[i as int], s[k]));
                        }
                    }
                }
            } else {
                proof {
                    lemma_total_order::<T>();
                    let s = slice@;
                    assert(le(s[i - 1], s[i as int]));
                    assert forall|k: int| i - 1 <= k < right implies le(
                        s[i - 1],
                        #[trigger] s[k],
                    ) by {
                        if k > i {
                            assert(le(s[i as int], s[k]));
                        }
                    }
                    assert forall|a: int, c: int| i - 1 <= a < c < bm implies le(
                        #[trigger] s[a],
                        #[trigger] s[c],
                    ) by {
                        if a >= i {
                            assert(sorted_between(s, i as int, bm));
                        }
                    }
                }
            }
        }
        proof {
            let s = slice@;
            if bm < right {
                assert forall|a: int, c: int| 0 <= a < c < bm - 1 implies le(
                    #[trigger] s[a],
                    #[trigger] s[c],
                ) by {
                    if c < lo - 1 {
                        assert(sorted_between(s, 0, lo - 1));
                    } else if a < lo - 1 {
                    } else {
                        assert(sorted_between(s, lo - 1, bm));
                    }
                }
                assert forall|a: int, c: int| 0 <= a < bm - 1 <= c < s.len() implies le(
                    #[trigger] s[a],
                    #[trigger] s[c],
                ) by {
                    if a < lo - 1 {
                    } else if c < bm {
                        assert(sorted_between(s, lo - 1, bm));
                    } else if c < right {
                    } else {
                    }
                }
            }
        }
    }
    proof {
        if sorted(s0) {
            lemma_stable_sorted_unchanged(s0, slice@);
        }
    }
}

impl<T: Ord> Sorter<T> for CocktailShakerSorter {
    fn sort(self, slice: &mut [T])
        ensures
            stable_rearrangement(old(slice)@, final(slice)@),
            sorted(old(slice)@) ==> final(slice)@ == old(slice)@,
    {
        cocktail_shaker_sort(slice);
    }
}

} // verus!

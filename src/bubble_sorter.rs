//! Bubble sort, with three ways of choosing how far the next pass scans.
use crate::arrange::{
    identity_perm, lemma_stable_by_identity, lemma_stable_sorted_unchanged, lemma_swap_multiset,
    lemma_swap_stable, stable_by, stable_rearrangement, swap_at, swapped,
};
use crate::order::{
    gt, le, lemma_sorted_from_parts, lemma_total_order, settled, sorted, sorted_between,
};
use crate::Sorter;
use vstd::laws_cmp::obeys_cmp;
use vstd::prelude::*;
use vstd::std_specs::cmp::{OrdSpec, PartialOrdSpec};

verus! {

/// Bubble sort. Each pass swaps adjacent out-of-order pairs, which moves the
/// largest element of the scanned range to its end. Stable, in place, O(n)
/// comparisons on sorted input and O(n^2) in general.
#[derive(Debug, Default, Clone, Copy)]
pub struct BubbleSorter {
    /// Strategy that decides how far the next pass needs to scan.
    pub optimization: Optimization,
}

/// How far the next pass of [`BubbleSorter`] scans. Every variant is stable
/// and in place.
#[derive(Debug, Default, Clone, Copy)]
pub enum Optimization {
    /// The next pass stops at the last swap of this one: what lies from
    /// there on is already in its final place.
    #[default]
    NewLen,
    /// The next pass is one element shorter than this one.
    LenMinusOne,
    /// Every pass scans the whole slice.
    FullPass,
}

/// Sorts `slice` by repeated passes of adjacent swaps; `optimization`
/// decides how far each pass scans. The result is sorted, holds the input's
/// elements, and keeps equal elements in their order; a sorted input is left
/// as it is.
pub fn bubble_sort<T: Ord>(slice: &mut [T], optimization: Optimization)
    requires
        obeys_cmp::<T>(),
    ensures
        sorted(final(slice)@),
        final(slice)@.to_multiset() == old(slice)@.to_multiset(),
        stable_rearrangement(old(slice)@, final(slice)@),
        sorted(old(slice)@) ==> final(slice)@ == old(slice)@,
{
    let ghost s0 = slice@;
    let ghost mut p = identity_perm(s0.len() as int);
    let ghost mut b: int = s0.len() as int;
    proof {
        lemma_stable_by_identity(s0);
    }
    let mut n = slice.len();
    while n > 1
        invariant
            obeys_cmp::<T>(),
            slice@.len() == s0.len(),
            0 <= b <= n <= s0.len(),
            settled(slice@, b),
            slice@.to_multiset() == s0.to_multiset(),
            stable_by(s0, slice@, p),
        ensures
            sorted(slice@),
            slice@.to_multiset() == s0.to_multiset(),
            stable_by(s0, slice@, p),
        decreases b,
    {
        proof {
            lemma_total_order::<T>();
        }
        let mut last_swap: usize = 0;
        let mut i: usize = 1;
        while i < n
            invariant
                obeys_cmp::<T>(),
                T::obeys_partial_cmp_spec(),
                slice@.len() == s0.len(),
                0 <= b <= n <= s0.len(),
                1 <= i <= n,
                last_swap < i,
                last_swap == 0 || last_swap < b,
                forall|k: int| 0 <= k < i ==> le(#[trigger] slice@[k], slice@[i - 1]),
                sorted_between(slice@, last_swap as int, i as int),
                forall|a: int, c: int|
                    0 <= a < last_swap <= c < i ==> le(#[trigger] slice@[a], #[trigger] slice@[c]),
                settled(slice@, b),
                slice@.to_multiset() == s0.to_multiset(),
                stable_by(s0, slice@, p),
            decreases n - i,
        {
            if slice[i - 1] > slice[i] {
                let ghost s = slice@;
                proof {
                    lemma_total_order::<T>();
                    if i >= b {
                        assert(le(s[i - 1], s[i as int]));
                    }
                    lemma_swap_multiset(s, i - 1, i as int);
                    lemma_swap_stable(s0, s, p, i as int);
                    p = swapped(p, i - 1, i as int);
                }
                swap_at(slice, i - 1, i);
                last_swap = i;
                proof {
                    assert forall|k: int| 0 <= k < i + 1 implies le(
                        #[trigger] slice@[k],
                        slice@[i as int],
                    ) by {
                        if k < i - 1 {
                            assert(le(s[k], s[i - 1]));
                        }
                    }
                    assert forall|a: int, c: int|
                        0 <= a < i <= c < i + 1 implies le(
                        #[trigger] slice@[a],
                        #[trigger] slice@[c],
                    ) by {
                        if a < i - 1 {
                            assert(le(s[a], s[i - 1]));
                        }
                    }
                    assert forall|a: int, c: int|
                        0 <= a < b <= c < slice@.len() implies le(
                        #[trigger] slice@[a],
                        #[trigger] slice@[c],
                    ) by {
                        if a == i - 1 {
                            assert(le(s[i as int], s[c]));
                        } else if a == i {
                            assert(le(s[i - 1], s[c]));
                        } else {
                            assert(le(s[a], s[c]));
                        }
                    }
                    assert(sorted_between(slice@, b, slice@.len() as int));
                }
            } else {
                proof {
                    lemma_total_order::<T>();
                    let s = slice@;
                    assert(le(s[i - 1], s[i as int]));
                    assert forall|k: int| 0 <= k < i + 1 implies le(
                        #[trigger] s[k],
                        s[i as int],
                    ) by {
                        if k < i {
                            assert(le(s[k], s[i - 1]));
                        }
                    }
                }
            }
            i += 1;
        }
        if last_swap == 0 {
            proof {
                lemma_sorted_from_parts(slice@, 0, n as int);
            }
            break;
        }
        proof {
            let s = slice@;
            assert forall|a: int, c: int|
                last_swap <= a < c < s.len() implies le(#[trigger] s[a], #[trigger] s[c]) by {
                if c < n {
                } else if a < b {
                } else {
                    assert(sorted_between(s, b, s.len() as int));
                }
            }
            assert forall|a: int, c: int|
                0 <= a < last_swap <= c < s.len() implies le(#[trigger] s[a], #[trigger] s[c]) by {
                if c < n {
                } else {
                    assert(a < b);
                }
            }
            b = last_swap as int;
        }
        n = match optimization {
            Optimization::NewLen => last_swap,
            Optimization::LenMinusOne => n - 1,
            Optimization::FullPass => n,
        };
    }
    proof {
        if sorted(s0) {
            lemma_stable_sorted_unchanged(s0, slice@);
        }
    }
}

impl<T: Ord> Sorter<T> for BubbleSorter {
    fn sort(self, slice: &mut [T])
        ensures
            stable_rearrangement(old(slice)@, final(slice)@),
            sorted(old(slice)@) ==> final(slice)@ == old(slice)@,
    {
        bubble_sort(slice, self.optimization);
    }
}

} // verus!

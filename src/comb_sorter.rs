//! Comb sort: bubble sort over a gap that shrinks by a constant factor.
use crate::arrange::{lemma_swap_multiset, swap_at, swapped};
use crate::order::{gt, le, lemma_total_order, settled, sorted, sorted_between};
use crate::Sorter;
use vstd::laws_cmp::obeys_cmp;
use vstd::prelude::*;
use vstd::std_specs::cmp::{OrdSpec, PartialOrdSpec};

verus! {

/// A shrink factor `numerator / denominator` with which comb sort ends: it
/// exceeds 11/9. With a smaller factor the rule of 11 would send the gap
/// from 11 back to 9 or 10, and from there to 11 again, forever.
pub open spec fn shrink_factor_ok(numerator: u64, denominator: u64) -> bool {
    0 < denominator && 11 * denominator < 9 * numerator
}

/// Comb sort. Elements a gap apart are compared and swapped; the gap starts
/// at the slice's length and is divided by the shrink factor each round
/// (rounded down; 9 and 10 become 11, the "rule of 11"), down to 1, and
/// rounds with gap 1 repeat until one swaps nothing. Not stable; in place.
///
/// The shrink factor is the fraction `numerator / denominator`; the
/// default is 13/10.
#[derive(Debug, Clone, Copy)]
pub struct CombSorter {
    shrink_numerator: u64,
    shrink_denominator: u64,
}

impl CombSorter {
    #[verifier::type_invariant]
    spec fn well_formed(self) -> bool {
        shrink_factor_ok(self.shrink_numerator, self.shrink_denominator)
    }

    /// The numerator of the shrink factor.
    pub closed spec fn numerator(self) -> u64 {
        self.shrink_numerator
    }

    /// The denominator of the shrink factor.
    pub closed spec fn denominator(self) -> u64 {
        self.shrink_denominator
    }

    /// The shrink factor, as `(numerator, denominator)`.
    pub fn shrink_factor(&self) -> (r: (u64, u64))
        ensures
            r == (self.numerator(), self.denominator()),
    {
        (self.shrink_numerator, self.shrink_denominator)
    }

    /// A comb sorter with shrink factor `numerator / denominator`, or `None`
    /// when that factor is not above 11/9 (or the denominator is zero).
    pub fn with_shrink_factor(numerator: u64, denominator: u64) -> (r: Option<CombSorter>)
        ensures
            r is Some <==> shrink_factor_ok(numerator, denominator),
            r matches Some(c) ==> c.numerator() == numerator && c.denominator() == denominator,
    {
        if denominator > 0 && (denominator as u128) * 11 < (numerator as u128) * 9 {
            Some(CombSorter { shrink_numerator: numerator, shrink_denominator: denominator })
        } else {
            None
        }
    }
}

impl Default for CombSorter {
    /// The usual shrink factor, 13/10.
    fn default() -> (r: Self)
        ensures
            r.numerator() == 13,
            r.denominator() == 10,
    {
        CombSorter { shrink_numerator: 13, shrink_denominator: 10 }
    }
}

/// The next gap before the rule of 11: `gap` divided by the shrink factor,
/// rounded down.
fn shrink(gap: usize, numerator: u64, denominator: u64) -> (r: usize)
    requires
        shrink_factor_ok(numerator, denominator),
    ensures
        r == (gap as int * denominator as int) / (numerator as int),
        r <= gap,
        gap >= 1 ==> r < gap,
        gap == 11 ==> r <= 8,
        r >= 9 ==> gap >= 12,
{
    assert((gap as int) * (denominator as int) <= u128::MAX) by (nonlinear_arith)
        requires
            gap <= u64::MAX,
            denominator <= u64::MAX,
    ;
    let product = (gap as u128) * (denominator as u128);
    let q = product / (numerator as u128);
    proof {
        let g = gap as int;
        let d = denominator as int;
        let n = numerator as int;
        let qi = (g * d) / n;
        assert(q == qi);
        assert(qi * n <= g * d) by (nonlinear_arith)
            requires
                n > 0,
                g >= 0,
                d >= 0,
                qi == (g * d) / n,
        ;
        assert(g * d <= g * n) by (nonlinear_arith)
            requires
                d < n,
                g >= 0,
        ;
        assert(qi <= g) by (nonlinear_arith)
            requires
                qi * n <= g * n,
                n > 0,
        ;
        if g >= 1 {
            assert(qi < g) by (nonlinear_arith)
                requires
                    qi * n <= g * d,
                    d < n,
                    g >= 1,
                    n > 0,
            ;
        }
        if g == 11 {
            assert(qi <= 8) by (nonlinear_arith)
                requires
                    qi * n <= 11 * d,
                    11 * d < 9 * n,
                    n > 0,
            ;
        }
        if qi >= 9 {
            assert(g >= 12) by (nonlinear_arith)
                requires
                    qi * n <= g * d,
                    11 * d < 9 * n,
                    qi >= 9,
                    n > 0,
                    d > 0,
                    g >= 0,
            ;
        }
    }
    q as usize
}

/// What decreases from one round to the next while the gap is above 1; a
/// gap of 9 or 10 is only ever the slice's length.
spec fn gap_measure(gap: int) -> int {
    if gap >= 11 {
        gap + 2
    } else if gap >= 9 {
        14
    } else if gap <= 1 {
        1
    } else {
        gap
    }
}

/// Sorts `slice` by comb sort with shrink factor `numerator / denominator`.
/// The result is sorted and holds the input's elements; a sorted input is
/// left as it is.
pub fn comb_sort<T: Ord>(slice: &mut [T], numerator: u64, denominator: u64)
    requires
        obeys_cmp::<T>(),
        shrink_factor_ok(numerator, denominator),
    ensures
        sorted(final(slice)@),
        final(slice)@.to_multiset() == old(slice)@.to_multiset(),
        sorted(old(slice)@) ==> final(slice)@ == old(slice)@,
{
    let ghost s0 = slice@;
    // From `b` on, the elements are in their final places.
    let ghost mut b: int = s0.len() as int;
    let slice_len = slice.len();
    let mut gap = slice_len;
    let mut is_sorted = false;
    while !is_sorted
        invariant
            obeys_cmp::<T>(),
            shrink_factor_ok(numerator, denominator),
            slice_len == slice@.len() == s0.len(),
            gap <= slice_len || gap == 1,
            gap > 1 ==> b == slice_len,
            0 <= b <= slice_len,
            settled(slice@, b),
            is_sorted ==> sorted(slice@),
            slice@.to_multiset() == s0.to_multiset(),
            sorted(s0) ==> slice@ == s0,
        decreases gap_measure(gap as int), b, if is_sorted {
            0int
        } else {
            1int
        },
    {
        proof {
            lemma_total_order::<T>();
        }
        let ghost gap0 = gap as int;
        gap = shrink(gap, numerator, denominator);
        if gap <= 1 {
            gap = 1;
            is_sorted = true;
        } else if gap == 9 || gap == 10 {
            // The rule of 11.
            gap = 11;
        }
        assert(gap_measure(gap as int) < gap_measure(gap0) || (gap0 <= 1 && gap == 1));
        let ghost mut last_swap: int = 0;
        let mut iteration: usize = 0;
        while gap + iteration < slice_len
            invariant
                obeys_cmp::<T>(),
                T::obeys_partial_cmp_spec(),
                slice_len == slice@.len() == s0.len(),
                1 <= gap <= slice_len || gap == 1,
                iteration + gap <= slice_len || iteration == 0,
                gap > 1 ==> b == slice_len && !is_sorted,
                0 <= b <= slice_len,
                settled(slice@, b),
                gap == 1 ==> {
                    &&& 0 <= last_swap <= iteration
                    &&& last_swap == 0 || last_swap < b
                    &&& is_sorted == (last_swap == 0)
                    &&& iteration < slice_len ==> forall|k: int|
                        0 <= k <= iteration ==> le(#[trigger] slice@[k], slice@[iteration as int])
                    &&& sorted_between(slice@, last_swap, iteration + 1)
                    &&& forall|a: int, c: int|
                        0 <= a < last_swap <= c < iteration + 1 ==> le(
                            #[trigger] slice@[a],
                            #[trigger] slice@[c],
                        )
                },
                slice@.to_multiset() == s0.to_multiset(),
                sorted(s0) ==> slice@ == s0,
            decreases slice_len - iteration,
        {
            let ghost s = slice@;
            let i = iteration;
            if slice[iteration] > slice[iteration + gap] {
                proof {
                    lemma_total_order::<T>();
                    assert(gt(s[i as int], s[i + gap]));
                    if sorted(s0) {
                        assert(le(s[i as int], s[i + gap]));
                    }
                    if gap == 1 && i + 1 >= b {
                        if i >= b {
                            assert(sorted_between(s, b, s.len() as int));
                            assert(le(s[i as int], s[i + 1]));
                        } else {
                            assert(le(s[i as int], s[i + 1]));
                        }
                    }
                    lemma_swap_multiset(s, i as int, i + gap);
                }
                swap_at(slice, iteration, iteration + gap);
                is_sorted = false;
                proof {
                    if gap == 1 {
                        last_swap = i + 1;
                        assert forall|k: int| 0 <= k <= i + 1 implies le(
                            #[trigger] slice@[k],
                            slice@[i + 1],
                        ) by {
                            if k < i {
                                assert(le(s[k], s[i as int]));
                            } else if k == i {
                                assert(gt(s[i as int], s[i + 1]));
                            }
                        }
                        assert forall|a: int, c: int|
                            0 <= a < b <= c < slice@.len() implies le(
                            #[trigger] slice@[a],
                            #[trigger] slice@[c],
                        ) by {
                            if a == i {
                                assert(le(s[i + 1], s[c]));
                            } else if a == i + 1 {
                                assert(le(s[i as int], s[c]));
                            } else {
                                assert(le(s[a], s[c]));
                            }
                        }
                        assert(sorted_between(slice@, b, slice@.len() as int));
                    }
                }
            } else {
                proof {
                    lemma_total_order::<T>();
                    if gap == 1 {
                        assert(le(s[i as int], s[i + 1]));
                        assert forall|k: int| 0 <= k <= i + 1 implies le(
                            #[trigger] s[k],
                            s[i + 1],
                        ) by {
                            if k <= i {
                                assert(le(s[k], s[i as int]));
                            }
                        }
                    }
                }
            }
            iteration += 1;
        }
        proof {
            let s = slice@;
            if gap == 1 {
                if last_swap == 0 {
                    assert(sorted_between(s, 0, slice_len as int));
                } else {
                    assert forall|a: int, c: int|
                        last_swap <= a < c < s.len() implies le(#[trigger] s[a], #[trigger] s[c])
                        by {
                        assert(sorted_between(s, last_swap, s.len() as int));
                    }
                    b = last_swap;
                }
            }
        }
    }
}

impl<T: Ord> Sorter<T> for CombSorter {
    fn sort(self, slice: &mut [T])
        ensures
            sorted(old(slice)@) ==> final(slice)@ == old(slice)@,
    {
        proof {
            use_type_invariant(&self);
        }
        comb_sort(slice, self.shrink_numerator, self.shrink_denominator);
    }
}

} // verus!

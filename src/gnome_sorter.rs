//! Gnome sort: one cursor that steps back after a swap and forward otherwise.
use crate::arrange::{
    identity_perm, lemma_stable_by_identity, lemma_stable_sorted_unchanged, lemma_swap_multiset,
    lemma_swap_stable, stable_by, stable_rearrangement, swap_at, swapped,
};
use crate::order::{gt, le, lemma_total_order, sorted, sorted_between};
use crate::Sorter;
use vstd::laws_cmp::obeys_cmp;
use vstd::prelude::*;
use vstd::std_specs::cmp::{OrdSpec, PartialOrdSpec};

verus! {

/// Gnome sort. A cursor moves forward while its element is no smaller than
/// the one before it, and otherwise swaps the two and steps back. Stable, in
/// place, O(n^2) in general.
#[derive(Debug, Default, Clone, Copy)]
pub struct GnomeSorter;

/// Sorts `slice` with a single cursor that steps back after each swap. The
/// result is sorted, holds the input's elements, and keeps equal elements in
/// their order; a sorted input is left as it is.
pub fn gnome_sort<T: Ord>(slice: &mut [T])
    requires
        obeys_cmp::<T>(),
    ensures
        sorted(final(slice)@),
        final(slice)@.to_multiset() == old(slice)@.to_multiset(),
        stable_rearrangement(old(slice)@, final(slice)@),
        sorted(old(slice)@) ==> final(slice)@ == old(slice)@,
{
    let ghost s0 = slice@;
    let ghost mut p = identity_perm(s0.len() as int);
    // `frontier` bounds the sorted prefix; while `inserting`, the element at
    // `position` is being moved down into it.
    let ghost mut frontier: int = 1;
    let ghost mut inserting = false;
    proof {
        lemma_stable_by_identity(s0);
    }
    let slice_len = slice.len();
    let mut position: usize = 1;
    while position < slice_len
        invariant
            obeys_cmp::<T>(),
            slice_len == slice@.len() == s0.len(),
            1 <= frontier,
            frontier <= slice_len || slice_len == 0,
            !inserting ==> position <= frontier && sorted_between(slice@, 0, frontier),
            inserting ==> {
                &&& position < frontier
                &&& sorted_between(slice@, 0, position as int)
                &&& sorted_between(slice@, position + 1, frontier)
                &&& forall|a: int, c: int|
                    0 <= a < position < c < frontier ==> le(
                        #[trigger] slice@[a],
                        #[trigger] slice@[c],
                    )
                &&& forall|c: int|
                    position < c < frontier ==> gt(#[trigger] slice@[c], slice@[position as int])
            },
            slice@.to_multiset() == s0.to_multiset(),
            stable_by(s0, slice@, p),
        decreases slice_len - frontier, if inserting {
            1int
        } else {
            0int
        }, if inserting {
            position as int
        } else {
            frontier - position
        },
    {
        proof {
            lemma_total_order::<T>();
        }
        let ghost s = slice@;
        if position == 0 || slice[position] >= slice[position - 1] {
            proof {
                if position > 0 {
                    assert(le(s[position - 1], s[position as int]));
                    assert forall|a: int| 0 <= a < position implies le(
                        #[trigger] s[a],
                        s[position as int],
                    ) by {
                        if a < position - 1 {
                            assert(le(s[a], s[position - 1]));
                        }
                    }
                }
                if inserting {
                    assert forall|a: int, c: int| 0 <= a < c < frontier implies le(
                        #[trigger] s[a],
                        #[trigger] s[c],
                    ) by {
                        if c < position {
                        } else if c == position {
                        } else if a < position {
                        } else if a == position {
                            assert(gt(s[c], s[position as int]));
                        }
                    }
                    inserting = false;
                } else if position == frontier {
                    frontier = frontier + 1;
                }
            }
            position += 1;
        } else {
            proof {
                assert(gt(s[position - 1], s[position as int]));
                if !inserting && position < frontier {
                    assert(le(s[position - 1], s[position as int]));
                }
                lemma_swap_multiset(s, position - 1, position as int);
                lemma_swap_stable(s0, s, p, position as int);
                p = swapped(p, position - 1, position as int);
            }
            swap_at(slice, position, position - 1);
            proof {
                assert(slice@ == swapped(s, position - 1, position as int));
                if !inserting {
                    frontier = position + 1;
                    inserting = true;
                }
                assert forall|c: int| position - 1 < c < frontier implies gt(
                    #[trigger] slice@[c],
                    slice@[position - 1],
                ) by {
                    if c > position {
                        assert(gt(s[c], s[position as int]));
                    }
                }
                assert forall|a: int, c: int| position < a < c < frontier implies le(
                    #[trigger] slice@[a],
                    #[trigger] slice@[c],
                ) by {
                    assert(le(s[a], s[c]));
                }
                assert forall|c: int| position < c < frontier implies le(
                    slice@[position as int],
                    #[trigger] slice@[c],
                ) by {
                    assert(le(s[position - 1], s[c]));
                }
                assert forall|a: int, c: int|
                    0 <= a < position - 1 < c < frontier implies le(
                    #[trigger] slice@[a],
                    #[trigger] slice@[c],
                ) by {
                    if c == position {
                        assert(le(s[a], s[position - 1]));
                    } else {
                        assert(le(s[a], s[c]));
                    }
                }
            }
            position -= 1;
        }
    }
    proof {
        if sorted(s0) {
            lemma_stable_sorted_unchanged(s0, slice@);
        }
    }
}

impl<T: Ord> Sorter<T> for GnomeSorter {
    fn sort(self, slice: &mut [T])
        ensures
            stable_rearrangement(old(slice)@, final(slice)@),
            sorted(old(slice)@) ==> final(slice)@ == old(slice)@,
    {
        gnome_sort(slice);
    }
}

} // verus!

//! Insertion sort: the prefix `0..i` is kept sorted, and each next element
//! is moved into it, in one of three ways.
use crate::arrange::{
    identity_perm, lemma_rotate_multiset, lemma_rotate_stable, lemma_stable_by_identity,
    lemma_stable_sorted_unchanged, lemma_swap_multiset, lemma_swap_stable, rotate_one_right,
    rotated_right, stable_by, stable_rearrangement, swap_at, swapped,
};
use crate::order::{equiv, gt, le, lemma_total_order, same_keys, sorted, sorted_between};
use crate::Sorter;
use core::cmp::Ordering;
use vstd::laws_cmp::obeys_cmp;
use vstd::prelude::*;
use vstd::std_specs::cmp::{OrdSpec, PartialOrdSpec};

verus! {

/// Insertion sort. It builds a sorted prefix and inserts each following
/// element into it; `method` chooses how the element is moved there.
///
/// Best case O(n) comparisons (already sorted), worst case O(n^2); O(1)
/// extra space. Stable unless `method` is `Method::RotateUnstable`.
#[derive(Debug, Default, Clone, Copy)]
pub struct InsertionSorter {
    /// Strategy used to move the current element into its final position.
    pub method: Method,
}

/// How [`InsertionSorter`] moves an element into the sorted prefix.
#[derive(Debug, Default, Clone, Copy)]
pub enum Method {
    /// Find the upper bound of the element in the prefix (after all equal
    /// elements) and rotate the range up to the element by one place. Stable.
    #[default]
    RotateStable,
    /// Find a bound with a binary search for the element and rotate as
    /// above. Equal elements may change order: not stable.
    RotateUnstable,
    /// Swap the element with its predecessor while the predecessor is
    /// strictly greater. Stable; each move writes two elements.
    Swap,
}

/// The first position in the sorted `slice[..end]` whose element is strictly
/// greater than `slice[end]`.
fn upper_bound<T: Ord>(slice: &[T], end: usize) -> (r: usize)
    requires
        obeys_cmp::<T>(),
        end < slice@.len(),
        sorted_between(slice@, 0, end as int),
    ensures
        r <= end,
        forall|k: int| 0 <= k < r ==> le(#[trigger] slice@[k], slice@[end as int]),
        forall|k: int| r <= k < end ==> gt(#[trigger] slice@[k], slice@[end as int]),
{
    let mut lo: usize = 0;
    let mut hi: usize = end;
    while lo < hi
        invariant
            obeys_cmp::<T>(),
            lo <= hi <= end < slice@.len(),
            sorted_between(slice@, 0, end as int),
            forall|k: int| 0 <= k < lo ==> le(#[trigger] slice@[k], slice@[end as int]),
            forall|k: int| hi <= k < end ==> gt(#[trigger] slice@[k], slice@[end as int]),
        decreases hi - lo,
    {
        proof {
            lemma_total_order::<T>();
        }
        let mid = lo + (hi - lo) / 2;
        if slice[mid] <= slice[end] {
            assert(slice@[mid as int].partial_cmp_spec(&slice@[end as int]) == Some(
                slice@[mid as int].cmp_spec(&slice@[end as int]),
            ));
            assert(le(slice@[mid as int], slice@[end as int]));
            assert forall|k: int| 0 <= k < mid + 1 implies le(
                #[trigger] slice@[k],
                slice@[end as int],
            ) by {
                if k < mid {
                    assert(le(slice@[k], slice@[mid as int]));
                }
            }
            lo = mid + 1;
        } else {
            assert forall|k: int| mid <= k < end implies gt(
                #[trigger] slice@[k],
                slice@[end as int],
            ) by {
                if mid < k {
                    assert(le(slice@[mid as int], slice@[k]));
                    if le(slice@[k], slice@[end as int]) {
                        assert(le(slice@[mid as int], slice@[end as int]));
                    }
                }
            }
            hi = mid;
        }
    }
    lo
}

/// Relies on `<[T]>::binary_search` over `slice[..end]`, which is sorted:
/// `Ok` holds the index of an element equal to `slice[key]` (any one of
/// them), `Err` the index at which `slice[key]` can be inserted keeping the
/// order.
#[verifier::external_body]
fn search_sorted_prefix<T: Ord>(slice: &[T], end: usize, key: usize) -> (r: Result<
    usize,
    usize,
>)
    requires
        obeys_cmp::<T>(),
        end <= slice@.len(),
        key < slice@.len(),
        sorted_between(slice@, 0, end as int),
    ensures
        match r {
            Ok(j) => j < end && slice@[j as int].cmp_spec(&slice@[key as int]) == Ordering::Equal,
            Err(j) => {
                &&& j <= end
                &&& forall|k: int|
                    0 <= k < j ==> (#[trigger] slice@[k]).cmp_spec(&slice@[key as int])
                        == Ordering::Less
                &&& forall|k: int|
                    j <= k < end ==> (#[trigger] slice@[k]).cmp_spec(&slice@[key as int])
                        == Ordering::Greater
            },
        },
{
    slice[..end].binary_search(&slice[key])
}

/// Moving `s[i]` to `idx`, after the elements no greater than it and before
/// those no smaller, extends the sorted prefix by one.
proof fn lemma_insert_sorted<T: Ord>(s: Seq<T>, idx: int, i: int)
    requires
        obeys_cmp::<T>(),
        0 <= idx <= i < s.len(),
        sorted_between(s, 0, i),
        forall|k: int| 0 <= k < idx ==> le(#[trigger] s[k], s[i]),
        forall|k: int| idx <= k < i ==> le(s[i], #[trigger] s[k]),
    ensures
        sorted_between(rotated_right(s, idx, i), 0, i + 1),
{
    lemma_total_order::<T>();
    let r = rotated_right(s, idx, i);
    assert forall|a: int, c: int| 0 <= a < c < i + 1 implies le(#[trigger] r[a], #[trigger] r[c])
        by {
        if c < idx {
            assert(le(s[a], s[c]));
        } else if c == idx {
            assert(le(s[a], s[i]));
        } else if a < idx {
            assert(le(s[a], s[c - 1]));
        } else if a == idx {
            assert(le(s[i], s[c - 1]));
        } else {
            assert(le(s[a - 1], s[c - 1]));
        }
    }
}

/// The invariant of the outer loop: `i` elements inserted.
spec fn inserted<T: Ord>(s0: Seq<T>, s: Seq<T>, i: int) -> bool {
    &&& s.len() == s0.len()
    &&& sorted_between(s, 0, i)
    &&& s.to_multiset() == s0.to_multiset()
    &&& forall|k: int| i <= k < s.len() ==> #[trigger] s[k] == s0[k]
    &&& s0.len() <= 1 ==> s == s0
}

fn rotate_stable_sort<T: Ord>(slice: &mut [T])
    requires
        obeys_cmp::<T>(),
    ensures
        sorted(final(slice)@),
        final(slice)@.to_multiset() == old(slice)@.to_multiset(),
        stable_rearrangement(old(slice)@, final(slice)@),
        old(slice)@.len() <= 1 ==> final(slice)@ == old(slice)@,
{
    let ghost s0 = slice@;
    let ghost mut p = identity_perm(s0.len() as int);
    proof {
        lemma_stable_by_identity(s0);
    }
    let len = slice.len();
    let mut i: usize = 1;
    while i < len
        invariant
            obeys_cmp::<T>(),
            len == s0.len(),
            1 <= i,
            inserted(s0, slice@, i as int),
            stable_by(s0, slice@, p),
        decreases len - i,
    {
        let idx = upper_bound(slice, i);
        proof {
            lemma_total_order::<T>();
            lemma_insert_sorted(slice@, idx as int, i as int);
            lemma_rotate_multiset(slice@, idx as int, i as int);
            lemma_rotate_stable(s0, slice@, p, idx as int, i as int);
            p = rotated_right(p, idx as int, i as int);
        }
        if idx != i {
            rotate_one_right(slice, idx, i);
        } else {
            assert(rotated_right(slice@, idx as int, i as int) =~= slice@);
        }
        i += 1;
    }
    proof {
        assert(sorted_between(slice@, 0, i as int));
    }
}

fn rotate_unstable_sort<T: Ord>(slice: &mut [T])
    requires
        obeys_cmp::<T>(),
    ensures
        sorted(final(slice)@),
        final(slice)@.to_multiset() == old(slice)@.to_multiset(),
        old(slice)@.len() <= 1 ==> final(slice)@ == old(slice)@,
        sorted(old(slice)@) ==> same_keys(final(slice)@, old(slice)@),
{
    let ghost s0 = slice@;
    proof {
        lemma_total_order::<T>();
    }
    let len = slice.len();
    let mut i: usize = 1;
    while i < len
        invariant
            obeys_cmp::<T>(),
            len == s0.len(),
            1 <= i,
            inserted(s0, slice@, i as int),
            sorted(s0) ==> same_keys(slice@, s0),
        decreases len - i,
    {
        let found = search_sorted_prefix(slice, i, i);
        let index = match found {
            Ok(j) => j,
            Err(j) => j,
        };
        proof {
            lemma_total_order::<T>();
            let s = slice@;
            match found {
                Ok(j) => {
                    assert forall|k: int| 0 <= k < j implies le(#[trigger] s[k], s[i as int]) by {
                        assert(le(s[k], s[j as int]));
                        assert(le(s[j as int], s[i as int]));
                    }
                    assert forall|k: int| j <= k < i implies le(s[i as int], #[trigger] s[k]) by {
                        assert(le(s[j as int], s[k]));
                        assert(le(s[i as int], s[j as int]));
                    }
                },
                Err(j) => {
                    assert forall|k: int| 0 <= k < j implies le(#[trigger] s[k], s[i as int]) by {
                        assert(s[k].cmp_spec(&s[i as int]) == Ordering::Less);
                    }
                    assert forall|k: int| j <= k < i implies le(s[i as int], #[trigger] s[k]) by {
                        assert(s[k].cmp_spec(&s[i as int]) == Ordering::Greater);
                    }
                },
            }
            lemma_insert_sorted(s, index as int, i as int);
            lemma_rotate_multiset(s, index as int, i as int);
            if sorted(s0) {
                let key = s[i as int];
                assert(key == s0[i as int]);
                match found {
                    Ok(j) => {
                        assert(equiv(s0[j as int], key));
                        assert forall|k: int| j <= k <= i implies equiv(#[trigger] s0[k], key) by {
                            assert(le(s0[j as int], s0[k]));
                            assert(le(s0[k], s0[i as int]));
                        }
                        let r = rotated_right(s, j as int, i as int);
                        assert forall|k: int| 0 <= k < r.len() implies equiv(
                            #[trigger] r[k],
                            s0[k],
                        ) by {
                            if j < k <= i {
                                assert(equiv(s[k - 1], s0[k - 1]));
                                assert(equiv(s0[k - 1], key));
                                assert(equiv(s0[k], key));
                            } else if k == j {
                                assert(equiv(s0[k], key));
                            } else {
                                assert(equiv(s[k], s0[k]));
                            }
                        }
                    },
                    Err(j) => {
                        if j < i {
                            assert(equiv(s[j as int], s0[j as int]));
                            assert(le(s0[j as int], s0[i as int]));
                            assert(s[j as int].cmp_spec(&key) == Ordering::Greater);
                        }
                    },
                }
            }
        }
        if index != i {
            rotate_one_right(slice, index, i);
        } else {
            assert(rotated_right(slice@, index as int, i as int) =~= slice@);
        }
        i += 1;
    }
    proof {
        assert(sorted_between(slice@, 0, i as int));
    }
}

fn swap_insertion_sort<T: Ord>(slice: &mut [T])
    requires
        obeys_cmp::<T>(),
    ensures
        sorted(final(slice)@),
        final(slice)@.to_multiset() == old(slice)@.to_multiset(),
        stable_rearrangement(old(slice)@, final(slice)@),
        old(slice)@.len() <= 1 ==> final(slice)@ == old(slice)@,
{
    let ghost s0 = slice@;
    let ghost mut p = identity_perm(s0.len() as int);
    proof {
        lemma_stable_by_identity(s0);
    }
    let len = slice.len();
    let mut i: usize = 1;
    while i < len
        invariant
            obeys_cmp::<T>(),
            len == s0.len(),
            1 <= i,
            inserted(s0, slice@, i as int),
            stable_by(s0, slice@, p),
        decreases len - i,
    {
        proof {
            lemma_total_order::<T>();
        }
        let mut j = i;
        while j > 0 && slice[j - 1] > slice[j]
            invariant
                obeys_cmp::<T>(),
                T::obeys_partial_cmp_spec(),
                len == s0.len() == slice@.len(),
                1 <= i < len,
                j <= i,
                sorted_between(slice@, 0, j as int),
                sorted_between(slice@, j + 1, i + 1),
                forall|a: int, c: int|
                    0 <= a < j < c <= i ==> le(#[trigger] slice@[a], #[trigger] slice@[c]),
                forall|c: int| j < c <= i ==> gt(#[trigger] slice@[c], slice@[j as int]),
                slice@.to_multiset() == s0.to_multiset(),
                forall|k: int| i < k < len ==> #[trigger] slice@[k] == s0[k],
                stable_by(s0, slice@, p),
            decreases j,
        {
            proof {
                lemma_total_order::<T>();
                lemma_swap_multiset(slice@, j - 1, j as int);
                lemma_swap_stable(s0, slice@, p, j as int);
                p = swapped(p, j - 1, j as int);
            }
            let ghost s = slice@;
            swap_at(slice, j - 1, j);
            proof {
                assert forall|c: int| j - 1 < c <= i implies gt(
                    #[trigger] slice@[c],
                    slice@[j - 1],
                ) by {
                    if c == j {
                        assert(gt(s[j - 1], s[j as int]));
                    } else {
                        assert(gt(s[c], s[j as int]));
                    }
                }
                assert forall|a: int, c: int| j < a < c <= i implies le(
                    #[trigger] slice@[a],
                    #[trigger] slice@[c],
                ) by {
                    assert(le(s[a], s[c]));
                }
                assert forall|c: int| j < c <= i implies le(slice@[j as int], #[trigger] slice@[c])
                    by {
                    assert(le(s[j - 1], s[c]));
                }
                assert forall|a: int, c: int|
                    0 <= a < j - 1 < c <= i implies le(#[trigger] slice@[a], #[trigger] slice@[c])
                    by {
                    if c == j {
                        assert(le(s[a], s[j - 1]));
                    } else {
                        assert(le(s[a], s[c]));
                    }
                }
            }
            j -= 1;
        }
        proof {
            lemma_total_order::<T>();
            let s = slice@;
            if j > 0 {
                assert(le(s[j - 1], s[j as int]));
                assert forall|a: int| 0 <= a < j implies le(#[trigger] s[a], s[j as int]) by {
                    if a < j - 1 {
                        assert(le(s[a], s[j - 1]));
                    }
                }
            }
            assert forall|a: int, c: int| 0 <= a < c < i + 1 implies le(
                #[trigger] s[a],
                #[trigger] s[c],
            ) by {
                if c < j {
                } else if c == j {
                } else if a < j {
                } else if a == j {
                    assert(gt(s[c], s[j as int]));
                }
            }
        }
        i += 1;
    }
    proof {
        assert(sorted_between(slice@, 0, i as int));
    }
}

/// Sorts `slice` by insertion, moving each element as `method` says. The
/// result is sorted and holds the input's elements. With `RotateStable` and
/// `Swap` equal elements keep their order, so a sorted input is left as it
/// is.
pub fn insertion_sort<T: Ord>(slice: &mut [T], method: Method)
    requires
        obeys_cmp::<T>(),
    ensures
        sorted(final(slice)@),
        final(slice)@.to_multiset() == old(slice)@.to_multiset(),
        !(method is RotateUnstable) ==> stable_rearrangement(old(slice)@, final(slice)@),
        !(method is RotateUnstable) && sorted(old(slice)@) ==> final(slice)@ == old(slice)@,
        sorted(old(slice)@) ==> same_keys(final(slice)@, old(slice)@),
        old(slice)@.len() <= 1 ==> final(slice)@ == old(slice)@,
{
    match method {
        Method::RotateStable => rotate_stable_sort(slice),
        Method::RotateUnstable => rotate_unstable_sort(slice),
        Method::Swap => swap_insertion_sort(slice),
    }
    proof {
        if !(method is RotateUnstable) && sorted(old(slice)@) {
            lemma_stable_sorted_unchanged(old(slice)@, slice@);
            lemma_total_order::<T>();
        }
    }
}

impl<T: Ord> Sorter<T> for InsertionSorter {
    fn sort(self, slice: &mut [T])
        ensures
            !(self.method is RotateUnstable) ==> stable_rearrangement(
                old(slice)@,
                final(slice)@,
            ),
            !(self.method is RotateUnstable) && sorted(old(slice)@) ==> final(slice)@ == old(
                slice,
            )@,
            sorted(old(slice)@) ==> same_keys(final(slice)@, old(slice)@),
    {
        insertion_sort(slice, self.method);
    }
}

} // verus!

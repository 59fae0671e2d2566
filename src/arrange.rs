//! Moving elements in place: exchanging two of them and rotating a range by
//! one place. Each move is mirrored on a ghost sequence of original indices,
//! which shows that the result is a rearrangement of the input, and which of
//! the moves keep elements with equal keys in their order.
use crate::order::{equiv, gt, le, lemma_total_order, sorted};
use vstd::laws_cmp::*;
use vstd::prelude::*;
use vstd::std_specs::cmp::OrdSpec;

verus! {

broadcast use vstd::seq_lib::group_to_multiset_ensures;

/// `s` with the elements at `i` and `j` exchanged.
pub open spec fn swapped<A>(s: Seq<A>, i: int, j: int) -> Seq<A> {
    s.update(i, s[j]).update(j, s[i])
}

/// `s` with the element at `hi` moved to `lo` and those in `lo..hi` moved up
/// by one place.
pub open spec fn rotated_right<A>(s: Seq<A>, lo: int, hi: int) -> Seq<A> {
    Seq::new(
        s.len(),
        |k: int|
            if lo < k <= hi {
                s[k - 1]
            } else if k == lo {
                s[hi]
            } else {
                s[k]
            },
    )
}

/// `p` lists each index of `0..n` exactly once.
pub open spec fn is_index_perm(p: Seq<int>, n: int) -> bool {
    &&& p.len() == n
    &&& forall|k: int| 0 <= k < n ==> 0 <= #[trigger] p[k] < n
    &&& forall|a: int, c: int| 0 <= a < c < n ==> #[trigger] p[a] != #[trigger] p[c]
}

/// The identity arrangement of `0..n`.
pub open spec fn identity_perm(n: int) -> Seq<int> {
    Seq::new(n as nat, |k: int| k)
}

/// `t` holds the elements of `s` in the order of the indices `p`, and of two
/// elements with equal keys the one that came first in `s` comes first in `t`.
pub open spec fn stable_by<T: Ord>(s: Seq<T>, t: Seq<T>, p: Seq<int>) -> bool {
    &&& is_index_perm(p, s.len() as int)
    &&& t.len() == s.len()
    &&& forall|k: int| 0 <= k < t.len() ==> #[trigger] t[k] == s[p[k]]
    &&& forall|a: int, c: int|
        0 <= a < c < t.len() && equiv(#[trigger] t[a], #[trigger] t[c]) ==> p[a] < p[c]
}

/// `t` is a rearrangement of `s` that keeps elements with equal keys in
/// their original relative order.
pub open spec fn stable_rearrangement<T: Ord>(s: Seq<T>, t: Seq<T>) -> bool {
    exists|p: Seq<int>| stable_by(s, t, p)
}

/// Relies on `<[T]>::swap`: it exchanges the two elements, and panics only on
/// an index out of bounds.
#[verifier::external_body]
pub(crate) fn swap_at<T>(s: &mut [T], i: usize, j: usize)
    requires
        i < old(s)@.len(),
        j < old(s)@.len(),
    ensures
        final(s)@ == swapped(old(s)@, i as int, j as int),
{
    s.swap(i, j);
}

/// Relies on `<[T]>::rotate_right` by one place, on the subslice `lo..=hi`:
/// its last element moves to its front and the others up by one.
#[verifier::external_body]
pub(crate) fn rotate_one_right<T>(s: &mut [T], lo: usize, hi: usize)
    requires
        lo <= hi < old(s)@.len(),
    ensures
        final(s)@ == rotated_right(old(s)@, lo as int, hi as int),
{
    s[lo..=hi].rotate_right(1);
}

/// Any sequence is a stable rearrangement of itself.
pub proof fn lemma_stable_by_identity<T: Ord>(s: Seq<T>)
    ensures
        stable_by(s, s, identity_perm(s.len() as int)),
{
}

/// Exchanging two elements keeps the multiset of elements.
pub proof fn lemma_swap_multiset<A>(s: Seq<A>, i: int, j: int)
    requires
        0 <= i < s.len(),
        0 <= j < s.len(),
    ensures
        swapped(s, i, j).to_multiset() == s.to_multiset(),
{
    vstd::seq_lib::to_multiset_update(s, i, s[j]);
    vstd::seq_lib::to_multiset_update(s.update(i, s[j]), j, s[i]);
    if i != j {
        assert(s.update(i, s[j])[j] == s[j]);
    }
    assert(s.to_multiset().insert(s[j]).remove(s[i]).insert(s[i]).remove(s[j])
        =~= s.to_multiset());
}

/// Moving one element within the sequence keeps the multiset of elements.
pub proof fn lemma_rotate_multiset<A>(s: Seq<A>, lo: int, hi: int)
    requires
        0 <= lo <= hi < s.len(),
    ensures
        rotated_right(s, lo, hi).to_multiset() == s.to_multiset(),
{
    let r = s.remove(hi);
    assert(rotated_right(s, lo, hi) =~= r.insert(lo, s[hi]));
    vstd::seq_lib::to_multiset_remove(s, hi);
    vstd::seq_lib::to_multiset_insert(r, lo, s[hi]);
    assert(s.to_multiset().remove(s[hi]).insert(s[hi]) =~= s.to_multiset());
}

/// Exchanging two neighbours where the first is strictly greater keeps a
/// stable rearrangement stable.
pub proof fn lemma_swap_stable<T: Ord>(s: Seq<T>, t: Seq<T>, p: Seq<int>, i: int)
    requires
        obeys_cmp::<T>(),
        stable_by(s, t, p),
        1 <= i < t.len(),
        gt(t[i - 1], t[i]),
    ensures
        stable_by(s, swapped(t, i - 1, i), swapped(p, i - 1, i)),
{
    lemma_total_order::<T>();
    let tm = swapped(t, i - 1, i);
    let pm = swapped(p, i - 1, i);
    assert forall|a: int, c: int| 0 <= a < c < tm.len() && equiv(tm[a], tm[c]) implies pm[a]
        < pm[c] by {
        if a == i - 1 && c == i {
            assert(t.index(i).cmp_spec(&t.index(i - 1)) == core::cmp::Ordering::Less);
        } else if a == i - 1 {
            assert(equiv(t[i], t[c]));
        } else if a == i {
            assert(equiv(t[i - 1], t[c]));
        } else if c == i - 1 {
            assert(equiv(t[a], t[i]));
        } else if c == i {
            assert(equiv(t[a], t[i - 1]));
        } else {
            assert(equiv(t[a], t[c]));
        }
    }
    assert forall|a: int, c: int| 0 <= a < c < tm.len() implies #[trigger] pm[a]
        != #[trigger] pm[c] by {
        if a == i - 1 || a == i || c == i - 1 || c == i {
            assert(p[i - 1] != p[i]);
        }
    }
}

/// Moving the element at `hi` down to `lo`, past elements that are all
/// strictly greater than it, keeps a stable rearrangement stable.
pub proof fn lemma_rotate_stable<T: Ord>(s: Seq<T>, t: Seq<T>, p: Seq<int>, lo: int, hi: int)
    requires
        obeys_cmp::<T>(),
        stable_by(s, t, p),
        0 <= lo <= hi < t.len(),
        forall|k: int| lo <= k < hi ==> gt(#[trigger] t[k], t[hi]),
    ensures
        stable_by(s, rotated_right(t, lo, hi), rotated_right(p, lo, hi)),
{
    lemma_total_order::<T>();
    let tm = rotated_right(t, lo, hi);
    let pm = rotated_right(p, lo, hi);
    assert forall|a: int, c: int| 0 <= a < c < tm.len() && equiv(tm[a], tm[c]) implies pm[a]
        < pm[c] by {
        if a == lo && lo < c <= hi {
            assert(gt(t[c - 1], t[hi]));
            assert(t.index(hi).cmp_spec(&t.index(c - 1)) == core::cmp::Ordering::Less);
        } else if a == lo {
            assert(equiv(t[hi], t[c]));
        } else if lo < a <= hi && lo < c <= hi {
            assert(equiv(t[a - 1], t[c - 1]));
        } else if lo < a <= hi {
            assert(equiv(t[a - 1], t[c]));
        } else if c == lo {
            assert(equiv(t[a], t[hi]));
        } else if lo < c <= hi {
            assert(equiv(t[a], t[c - 1]));
        } else {
            assert(equiv(t[a], t[c]));
        }
    }
    assert forall|a: int, c: int| 0 <= a < c < tm.len() implies #[trigger] pm[a]
        != #[trigger] pm[c] by {
        let a0 = if lo < a <= hi { a - 1 } else if a == lo { hi } else { a };
        let c0 = if lo < c <= hi { c - 1 } else if c == lo { hi } else { c };
        assert(a0 != c0);
        assert(pm[a] == p[a0] && pm[c] == p[c0]);
        if a0 < c0 {
            assert(p[a0] != p[c0]);
        } else {
            assert(p[c0] != p[a0]);
        }
    }
    assert forall|k: int| 0 <= k < tm.len() implies 0 <= #[trigger] pm[k] < s.len() by {
        let k0 = if lo < k <= hi { k - 1 } else if k == lo { hi } else { k };
        assert(pm[k] == p[k0]);
    }
}

/// A stable rearrangement of a sorted sequence that is itself sorted is the
/// sequence unchanged.
pub proof fn lemma_stable_sorted_unchanged<T: Ord>(s: Seq<T>, t: Seq<T>)
    requires
        obeys_cmp::<T>(),
        sorted(s),
        sorted(t),
        stable_rearrangement(s, t),
    ensures
        t == s,
{
    lemma_total_order::<T>();
    let p = choose|p: Seq<int>| stable_by(s, t, p);
    let n = s.len() as int;
    assert forall|a: int, c: int| 0 <= a < c < n implies #[trigger] p[a] < #[trigger] p[c] by {
        if p[c] < p[a] {
            assert(le(s[p[c]], s[p[a]]));
            assert(t[c] == s[p[c]] && t[a] == s[p[a]]);
            assert(le(t[a], t[c]));
            assert(equiv(t[a], t[c]));
        }
        assert(p[a] != p[c]);
    }
    lemma_increasing_perm_is_identity(p, n);
    assert(t =~= s);
}

/// The only arrangement of `0..n` in increasing order is the identity.
proof fn lemma_increasing_perm_is_identity(p: Seq<int>, n: int)
    requires
        is_index_perm(p, n),
        forall|a: int, c: int| 0 <= a < c < n ==> #[trigger] p[a] < #[trigger] p[c],
    ensures
        forall|k: int| 0 <= k < n ==> #[trigger] p[k] == k,
{
    assert forall|k: int| 0 <= k < n implies #[trigger] p[k] >= k by {
        lemma_increasing_lower(p, n, k);
    }
    assert forall|k: int| 0 <= k < n implies #[trigger] p[k] <= k by {
        lemma_increasing_upper(p, n, k);
    }
}

proof fn lemma_increasing_lower(p: Seq<int>, n: int, k: int)
    requires
        is_index_perm(p, n),
        forall|a: int, c: int| 0 <= a < c < n ==> #[trigger] p[a] < #[trigger] p[c],
        0 <= k < n,
    ensures
        p[k] >= k,
    decreases k,
{
    if k > 0 {
        lemma_increasing_lower(p, n, k - 1);
        assert(p[k - 1] < p[k]);
    }
}

proof fn lemma_increasing_upper(p: Seq<int>, n: int, k: int)
    requires
        is_index_perm(p, n),
        forall|a: int, c: int| 0 <= a < c < n ==> #[trigger] p[a] < #[trigger] p[c],
        0 <= k < n,
    ensures
        p[k] <= k,
    decreases n - k,
{
    if k < n - 1 {
        lemma_increasing_upper(p, n, k + 1);
        assert(p[k] < p[k + 1]);
    }
}

} // verus!

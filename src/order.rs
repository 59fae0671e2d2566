//! The total order on elements, as `Ord::cmp` states it, and what it means
//! for a sequence to be sorted.
use core::cmp::Ordering;
use vstd::laws_cmp::*;
use vstd::std_specs::cmp::{OrdSpec, PartialOrdSpec};
use crate::arrange::swapped;
use vstd::prelude::*;

verus! {

/// `x` does not come after `y`.
pub open spec fn le<T: Ord>(x: T, y: T) -> bool {
    x.cmp_spec(&y) != Ordering::Greater
}

/// `x` comes strictly after `y`.
pub open spec fn gt<T: Ord>(x: T, y: T) -> bool {
    x.cmp_spec(&y) == Ordering::Greater
}

/// `x` and `y` compare equal: they have equal keys.
pub open spec fn equiv<T: Ord>(x: T, y: T) -> bool {
    x.cmp_spec(&y) == Ordering::Equal
}

/// Every element is no greater than every element after it.
pub open spec fn sorted<T: Ord>(s: Seq<T>) -> bool {
    forall|a: int, c: int| 0 <= a < c < s.len() ==> le(#[trigger] s[a], #[trigger] s[c])
}

/// The elements of `s` in positions `lo..hi` are sorted.
pub open spec fn sorted_between<T: Ord>(s: Seq<T>, lo: int, hi: int) -> bool {
    forall|a: int, c: int| lo <= a < c < hi ==> le(#[trigger] s[a], #[trigger] s[c])
}

/// Position by position, the elements of `s` and `t` have equal keys.
pub open spec fn same_keys<T: Ord>(s: Seq<T>, t: Seq<T>) -> bool {
    &&& s.len() == t.len()
    &&& forall|k: int| 0 <= k < s.len() ==> equiv(#[trigger] s[k], t[k])
}

/// The positions from `b` on hold their final elements: they are sorted,
/// and none is smaller than an element before `b`.
pub open spec fn settled<T: Ord>(s: Seq<T>, b: int) -> bool {
    &&& sorted_between(s, b, s.len() as int)
    &&& forall|a: int, c: int| 0 <= a < b <= c < s.len() ==> le(#[trigger] s[a], #[trigger] s[c])
}

/// What a total order gives: the comparison operators agree with `cmp`, the
/// order is total and transitive, and equal keys are symmetric.
pub proof fn lemma_total_order<T: Ord>()
    requires
        obeys_cmp::<T>(),
    ensures
        T::obeys_partial_cmp_spec(),
        T::obeys_cmp_spec(),
        forall|x: T, y: T| #[trigger] x.partial_cmp_spec(&y) == Some(x.cmp_spec(&y)),
        forall|x: T, y: T|
            #![trigger x.cmp_spec(&y), y.cmp_spec(&x)]
            (x.cmp_spec(&y) == Ordering::Less) == (y.cmp_spec(&x) == Ordering::Greater),
        forall|x: T, y: T|
            #![trigger x.cmp_spec(&y), y.cmp_spec(&x)]
            (x.cmp_spec(&y) == Ordering::Equal) == (y.cmp_spec(&x) == Ordering::Equal),
        forall|x: T, y: T| #![trigger le(x, y), le(y, x)] le(x, y) || le(y, x),
        forall|x: T, y: T, z: T|
            #![trigger le(x, y), le(y, z), le(x, z)]
            le(x, y) && le(y, z) ==> le(x, z),
        forall|x: T, y: T| #[trigger] equiv(x, y) == (le(x, y) && le(y, x)),
        forall|x: T| #[trigger] equiv(x, x),
{
    reveal(obeys_cmp_partial_ord);
    reveal(obeys_cmp_ord);
    reveal(obeys_partial_cmp_spec_properties);
    reveal(vstd::laws_eq::obeys_eq_spec_properties);
    assert forall|x: T| #[trigger] equiv(x, x) by {
        assert(x.partial_cmp_spec(&x) == Some(x.cmp_spec(&x)));
    }
    assert forall|x: T, y: T, z: T| le(x, y) && le(y, z) implies le(x, z) by {
        assert(x.partial_cmp_spec(&y) == Some(x.cmp_spec(&y)));
        assert(y.partial_cmp_spec(&z) == Some(y.cmp_spec(&z)));
        assert(x.partial_cmp_spec(&z) == Some(x.cmp_spec(&z)));
        assert(z.partial_cmp_spec(&x) == Some(z.cmp_spec(&x)));
        assert(y.partial_cmp_spec(&x) == Some(y.cmp_spec(&x)));
        assert(z.partial_cmp_spec(&y) == Some(z.cmp_spec(&y)));
    }
}

/// The positions before `e` hold their final elements: they are sorted, and
/// none is greater than an element from `e` on.
pub open spec fn front_settled<T: Ord>(s: Seq<T>, e: int) -> bool {
    &&& sorted_between(s, 0, e)
    &&& forall|a: int, c: int| 0 <= a < e <= c < s.len() ==> le(#[trigger] s[a], #[trigger] s[c])
}

/// In a sorted sequence each element is no greater than the next one.
pub proof fn lemma_sorted_adjacent<T: Ord>(s: Seq<T>)
    requires
        sorted(s),
    ensures
        forall|i: int| 0 <= i < s.len() - 1 ==> le(#[trigger] s[i], s[i + 1]),
{
    assert forall|i: int| 0 <= i < s.len() - 1 implies le(#[trigger] s[i], s[i + 1]) by {
        assert(le(s[i], s[i + 1]));
    }
}

/// Where elements with equal keys are equal values, two sequences that agree
/// key by key are the same sequence; so a sort that leaves a sorted input's
/// keys in place leaves that input as it is.
pub proof fn lemma_same_keys_identical<T: Ord>(s: Seq<T>, t: Seq<T>)
    requires
        same_keys(s, t),
        forall|x: T, y: T| equiv(x, y) ==> x == y,
    ensures
        s == t,
{
    assert forall|k: int| 0 <= k < s.len() implies s[k] == t[k] by {
        assert(equiv(s[k], t[k]));
    }
    assert(s =~= t);
}

/// A settled front, a sorted middle and a settled back make a sorted
/// sequence.
pub proof fn lemma_sorted_from_parts<T: Ord>(s: Seq<T>, f: int, e: int)
    requires
        0 <= f <= e,
        front_settled(s, f),
        sorted_between(s, f, e),
        settled(s, e),
    ensures
        sorted(s),
{
    assert forall|a: int, c: int| 0 <= a < c < s.len() implies le(#[trigger] s[a], #[trigger] s[c])
        by {
        if c < f {
            assert(sorted_between(s, 0, f));
        } else if a < f {
        } else if c < e {
            assert(sorted_between(s, f, e));
        } else if a < e {
        } else {
            assert(sorted_between(s, e, s.len() as int));
        }
    }
}

/// Exchanging two elements between a settled front and a settled back keeps
/// both settled.
pub proof fn lemma_swap_keeps_settled<T: Ord>(s: Seq<T>, f: int, e: int, i: int, j: int)
    requires
        0 <= f <= i < e <= s.len(),
        f <= j < e,
        front_settled(s, f),
        settled(s, e),
    ensures
        front_settled(swapped(s, i, j), f),
        settled(swapped(s, i, j), e),
{
    let t = swapped(s, i, j);
    assert forall|a: int, c: int| 0 <= a < f <= c < t.len() implies le(#[trigger] t[a], #[trigger] t[c])
        by {
        if c == i {
            assert(le(s[a], s[j]));
        } else if c == j {
            assert(le(s[a], s[i]));
        } else {
            assert(le(s[a], s[c]));
        }
    }
    assert forall|a: int, c: int| 0 <= a < e <= c < t.len() implies le(#[trigger] t[a], #[trigger] t[c])
        by {
        if a == i {
            assert(le(s[j], s[c]));
        } else if a == j {
            assert(le(s[i], s[c]));
        } else {
            assert(le(s[a], s[c]));
        }
    }
    assert(sorted_between(t, 0, f) && sorted_between(s, 0, f));
    assert(sorted_between(t, e, t.len() as int) && sorted_between(s, e, s.len() as int));
}

} // verus!

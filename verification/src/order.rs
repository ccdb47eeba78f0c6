//! The order on elements: the relation that contracts speak of, the laws it
//! obeys, and what it means for a sequence to be ascending.

use core::cmp::Ordering;
use vstd::laws_cmp::obeys_cmp;
use vstd::laws_eq::obeys_concrete_eq;
use vstd::prelude::*;
use vstd::relations::{sorted_by, total_ordering};
use vstd::seq_lib::lemma_sorted_unique;
use vstd::std_specs::cmp::{PartialEqSpec, PartialOrdSpec};

verus! {

/// `a` comes strictly before `b`.
pub open spec fn lt<T: Ord>(a: T, b: T) -> bool {
    a.partial_cmp_spec(&b) == Some(Ordering::Less)
}

/// `a` does not come after `b`.
pub open spec fn le<T: Ord>(a: T, b: T) -> bool {
    !lt(b, a)
}

/// The comparison operators of `T` form a total order: they agree with one
/// another, they are transitive, any two elements are comparable, and two
/// elements compare equal exactly when they are the same value. Of the
/// integer types vstd shows both parts, in its groups
/// `vstd::laws_cmp::group_laws_cmp` and `vstd::laws_eq::group_laws_eq`.
pub open spec fn is_total_order<T: Ord>() -> bool {
    &&& obeys_cmp::<T>()
    &&& obeys_concrete_eq::<T>()
}

/// The comparison operators of a totally ordered `T` compute what their
/// specifications say, and `==` tells whether two values are the same.
proof fn lemma_operators<T: Ord>()
    requires
        is_total_order::<T>(),
    ensures
        T::obeys_eq_spec(),
        T::obeys_partial_cmp_spec(),
        forall|a: T, b: T| #[trigger] a.eq_spec(&b) <==> a == b,
{
    reveal(vstd::laws_cmp::obeys_cmp_partial_ord);
    reveal(vstd::laws_eq::obeys_concrete_eq);
}

/// The laws of a strict total order: nothing comes before itself, of two
/// distinct elements exactly one comes before the other, and coming before
/// is transitive, also through `le`.
pub proof fn lemma_order_laws<T: Ord>()
    requires
        is_total_order::<T>(),
    ensures
        forall|a: T| !#[trigger] lt(a, a),
        forall|a: T, b: T| #[trigger] lt(a, b) ==> !lt(b, a),
        forall|a: T, b: T| !#[trigger] lt(a, b) && !lt(b, a) ==> a == b,
        forall|a: T, b: T, c: T| #[trigger] lt(a, b) && #[trigger] lt(b, c) ==> lt(a, c),
        forall|a: T, b: T, c: T| #[trigger] lt(a, b) && #[trigger] le(b, c) ==> lt(a, c),
        forall|a: T, b: T, c: T| #[trigger] le(a, b) && #[trigger] lt(b, c) ==> lt(a, c),
        forall|a: T, b: T, c: T| #[trigger] le(a, b) && #[trigger] le(b, c) ==> le(a, c),
{
    reveal(vstd::laws_cmp::obeys_partial_cmp_spec_properties);
    reveal(vstd::laws_cmp::obeys_cmp_partial_ord);
    reveal(vstd::laws_cmp::obeys_cmp_ord);
    reveal(vstd::laws_eq::obeys_concrete_eq);
    reveal(vstd::laws_eq::obeys_eq_spec_properties);
}

/// Whether `a` comes strictly before `b`.
pub(crate) fn less<T: Ord>(a: &T, b: &T) -> (r: bool)
    requires
        is_total_order::<T>(),
    ensures
        r == lt(*a, *b),
{
    proof {
        lemma_operators::<T>();
    }
    *a < *b
}

/// Whether `a` and `b` are the same element.
pub(crate) fn same<T: Ord>(a: &T, b: &T) -> (r: bool)
    requires
        is_total_order::<T>(),
    ensures
        r == (*a == *b),
{
    proof {
        lemma_operators::<T>();
    }
    *a == *b
}

/// `s` ascends: no element comes after a later one.
pub open spec fn sorted<T: Ord>(s: Seq<T>) -> bool {
    forall|i: int, j: int| 0 <= i < j < s.len() ==> le(s[i], s[j])
}

/// The number of leading elements of `s` that come strictly before `x`. In
/// an ascending sequence this is the first place at which `x` can stand, and
/// the place of the first `x` if there is one.
pub open spec fn rank<T: Ord>(s: Seq<T>, x: T) -> nat
    decreases s.len(),
{
    if s.len() == 0 || !lt(s[0], x) {
        0
    } else {
        1 + rank(s.drop_first(), x)
    }
}

/// `rank(s, x)` is a place in `s` or its length; all before it comes before
/// `x`, and what stands at it does not.
pub proof fn lemma_rank_bounds<T: Ord>(s: Seq<T>, x: T)
    ensures
        rank(s, x) <= s.len(),
        forall|i: int| 0 <= i < rank(s, x) ==> lt(#[trigger] s[i], x),
        rank(s, x) < s.len() ==> !lt(s[rank(s, x) as int], x),
    decreases s.len(),
{
    if s.len() != 0 && lt(s[0], x) {
        let t = s.drop_first();
        lemma_rank_bounds(t, x);
        assert forall|i: int| 0 <= i < rank(s, x) implies lt(#[trigger] s[i], x) by {
            if i > 0 {
                assert(s[i] == t[i - 1]);
            }
        }
        if rank(s, x) < s.len() {
            assert(s[rank(s, x) as int] == t[rank(t, x) as int]);
        }
    }
}

/// A place `k` before which all comes before `x`, and at which something
/// stands that does not, is `rank(s, x)`.
pub proof fn lemma_rank_is<T: Ord>(s: Seq<T>, x: T, k: int)
    requires
        0 <= k <= s.len(),
        forall|i: int| 0 <= i < k ==> lt(#[trigger] s[i], x),
        k < s.len() ==> !lt(s[k], x),
    ensures
        rank(s, x) == k,
    decreases s.len(),
{
    if k > 0 {
        let t = s.drop_first();
        assert(lt(s[0], x));
        assert forall|i: int| 0 <= i < k - 1 implies lt(#[trigger] t[i], x) by {
            assert(t[i] == s[i + 1]);
        }
        if k - 1 < t.len() {
            assert(t[k - 1] == s[k]);
        }
        lemma_rank_is(t, x, k - 1);
    }
}

/// In an ascending sequence nothing from `rank(s, x)` on comes before `x`,
/// and `x` occurs exactly if it stands at `rank(s, x)`.
pub proof fn lemma_rank_sorted<T: Ord>(s: Seq<T>, x: T)
    requires
        is_total_order::<T>(),
        sorted(s),
    ensures
        forall|i: int| rank(s, x) <= i < s.len() ==> le(x, #[trigger] s[i]),
        s.contains(x) <==> rank(s, x) < s.len() && s[rank(s, x) as int] == x,
{
    lemma_order_laws::<T>();
    lemma_rank_bounds(s, x);
    let k = rank(s, x) as int;
    assert forall|i: int| k <= i < s.len() implies le(x, #[trigger] s[i]) by {
        if i > k {
            assert(le(s[k], s[i]));
        }
    }
    if s.contains(x) {
        let i = choose|i: int| 0 <= i < s.len() && s[i] == x;
        assert(i >= k);
        assert(le(s[k], s[i]));
    }
}

/// Putting `x` at `rank(s, x)` keeps an ascending sequence ascending.
pub proof fn lemma_insert_sorted<T: Ord>(s: Seq<T>, x: T)
    requires
        is_total_order::<T>(),
        sorted(s),
    ensures
        sorted(s.insert(rank(s, x) as int, x)),
{
    lemma_order_laws::<T>();
    lemma_rank_bounds(s, x);
    lemma_rank_sorted(s, x);
    let k = rank(s, x) as int;
    let t = s.insert(k, x);
    assert forall|i: int, j: int| 0 <= i < j < t.len() implies le(t[i], t[j]) by {
        if j < k {
            assert(t[i] == s[i] && t[j] == s[j]);
        } else if j == k {
            assert(t[i] == s[i]);
        } else if i < k {
            assert(t[i] == s[i] && t[j] == s[j - 1]);
            assert(le(x, s[j - 1]));
        } else if i == k {
            assert(t[j] == s[j - 1]);
        } else {
            assert(t[i] == s[i - 1] && t[j] == s[j - 1]);
        }
    }
}

/// A sequence made of two ascends exactly if both parts ascend and the
/// first does not end after the start of the second.
pub proof fn lemma_sorted_concat<T: Ord>(a: Seq<T>, b: Seq<T>)
    requires
        is_total_order::<T>(),
    ensures
        sorted(a + b) <==> sorted(a) && sorted(b) && (a.len() > 0 && b.len() > 0 ==> le(
            a.last(),
            b[0],
        )),
{
    lemma_order_laws::<T>();
    let s = a + b;
    let n = a.len() as int;
    if sorted(s) {
        assert forall|i: int, j: int| 0 <= i < j < a.len() implies le(a[i], a[j]) by {
            assert(s[i] == a[i] && s[j] == a[j]);
        }
        assert forall|i: int, j: int| 0 <= i < j < b.len() implies le(b[i], b[j]) by {
            assert(s[n + i] == b[i] && s[n + j] == b[j]);
        }
        if a.len() > 0 && b.len() > 0 {
            assert(s[n - 1] == a.last() && s[n] == b[0]);
        }
    }
    if sorted(a) && sorted(b) && (a.len() > 0 && b.len() > 0 ==> le(a.last(), b[0])) {
        assert forall|i: int, j: int| 0 <= i < j < s.len() implies le(s[i], s[j]) by {
            if j < n {
                assert(s[i] == a[i] && s[j] == a[j]);
            } else if i >= n {
                assert(s[i] == b[i - n] && s[j] == b[j - n]);
            } else {
                assert(s[i] == a[i] && s[j] == b[j - n]);
                if i < n - 1 {
                    assert(le(a[i], a.last()));
                }
                if j > n {
                    assert(le(b[0], b[j - n]));
                }
            }
        }
    }
}

/// Two ascending sequences that hold the same elements, each as often as the
/// other, are the same sequence.
pub proof fn lemma_sorted_same_elements<T: Ord>(a: Seq<T>, b: Seq<T>)
    requires
        is_total_order::<T>(),
        sorted(a),
        sorted(b),
        a.to_multiset() == b.to_multiset(),
    ensures
        a == b,
{
    lemma_order_laws::<T>();
    let leq = |x: T, y: T| le(x, y);
    assert(total_ordering(leq)) by {
        assert forall|x: T, y: T| #[trigger] leq(x, y) && #[trigger] leq(y, x) implies x == y by {
            assert(!lt(x, y) && !lt(y, x));
        }
        assert forall|x: T, y: T, z: T| #[trigger] leq(x, y) && #[trigger] leq(y, z) implies leq(
            x,
            z,
        ) by {
            assert(le(x, y) && le(y, z));
        }
        assert forall|x: T, y: T| #[trigger] leq(x, y) || #[trigger] leq(y, x) by {
            if lt(y, x) {
                assert(!lt(x, y));
            }
        }
        assert forall|x: T| #[trigger] leq(x, x) by {
            assert(!lt(x, x));
        }
    }
    assert(sorted_by(a, leq)) by {
        assert forall|i: int, j: int| 0 <= i < j < a.len() implies #[trigger] leq(a[i], a[j]) by {
            assert(le(a[i], a[j]));
        }
    }
    assert(sorted_by(b, leq)) by {
        assert forall|i: int, j: int| 0 <= i < j < b.len() implies #[trigger] leq(b[i], b[j]) by {
            assert(le(b[i], b[j]));
        }
    }
    lemma_sorted_unique(a, b, leq);
}

} // verus!

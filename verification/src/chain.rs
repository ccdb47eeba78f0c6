//! Chains of buffers, as sequences of sequences: what inserting and looking
//! up do to a chain, when a chain is in order, and the laws that follow.

use crate::list::{
    find_outcome, insert_contents, insert_outcome, lemma_insert_contents_sorted, AbsoluteOrdering,
};
use crate::order::{
    is_total_order, le, lemma_insert_sorted, lemma_order_laws, lemma_rank_bounds, lemma_rank_is,
    lemma_sorted_concat, lemma_sorted_same_elements, lt, rank, sorted,
};
use vstd::prelude::*;
use vstd::seq_lib::lemma_multiset_commutative;

verus! {

/// Every buffer of the chain holds at least one element and at most `cap`.
pub open spec fn bounded<T>(c: Seq<Seq<T>>, cap: nat) -> bool {
    forall|i: int| 0 <= i < c.len() ==> 1 <= (#[trigger] c[i]).len() <= cap
}

/// Every buffer of the chain ascends.
pub open spec fn each_sorted<T: Ord>(c: Seq<Seq<T>>) -> bool {
    forall|i: int| 0 <= i < c.len() ==> sorted(#[trigger] c[i])
}

/// No buffer of the chain ends after the start of the next one.
pub open spec fn linked<T: Ord>(c: Seq<Seq<T>>) -> bool {
    forall|i: int| 0 <= i < c.len() - 1 ==> le((#[trigger] c[i]).last(), c[i + 1][0])
}

/// The chain after `x` was inserted at its head, with buffers of capacity
/// `cap`. An empty chain gets a buffer that holds `x`. Else the first buffer
/// takes `x` if it has a free slot. A full one sends on to the rest of the
/// chain an `x` beyond its range, or the last element that `x` displaces;
/// and an `x` before its range gets a buffer of its own in front of it.
pub open spec fn chain_insert<T: Ord>(c: Seq<Seq<T>>, x: T, cap: nat) -> Seq<Seq<T>>
    recommends
        bounded(c, cap),
    decreases c.len(),
{
    if c.len() == 0 {
        seq![seq![x]]
    } else {
        let head = insert_contents(c[0], x, cap);
        match insert_outcome(c[0], x, cap) {
            Ok(None) => seq![head] + c.drop_first(),
            Ok(Some(y)) => seq![head] + chain_insert(c.drop_first(), y, cap),
            Err((y, AbsoluteOrdering::Greater)) => seq![head] + chain_insert(
                c.drop_first(),
                y,
                cap,
            ),
            Err((y, AbsoluteOrdering::Less)) => seq![seq![y]] + c,
        }
    }
}

/// What looking for `x` from the head of the chain gives: the place of the
/// first `x` in the first buffer whose range does not end before `x`, if
/// that buffer holds `x`.
pub open spec fn chain_find<T: Ord>(c: Seq<Seq<T>>, x: T) -> Option<usize>
    recommends
        forall|i: int| 0 <= i < c.len() ==> (#[trigger] c[i]).len() > 0,
    decreases c.len(),
{
    if c.len() == 0 {
        None
    } else {
        match find_outcome(c[0], x) {
            Ok(place) => place,
            Err(AbsoluteOrdering::Greater) => chain_find(c.drop_first(), x),
            Err(AbsoluteOrdering::Less) => None,
        }
    }
}

/// The first buffer with a free slot is followed by a buffer that starts
/// before `x`. In a chain that is in order this is the one case in which
/// inserting `x` puts it out of order: that buffer takes an `x` beyond its
/// range, and so ends after the start of the next.
pub open spec fn strays<T: Ord>(c: Seq<Seq<T>>, x: T, cap: nat) -> bool
    recommends
        bounded(c, cap),
    decreases c.len(),
{
    if c.len() < 2 {
        false
    } else if c[0].len() < cap {
        lt(c[1][0], x)
    } else {
        strays(c.drop_first(), x, cap)
    }
}

/// A chain flattens to its first buffer followed by what the rest flattens
/// to.
pub proof fn lemma_flatten_cons<T>(a: Seq<T>, r: Seq<Seq<T>>)
    ensures
        (seq![a] + r).flatten() == a + r.flatten(),
{
    let c = seq![a] + r;
    assert(c.first() == a);
    assert(c.drop_first() =~= r);
}

/// Inserting keeps every buffer within its capacity and ascending, and adds
/// at most one buffer to the chain.
pub proof fn lemma_insert_valid<T: Ord>(c: Seq<Seq<T>>, x: T, cap: nat)
    requires
        is_total_order::<T>(),
        cap >= 1,
        bounded(c, cap),
        each_sorted(c),
    ensures
        bounded(chain_insert(c, x, cap), cap),
        each_sorted(chain_insert(c, x, cap)),
        c.len() <= chain_insert(c, x, cap).len() <= c.len() + 1,
        chain_insert(c, x, cap).len() >= 1,
    decreases c.len(),
{
    let after = chain_insert(c, x, cap);
    if c.len() == 0 {
        assert(after[0] == seq![x]);
    } else {
        let rest = c.drop_first();
        let head = insert_contents(c[0], x, cap);
        lemma_insert_contents_sorted(c[0], x, cap);
        assert forall|i: int| 0 <= i < rest.len() implies 1 <= (#[trigger] rest[i]).len() <= cap
            && sorted(rest[i]) by {
            assert(rest[i] == c[i + 1]);
        }
        match insert_outcome(c[0], x, cap) {
            Ok(None) => {
                assert forall|i: int| 0 <= i < after.len() implies 1 <= (#[trigger] after[i]).len()
                    <= cap && sorted(after[i]) by {
                    if i > 0 {
                        assert(after[i] == rest[i - 1]);
                    }
                }
            },
            Err((y, AbsoluteOrdering::Less)) => {
                assert forall|i: int| 0 <= i < after.len() implies 1 <= (#[trigger] after[i]).len()
                    <= cap && sorted(after[i]) by {
                    if i > 0 {
                        assert(after[i] == c[i - 1]);
                    } else {
                        assert(after[0] == seq![y]);
                    }
                }
            },
            Ok(Some(y)) | Err((y, AbsoluteOrdering::Greater)) => {
                lemma_insert_valid(rest, y, cap);
                let tail = chain_insert(rest, y, cap);
                assert(after == seq![head] + tail);
                assert forall|i: int| 0 <= i < after.len() implies 1 <= (#[trigger] after[i]).len()
                    <= cap && sorted(after[i]) by {
                    if i > 0 {
                        assert(after[i] == tail[i - 1]);
                    }
                }
            },
        }
    }
}

/// Inserting `x` adds `x` to the elements of the chain, and changes nothing
/// else of them.
pub proof fn lemma_insert_elements<T: Ord>(c: Seq<Seq<T>>, x: T, cap: nat)
    requires
        bounded(c, cap),
    ensures
        chain_insert(c, x, cap).flatten().to_multiset() == c.flatten().to_multiset().insert(x),
        chain_insert(c, x, cap).flatten().len() == c.flatten().len() + 1,
    decreases c.len(),
{
    broadcast use vstd::multiset::group_multiset_axioms;
    broadcast use vstd::seq_lib::group_to_multiset_ensures;

    let after = chain_insert(c, x, cap);
    if c.len() == 0 {
        lemma_flatten_cons(seq![x], Seq::<Seq<T>>::empty());
        assert(after =~= seq![seq![x]] + Seq::<Seq<T>>::empty());
        assert(after.flatten() =~= Seq::<T>::empty().push(x));
        assert(c.flatten() =~= Seq::<T>::empty());
    } else {
        let rest = c.drop_first();
        let head = insert_contents(c[0], x, cap);
        assert(c =~= seq![c[0]] + rest);
        lemma_flatten_cons(c[0], rest);
        lemma_multiset_commutative(c[0], rest.flatten());
        assert forall|i: int| 0 <= i < rest.len() implies 1 <= (#[trigger] rest[i]).len()
            <= cap by {
            assert(rest[i] == c[i + 1]);
        }
        lemma_rank_bounds(c[0], x);
        let k = rank(c[0], x) as int;
        match insert_outcome(c[0], x, cap) {
            Ok(None) => {
                lemma_flatten_cons(head, rest);
                lemma_multiset_commutative(head, rest.flatten());
                assert(head.to_multiset() =~= c[0].to_multiset().insert(x));
            },
            Err((y, AbsoluteOrdering::Less)) => {
                lemma_flatten_cons(seq![y], c);
                lemma_multiset_commutative(seq![y], c.flatten());
                assert(seq![y] =~= Seq::<T>::empty().push(y));
            },
            Err((y, AbsoluteOrdering::Greater)) => {
                let tail = chain_insert(rest, y, cap);
                lemma_insert_elements(rest, y, cap);
                lemma_flatten_cons(head, tail);
                lemma_multiset_commutative(head, tail.flatten());
            },
            Ok(Some(y)) => {
                let tail = chain_insert(rest, y, cap);
                lemma_insert_elements(rest, y, cap);
                lemma_flatten_cons(head, tail);
                lemma_multiset_commutative(head, tail.flatten());
                let t = c[0].insert(k, x);
                assert(t.to_multiset() =~= c[0].to_multiset().insert(x));
                assert(t =~= head.push(y));
                assert(t.to_multiset() =~= head.to_multiset().insert(y));
                let m = rest.flatten().to_multiset();
                assert(after.flatten().to_multiset() =~= head.to_multiset().add(m.insert(y)));
                assert(head.to_multiset().add(m.insert(y)) =~= head.to_multiset().insert(y).add(m));
                assert(c.flatten().to_multiset().insert(x) =~= c[0].to_multiset().insert(x).add(m));
            },
        }
        assert(after.flatten().to_multiset() =~= c.flatten().to_multiset().insert(x));
    }
    assert(after.flatten().to_multiset().len() == after.flatten().len());
    assert(c.flatten().to_multiset().len() == c.flatten().len());
}

/// What holds of a chain, in terms of its first buffer and the rest.
proof fn lemma_cons<T: Ord>(h: Seq<T>, t: Seq<Seq<T>>, cap: nat)
    ensures
        bounded(seq![h] + t, cap) <==> 1 <= h.len() <= cap && bounded(t, cap),
        each_sorted(seq![h] + t) <==> sorted(h) && each_sorted(t),
        linked(seq![h] + t) <==> (t.len() > 0 ==> le(h.last(), t[0][0])) && linked(t),
{
    let c = seq![h] + t;
    assert(c[0] == h);
    if bounded(c, cap) {
        assert forall|i: int| 0 <= i < t.len() implies 1 <= (#[trigger] t[i]).len() <= cap by {
            assert(t[i] == c[i + 1]);
        }
    }
    if 1 <= h.len() <= cap && bounded(t, cap) {
        assert forall|i: int| 0 <= i < c.len() implies 1 <= (#[trigger] c[i]).len() <= cap by {
            if i > 0 {
                assert(c[i] == t[i - 1]);
            }
        }
    }
    if each_sorted(c) {
        assert forall|i: int| 0 <= i < t.len() implies sorted(#[trigger] t[i]) by {
            assert(t[i] == c[i + 1]);
        }
    }
    if sorted(h) && each_sorted(t) {
        assert forall|i: int| 0 <= i < c.len() implies sorted(#[trigger] c[i]) by {
            if i > 0 {
                assert(c[i] == t[i - 1]);
            }
        }
    }
    if linked(c) {
        assert forall|i: int| 0 <= i < t.len() - 1 implies le(
            (#[trigger] t[i]).last(),
            t[i + 1][0],
        ) by {
            assert(t[i] == c[i + 1] && t[i + 1] == c[i + 2]);
        }
        if t.len() > 0 {
            assert(c[1] == t[0]);
        }
    }
    if (t.len() > 0 ==> le(h.last(), t[0][0])) && linked(t) {
        assert forall|i: int| 0 <= i < c.len() - 1 implies le(
            (#[trigger] c[i]).last(),
            c[i + 1][0],
        ) by {
            if i > 0 {
                assert(c[i] == t[i - 1] && c[i + 1] == t[i]);
            } else {
                assert(c[1] == t[0]);
            }
        }
    }
}

/// A chain of non-empty buffers flattens to an ascending sequence exactly if
/// every buffer ascends and none ends after the start of the next.
pub proof fn lemma_sorted_iff_linked<T: Ord>(c: Seq<Seq<T>>, cap: nat)
    requires
        is_total_order::<T>(),
        bounded(c, cap),
    ensures
        sorted(c.flatten()) <==> each_sorted(c) && linked(c),
    decreases c.len(),
{
    if c.len() > 0 {
        let rest = c.drop_first();
        assert(c =~= seq![c[0]] + rest);
        lemma_cons(c[0], rest, cap);
        lemma_flatten_cons(c[0], rest);
        lemma_sorted_iff_linked(rest, cap);
        lemma_sorted_concat(c[0], rest.flatten());
        if rest.len() > 0 {
            let tail = rest.drop_first();
            assert(rest =~= seq![rest[0]] + tail);
            lemma_flatten_cons(rest[0], tail);
            assert(rest.flatten()[0] == rest[0][0]);
        } else {
            assert(rest.flatten() =~= Seq::<T>::empty());
        }
    }
}

/// An element that does not come after the start of a chain in order
/// strays nowhere in it.
proof fn lemma_low_never_strays<T: Ord>(c: Seq<Seq<T>>, x: T, cap: nat)
    requires
        is_total_order::<T>(),
        bounded(c, cap),
        each_sorted(c),
        linked(c),
        c.len() > 0,
        le(x, c[0][0]),
    ensures
        !strays(c, x, cap),
    decreases c.len(),
{
    lemma_order_laws::<T>();
    if c.len() >= 2 {
        let rest = c.drop_first();
        assert(c =~= seq![c[0]] + rest);
        lemma_cons(c[0], rest, cap);
        assert(c[0].len() == 1 || le(c[0][0], c[0].last()));
        assert(le(rest[0][0], rest[0][0]));
        assert(le(x, rest[0][0]));
        lemma_low_never_strays(rest, x, cap);
    }
}

/// Where an element strays in a chain in order, it lies beyond the first
/// buffer.
proof fn lemma_strays_beyond<T: Ord>(c: Seq<Seq<T>>, x: T, cap: nat)
    requires
        is_total_order::<T>(),
        bounded(c, cap),
        each_sorted(c),
        linked(c),
        strays(c, x, cap),
    ensures
        c.len() >= 2,
        lt(c[0].last(), x),
    decreases c.len(),
{
    lemma_order_laws::<T>();
    let rest = c.drop_first();
    assert(c =~= seq![c[0]] + rest);
    lemma_cons(c[0], rest, cap);
    if c[0].len() >= cap {
        lemma_strays_beyond(rest, x, cap);
        assert(rest[0].len() == 1 || le(rest[0][0], rest[0].last()));
    }
}

/// Inserting into a chain that is in order leaves it in order, unless the
/// element strays; and the chain then starts with the lesser of the element
/// and its old start.
proof fn lemma_insert_linked<T: Ord>(c: Seq<Seq<T>>, x: T, cap: nat)
    requires
        is_total_order::<T>(),
        cap >= 1,
        bounded(c, cap),
        each_sorted(c),
        linked(c),
        !strays(c, x, cap),
    ensures
        linked(chain_insert(c, x, cap)),
        chain_insert(c, x, cap).len() > 0,
        chain_insert(c, x, cap)[0].len() > 0,
        chain_insert(c, x, cap)[0][0] == (if c.len() > 0 && le(c[0][0], x) {
            c[0][0]
        } else {
            x
        }),
    decreases c.len(),
{
    lemma_order_laws::<T>();
    let after = chain_insert(c, x, cap);
    if c.len() == 0 {
        assert(after[0] == seq![x]);
    } else {
        let rest = c.drop_first();
        let head = insert_contents(c[0], x, cap);
        let k = rank(c[0], x) as int;
        let t = c[0].insert(k, x);
        assert(c =~= seq![c[0]] + rest);
        lemma_cons(c[0], rest, cap);
        lemma_insert_contents_sorted(c[0], x, cap);
        lemma_insert_sorted(c[0], x);
        lemma_rank_bounds(c[0], x);
        assert(c[0].len() == 1 || le(c[0][0], c[0].last()));
        if k == 0 && c[0].len() > 0 {
            assert(!lt(c[0][0], x));
        }
        if k > 0 {
            assert(lt(c[0][0], x));
        }
        match insert_outcome(c[0], x, cap) {
            Ok(None) => {
                lemma_cons(head, rest, cap);
                if rest.len() > 0 {
                    assert(rest[0] == c[1]);
                    if k == c[0].len() {
                        assert(head.last() == x);
                    } else {
                        assert(head.last() == c[0].last());
                    }
                }
            },
            Err((y, AbsoluteOrdering::Less)) => {
                lemma_cons(seq![y], c, cap);
                assert(seq![y].last() == y);
                assert(after[0] == seq![y]);
            },
            Err((y, AbsoluteOrdering::Greater)) => {
                let tail = chain_insert(rest, x, cap);
                lemma_insert_linked(rest, x, cap);
                lemma_cons(c[0], tail, cap);
                assert(after[0] == c[0]);
            },
            Ok(Some(y)) => {
                let tail = chain_insert(rest, y, cap);
                assert(k < c[0].len());
                assert(t.last() == y);
                assert(head.last() == t[c[0].len() - 1]);
                assert(le(head.last(), y)) by {
                    assert(le(t[c[0].len() - 1], t[c[0].len() as int]));
                }
                if rest.len() > 0 {
                    lemma_low_never_strays(rest, y, cap);
                }
                lemma_insert_linked(rest, y, cap);
                lemma_cons(head, tail, cap);
                assert(after[0] == head);
                assert(head[0] == t[0]);
            },
        }
    }
}

/// Inserting an element that strays puts a chain that was in order out of
/// order.
proof fn lemma_insert_unlinked<T: Ord>(c: Seq<Seq<T>>, x: T, cap: nat)
    requires
        is_total_order::<T>(),
        cap >= 1,
        bounded(c, cap),
        each_sorted(c),
        linked(c),
        strays(c, x, cap),
    ensures
        !linked(chain_insert(c, x, cap)),
    decreases c.len(),
{
    lemma_order_laws::<T>();
    lemma_strays_beyond(c, x, cap);
    let rest = c.drop_first();
    let head = insert_contents(c[0], x, cap);
    assert(c =~= seq![c[0]] + rest);
    lemma_cons(c[0], rest, cap);
    if c[0].len() < cap {
        assert forall|i: int| 0 <= i < c[0].len() implies lt(#[trigger] c[0][i], x) by {
            if i < c[0].len() - 1 {
                assert(le(c[0][i], c[0].last()));
            }
        }
        lemma_rank_is(c[0], x, c[0].len() as int);
        assert(head.last() == x);
        lemma_cons(head, rest, cap);
    } else {
        let tail = chain_insert(rest, x, cap);
        lemma_insert_unlinked(rest, x, cap);
        lemma_cons(c[0], tail, cap);
    }
}

/// A chain whose elements ascend from head to tail still does so after an
/// insertion, with the new element at its rank among them, unless the
/// element strays.
pub proof fn lemma_insert_ordered<T: Ord>(c: Seq<Seq<T>>, x: T, cap: nat)
    requires
        is_total_order::<T>(),
        cap >= 1,
        bounded(c, cap),
        sorted(c.flatten()),
        !strays(c, x, cap),
    ensures
        sorted(chain_insert(c, x, cap).flatten()),
        chain_insert(c, x, cap).flatten() == c.flatten().insert(rank(c.flatten(), x) as int, x),
{
    broadcast use vstd::seq_lib::group_to_multiset_ensures;

    let after = chain_insert(c, x, cap);
    let flat = c.flatten();
    lemma_sorted_iff_linked(c, cap);
    lemma_insert_valid(c, x, cap);
    lemma_insert_linked(c, x, cap);
    lemma_sorted_iff_linked(after, cap);
    lemma_insert_elements(c, x, cap);
    lemma_insert_sorted(flat, x);
    lemma_rank_bounds(flat, x);
    lemma_sorted_same_elements(after.flatten(), flat.insert(rank(flat, x) as int, x));
}

/// A chain whose elements ascend from head to tail no longer does so after
/// the insertion of an element that strays.
pub proof fn lemma_insert_strays<T: Ord>(c: Seq<Seq<T>>, x: T, cap: nat)
    requires
        is_total_order::<T>(),
        cap >= 1,
        bounded(c, cap),
        sorted(c.flatten()),
        strays(c, x, cap),
    ensures
        !sorted(chain_insert(c, x, cap).flatten()),
{
    lemma_sorted_iff_linked(c, cap);
    lemma_insert_valid(c, x, cap);
    lemma_insert_unlinked(c, x, cap);
    lemma_sorted_iff_linked(chain_insert(c, x, cap), cap);
}

/// Whatever the order of a chain, what is found in it is held by it.
pub proof fn lemma_find_sound<T: Ord>(c: Seq<Seq<T>>, x: T)
    ensures
        chain_find(c, x) is Some ==> c.flatten().contains(x),
    decreases c.len(),
{
    if c.len() > 0 {
        let a = c[0];
        let rest = c.drop_first();
        let flat = c.flatten();
        assert(c =~= seq![a] + rest);
        lemma_flatten_cons(a, rest);
        lemma_find_sound(rest, x);
        if a.contains(x) {
            let i = choose|i: int| 0 <= i < a.len() && a[i] == x;
            assert(flat[i] == x);
        }
        if rest.flatten().contains(x) {
            let j = choose|j: int| 0 <= j < rest.flatten().len() && rest.flatten()[j] == x;
            assert(flat[a.len() + j] == x);
        }
    }
}

/// In a chain whose elements ascend from head to tail, an element is found
/// exactly if the chain holds it.
pub proof fn lemma_find_ordered<T: Ord>(c: Seq<Seq<T>>, x: T, cap: nat)
    requires
        is_total_order::<T>(),
        bounded(c, cap),
        sorted(c.flatten()),
    ensures
        chain_find(c, x) is Some <==> c.flatten().contains(x),
    decreases c.len(),
{
    lemma_order_laws::<T>();
    if c.len() == 0 {
        assert(c.flatten() =~= Seq::<T>::empty());
    } else {
        let a = c[0];
        let rest = c.drop_first();
        let b = rest.flatten();
        let flat = c.flatten();
        let n = a.len() as int;
        assert(c =~= seq![a] + rest);
        lemma_cons(a, rest, cap);
        lemma_flatten_cons(a, rest);
        lemma_sorted_concat(a, b);
        lemma_find_ordered(rest, x, cap);
        assert(flat[0] == a[0] && flat[n - 1] == a.last());
        if a.contains(x) {
            let i = choose|i: int| 0 <= i < a.len() && a[i] == x;
            assert(flat[i] == x);
            assert(i == 0 || le(a[0], a[i]));
            assert(i == n - 1 || le(a[i], a.last()));
        }
        if b.contains(x) {
            let j = choose|j: int| 0 <= j < b.len() && b[j] == x;
            assert(flat[n + j] == x);
            assert(le(flat[n - 1], flat[n + j]));
        }
        if flat.contains(x) {
            let i = choose|i: int| 0 <= i < flat.len() && flat[i] == x;
            if i < n {
                assert(a[i] == x);
            } else {
                assert(b[i - n] == x);
            }
            assert(i == 0 || le(flat[0], flat[i]));
        }
    }
}

/// The chain after the elements of `xs` were inserted, first to last.
pub open spec fn chain_insert_all<T: Ord>(c: Seq<Seq<T>>, xs: Seq<T>, cap: nat) -> Seq<Seq<T>>
    decreases xs.len(),
{
    if xs.len() == 0 {
        c
    } else {
        chain_insert(chain_insert_all(c, xs.drop_last(), cap), xs.last(), cap)
    }
}

/// None of the elements of `xs` strays when its turn to be inserted comes.
pub open spec fn none_strays<T: Ord>(c: Seq<Seq<T>>, xs: Seq<T>, cap: nat) -> bool
    decreases xs.len(),
{
    xs.len() == 0 || (none_strays(c, xs.drop_last(), cap) && !strays(
        chain_insert_all(c, xs.drop_last(), cap),
        xs.last(),
        cap,
    ))
}

/// After any number of insertions every buffer is within its capacity and
/// ascends, the chain holds what it held and what was inserted, each as
/// often as it was inserted, and so as many elements more as there were
/// insertions.
pub proof fn lemma_insert_all_elements<T: Ord>(c: Seq<Seq<T>>, xs: Seq<T>, cap: nat)
    requires
        is_total_order::<T>(),
        cap >= 1,
        bounded(c, cap),
        each_sorted(c),
    ensures
        bounded(chain_insert_all(c, xs, cap), cap),
        each_sorted(chain_insert_all(c, xs, cap)),
        chain_insert_all(c, xs, cap).flatten().to_multiset() == c.flatten().to_multiset().add(
            xs.to_multiset(),
        ),
        chain_insert_all(c, xs, cap).flatten().len() == c.flatten().len() + xs.len(),
    decreases xs.len(),
{
    broadcast use vstd::multiset::group_multiset_axioms;
    broadcast use vstd::seq_lib::group_to_multiset_ensures;

    if xs.len() == 0 {
        assert(xs.to_multiset() =~= vstd::multiset::Multiset::<T>::empty());
        assert(c.flatten().to_multiset().add(xs.to_multiset()) =~= c.flatten().to_multiset());
    } else {
        let before = chain_insert_all(c, xs.drop_last(), cap);
        lemma_insert_all_elements(c, xs.drop_last(), cap);
        lemma_insert_valid(before, xs.last(), cap);
        lemma_insert_elements(before, xs.last(), cap);
        assert(xs =~= xs.drop_last().push(xs.last()));
        assert(xs.to_multiset() =~= xs.drop_last().to_multiset().insert(xs.last()));
        assert(chain_insert_all(c, xs, cap).flatten().to_multiset() =~= c.flatten().to_multiset().add(
            xs.to_multiset(),
        ));
    }
}

/// A chain whose elements ascend from head to tail still does so after any
/// number of insertions of which none strays.
pub proof fn lemma_insert_all_ordered<T: Ord>(c: Seq<Seq<T>>, xs: Seq<T>, cap: nat)
    requires
        is_total_order::<T>(),
        cap >= 1,
        bounded(c, cap),
        sorted(c.flatten()),
        none_strays(c, xs, cap),
    ensures
        sorted(chain_insert_all(c, xs, cap).flatten()),
    decreases xs.len(),
{
    if xs.len() > 0 {
        lemma_sorted_iff_linked(c, cap);
        lemma_insert_all_elements(c, xs.drop_last(), cap);
        lemma_insert_all_ordered(c, xs.drop_last(), cap);
        lemma_insert_ordered(chain_insert_all(c, xs.drop_last(), cap), xs.last(), cap);
    }
}

/// Inserting the same elements, each as often, in two different orders
/// into a chain whose elements ascend from head to tail gives the same
/// sequence of elements, where in neither order an element strays.
pub proof fn lemma_insert_order_insensitive<T: Ord>(
    c: Seq<Seq<T>>,
    xs: Seq<T>,
    ys: Seq<T>,
    cap: nat,
)
    requires
        is_total_order::<T>(),
        cap >= 1,
        bounded(c, cap),
        sorted(c.flatten()),
        xs.to_multiset() == ys.to_multiset(),
        none_strays(c, xs, cap),
        none_strays(c, ys, cap),
    ensures
        chain_insert_all(c, xs, cap).flatten() == chain_insert_all(c, ys, cap).flatten(),
{
    lemma_sorted_iff_linked(c, cap);
    lemma_insert_all_elements(c, xs, cap);
    lemma_insert_all_elements(c, ys, cap);
    lemma_insert_all_ordered(c, xs, cap);
    lemma_insert_all_ordered(c, ys, cap);
    lemma_sorted_same_elements(
        chain_insert_all(c, xs, cap).flatten(),
        chain_insert_all(c, ys, cap).flatten(),
    );
}

/// With buffers of one element nothing ever strays: no buffer has a free
/// slot.
pub proof fn lemma_capacity_one_never_strays<T: Ord>(c: Seq<Seq<T>>, x: T)
    requires
        bounded(c, 1),
    ensures
        !strays(c, x, 1),
    decreases c.len(),
{
    if c.len() >= 2 {
        let rest = c.drop_first();
        assert forall|i: int| 0 <= i < rest.len() implies 1 <= (#[trigger] rest[i]).len() <= 1 by {
            assert(rest[i] == c[i + 1]);
        }
        lemma_capacity_one_never_strays(rest, x);
    }
}

/// A chain grows by a buffer whenever all its buffers are full, and by none
/// while its first buffer has a free slot.
pub proof fn lemma_insert_grows<T: Ord>(c: Seq<Seq<T>>, x: T, cap: nat)
    requires
        bounded(c, cap),
    ensures
        (forall|i: int| 0 <= i < c.len() ==> (#[trigger] c[i]).len() == cap) ==> chain_insert(
            c,
            x,
            cap,
        ).len() == c.len() + 1,
        c.len() > 0 && c[0].len() < cap ==> chain_insert(c, x, cap).len() == c.len(),
    decreases c.len(),
{
    if c.len() > 0 {
        let rest = c.drop_first();
        assert forall|i: int| 0 <= i < rest.len() implies 1 <= (#[trigger] rest[i]).len() <= cap by {
            assert(rest[i] == c[i + 1]);
        }
        if forall|i: int| 0 <= i < c.len() ==> (#[trigger] c[i]).len() == cap {
            assert forall|i: int| 0 <= i < rest.len() implies (#[trigger] rest[i]).len() == cap by {
                assert(rest[i] == c[i + 1]);
            }
        }
        match insert_outcome(c[0], x, cap) {
            Ok(Some(y)) | Err((y, AbsoluteOrdering::Greater)) => {
                lemma_insert_grows(rest, y, cap);
            },
            _ => {},
        }
    }
}

} // verus!

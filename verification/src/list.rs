//! The bounded sorted buffer: a non-empty run of elements held inline in a
//! fixed number of slots.

use crate::order::{
    is_total_order, lemma_insert_sorted, lemma_order_laws, lemma_rank_bounds, lemma_rank_is,
    lemma_rank_sorted, less, lt, rank, same, sorted,
};
use vstd::prelude::*;

verus! {

/// `core::array::from_fn` builds an array by calling `f` once for each index
/// and storing what the call returns at that index. The contract asks that
/// `f` may be called on every index below `N`, and claims that each slot
/// holds a value that `f` can return for the slot's index.
pub assume_specification<T, const N: usize, F>[ core::array::from_fn ](f: F) -> (r: [T; N])
    where
        F: FnMut(usize) -> T,
    requires
        forall|i: usize| i < N ==> call_requires(f, (i,)),
    ensures
        forall|i: usize| i < N ==> call_ensures(f, (i,), #[trigger] r@[i as int]),
;

/// An unoccupied slot, whatever its index.
fn vacant<T>(_index: usize) -> (slot: Option<T>)
    ensures
        slot is None,
{
    None
}

/// The side on which an element lies outside the range of a buffer.
#[derive(Debug, Eq, PartialEq, Copy, Clone)]
pub enum AbsoluteOrdering {
    Less,
    Greater,
}

/// The side of the non-empty ascending sequence `s` on which `x` lies
/// outside its range, if it does.
pub open spec fn outside<T: Ord>(s: Seq<T>, x: T) -> Option<AbsoluteOrdering>
    recommends
        s.len() > 0,
{
    if lt(s.last(), x) {
        Some(AbsoluteOrdering::Greater)
    } else if lt(x, s[0]) {
        Some(AbsoluteOrdering::Less)
    } else {
        None
    }
}

/// What inserting `x` into the non-empty ascending sequence `s` of capacity
/// `cap` hands back: nothing where a slot is free; `x` itself, with its
/// side, where `s` is full and `x` lies outside its range; else the last
/// element of `s`, which `x` displaces.
pub open spec fn insert_outcome<T: Ord>(s: Seq<T>, x: T, cap: nat) -> Result<
    Option<T>,
    (T, AbsoluteOrdering),
>
    recommends
        0 < s.len() <= cap,
{
    if s.len() < cap {
        Ok(None)
    } else {
        match outside(s, x) {
            Some(side) => Err((x, side)),
            None => Ok(Some(s.last())),
        }
    }
}

/// What the non-empty ascending sequence `s` of capacity `cap` holds after
/// `x` was inserted: `x` at its rank where a slot is free; `s` unchanged
/// where it is full and `x` lies outside its range; else `x` at its rank and
/// the last element gone.
pub open spec fn insert_contents<T: Ord>(s: Seq<T>, x: T, cap: nat) -> Seq<T>
    recommends
        0 < s.len() <= cap,
{
    if s.len() < cap {
        s.insert(rank(s, x) as int, x)
    } else if outside(s, x) is Some {
        s
    } else {
        s.insert(rank(s, x) as int, x).drop_last()
    }
}

/// What looking for `x` in the non-empty ascending sequence `s` gives: the
/// side on which `x` lies outside the range of `s`, or else the place of the
/// first `x`, if there is one.
pub open spec fn find_outcome<T: Ord>(s: Seq<T>, x: T) -> Result<Option<usize>, AbsoluteOrdering>
    recommends
        s.len() > 0,
{
    match outside(s, x) {
        Some(side) => Err(side),
        None => if s.contains(x) {
            Ok(Some(rank(s, x) as usize))
        } else {
            Ok(None)
        },
    }
}

/// Inserting keeps a non-empty ascending sequence non-empty and ascending,
/// and within its capacity.
pub proof fn lemma_insert_contents_sorted<T: Ord>(s: Seq<T>, x: T, cap: nat)
    requires
        is_total_order::<T>(),
        sorted(s),
        1 <= s.len() <= cap,
    ensures
        sorted(insert_contents(s, x, cap)),
        1 <= insert_contents(s, x, cap).len() <= cap,
        s.len() < cap ==> insert_contents(s, x, cap).len() == s.len() + 1,
        s.len() == cap ==> insert_contents(s, x, cap).len() == s.len(),
{
    lemma_rank_bounds(s, x);
    lemma_insert_sorted(s, x);
    let t = s.insert(rank(s, x) as int, x);
    let u = t.drop_last();
    assert forall|i: int, j: int| 0 <= i < j < u.len() implies crate::order::le(u[i], u[j]) by {
        assert(u[i] == t[i] && u[j] == t[j]);
    }
}

/// A non-empty list of at most `N` elements, held in `N` inline slots of
/// which the first `len` are occupied.
#[derive(Debug, Copy, PartialEq)]
pub struct BArrayVec<T, const N: usize> {
    len: u8,
    buf: [Option<T>; N],
}

impl<T: Clone, const N: usize> Clone for BArrayVec<T, N> {
    /// A list of as many elements, each a clone of the element at its place.
    fn clone(&self) -> (r: Self)
        ensures
            r@.len() == self@.len(),
            self.wf() ==> r.wf(),
            self.wf() ==> forall|i: int|
                0 <= i < self@.len() ==> cloned::<T>(#[trigger] self@[i], r@[i]),
    {
        let mut buf: [Option<T>; N] = core::array::from_fn(vacant::<T>);
        let mut i: usize = 0;
        while i < N
            invariant
                i <= N,
                forall|j: int| 0 <= j < i ==> (#[trigger] buf[j] is Some <==> self.buf[j] is Some),
                forall|j: int|
                    0 <= j < i && self.buf[j] is Some ==> cloned::<T>(
                        self.buf[j]->0,
                        (#[trigger] buf[j])->0,
                    ),
                forall|j: int| i <= j < N ==> #[trigger] buf[j] is None,
            decreases N - i,
        {
            buf[i] = self.buf[i].clone();
            i += 1;
        }
        BArrayVec { len: self.len, buf }
    }
}

impl<T, const N: usize> View for BArrayVec<T, N> {
    type V = Seq<T>;

    /// The elements, first to last.
    closed spec fn view(&self) -> Seq<T> {
        Seq::new(self.len as nat, |i: int| self.buf[i]->0)
    }
}

impl<T, const N: usize> BArrayVec<T, N> {
    /// The list holds at least one element and at most `N`, `N` is below 256,
    /// and exactly the first `len` slots are occupied.
    pub closed spec fn wf(&self) -> bool {
        &&& 1 <= self.len <= N < 256
        &&& forall|i: int| 0 <= i < N ==> (#[trigger] self.buf[i] is Some <==> i < self.len)
    }

    /// A well-formed list is not empty and not longer than `N`.
    pub proof fn lemma_wf_len(&self)
        requires
            self.wf(),
        ensures
            1 <= self@.len() <= N < 256,
    {
    }

    /// A list that holds `item` alone.
    pub fn new(item: T) -> (r: Self)
        requires
            0 < N < 256,
        ensures
            r.wf(),
            r@ == seq![item],
    {
        let mut buf: [Option<T>; N] = core::array::from_fn(vacant::<T>);
        buf[0] = Some(item);
        let r = BArrayVec { len: 1, buf };
        assert(r@ =~= seq![item]);
        r
    }

    /// The number of elements.
    pub fn len(&self) -> (r: usize)
        ensures
            r == self@.len(),
    {
        self.len as usize
    }

    /// Whether every slot is occupied.
    pub fn is_full(&self) -> (r: bool)
        ensures
            r == (self@.len() == N),
    {
        self.len as usize == N
    }

    /// The first element.
    pub fn min(&self) -> (r: &T)
        requires
            self.wf(),
        ensures
            *r == self@[0],
    {
        self.buf[0].as_ref().unwrap()
    }

    /// The last element.
    pub fn max(&self) -> (r: &T)
        requires
            self.wf(),
        ensures
            *r == self@.last(),
    {
        self.buf[self.len as usize - 1].as_ref().unwrap()
    }

    /// The element at `index`, if there is one.
    pub fn get(&self, index: usize) -> (r: Option<&T>)
        requires
            self.wf(),
        ensures
            r == (if index < self@.len() {
                Some(&self@[index as int])
            } else {
                None
            }),
    {
        if index < self.len as usize {
            self.buf[index].as_ref()
        } else {
            None
        }
    }

    /// Appends `item` if a slot is free, and hands it back if none is.
    pub fn _push(&mut self, item: T) -> (r: Result<(), T>)
        requires
            old(self).wf(),
        ensures
            final(self).wf(),
            old(self)@.len() < N ==> r is Ok && final(self)@ == old(self)@.push(item),
            old(self)@.len() == N ==> r == Err::<(), T>(item) && *final(self) == *old(self),
    {
        if !self.is_full() {
            let len = self.len as usize;
            self.buf[len] = Some(item);
            self.len = self.len + 1;
            assert(self@ =~= old(self)@.push(item));
            Ok(())
        } else {
            Err(item)
        }
    }

    /// Puts `item` at `index` and moves what stood there, and all after it,
    /// one place on. Where every slot was occupied, the last element leaves
    /// the list and is handed back.
    fn _insert(&mut self, index: usize, item: T) -> (r: Option<T>)
        requires
            old(self).wf(),
            index < old(self)@.len(),
        ensures
            final(self).wf(),
            old(self)@.len() < N ==> r is None && final(self)@ == old(self)@.insert(
                index as int,
                item,
            ),
            old(self)@.len() == N ==> r == Some(old(self)@.last()) && final(self)@ == old(
                self,
            )@.insert(index as int, item).drop_last(),
    {
        let ghost before = self@;
        let len = self.len as usize;
        let mut carry: Option<T> = Some(item);
        let mut i: usize = index;
        while i < len
            invariant
                index <= i <= len,
                len == before.len(),
                self.len == len,
                1 <= len <= N < 256,
                carry == Some(if i == index { item } else { before[i - 1] }),
                forall|j: int| 0 <= j < N ==> (#[trigger] self.buf[j] is Some <==> j < len),
                forall|j: int| 0 <= j < index ==> (#[trigger] self.buf[j])->0 == before[j],
                index < i ==> self.buf[index as int]->0 == item,
                forall|j: int| index < j < i ==> (#[trigger] self.buf[j])->0 == before[j - 1],
                forall|j: int| i <= j < len ==> (#[trigger] self.buf[j])->0 == before[j],
            decreases len - i,
        {
            core::mem::swap(&mut self.buf[i], &mut carry);
            i += 1;
        }
        if len < N {
            self.buf[len] = carry;
            self.len = self.len + 1;
            assert(self@ =~= before.insert(index as int, item));
            None
        } else {
            assert(self@ =~= before.insert(index as int, item).drop_last());
            carry
        }
    }

    /// Puts `item` in front if a slot is free, and hands it back if none is.
    pub fn _push_front(&mut self, item: T) -> (r: Result<(), T>)
        requires
            old(self).wf(),
        ensures
            final(self).wf(),
            old(self)@.len() < N ==> r is Ok && final(self)@ == old(self)@.insert(0, item),
            old(self)@.len() == N ==> r == Err::<(), T>(item) && *final(self) == *old(self),
    {
        if self.is_full() {
            Err(item)
        } else {
            let _ = self._insert(0, item);
            Ok(())
        }
    }
}

impl<T: Ord, const N: usize> BArrayVec<T, N> {
    /// The rank of `item` among the elements, by bisection.
    fn search(&self, item: &T) -> (r: usize)
        requires
            self.wf(),
            sorted(self@),
            is_total_order::<T>(),
        ensures
            r == rank(self@, *item),
    {
        let mut lo: usize = 0;
        let mut hi: usize = self.len as usize;
        proof {
            lemma_order_laws::<T>();
        }
        while lo < hi
            invariant
                self.wf(),
                sorted(self@),
                is_total_order::<T>(),
                lo <= hi <= self@.len(),
                forall|j: int| 0 <= j < lo ==> lt(#[trigger] self@[j], *item),
                hi < self@.len() ==> !lt(self@[hi as int], *item),
            decreases hi - lo,
        {
            let mid = lo + (hi - lo) / 2;
            if less(self.buf[mid].as_ref().unwrap(), item) {
                proof {
                    lemma_order_laws::<T>();
                    assert forall|j: int| 0 <= j < mid + 1 implies lt(
                        #[trigger] self@[j],
                        *item,
                    ) by {
                        if j < mid {
                            assert(crate::order::le(self@[j], self@[mid as int]));
                        }
                    }
                }
                lo = mid + 1;
            } else {
                hi = mid;
            }
        }
        proof {
            lemma_rank_is(self@, *item, lo as int);
        }
        lo
    }

    /// Inserts `item` so that the list stays ascending. Where every slot is
    /// occupied, an `item` outside the range of the list is handed back with
    /// its side, and any other `item` displaces the last element, which is
    /// handed back.
    pub fn insert(&mut self, item: T) -> (r: Result<Option<T>, (T, AbsoluteOrdering)>)
        requires
            old(self).wf(),
            sorted(old(self)@),
            is_total_order::<T>(),
        ensures
            final(self).wf(),
            sorted(final(self)@),
            r == insert_outcome(old(self)@, item, N as nat),
            final(self)@ == insert_contents(old(self)@, item, N as nat),
    {
        proof {
            lemma_order_laws::<T>();
            lemma_insert_contents_sorted(self@, item, N as nat);
            lemma_rank_bounds(self@, item);
        }
        if less(self.max(), &item) {
            proof {
                assert forall|i: int| 0 <= i < self@.len() implies lt(#[trigger] self@[i], item) by {
                    if i < self@.len() - 1 {
                        assert(crate::order::le(self@[i], self@.last()));
                    }
                }
                lemma_rank_is(self@, item, self@.len() as int);
                assert(self@.insert(self@.len() as int, item) =~= self@.push(item));
            }
            match self._push(item) {
                Ok(()) => Ok(None),
                Err(item) => Err((item, AbsoluteOrdering::Greater)),
            }
        } else if less(&item, self.min()) {
            proof {
                lemma_rank_is(self@, item, 0);
            }
            match self._push_front(item) {
                Ok(()) => Ok(None),
                Err(item) => Err((item, AbsoluteOrdering::Less)),
            }
        } else {
            let index = self.search(&item);
            Ok(self._insert(index, item))
        }
    }

    /// Looks for `item`: its side where it lies outside the range of the
    /// list, else the place of its first occurrence, if it occurs.
    pub fn find(&self, item: &T) -> (r: Result<Option<usize>, AbsoluteOrdering>)
        requires
            self.wf(),
            sorted(self@),
            is_total_order::<T>(),
        ensures
            r == find_outcome(self@, *item),
    {
        if less(self.max(), item) {
            Err(AbsoluteOrdering::Greater)
        } else if less(item, self.min()) {
            Err(AbsoluteOrdering::Less)
        } else {
            let index = self.search(item);
            proof {
                lemma_rank_bounds(self@, *item);
                lemma_rank_sorted(self@, *item);
            }
            if same(self.buf[index].as_ref().unwrap(), item) {
                Ok(Some(index))
            } else {
                Ok(None)
            }
        }
    }

    /// Whether `item` occurs, or its side where it lies outside the range of
    /// the list.
    pub fn contains(&self, item: &T) -> (r: Result<bool, AbsoluteOrdering>)
        requires
            self.wf(),
            sorted(self@),
            is_total_order::<T>(),
        ensures
            r == (match outside(self@, *item) {
                Some(side) => Err(side),
                None => Ok(self@.contains(*item)),
            }),
    {
        match self.find(item) {
            Ok(index) => Ok(index.is_some()),
            Err(side) => Err(side),
        }
    }
}

} // verus!

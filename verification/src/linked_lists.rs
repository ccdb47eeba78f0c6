//! The ordered container: a chain of nodes and a count of its elements.

use crate::chain::{bounded, chain_find, chain_insert, each_sorted, lemma_insert_elements, strays};
use crate::node::Node;
use crate::order::{is_total_order, rank, sorted};
use vstd::prelude::*;

verus! {

/// An ordered multiset: a chain of buffers of at most `N` elements each,
/// empty until the first insertion, and the number of elements it holds.
#[derive(Debug)]
pub struct LinkedLists<T, const N: usize> {
    root: Option<Node<T, N>>,
    len: usize,
}

impl<T, const N: usize> View for LinkedLists<T, N> {
    type V = Seq<T>;

    /// The elements, buffer after buffer from the head of the chain.
    open spec fn view(&self) -> Seq<T> {
        self.chain().flatten()
    }
}

impl<T, const N: usize> LinkedLists<T, N> {
    /// The contents of the buffers, from the head of the chain; empty while
    /// nothing was inserted.
    pub closed spec fn chain(&self) -> Seq<Seq<T>> {
        match self.root {
            None => Seq::empty(),
            Some(root) => root.chain(),
        }
    }

    /// The chain is well formed, and the count is the number of elements in
    /// it.
    pub closed spec fn wf(&self) -> bool {
        &&& match self.root {
            None => true,
            Some(root) => root.wf(),
        }
        &&& self.len == self.chain().flatten().len()
    }

    /// In a well-formed container no buffer is empty or holds more than `N`
    /// elements, and the chain is empty exactly if the container is.
    pub proof fn lemma_wf_bounded(&self)
        requires
            self.wf(),
        ensures
            bounded(self.chain(), N as nat),
            self.chain().len() == 0 <==> self@.len() == 0,
    {
        match self.root {
            None => {},
            Some(root) => {
                root.lemma_wf_bounded();
                let c = root.chain();
                assert(c.flatten() == c.first() + c.drop_first().flatten());
            },
        }
    }

    /// An empty container.
    pub fn new() -> (r: Self)
        ensures
            r.wf(),
            r.chain() == Seq::<Seq<T>>::empty(),
            r@ == Seq::<T>::empty(),
    {
        Self { root: None, len: 0 }
    }

    /// The number of elements.
    pub fn len(&self) -> (r: usize)
        requires
            self.wf(),
        ensures
            r == self@.len(),
    {
        self.len
    }

    /// The node at the head of the chain, if anything was inserted.
    pub fn root(&self) -> (r: Option<&Node<T, N>>)
        requires
            self.wf(),
        ensures
            r is None <==> self.chain().len() == 0,
            r matches Some(root) ==> root.wf() && root.chain() == self.chain(),
    {
        proof {
            if let Some(root) = &self.root {
                root.lemma_wf_bounded();
            }
        }
        self.root.as_ref()
    }
}

impl<T: Ord, const N: usize> LinkedLists<T, N> {
    /// Inserts `item`, at the head of the chain; the first insertion makes
    /// the chain. The count grows by one, no element is lost, and `item` is
    /// added. Where the elements ascended from head to tail they still do,
    /// with `item` at its rank among them, unless `item` strays: a buffer
    /// with a free slot takes it although the next buffer starts before it.
    pub fn insert(&mut self, item: T)
        requires
            old(self).wf(),
            each_sorted(old(self).chain()),
            is_total_order::<T>(),
            0 < N < 256,
            old(self)@.len() < usize::MAX,
        ensures
            final(self).wf(),
            each_sorted(final(self).chain()),
            final(self).chain() == chain_insert(old(self).chain(), item, N as nat),
            final(self)@.len() == old(self)@.len() + 1,
            final(self)@.to_multiset() == old(self)@.to_multiset().insert(item),
            sorted(old(self)@) && !strays(old(self).chain(), item, N as nat) ==> final(self)@
                == old(self)@.insert(rank(old(self)@, item) as int, item),
            sorted(old(self)@) ==> (sorted(final(self)@) <==> !strays(
                old(self).chain(),
                item,
                N as nat,
            )),
    {
        proof {
            self.lemma_wf_bounded();
            lemma_insert_elements(self.chain(), item, N as nat);
        }
        match &mut self.root {
            Some(root) => {
                root.insert(item);
            },
            None => {
                self.root = Some(Node::new(item));
            },
        }
        self.len += 1;
    }

    /// Looks for `item` from the head of the chain, and gives its place in
    /// the buffer that holds it. Where the elements ascend from head to
    /// tail, `item` is found exactly if the container holds it.
    pub fn find(&self, item: &T) -> (r: Option<usize>)
        requires
            self.wf(),
            each_sorted(self.chain()),
            is_total_order::<T>(),
        ensures
            r == chain_find(self.chain(), *item),
            r is Some ==> self@.contains(*item),
            sorted(self@) ==> (r is Some <==> self@.contains(*item)),
    {
        match &self.root {
            Some(root) => root.find(item),
            None => None,
        }
    }

    /// Whether `find` finds `item`: where the elements ascend from head to
    /// tail, whether the container holds it.
    pub fn contains(&self, item: &T) -> (r: bool)
        requires
            self.wf(),
            each_sorted(self.chain()),
            is_total_order::<T>(),
        ensures
            r == chain_find(self.chain(), *item).is_some(),
            r ==> self@.contains(*item),
            sorted(self@) ==> r == self@.contains(*item),
    {
        self.find(item).is_some()
    }
}

} // verus!

//! The chain node: one buffer, and the node that follows it, if any.

use crate::chain::{
    bounded, chain_find, chain_insert, each_sorted, lemma_find_ordered, lemma_find_sound,
    lemma_insert_elements, lemma_insert_ordered, lemma_insert_strays, lemma_insert_valid, strays,
};
use crate::list::{AbsoluteOrdering, BArrayVec};
use crate::order::{is_total_order, rank, sorted};
use vstd::prelude::*;

verus! {

/// One link of a chain: a buffer of at most `N` elements, and the rest of
/// the chain behind it.
#[derive(Debug)]
pub struct Node<T, const N: usize> {
    items: BArrayVec<T, N>,
    next: Option<Box<Node<T, N>>>,
}

impl<T, const N: usize> View for Node<T, N> {
    type V = Seq<T>;

    /// The elements of the chain that starts here, buffer after buffer.
    open spec fn view(&self) -> Seq<T> {
        self.chain().flatten()
    }
}

impl<T, const N: usize> Node<T, N> {
    /// The contents of the buffers of the chain that starts here, this
    /// node's first.
    pub closed spec fn chain(&self) -> Seq<Seq<T>>
        decreases self,
    {
        match self.next {
            None => seq![self.items@],
            Some(next) => seq![self.items@] + next.chain(),
        }
    }

    /// Every buffer of the chain that starts here is well formed.
    pub closed spec fn wf(&self) -> bool
        decreases self,
    {
        &&& self.items.wf()
        &&& match self.next {
            None => true,
            Some(next) => next.wf(),
        }
    }

    /// A well-formed chain has a buffer, and none of its buffers is empty or
    /// holds more than `N` elements.
    pub proof fn lemma_wf_bounded(&self)
        requires
            self.wf(),
        ensures
            0 < N < 256,
            self.chain().len() >= 1,
            bounded(self.chain(), N as nat),
        decreases self,
    {
        self.items.lemma_wf_len();
        match self.next {
            None => {},
            Some(next) => {
                next.lemma_wf_bounded();
                assert forall|i: int| 0 <= i < self.chain().len() implies 1 <= (
                #[trigger] self.chain()[i]).len() <= N by {
                    if i > 0 {
                        assert(self.chain()[i] == next.chain()[i - 1]);
                    }
                }
            },
        }
    }

    /// A chain of one node, which holds `item` alone.
    pub fn new(item: T) -> (r: Self)
        requires
            0 < N < 256,
        ensures
            r.wf(),
            r.chain() == seq![seq![item]],
    {
        Self { items: BArrayVec::new(item), next: None }
    }

    /// This node's buffer.
    pub fn items(&self) -> (r: &BArrayVec<T, N>)
        requires
            self.wf(),
        ensures
            r.wf(),
            self.chain().len() >= 1,
            r@ == self.chain()[0],
    {
        &self.items
    }

    /// The node behind this one, if there is one.
    pub fn next(&self) -> (r: Option<&Node<T, N>>)
        requires
            self.wf(),
        ensures
            r is None <==> self.chain().len() == 1,
            r matches Some(next) ==> next.wf() && next.chain() == self.chain().drop_first(),
    {
        match &self.next {
            Some(next) => {
                assert(self.chain().drop_first() =~= next.chain());
                proof {
                    next.lemma_wf_bounded();
                }
                Some(&**next)
            },
            None => None,
        }
    }
}

impl<T: Ord, const N: usize> Node<T, N> {
    /// The chain is this node's buffer followed by the chain of the node
    /// behind it, which is well formed and ascending as this one is.
    proof fn lemma_rest(&self)
        requires
            self.wf(),
        ensures
            self.chain().len() >= 1,
            self.chain()[0] == self.items@,
            self.chain().drop_first() == match self.next {
                None => Seq::<Seq<T>>::empty(),
                Some(next) => next.chain(),
            },
            self.next matches Some(next) ==> next.wf() && (each_sorted(self.chain())
                ==> each_sorted(next.chain())),
    {
        match self.next {
            None => {
                assert(self.chain().drop_first() =~= Seq::<Seq<T>>::empty());
            },
            Some(next) => {
                assert(self.chain().drop_first() =~= next.chain());
                if each_sorted(self.chain()) {
                    assert forall|i: int| 0 <= i < next.chain().len() implies crate::order::sorted(
                        #[trigger] next.chain()[i],
                    ) by {
                        assert(next.chain()[i] == self.chain()[i + 1]);
                    }
                }
            },
        }
    }

    /// Inserts `item` into the chain that starts here. This node's buffer
    /// takes it if it can. A full buffer sends on, to the node behind it, an
    /// `item` beyond its range or the element that `item` displaces; where
    /// no node is behind it, one is made. An `item` before the range of a
    /// full buffer stays in this node, alone, and what the node held moves
    /// to a new node behind it.
    ///
    /// No element is lost, and `item` is added. Where the elements ascended
    /// from head to tail they still do, with `item` at its rank among them,
    /// unless `item` strays: a buffer with a free slot takes it although the
    /// next buffer starts before it.
    pub fn insert(&mut self, item: T)
        requires
            old(self).wf(),
            each_sorted(old(self).chain()),
            is_total_order::<T>(),
        ensures
            final(self).wf(),
            each_sorted(final(self).chain()),
            final(self).chain() == chain_insert(old(self).chain(), item, N as nat),
            final(self)@.to_multiset() == old(self)@.to_multiset().insert(item),
            sorted(old(self)@) && !strays(old(self).chain(), item, N as nat) ==> final(self)@
                == old(self)@.insert(rank(old(self)@, item) as int, item),
            sorted(old(self)@) ==> (sorted(final(self)@) <==> !strays(
                old(self).chain(),
                item,
                N as nat,
            )),
        decreases old(self).chain().len(),
    {
        proof {
            self.lemma_wf_bounded();
            self.lemma_rest();
            lemma_insert_valid(self.chain(), item, N as nat);
            lemma_insert_elements(self.chain(), item, N as nat);
            if sorted(self@) {
                if strays(self.chain(), item, N as nat) {
                    lemma_insert_strays(self.chain(), item, N as nat);
                } else {
                    lemma_insert_ordered(self.chain(), item, N as nat);
                }
            }
        }
        let ghost before = self.chain();
        let ghost rest = before.drop_first();
        match self.items.insert(item) {
            Err((item, AbsoluteOrdering::Less)) => {
                let mut node = Node::new(item);
                core::mem::swap(self, &mut node);
                assert(node.chain() =~= before);
                assert(node.wf());
                self.next = Some(Box::new(node));
                assert(self.chain() =~= seq![seq![item]] + before);
                assert(self.wf());
            },
            Err((item, AbsoluteOrdering::Greater)) | Ok(Some(item)) => {
                match self.next.take() {
                    Some(mut next) => {
                        next.insert(item);
                        self.next = Some(next);
                        assert(self.wf());
                    },
                    None => {
                        assert(chain_insert(rest, item, N as nat) =~= seq![seq![item]]);
                        self.next = Some(Box::new(Node::new(item)));
                        assert(self.wf());
                    },
                }
                assert(self.chain() =~= seq![self.items@] + chain_insert(rest, item, N as nat));
            },
            Ok(None) => {
                assert(self.chain() =~= seq![self.items@] + rest);
                assert(self.wf());
            },
        }
    }

    /// Looks for `item` in the chain that starts here, and gives its place
    /// in the buffer that holds it. The search ends at the first buffer
    /// whose range does not end before `item`. Where the elements ascend
    /// from head to tail, `item` is found exactly if the chain holds it.
    pub fn find(&self, item: &T) -> (r: Option<usize>)
        requires
            self.wf(),
            each_sorted(self.chain()),
            is_total_order::<T>(),
        ensures
            r == chain_find(self.chain(), *item),
            r is Some ==> self@.contains(*item),
            sorted(self@) ==> (r is Some <==> self@.contains(*item)),
        decreases self.chain().len(),
    {
        proof {
            self.lemma_rest();
            self.lemma_wf_bounded();
            lemma_find_sound(self.chain(), *item);
            if sorted(self@) {
                lemma_find_ordered(self.chain(), *item, N as nat);
            }
        }
        match self.items.find(item) {
            Ok(index) => index,
            Err(AbsoluteOrdering::Greater) => match &self.next {
                Some(next) => next.find(item),
                None => {
                    assert(chain_find(self.chain().drop_first(), *item) is None);
                    None
                },
            },
            Err(AbsoluteOrdering::Less) => None,
        }
    }

    /// Whether `find` finds `item`: where the elements ascend from head to
    /// tail, whether the chain holds it.
    pub fn contains(&self, item: &T) -> (r: bool)
        requires
            self.wf(),
            each_sorted(self.chain()),
            is_total_order::<T>(),
        ensures
            r == chain_find(self.chain(), *item).is_some(),
            r ==> self@.contains(*item),
            sorted(self@) ==> r == self@.contains(*item),
    {
        self.find(item).is_some()
    }
}

} // verus!

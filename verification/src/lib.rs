//! An ordered multiset kept as a chain of fixed-capacity sorted buffers.
//!
//! [`BArrayVec`] is the buffer: a non-empty ascending run of at most `N`
//! elements in inline slots. [`Node`] links buffers into a chain and passes
//! on what a full buffer cannot keep. [`LinkedLists`] owns a chain and counts
//! its elements. The module `order` holds the order on elements that the
//! contracts speak of, and `chain` what insertion and lookup do to a chain,
//! with the laws that follow.

pub mod chain;
pub mod linked_lists;
pub mod list;
pub mod node;
pub mod order;

pub use linked_lists::LinkedLists;
pub use list::AbsoluteOrdering;
pub use list::BArrayVec;
pub use node::Node;

//! A priority queue kept as a binary heap, with an index from keys to
//! positions: any entry can be found, changed or removed by its key.
//!
//! - [`binary_heap`] holds the heap and its operations, each with a contract
//!   over the map from keys to values that the heap stands for.
//! - [`comparator`] holds the strategies that order the values.
//! - [`index`] says what it means for the index to match the storage, and
//!   [`heap_order`] what it means for the storage to be in heap order.
//! - [`pop_order`] proves that the order in which a heap gives up its entries
//!   depends on what it holds and not on how it was built.
//! - [`sift`] says, for each repair and each operation, what storage it
//!   leaves, as a function of the storage that it finds.
//! - [`rebuild_rule`] decides how a heap that has grown at its end is put in
//!   order, and [`iter`] holds the cursors over the entries.

pub mod binary_heap;
pub mod comparator;
pub mod heap_order;
mod hole;
pub mod index;
pub mod iter;
pub mod pop_order;
pub mod rebuild_rule;
pub mod sift;
mod repair;

pub use crate::binary_heap::BinaryHeap;
pub use crate::comparator::{
    Compare, FnComparator, KeyComparator, MaxComparator, MinComparator, Order,
};
pub use crate::iter::{
    Drain, IntoIter, IntoIterSorted, IntoKeys, IntoValues, RefIter, RefKeys, RefValues,
};

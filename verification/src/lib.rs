//! A double-ended priority queue implemented with an interval heap.
//!
//! An `IntervalHeap` keeps its items in a growable array that encodes an
//! implicit binary tree of two-slot nodes.  Each node stores a closed
//! interval, and every node's interval nests inside its parent's, so the
//! global minimum and maximum both sit in the root node and can be read in
//! constant time.  Insertion and removal of either extreme take logarithmic
//! time.
//!
//! The ordering rule is injected: any type implementing [`order::Comparator`]
//! can drive the heap, including reversed or otherwise custom orders.

pub mod index;
pub mod order;
pub mod algo;
pub mod heap;

pub use heap::IntervalHeap;
pub use heap::MutPeek;
pub use heap::Iter;
pub use heap::IntoIter;
pub use heap::Drain;
pub use order::Comparator;
pub use order::Natural;
pub use order::Reversed;
pub use order::NaturallyOrdered;
pub use index::is_root;
pub use index::left;
pub use index::parent_left;

//! A binary heap with a pluggable ordering rule.
//!
//! The heap stores its elements in a growable array arranged as a complete
//! binary tree and keeps the tree ordered by a caller-supplied comparator:
//! a strict "has priority over" relation. Configured with [`MinFirst`] the
//! heap hands out its least element first; with [`MaxFirst`], its greatest.
//! Insertion and extraction both run in logarithmic time.

pub mod heap;
pub mod order;

pub use heap::Heap;
pub use heap::MaxHeap;
pub use heap::MinHeap;
pub use order::Comparator;
pub use order::MaxFirst;
pub use order::MinFirst;
pub use order::StrictOrder;

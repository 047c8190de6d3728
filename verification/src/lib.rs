//! A binary heap whose order is a comparison function chosen when the heap is made.

pub mod heap;
pub mod laws;
pub mod layout;
pub mod order;
pub mod sift;

pub use heap::ComparatorHeap;

//! Adaptive natural-run merge sorting of `i32` sequences, in two variants:
//! a balanced run-stack merge and a k-way merge over detected segments.
pub mod balanced;
pub mod laws;
mod node_heap;
pub mod order;
pub mod runs;
pub mod segment_sort;

pub use balanced::OnTheFlyBalancedMergeSort;
pub use order::is_sorted;
pub use segment_sort::{Segment, SegmentSort};

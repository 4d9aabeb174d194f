pub mod int_sum;
pub mod math;
pub mod segment_tree;

pub use int_sum::IntSum;
pub use segment_tree::Reducer;
pub use segment_tree::SegTreeError;
pub use segment_tree::SegmentTree;

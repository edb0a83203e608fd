//! Merge sort that moves positions, not elements.
//!
//! A slice is sorted in two steps. The first finds, by merge sort over the
//! positions of the slice, the permutation that puts it in order; elements are
//! only compared. The second applies that permutation to the slice in place.
//! Elements need neither `Clone` nor `Copy`.

pub mod merge;
pub mod order;
pub mod permutation;
pub mod reorder;
pub mod run;
pub mod sort;

pub use merge::merge;
pub use merge::Join;
pub use merge::Merge;
pub use merge::Peekable;
pub use permutation::positions;
pub use reorder::reorder;
pub use sort::build_permutation;
pub use sort::Mergesort;

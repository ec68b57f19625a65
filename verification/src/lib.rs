//! In-place comparison sorts over slices of `i32`: heap sort, merge sort and
//! quick sort.
//!
//! Each sort is proved to leave its range in ascending order, to keep every
//! element, and to leave the rest of the slice alone; [`order::sorts_range`]
//! is the relation they establish, and [`laws`] holds what follows from it.
//! Heap sort marks the empty slots of its buffer with a reserved value,
//! [`heap::SENTINEL`], and promises the order on the inputs that
//! [`heap::sentinel_safe`] describes.

pub mod heap;
pub mod laws;
pub mod merge;
pub mod order;
pub mod quick;
pub mod slices;
pub mod tree;

pub use heap::heap_sort;
pub use merge::merge_sort;
pub use quick::quick_sort;

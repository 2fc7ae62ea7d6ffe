//! Lazy merging of sorted slices into one sorted stream of references.
//!
//! [`ZipSortIterator`] merges two slices, [`PrioritySortIterator`] merges any
//! number of them through a binary min-heap keyed on the head of each slice.
//! Neither copies an element: both hand out references into the inputs.

pub mod elements;
mod heap;
pub mod merge;
pub mod order;
pub mod priority_sort_iterator;
mod slots;
pub mod source;
pub mod zip_sort_iterator;

pub use crate::priority_sort_iterator::PrioritySortIterator;
pub use crate::zip_sort_iterator::ZipSortIterator;

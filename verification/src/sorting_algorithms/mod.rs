//! Sorting algorithms. Each one puts its input in ascending order and
//! keeps exactly the elements it was given.

pub mod bubble_sort;
pub mod insertion_sort;
pub mod merge_sort;
pub mod quick_sort;
pub mod radix_sort;
pub mod selection_sort;

//! Trees: a binary heap kept in a vector, and a binary search tree.

pub mod binary_heap;
pub mod binary_search_tree;

//! Searching in slices and strings.

pub mod binary_search;
pub mod linear_search;
pub mod string_search;

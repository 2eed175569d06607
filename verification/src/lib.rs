//! Directed, weighted graphs with shortest-path search, together with a
//! collection of small, self-contained algorithms and data structures.
//!
//! Every function carries a contract stated over mathematical models
//! (`Seq`, `Set`, `Map`, `int`), and every contract is machine-checked.

pub mod daily_challenges;
pub mod dynamic_programming;
pub mod graph;
pub mod hash_map;
pub mod linked_list;
pub mod ordering;
pub mod problem_solving_patterns;
pub mod recursion;
pub mod searching_algorithms;
pub mod sorting_algorithms;
pub mod tree;

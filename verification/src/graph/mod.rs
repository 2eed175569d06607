//! Graphs: vertices owned by the graph and keyed by a unique string
//! identifier, edges expressed purely as pairs of identifiers.

pub mod frontier;
pub mod identifiable;
pub mod index_search;
pub mod messages;
pub mod naive_graph;
pub mod oriented_graph;
pub mod oriented_weighted_graph;
pub mod shortest_path;
pub mod traversal;
pub mod weighted_view;

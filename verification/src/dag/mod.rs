//! Directed graphs held in an arena of nodes, with their structural algorithms.
pub mod node;
pub mod linked_graph;
pub mod graph_node;
pub mod graph_utils;
pub mod verification;
pub mod convert;
pub mod records;

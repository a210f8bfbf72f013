//! A mutable directed weighted graph held in an arena, with a verified
//! single-source shortest-path computation (Dijkstra) over it.
mod frontier;
pub mod graph;
pub mod laws;
pub mod path;
pub mod render;
pub mod shortest_path;

pub use graph::{Edge, Graph, Node, NodeValue, INFINITY};

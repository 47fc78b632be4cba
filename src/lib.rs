//! An in-memory weighted undirected graph of spatial nodes, with a
//! shortest-path query answered by Dijkstra's algorithm.
pub mod graph;
pub mod model;
mod search;

pub use graph::Graph;
pub use model::{Edge, Node};

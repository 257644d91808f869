//! A dense, fixed-identity graph container with an A* shortest-path search.
//!
//! Nodes live in contiguous slots whose position doubles as the node's
//! identity; edges are stored directionally but queried as undirected pairs.
//! Positions are integer coordinates, and all path costs are Euclidean
//! distances rounded down to whole ticks, so every operation is exact.

pub mod a_star;
pub mod arith;
pub mod edge;
pub mod error;
pub mod graph;
pub mod mesh;
pub mod node;
pub mod scenario;

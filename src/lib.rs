//! Directed, edge-labelled multigraphs: a capability interface, an
//! adjacency-list implementation of it, and a depth-first traversal written
//! against the interface alone.

pub mod adjacency;
pub mod capability;
pub mod laws;
pub mod model;
pub mod traversal;

pub use adjacency::AdjacencyGraph;
pub use capability::{Graph, GraphError};
pub use traversal::{dfs, dfs_pruned};

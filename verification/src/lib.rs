//! Graph-traversal algorithms over a plain adjacency-list graph view:
//! chain decomposition of an undirected graph (used to detect bridges and
//! analyze biconnectivity) and lazy, pull-based layer enumeration of a
//! directed acyclic graph.

pub mod chain;
pub mod graph;
pub mod lazy;

pub use chain::chain_decomposition;
pub use graph::Graph;
pub use graph::GraphError;
pub use lazy::lazy_layers;
pub use lazy::LayerIter;

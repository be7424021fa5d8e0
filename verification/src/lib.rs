//! Single-source shortest paths over a weighted directed graph.
//!
//! The graph model (`Vertex`, `Edge`, `Graph`) is a plain immutable
//! description of vertices and directed weighted edges.  The engine
//! (`Djikstra`) runs a label-setting relaxation algorithm from a chosen
//! source vertex and answers distance and path-reconstruction queries,
//! with contracts stating that the distances it reports are exactly the
//! minimum path costs in the graph.

pub mod engine;
pub mod graph;
pub mod route;

pub use engine::Djikstra;
pub use graph::Edge;
pub use graph::Graph;
pub use graph::Vertex;

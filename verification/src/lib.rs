//! An in-memory directed graph whose vertices and edges are addressed by
//! generation-checked handles, and whose mutations are recorded as reversible
//! diffs.

pub mod compact;
pub mod errors;
pub mod gen_vec;
pub mod graph;
pub mod graph_diff;
pub mod graph_model;
pub mod history;
pub mod laws;

pub use errors::GraphError;
pub use graph::{Edge, EdgeIndex, Graph, Vertex, VertexIndex};
pub use graph_diff::GraphDiff;

//! What a graph operation reports when it cannot go ahead.

use vstd::prelude::*;
use crate::graph::{EdgeIndex, VertexIndex};

verus! {

/// Why a graph operation did not go through.
#[allow(inconsistent_fields)]
#[derive(Debug, Clone, Copy, PartialEq, Eq, Structural)]
pub enum GraphError {
    /// The vertex handle does not resolve.
    VertexDoesNotExist { index: VertexIndex },
    /// The edge handle does not resolve.
    EdgeDoesNotExist { index: EdgeIndex },
    /// The diff does not fit the state of the graph.
    InvalidDiff,
}

} // verus!

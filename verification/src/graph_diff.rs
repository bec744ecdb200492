//! The records of the mutations of a graph. Each holds what is needed to
//! undo the mutation and to make it again.

use vstd::prelude::*;
use crate::graph::{Edge, EdgeIndex, Vertex, VertexIndex, VertexView};

verus! {

/// A vertex was added.
#[derive(Debug, Clone)]
pub struct AddVertex<V> {
    pub(crate) vertex_index: VertexIndex,
    pub(crate) vertex_data: V,
}

impl<V> AddVertex<V> {
    /// The handle of the vertex.
    pub open(crate) spec fn spec_vertex_index(&self) -> VertexIndex {
        self.vertex_index
    }

    /// The payload of the vertex.
    pub open(crate) spec fn spec_vertex_data(&self) -> V {
        self.vertex_data
    }

    /// The handle of the vertex.
    pub fn get_vertex_index(&self) -> (r: VertexIndex)
        ensures
            r == self.spec_vertex_index(),
    {
        self.vertex_index
    }

    /// The payload of the vertex.
    pub fn get_vertex_data(&self) -> (r: &V)
        ensures
            *r == self.spec_vertex_data(),
    {
        &self.vertex_data
    }
}

/// An edge was added.
#[derive(Debug, Clone)]
pub struct AddEdge<E> {
    pub(crate) edge_index: EdgeIndex,
    pub(crate) from: VertexIndex,
    pub(crate) to: VertexIndex,
    pub(crate) edge_data: E,
}

impl<E> AddEdge<E> {
    /// The handle of the edge.
    pub open(crate) spec fn spec_edge_index(&self) -> EdgeIndex {
        self.edge_index
    }

    /// The vertex at which the edge starts.
    pub open(crate) spec fn spec_from(&self) -> VertexIndex {
        self.from
    }

    /// The vertex at which the edge ends.
    pub open(crate) spec fn spec_to(&self) -> VertexIndex {
        self.to
    }

    /// The payload of the edge.
    pub open(crate) spec fn spec_edge_data(&self) -> E {
        self.edge_data
    }

    /// The handle of the edge.
    pub fn get_edge_index(&self) -> (r: EdgeIndex)
        ensures
            r == self.spec_edge_index(),
    {
        self.edge_index
    }

    /// The vertex at which the edge starts.
    pub fn get_from(&self) -> (r: VertexIndex)
        ensures
            r == self.spec_from(),
    {
        self.from
    }

    /// The vertex at which the edge ends.
    pub fn get_to(&self) -> (r: VertexIndex)
        ensures
            r == self.spec_to(),
    {
        self.to
    }

    /// The payload of the edge.
    pub fn get_edge_data(&self) -> (r: &E)
        ensures
            *r == self.spec_edge_data(),
    {
        &self.edge_data
    }
}

/// An edge was removed.
#[derive(Debug, Clone)]
pub struct RemoveEdge<E> {
    pub(crate) edge_index: EdgeIndex,
    pub(crate) edge: Edge<E>,
}

/// The record of a removed edge as a mathematical value.
pub ghost struct RemoveEdgeView<E> {
    pub index: EdgeIndex,
    pub edge: Edge<E>,
}

impl<E> View for RemoveEdge<E> {
    type V = RemoveEdgeView<E>;

    open(crate) spec fn view(&self) -> RemoveEdgeView<E> {
        RemoveEdgeView { index: self.edge_index, edge: self.edge }
    }
}

impl<E> RemoveEdge<E> {
    /// The handle of the edge.
    pub fn get_edge_index(&self) -> (r: EdgeIndex)
        ensures
            r == self@.index,
    {
        self.edge_index
    }

    /// The edge as it was when it was removed.
    pub fn get_edge(&self) -> (r: &Edge<E>)
        ensures
            *r == self@.edge,
    {
        &self.edge
    }
}

/// The records as mathematical values.
pub open spec fn record_views<E>(records: Seq<RemoveEdge<E>>) -> Seq<RemoveEdgeView<E>> {
    Seq::new(records.len(), |i: int| records[i]@)
}

/// No two records are for the same slot of the edge table.
pub open spec fn distinct_slots<E>(records: Seq<RemoveEdgeView<E>>) -> bool {
    forall|i: int, j: int|
        0 <= i < j < records.len() ==> records[i].index.0.index != records[j].index.0.index
}

/// A vertex was removed, and with it the edges that touched it.
#[derive(Debug)]
pub struct RemoveVertex<V, E> {
    pub(crate) vertex_index: VertexIndex,
    pub(crate) vertex: Vertex<V>,
    pub(crate) removed_edges: Vec<RemoveEdge<E>>,
}

impl<V, E> RemoveVertex<V, E> {
    /// The vertex was removed with nothing left in its lists, and each
    /// removed edge had a slot of its own.
    #[verifier::type_invariant]
    pub open(crate) spec fn inv(&self) -> bool {
        &&& self.vertex@.connections_from.len() == 0
        &&& self.vertex@.connections_to.len() == 0
        &&& distinct_slots(record_views(self.removed_edges@))
    }

    /// The handle of the vertex.
    pub open(crate) spec fn spec_vertex_index(&self) -> VertexIndex {
        self.vertex_index
    }

    /// The vertex as it was when it was removed, all its edges gone.
    pub open(crate) spec fn spec_vertex(&self) -> VertexView<V> {
        self.vertex@
    }

    /// The records of the edges that went with the vertex, in the order of their removal.
    pub open(crate) spec fn spec_removed_edges(&self) -> Seq<RemoveEdgeView<E>> {
        record_views(self.removed_edges@)
    }

    /// The handle of the vertex.
    pub fn get_vertex_index(&self) -> (r: VertexIndex)
        ensures
            r == self.spec_vertex_index(),
    {
        self.vertex_index
    }

    /// The vertex as it was when it was removed, all its edges gone.
    pub fn get_vertex(&self) -> (r: &Vertex<V>)
        ensures
            r@ == self.spec_vertex(),
    {
        &self.vertex
    }

    /// The records of the edges that went with the vertex, in the order of their removal.
    pub fn get_removed_edges(&self) -> (r: &Vec<RemoveEdge<E>>)
        ensures
            record_views(r@) == self.spec_removed_edges(),
    {
        &self.removed_edges
    }
}

impl<V: Clone, E: Clone> Clone for RemoveVertex<V, E> {
    /// A copy with the same handles and endpoints, and clones of the
    /// payloads.
    fn clone(&self) -> (r: Self)
        ensures
            r.spec_vertex_index() == self.spec_vertex_index(),
            cloned(self.spec_vertex().data, r.spec_vertex().data),
            r.spec_removed_edges().len() == self.spec_removed_edges().len(),
            forall|i: int|
                0 <= i < r.spec_removed_edges().len() ==> {
                    let a = (#[trigger] r.spec_removed_edges()[i]);
                    let b = self.spec_removed_edges()[i];
                    &&& a.index == b.index
                    &&& a.edge.from == b.edge.from
                    &&& a.edge.to == b.edge.to
                    &&& cloned(b.edge.data, a.edge.data)
                },
    {
        proof {
            use_type_invariant(self);
        }
        let mut removed_edges: Vec<RemoveEdge<E>> = Vec::new();
        let mut i: usize = 0;
        while i < self.removed_edges.len()
            invariant
                i <= self.removed_edges@.len(),
                removed_edges@.len() == i,
                forall|k: int|
                    0 <= k < i ==> {
                        let a = (#[trigger] removed_edges@[k])@;
                        let b = self.removed_edges@[k]@;
                        &&& a.index == b.index
                        &&& a.edge.from == b.edge.from
                        &&& a.edge.to == b.edge.to
                        &&& cloned(b.edge.data, a.edge.data)
                    },
            decreases self.removed_edges@.len() - i,
        {
            let record = &self.removed_edges[i];
            let edge = Edge::new(record.edge.from, record.edge.to, record.edge.data.clone());
            removed_edges.push(RemoveEdge { edge_index: record.edge_index, edge });
            i += 1;
        }
        let vertex = Vertex::new(self.vertex.data().clone());
        proof {
            let a = record_views(removed_edges@);
            let b = record_views(self.removed_edges@);
            assert forall|i: int, j: int| 0 <= i < j < a.len() implies a[i].index.0.index
                != a[j].index.0.index by {
                assert(a[i] == removed_edges@[i]@);
                assert(a[j] == removed_edges@[j]@);
                assert(b[i].index.0.index != b[j].index.0.index);
            }
        }
        RemoveVertex { vertex_index: self.vertex_index, vertex, removed_edges }
    }
}

/// The payload of a vertex was replaced.
#[derive(Debug, Clone)]
pub struct UpdateVertexData<V> {
    pub(crate) index: VertexIndex,
    pub(crate) before: V,
    pub(crate) after: V,
}

impl<V> UpdateVertexData<V> {
    /// The handle of the entry.
    pub open(crate) spec fn spec_index(&self) -> VertexIndex {
        self.index
    }

    /// The payload before the update.
    pub open(crate) spec fn spec_before(&self) -> V {
        self.before
    }

    /// The payload after the update.
    pub open(crate) spec fn spec_after(&self) -> V {
        self.after
    }

    /// The payload before the update.
    pub fn get_before(&self) -> (r: &V)
        ensures
            *r == self.spec_before(),
    {
        &self.before
    }

    /// The payload after the update.
    pub fn get_after(&self) -> (r: &V)
        ensures
            *r == self.spec_after(),
    {
        &self.after
    }
}

/// The payload of an edge was replaced.
#[derive(Debug, Clone)]
pub struct UpdateEdgeData<E> {
    pub(crate) index: EdgeIndex,
    pub(crate) before: E,
    pub(crate) after: E,
}

impl<E> UpdateEdgeData<E> {
    /// The handle of the entry.
    pub open(crate) spec fn spec_index(&self) -> EdgeIndex {
        self.index
    }

    /// The payload before the update.
    pub open(crate) spec fn spec_before(&self) -> E {
        self.before
    }

    /// The payload after the update.
    pub open(crate) spec fn spec_after(&self) -> E {
        self.after
    }

    /// The payload before the update.
    pub fn get_before(&self) -> (r: &E)
        ensures
            *r == self.spec_before(),
    {
        &self.before
    }

    /// The payload after the update.
    pub fn get_after(&self) -> (r: &E)
        ensures
            *r == self.spec_after(),
    {
        &self.after
    }
}

/// One mutation of a graph.
#[derive(Debug, Clone)]
pub enum GraphDiff<V, E> {
    AddVertex(AddVertex<V>),
    AddEdge(AddEdge<E>),
    RemoveEdge(RemoveEdge<E>),
    RemoveVertex(RemoveVertex<V, E>),
    UpdateVertexData(UpdateVertexData<V>),
    UpdateEdgeData(UpdateEdgeData<E>),
}

/// A diff as a mathematical value.
#[allow(inconsistent_fields)]
pub ghost enum GraphDiffView<V, E> {
    AddVertex { index: VertexIndex, data: V },
    AddEdge { index: EdgeIndex, from: VertexIndex, to: VertexIndex, data: E },
    RemoveEdge { index: EdgeIndex, edge: Edge<E> },
    RemoveVertex { index: VertexIndex, vertex: VertexView<V>, removed_edges: Seq<RemoveEdgeView<E>> },
    UpdateVertexData { index: VertexIndex, before: V, after: V },
    UpdateEdgeData { index: EdgeIndex, before: E, after: E },
}

impl<V, E> View for GraphDiff<V, E> {
    type V = GraphDiffView<V, E>;

    open spec fn view(&self) -> GraphDiffView<V, E> {
        match *self {
            GraphDiff::AddVertex(d) => GraphDiffView::AddVertex {
                index: d.spec_vertex_index(),
                data: d.spec_vertex_data(),
            },
            GraphDiff::AddEdge(d) => GraphDiffView::AddEdge {
                index: d.spec_edge_index(),
                from: d.spec_from(),
                to: d.spec_to(),
                data: d.spec_edge_data(),
            },
            GraphDiff::RemoveEdge(d) => GraphDiffView::RemoveEdge { index: d@.index, edge: d@.edge },
            GraphDiff::RemoveVertex(d) => GraphDiffView::RemoveVertex {
                index: d.spec_vertex_index(),
                vertex: d.spec_vertex(),
                removed_edges: d.spec_removed_edges(),
            },
            GraphDiff::UpdateVertexData(d) => GraphDiffView::UpdateVertexData {
                index: d.spec_index(),
                before: d.spec_before(),
                after: d.spec_after(),
            },
            GraphDiff::UpdateEdgeData(d) => GraphDiffView::UpdateEdgeData {
                index: d.spec_index(),
                before: d.spec_before(),
                after: d.spec_after(),
            },
        }
    }
}

} // verus!

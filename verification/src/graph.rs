//! The graph: a table of vertices and a table of edges, with every edge
//! listed by both of its endpoints.

use vstd::prelude::*;
use crate::errors::GraphError;
use crate::gen_vec::{GenVec, GenVecView, Index};
use crate::graph_diff::{
    AddEdge, AddVertex, GraphDiff, GraphDiffView, RemoveEdge, RemoveEdgeView, RemoveVertex,
    UpdateEdgeData, UpdateVertexData,
};
use crate::graph_diff::{distinct_slots, record_views};
use crate::graph_model::{listed_edges, GraphView};

verus! {

broadcast use crate::gen_vec::lemma_mapped_wf;

/// A handle to a vertex.
#[derive(Debug, Clone, Copy, PartialEq, Eq, Structural, Hash, PartialOrd, Ord)]
pub struct VertexIndex(pub Index);

/// A handle to an edge.
#[derive(Debug, Clone, Copy, PartialEq, Eq, Structural, Hash, PartialOrd, Ord)]
pub struct EdgeIndex(pub Index);

/// A vertex: its payload and the edges that end and start at it.
#[derive(Debug, Clone)]
pub struct Vertex<T> {
    connections_from: Vec<(VertexIndex, EdgeIndex)>,
    connections_to: Vec<(VertexIndex, EdgeIndex)>,
    data: T,
}

/// A vertex as a mathematical value. `connections_from` lists the incoming
/// edges with their sources, `connections_to` the outgoing edges with their
/// targets.
pub ghost struct VertexView<T> {
    pub connections_from: Seq<(VertexIndex, EdgeIndex)>,
    pub connections_to: Seq<(VertexIndex, EdgeIndex)>,
    pub data: T,
}

impl<T> VertexView<T> {
    /// A vertex that no edge touches.
    pub open spec fn isolated(data: T) -> Self {
        VertexView { connections_from: Seq::empty(), connections_to: Seq::empty(), data }
    }
}

impl<T> View for Vertex<T> {
    type V = VertexView<T>;

    closed spec fn view(&self) -> VertexView<T> {
        VertexView {
            connections_from: self.connections_from@,
            connections_to: self.connections_to@,
            data: self.data,
        }
    }
}

/// The place of the first entry for `edge` in an adjacency list.
pub open spec fn first_entry(list: Seq<(VertexIndex, EdgeIndex)>, edge: EdgeIndex) -> int {
    choose|i: int|
        0 <= i < list.len() && list[i].1 == edge && forall|j: int| 0 <= j < i ==> list[j].1 != edge
}

/// Whether an adjacency list has an entry for `edge`.
pub open spec fn has_entry(list: Seq<(VertexIndex, EdgeIndex)>, edge: EdgeIndex) -> bool {
    exists|i: int| 0 <= i < list.len() && (#[trigger] list[i]).1 == edge
}

/// The adjacency list without its first entry for `edge`.
pub open spec fn without_entry(list: Seq<(VertexIndex, EdgeIndex)>, edge: EdgeIndex) -> Seq<
    (VertexIndex, EdgeIndex),
> {
    if has_entry(list, edge) {
        list.remove(first_entry(list, edge))
    } else {
        list
    }
}

/// The first entry for `edge` is where `first_entry` says, if there is one
/// at `k` or before.
pub proof fn lemma_first_entry(list: Seq<(VertexIndex, EdgeIndex)>, edge: EdgeIndex, k: int)
    requires
        0 <= k < list.len(),
        list[k].1 == edge,
    ensures
        has_entry(list, edge),
        0 <= first_entry(list, edge) <= k,
        list[first_entry(list, edge)].1 == edge,
        forall|j: int| 0 <= j < first_entry(list, edge) ==> list[j].1 != edge,
    decreases k,
{
    if forall|j: int| 0 <= j < k ==> list[j].1 != edge {
        let p = first_entry(list, edge);
        if p > k {
            assert(list[k].1 != edge);
        }
    } else {
        let j = choose|j: int| 0 <= j < k && list[j].1 == edge;
        lemma_first_entry(list, edge, j);
    }
}

/// Finds the first entry for `edge`.
fn find_entry(list: &Vec<(VertexIndex, EdgeIndex)>, edge: EdgeIndex) -> (r: Option<usize>)
    ensures
        r.is_some() == has_entry(list@, edge),
        r.is_some() ==> r.unwrap() == first_entry(list@, edge) && r.unwrap() < list@.len(),
{
    let mut i: usize = 0;
    while i < list.len()
        invariant
            i <= list@.len(),
            forall|j: int| 0 <= j < i ==> list@[j].1 != edge,
        decreases list@.len() - i,
    {
        if list[i].1 == edge {
            return Some(i);
        }
        i += 1;
    }
    None
}

impl<T> Vertex<T> {
    /// A vertex that no edge touches.
    pub(crate) fn new(data: T) -> (r: Vertex<T>)
        ensures
            r@ == VertexView::isolated(data),
    {
        Vertex { connections_from: Vec::new(), connections_to: Vec::new(), data }
    }

    /// The incoming edges, each with its source.
    pub fn get_connections_from(&self) -> (r: &Vec<(VertexIndex, EdgeIndex)>)
        ensures
            r@ == self@.connections_from,
    {
        &self.connections_from
    }

    /// The outgoing edges, each with its target.
    pub fn get_connections_to(&self) -> (r: &Vec<(VertexIndex, EdgeIndex)>)
        ensures
            r@ == self@.connections_to,
    {
        &self.connections_to
    }

    /// The payload.
    pub fn data(&self) -> (r: &T)
        ensures
            *r == self@.data,
    {
        &self.data
    }

    /// Lists an incoming edge with its source; whether the edge is there is not looked at.
    pub(crate) fn add_from_unchecked(&mut self, from: VertexIndex, edge: EdgeIndex)
        ensures
            final(self)@ == (VertexView {
                connections_from: old(self)@.connections_from.push((from, edge)),
                ..old(self)@
            }),
    {
        self.connections_from.push((from, edge));
    }

    /// Lists an outgoing edge with its target; whether the edge is there is not looked at.
    pub(crate) fn add_to_unchecked(&mut self, to: VertexIndex, edge: EdgeIndex)
        ensures
            final(self)@ == (VertexView {
                connections_to: old(self)@.connections_to.push((to, edge)),
                ..old(self)@
            }),
    {
        self.connections_to.push((to, edge));
    }

    /// Drops the first incoming entry for `edge`; fails when there is none.
    pub(crate) fn remove_from(&mut self, edge_index: EdgeIndex) -> (r: Result<(), ()>)
        ensures
            r.is_ok() == has_entry(old(self)@.connections_from, edge_index),
            final(self)@ == (VertexView {
                connections_from: without_entry(old(self)@.connections_from, edge_index),
                ..old(self)@
            }),
    {
        match find_entry(&self.connections_from, edge_index) {
            Some(position) => {
                self.connections_from.remove(position);
                Ok(())
            },
            None => Err(()),
        }
    }

    /// Drops the first outgoing entry for `edge`; fails when there is none.
    pub(crate) fn remove_to(&mut self, edge_index: EdgeIndex) -> (r: Result<(), ()>)
        ensures
            r.is_ok() == has_entry(old(self)@.connections_to, edge_index),
            final(self)@ == (VertexView {
                connections_to: without_entry(old(self)@.connections_to, edge_index),
                ..old(self)@
            }),
    {
        match find_entry(&self.connections_to, edge_index) {
            Some(position) => {
                self.connections_to.remove(position);
                Ok(())
            },
            None => Err(()),
        }
    }
}

/// An edge: its two endpoints and its payload.
#[derive(Debug, Clone)]
pub struct Edge<T> {
    pub from: VertexIndex,
    pub to: VertexIndex,
    pub data: T,
}

impl<T> Edge<T> {
    /// An edge from `from` to `to`.
    pub fn new(from: VertexIndex, to: VertexIndex, data: T) -> (r: Edge<T>)
        ensures
            r == (Edge { from, to, data }),
    {
        Edge { from, to, data }
    }

    /// The vertex at which the edge starts.
    pub fn get_from(&self) -> (r: VertexIndex)
        ensures
            r == self.from,
    {
        self.from
    }

    /// The vertex at which the edge ends.
    pub fn get_to(&self) -> (r: VertexIndex)
        ensures
            r == self.to,
    {
        self.to
    }

    /// The payload.
    pub fn data(&self) -> (r: &T)
        ensures
            *r == self.data,
    {
        &self.data
    }
}

/// The vertex as a mathematical value, as a function.
pub open spec fn vertex_view<V>() -> spec_fn(Vertex<V>) -> VertexView<V> {
    |v: Vertex<V>| v@
}

/// The graph.
#[derive(Debug, Clone)]
pub struct Graph<V, E> {
    verticies: GenVec<Vertex<V>>,
    edges: GenVec<Edge<E>>,
}

impl<V, E> View for Graph<V, E> {
    type V = GraphView<V, E>;

    closed spec fn view(&self) -> GraphView<V, E> {
        GraphView { vertices: self.verticies@.map_values(vertex_view()), edges: self.edges@ }
    }
}

impl<V, E> Graph<V, E> {
    /// Both tables are well formed; the lists may be in the middle of a
    /// change.
    pub closed spec fn tables_wf(&self) -> bool {
        self.verticies.wf() && self.edges.wf()
    }

    /// The invariant of the graph: both tables are well formed, and the
    /// graph as a mathematical value is, which is to say that the adjacency
    /// invariant holds.
    pub open spec fn wf(&self) -> bool {
        self.tables_wf() && self@.wf()
    }

    /// An empty graph, for payloads that need not be cloneable.
    pub fn from_constraints() -> (r: Graph<V, E>)
        ensures
            r.wf(),
            r@ == GraphView::<V, E>::empty(),
    {
        let r = Graph { verticies: GenVec::new(), edges: GenVec::new() };
        proof {
            assert(r@.vertices.slots =~= Seq::empty());
        }
        r
    }
}

impl<V, E> Graph<V, E> {
    /// What the vertex table holds is what the model holds.
    proof fn lemma_vertices(&self)
        ensures
            forall|v: VertexIndex| #[trigger] self@.has_vertex(v) == self.verticies@.contains(v.0),
            forall|v: VertexIndex|
                self@.has_vertex(v) ==> #[trigger] self@.vertex(v) == self.verticies@.value(v.0)@,
            self.verticies@.wf() ==> self@.next_vertex() == VertexIndex(
                self.verticies@.next_index(),
            ),
            self@.vertices.has_room() == self.verticies@.has_room(),
            self@.vertices.wf() == self.verticies@.wf(),
            forall|s: int, g: int| #[trigger]
                self@.vertices.is_open_at(s, g) == self.verticies@.is_open_at(s, g),
            forall|s: usize| #[trigger] self@.vertices.is_open(s) == self.verticies@.is_open(s),
    {
        self.verticies@.lemma_map_values(vertex_view());
    }

    /// Rewrites one live vertex in place.
    proof fn lemma_vertex_written(&self, after: &Self, v: VertexIndex)
        requires
            self@.has_vertex(v),
            after.edges == self.edges,
            after.verticies@ == self.verticies@.set_value(v.0, after.verticies@.value(v.0)),
        ensures
            after@ == self@.with_vertex(v, after.verticies@.value(v.0)@),
    {
        self.lemma_vertices();
        self.verticies@.lemma_map_set_value(vertex_view(), v.0, after.verticies@.value(v.0));
    }

    /// Lists the edge `e` to `to` at the end of the outgoing list of `v`.
    fn push_out(&mut self, v: VertexIndex, to: VertexIndex, e: EdgeIndex)
        requires
            old(self).tables_wf(),
            old(self)@.has_vertex(v),
        ensures
            final(self).tables_wf(),
            final(self)@ == old(self)@.push_out(v, (to, e)),
    {
        proof {
            self.lemma_vertices();
        }
        match self.verticies.get_mut(v.0) {
            Some(vertex) => {
                vertex.add_to_unchecked(to, e);
            },
            None => {},
        }
        proof {
            old(self).lemma_vertex_written(self, v);
        }
    }

    /// Lists the edge `e` from `from` at the end of the incoming list of `v`.
    fn push_in(&mut self, v: VertexIndex, from: VertexIndex, e: EdgeIndex)
        requires
            old(self).tables_wf(),
            old(self)@.has_vertex(v),
        ensures
            final(self).tables_wf(),
            final(self)@ == old(self)@.push_in(v, (from, e)),
    {
        proof {
            self.lemma_vertices();
        }
        match self.verticies.get_mut(v.0) {
            Some(vertex) => {
                vertex.add_from_unchecked(from, e);
            },
            None => {},
        }
        proof {
            old(self).lemma_vertex_written(self, v);
        }
    }

    /// Strikes the entry for `e` from the outgoing list of `v`.
    fn drop_out(&mut self, v: VertexIndex, e: EdgeIndex)
        requires
            old(self).tables_wf(),
            old(self)@.has_vertex(v),
        ensures
            final(self).tables_wf(),
            final(self)@ == old(self)@.drop_out(v, e),
    {
        proof {
            self.lemma_vertices();
        }
        match self.verticies.get_mut(v.0) {
            Some(vertex) => {
                let _ = vertex.remove_to(e);
            },
            None => {},
        }
        proof {
            old(self).lemma_vertex_written(self, v);
        }
    }

    /// Strikes the entry for `e` from the incoming list of `v`.
    fn drop_in(&mut self, v: VertexIndex, e: EdgeIndex)
        requires
            old(self).tables_wf(),
            old(self)@.has_vertex(v),
        ensures
            final(self).tables_wf(),
            final(self)@ == old(self)@.drop_in(v, e),
    {
        proof {
            self.lemma_vertices();
        }
        match self.verticies.get_mut(v.0) {
            Some(vertex) => {
                let _ = vertex.remove_from(e);
            },
            None => {},
        }
        proof {
            old(self).lemma_vertex_written(self, v);
        }
    }

    /// The vertex behind the handle, if the handle resolves.
    pub fn get_vertex(&self, index: VertexIndex) -> (r: Option<&Vertex<V>>)
        ensures
            r.is_some() == self@.has_vertex(index),
            r.is_some() ==> r.unwrap()@ == self@.vertex(index),
    {
        proof {
            self.lemma_vertices();
        }
        self.verticies.get(index.0)
    }

    /// The payload of the vertex behind the handle, if the handle resolves.
    pub fn get_vertex_data(&self, index: VertexIndex) -> (r: Option<&V>)
        ensures
            r.is_some() == self@.has_vertex(index),
            r.is_some() ==> *r.unwrap() == self@.vertex(index).data,
    {
        match self.get_vertex(index) {
            Some(vertex) => Some(&vertex.data),
            None => None,
        }
    }

    /// The edge behind the handle, if the handle resolves.
    pub fn get_edge(&self, index: EdgeIndex) -> (r: Option<&Edge<E>>)
        ensures
            r.is_some() == self@.has_edge(index),
            r.is_some() ==> *r.unwrap() == self@.edge(index),
    {
        self.edges.get(index.0)
    }

    /// The payload of the edge behind the handle, if the handle resolves.
    pub fn get_edge_data(&self, index: EdgeIndex) -> (r: Option<&E>)
        ensures
            r.is_some() == self@.has_edge(index),
            r.is_some() ==> *r.unwrap() == self@.edge(index).data,
    {
        match self.get_edge(index) {
            Some(edge) => Some(&edge.data),
            None => None,
        }
    }

    /// Succeeds exactly when the vertex handle resolves.
    pub fn assert_vertex_exists(&self, index: VertexIndex) -> (r: Result<(), GraphError>)
        ensures
            r.is_ok() == self@.has_vertex(index),
            r.is_err() ==> r == Err::<(), GraphError>(GraphError::VertexDoesNotExist { index }),
    {
        proof {
            self.lemma_vertices();
        }
        if self.verticies.get(index.0).is_none() {
            Err(GraphError::VertexDoesNotExist { index })
        } else {
            Ok(())
        }
    }

    /// Succeeds exactly when the edge handle resolves.
    pub fn assert_edge_exists(&self, index: EdgeIndex) -> (r: Result<(), GraphError>)
        ensures
            r.is_ok() == self@.has_edge(index),
            r.is_err() ==> r == Err::<(), GraphError>(GraphError::EdgeDoesNotExist { index }),
    {
        if self.edges.get(index.0).is_none() {
            Err(GraphError::EdgeDoesNotExist { index })
        } else {
            Ok(())
        }
    }

    /// The vertex table.
    pub fn get_verticies(&self) -> (r: &GenVec<Vertex<V>>)
        ensures
            r@.map_values(vertex_view()) == self@.vertices,
            self.wf() ==> r.wf(),
    {
        &self.verticies
    }

    /// The edge table.
    pub fn get_edges(&self) -> (r: &GenVec<Edge<E>>)
        ensures
            r@ == self@.edges,
            self.wf() ==> r.wf(),
    {
        &self.edges
    }
}

impl<V: Clone, E: Clone> Graph<V, E> {
    /// An empty graph.
    pub fn new() -> (r: Graph<V, E>)
        ensures
            r.wf(),
            r@ == GraphView::<V, E>::empty(),
    {
        let r = Graph { verticies: GenVec::new(), edges: GenVec::new() };
        proof {
            assert(r@.vertices.slots =~= Seq::empty());
        }
        r
    }

    /// Adds a vertex that no edge touches. The vertex holds a clone of
    /// `vertex_data`; the diff holds `vertex_data` itself.
    pub fn add_vertex(&mut self, vertex_data: V) -> (r: (VertexIndex, GraphDiff<V, E>))
        requires
            old(self).wf(),
        ensures
            final(self).wf(),
            r.0 == old(self)@.next_vertex(),
            final(self)@.has_vertex(r.0),
            cloned(vertex_data, final(self)@.vertex(r.0).data),
            final(self)@ == old(self)@.add_vertex(final(self)@.vertex(r.0).data),
            r.1@ == (GraphDiffView::<V, E>::AddVertex { index: r.0, data: vertex_data }),
    {
        let stored = vertex_data.clone();
        let vertex = Vertex::new(stored);
        let vertex_index = VertexIndex(self.verticies.add(vertex));
        proof {
            old(self).verticies@.lemma_map_add(vertex_view(), vertex);
            old(self).verticies@.lemma_map_values(vertex_view());
            self.verticies@.lemma_map_values(vertex_view());
            old(self)@.lemma_add_vertex(stored);
        }
        let diff = AddVertex { vertex_index, vertex_data };
        (vertex_index, GraphDiff::AddVertex(diff))
    }
}

impl<V: Clone, E: Clone> Graph<V, E> {
    /// Adds an edge between two live vertices and lists it at both. The edge
    /// holds a clone of `edge_data`; the diff holds `edge_data` itself.
    /// Fails, and changes nothing, when an endpoint does not resolve.
    pub fn add_edge(&mut self, from_index: VertexIndex, to_index: VertexIndex, edge_data: E) -> (r:
        Result<(EdgeIndex, GraphDiff<V, E>), GraphError>)
        requires
            old(self).wf(),
        ensures
            final(self).wf(),
            r.is_ok() == (old(self)@.has_vertex(from_index) && old(self)@.has_vertex(to_index)),
            match r {
                Ok((e, diff)) => {
                    &&& e == old(self)@.next_edge()
                    &&& final(self)@.has_edge(e)
                    &&& cloned(edge_data, final(self)@.edge(e).data)
                    &&& final(self)@ == old(self)@.add_edge(
                        from_index,
                        to_index,
                        final(self)@.edge(e).data,
                    )
                    &&& diff@ == (GraphDiffView::<V, E>::AddEdge {
                        index: e,
                        from: from_index,
                        to: to_index,
                        data: edge_data,
                    })
                },
                Err(err) => {
                    &&& final(self)@ == old(self)@
                    &&& err == (GraphError::VertexDoesNotExist {
                        index: if old(self)@.has_vertex(from_index) {
                            to_index
                        } else {
                            from_index
                        },
                    })
                },
            },
    {
        if self.get_vertex(from_index).is_none() {
            return Err(GraphError::VertexDoesNotExist { index: from_index });
        }
        if self.get_vertex(to_index).is_none() {
            return Err(GraphError::VertexDoesNotExist { index: to_index });
        }
        let stored = edge_data.clone();
        let edge_index = EdgeIndex(self.edges.add(Edge::new(from_index, to_index, stored)));
        self.push_out(from_index, to_index, edge_index);
        self.push_in(to_index, from_index, edge_index);
        proof {
            old(self)@.lemma_add_edge(from_index, to_index, stored);
        }
        let diff = AddEdge { edge_index, from: from_index, to: to_index, edge_data };
        Ok((edge_index, GraphDiff::AddEdge(diff)))
    }
}

impl<V: Clone, E: Clone> Graph<V, E> {
    /// Replaces the payload of a live vertex by a clone of `value` and hands
    /// back a clone of the old payload. The diff holds the old payload and
    /// `value` themselves. Fails, and changes nothing, when the handle does
    /// not resolve.
    pub fn update_vertex(&mut self, index: VertexIndex, value: V) -> (r: Result<
        (V, GraphDiff<V, E>),
        GraphError,
    >)
        requires
            old(self).wf(),
        ensures
            final(self).wf(),
            r.is_ok() == old(self)@.has_vertex(index),
            match r {
                Ok((before, diff)) => {
                    &&& cloned(old(self)@.vertex(index).data, before)
                    &&& cloned(value, final(self)@.vertex(index).data)
                    &&& final(self)@ == old(self)@.update_vertex(
                        index,
                        final(self)@.vertex(index).data,
                    )
                    &&& diff@ == (GraphDiffView::<V, E>::UpdateVertexData {
                        index,
                        before: old(self)@.vertex(index).data,
                        after: value,
                    })
                },
                Err(err) => {
                    &&& final(self)@ == old(self)@
                    &&& err == (GraphError::VertexDoesNotExist { index })
                },
            },
    {
        proof {
            self.lemma_vertices();
        }
        let mut held = value.clone();
        let ghost stored = held;
        match self.verticies.get_mut(index.0) {
            Some(vertex) => {
                std::mem::swap(&mut vertex.data, &mut held);
            },
            None => {
                return Err(GraphError::VertexDoesNotExist { index });
            },
        }
        proof {
            old(self).lemma_vertex_written(self, index);
            old(self)@.lemma_update_vertex(index, stored);
        }
        let before = held.clone();
        let diff = UpdateVertexData { index, before: held, after: value };
        Ok((before, GraphDiff::UpdateVertexData(diff)))
    }

    /// Replaces the payload of a live edge by a clone of `value` and hands
    /// back a clone of the old payload. The diff holds the old payload and
    /// `value` themselves. Fails, and changes nothing, when the handle does
    /// not resolve.
    pub fn update_edge(&mut self, index: EdgeIndex, value: E) -> (r: Result<
        (E, GraphDiff<V, E>),
        GraphError,
    >)
        requires
            old(self).wf(),
        ensures
            final(self).wf(),
            r.is_ok() == old(self)@.has_edge(index),
            match r {
                Ok((before, diff)) => {
                    &&& cloned(old(self)@.edge(index).data, before)
                    &&& cloned(value, final(self)@.edge(index).data)
                    &&& final(self)@ == old(self)@.update_edge(index, final(self)@.edge(index).data)
                    &&& diff@ == (GraphDiffView::<V, E>::UpdateEdgeData {
                        index,
                        before: old(self)@.edge(index).data,
                        after: value,
                    })
                },
                Err(err) => {
                    &&& final(self)@ == old(self)@
                    &&& err == (GraphError::EdgeDoesNotExist { index })
                },
            },
    {
        proof {
        }
        let mut held = value.clone();
        let ghost stored = held;
        match self.edges.get_mut(index.0) {
            Some(edge) => {
                std::mem::swap(&mut edge.data, &mut held);
            },
            None => {
                return Err(GraphError::EdgeDoesNotExist { index });
            },
        }
        proof {
            old(self)@.lemma_update_edge(index, stored);
        }
        let before = held.clone();
        let diff = UpdateEdgeData { index, before: held, after: value };
        Ok((before, GraphDiff::UpdateEdgeData(diff)))
    }

    /// Takes a live edge out of the lists of its endpoints and out of the
    /// edge table. The slot moves on to the next generation, or stays at its
    /// generation when `keep_generation` is set.
    fn detach_edge(&mut self, edge_index: EdgeIndex, keep_generation: bool) -> (r: Option<Edge<E>>)
        requires
            old(self).wf(),
            !keep_generation && old(self)@.has_edge(edge_index) ==> edge_index.0.generation
                < u32::MAX,
        ensures
            final(self).wf(),
            r.is_some() == old(self)@.has_edge(edge_index),
            r.is_some() ==> r.unwrap() == old(self)@.edge(edge_index),
            final(self)@ == (if keep_generation {
                old(self)@.remove_edge_keeping_generation(edge_index)
            } else {
                old(self)@.remove_edge(edge_index)
            }),
    {
        let (from_index, to_index) = match self.get_edge(edge_index) {
            Some(edge) => (edge.from, edge.to),
            None => {
                return None;
            },
        };
        proof {
            assert(self@.edge_linked(edge_index));
            self@.lemma_with_vertex(
                from_index,
                VertexView {
                    connections_to: without_entry(self@.out_adj(from_index), edge_index),
                    ..self@.vertex(from_index)
                },
            );
        }
        self.drop_out(from_index, edge_index);
        self.drop_in(to_index, edge_index);
        let edge = if keep_generation {
            self.edges.remove_but_maintain_generation(edge_index.0)
        } else {
            self.edges.remove(edge_index.0)
        };
        proof {
            old(self)@.lemma_detach_edge(
                edge_index,
                if keep_generation {
                    edge_index.0.generation
                } else {
                    (edge_index.0.generation + 1) as u32
                },
            );
        }
        edge
    }

    /// Removes a live edge and hands back a clone of its payload, with the
    /// record of the removal, which holds the edge itself.
    fn remove_edge_internal(&mut self, edge_index: EdgeIndex) -> (r: Result<
        (E, RemoveEdge<E>),
        GraphError,
    >)
        requires
            old(self).wf(),
            old(self)@.has_edge(edge_index) ==> edge_index.0.generation < u32::MAX,
        ensures
            final(self).wf(),
            r.is_ok() == old(self)@.has_edge(edge_index),
            final(self)@ == old(self)@.remove_edge(edge_index),
            match r {
                Ok((data, diff)) => {
                    &&& cloned(old(self)@.edge(edge_index).data, data)
                    &&& diff@ == (RemoveEdgeView {
                        index: edge_index,
                        edge: old(self)@.edge(edge_index),
                    })
                },
                Err(err) => err == (GraphError::EdgeDoesNotExist { index: edge_index }),
            },
    {
        match self.detach_edge(edge_index, false) {
            Some(edge) => {
                let edge_data = edge.data.clone();
                Ok((edge_data, RemoveEdge { edge_index, edge }))
            },
            None => Err(GraphError::EdgeDoesNotExist { index: edge_index }),
        }
    }

    /// Removes a live edge: strikes it from the lists of both endpoints and
    /// frees its slot, which moves on to the next generation. Hands back a
    /// clone of the payload; the diff holds the edge itself. Fails, and
    /// changes nothing, when the handle does not resolve.
    pub fn remove_edge(&mut self, edge_index: EdgeIndex) -> (r: Result<
        (E, GraphDiff<V, E>),
        GraphError,
    >)
        requires
            old(self).wf(),
            old(self)@.has_edge(edge_index) ==> edge_index.0.generation < u32::MAX,
        ensures
            final(self).wf(),
            r.is_ok() == old(self)@.has_edge(edge_index),
            final(self)@ == old(self)@.remove_edge(edge_index),
            !final(self)@.has_edge(edge_index),
            match r {
                Ok((data, diff)) => {
                    &&& cloned(old(self)@.edge(edge_index).data, data)
                    &&& diff@ == (GraphDiffView::<V, E>::RemoveEdge {
                        index: edge_index,
                        edge: old(self)@.edge(edge_index),
                    })
                },
                Err(err) => err == (GraphError::EdgeDoesNotExist { index: edge_index }),
            },
    {
        proof {
            if self@.has_edge(edge_index) {
                self@.lemma_detach_edge(edge_index, (edge_index.0.generation + 1) as u32);
            }
        }
        match self.remove_edge_internal(edge_index) {
            Ok((edge, diff)) => Ok((edge, GraphDiff::RemoveEdge(diff))),
            Err(err) => Err(err),
        }
    }

    /// Removes a live edge, leaves its slot at its generation, and hands
    /// back the payload.
    fn remove_edge_and_reset(&mut self, edge_index: EdgeIndex) -> (r: Result<E, GraphError>)
        requires
            old(self).wf(),
        ensures
            final(self).wf(),
            r.is_ok() == old(self)@.has_edge(edge_index),
            final(self)@ == old(self)@.remove_edge_keeping_generation(edge_index),
            match r {
                Ok(data) => data == old(self)@.edge(edge_index).data,
                Err(err) => err == (GraphError::EdgeDoesNotExist { index: edge_index }),
            },
    {
        match self.detach_edge(edge_index, true) {
            Some(edge) => Ok(edge.data),
            None => Err(GraphError::EdgeDoesNotExist { index: edge_index }),
        }
    }
}

/// The edges that a vertex lists: the incoming ones, then the outgoing ones.
fn listed_edges_of<V>(vertex: &Vertex<V>) -> (r: Vec<EdgeIndex>)
    ensures
        r@ == listed_edges(vertex@),
{
    let mut list: Vec<EdgeIndex> = Vec::new();
    let mut i: usize = 0;
    while i < vertex.connections_from.len()
        invariant
            i <= vertex.connections_from@.len(),
            list@.len() == i,
            forall|k: int| 0 <= k < i ==> list@[k] == vertex.connections_from@[k].1,
        decreases vertex.connections_from@.len() - i,
    {
        list.push(vertex.connections_from[i].1);
        i += 1;
    }
    let mut j: usize = 0;
    while j < vertex.connections_to.len()
        invariant
            j <= vertex.connections_to@.len(),
            list@.len() == vertex.connections_from@.len() + j,
            forall|k: int|
                0 <= k < vertex.connections_from@.len() ==> list@[k]
                    == vertex.connections_from@[k].1,
            forall|k: int|
                0 <= k < j ==> list@[vertex.connections_from@.len() + k]
                    == vertex.connections_to@[k].1,
        decreases vertex.connections_to@.len() - j,
    {
        list.push(vertex.connections_to[j].1);
        j += 1;
    }
    proof {
        let n = vertex.connections_from@.len() as int;
        assert forall|k: int| 0 <= k < list@.len() implies list@[k] == listed_edges(vertex@)[k] by {
            if k >= n {
                assert(list@[n + (k - n)] == vertex.connections_to@[k - n].1);
            }
        }
        assert(list@ =~= listed_edges(vertex@));
    }
    list
}

impl<V: Clone, E: Clone> Graph<V, E> {
    /// Removes the edges of `list` one after the other, passing over those
    /// that are no longer live, and hands back the records of the removals.
    fn remove_incident(&mut self, list: &Vec<EdgeIndex>, keep_generation: bool) -> (records: Vec<
        RemoveEdge<E>,
    >)
        requires
            old(self).wf(),
            !keep_generation ==> forall|i: int|
                0 <= i < list@.len() ==> (#[trigger] list@[i]).0.generation < u32::MAX,
        ensures
            final(self).wf(),
            final(self)@ == old(self)@.remove_edges(list@, !keep_generation),
            !keep_generation ==> record_views(records@) == old(self)@.removed_records(list@),
    {
        let mut records: Vec<RemoveEdge<E>> = Vec::new();
        let mut i: usize = 0;
        let ghost start = self@;
        proof {
            assert(list@.take(0) =~= Seq::<EdgeIndex>::empty());
            assert(record_views(records@) =~= Seq::<RemoveEdgeView<E>>::empty());
        }
        while i < list.len()
            invariant
                i <= list@.len(),
                self.wf(),
                self@ == start.remove_edges(list@.take(i as int), !keep_generation),
                !keep_generation ==> record_views(records@) == start.removed_records(
                    list@.take(i as int),
                ),
                !keep_generation ==> forall|k: int|
                    0 <= k < list@.len() ==> (#[trigger] list@[k]).0.generation < u32::MAX,
            decreases list@.len() - i,
        {
            let edge_index = list[i];
            let ghost before = record_views(records@);
            proof {
                assert(list@.take(i + 1).drop_last() =~= list@.take(i as int));
                assert(list@.take(i + 1).last() == edge_index);
            }
            match self.detach_edge(edge_index, keep_generation) {
                Some(edge) => {
                    records.push(RemoveEdge { edge_index, edge });
                    proof {
                        assert(record_views(records@) =~= before.push(
                            RemoveEdgeView { index: edge_index, edge },
                        ));
                    }
                },
                None => {},
            }
            i += 1;
        }
        proof {
            assert(list@.take(list@.len() as int) =~= list@);
        }
        records
    }

    /// Removes a live vertex. Every edge that touches it is removed first,
    /// as `remove_edge` would, the incoming ones and then the outgoing ones;
    /// then the slot of the vertex is freed and moves on to the next
    /// generation. Hands back a clone of the payload; the diff holds the
    /// vertex and the record of each removed edge. Fails, and changes
    /// nothing, when the handle does not resolve.
    pub fn remove_vertex(&mut self, vertex_index: VertexIndex) -> (r: Result<
        (V, GraphDiff<V, E>),
        GraphError,
    >)
        requires
            old(self).wf(),
            old(self)@.can_remove_vertex(vertex_index),
        ensures
            final(self).wf(),
            r.is_ok() == old(self)@.has_vertex(vertex_index),
            final(self)@ == old(self)@.remove_vertex(vertex_index),
            !final(self)@.has_vertex(vertex_index),
            forall|x: EdgeIndex| #[trigger]
                final(self)@.has_edge(x) == (old(self)@.has_edge(x) && !(old(self)@.has_vertex(
                    vertex_index,
                ) && old(self)@.touches(x, vertex_index))),
            match r {
                Ok((data, diff)) => {
                    &&& cloned(old(self)@.vertex(vertex_index).data, data)
                    &&& diff@ == (GraphDiffView::<V, E>::RemoveVertex {
                        index: vertex_index,
                        vertex: VertexView::isolated(old(self)@.vertex(vertex_index).data),
                        removed_edges: old(self)@.removed_records(
                            old(self)@.incident(vertex_index),
                        ),
                    })
                },
                Err(err) => err == (GraphError::VertexDoesNotExist { index: vertex_index }),
            },
    {
        let list = match self.get_vertex(vertex_index) {
            Some(vertex) => listed_edges_of(vertex),
            None => {
                return Err(GraphError::VertexDoesNotExist { index: vertex_index });
            },
        };
        proof {
            self@.lemma_detach_vertex(vertex_index, true);
            self@.lemma_isolated(vertex_index, true);
            self@.lemma_remove_edges(list@, true);
            self@.lemma_removed_records(list@);
        }
        let removed_edges = self.remove_incident(&list, false);
        proof {
            self.lemma_vertices();
        }
        let ghost middle = *self;
        assert(middle@.has_vertex(vertex_index));
        assert(middle.verticies@.contains(vertex_index.0));
        match self.verticies.remove(vertex_index.0) {
            Some(vertex) => {
                proof {
                    middle.lemma_vertices();
                    middle.verticies@.lemma_map_vacate(
                        vertex_view(),
                        vertex_index.0.index,
                        (vertex_index.0.generation + 1) as u32,
                    );
                    let records = record_views(removed_edges@);
                    assert forall|i: int, j: int| 0 <= i < j < records.len() implies records[i].index.0.index
                        != records[j].index.0.index by {
                        assert(old(self)@.has_edge(records[i].index));
                        assert(old(self)@.has_edge(records[j].index));
                        assert(records[i].index != records[j].index);
                    }
                }
                let vertex_data = vertex.data.clone();
                let diff = RemoveVertex { vertex_index, vertex, removed_edges };
                Ok((vertex_data, GraphDiff::RemoveVertex(diff)))
            },
            None => Err(GraphError::VertexDoesNotExist { index: vertex_index }),
        }
    }

    /// Removes a live vertex and the edges that touch it, leaves every freed
    /// slot at its generation, and hands back the payload.
    fn remove_vertex_and_reset(&mut self, index: VertexIndex) -> (r: Result<V, GraphError>)
        requires
            old(self).wf(),
        ensures
            final(self).wf(),
            r.is_ok() == old(self)@.has_vertex(index),
            final(self)@ == old(self)@.remove_vertex_keeping_generation(index),
            match r {
                Ok(data) => data == old(self)@.vertex(index).data,
                Err(err) => err == (GraphError::VertexDoesNotExist { index }),
            },
    {
        let list = match self.get_vertex(index) {
            Some(vertex) => listed_edges_of(vertex),
            None => {
                return Err(GraphError::VertexDoesNotExist { index });
            },
        };
        proof {
            self@.lemma_detach_vertex(index, false);
            self@.lemma_isolated(index, false);
            self@.lemma_remove_edges(list@, false);
        }
        let _ = self.remove_incident(&list, true);
        proof {
            self.lemma_vertices();
        }
        let ghost middle = *self;
        assert(middle@.has_vertex(index));
        assert(middle.verticies@.contains(index.0));
        match self.verticies.remove_but_maintain_generation(index.0) {
            Some(vertex) => {
                proof {
                    middle.lemma_vertices();
                    middle.verticies@.lemma_map_vacate(
                        vertex_view(),
                        index.0.index,
                        index.0.generation,
                    );
                }
                Ok(vertex.data)
            },
            None => Err(GraphError::VertexDoesNotExist { index }),
        }
    }
}

impl<V: Clone, E: Clone> Graph<V, E> {
    /// Writes a recorded edge back into its open slot and lists it at both
    /// endpoints.
    fn restore_edge(&mut self, record: RemoveEdge<E>)
        requires
            old(self).wf(),
            old(self)@.edges.is_open(record@.index.0.index),
            old(self)@.has_vertex(record@.edge.from),
            old(self)@.has_vertex(record@.edge.to),
        ensures
            final(self).wf(),
            final(self)@ == old(self)@.restore_edge(record@),
    {
        let RemoveEdge { edge_index, edge } = record;
        let from_index = edge.from;
        let to_index = edge.to;
        proof {
            self@.lemma_restore_edge(record@);
            (GraphView { edges: self@.edges.restore(edge_index.0, edge), ..self@ }).lemma_with_vertex(
                from_index,
                VertexView {
                    connections_to: self@.out_adj(from_index).push((to_index, edge_index)),
                    ..self@.vertex(from_index)
                },
            );
        }
        self.edges.restore(edge_index.0, edge);
        self.push_out(from_index, to_index, edge_index);
        self.push_in(to_index, from_index, edge_index);
    }

    /// Writes the vertex back into its slot, which has to stand open at the
    /// generation of the handle.
    fn apply_add_vertex_diff(&mut self, diff: AddVertex<V>) -> (r: Result<(), GraphError>)
        requires
            old(self).wf(),
        ensures
            final(self).wf(),
            r.is_ok() == old(self)@.apply_valid(GraphDiff::<V, E>::AddVertex(diff)@),
            r.is_ok() ==> final(self)@ == old(self)@.apply(GraphDiff::<V, E>::AddVertex(diff)@),
            r.is_err() ==> final(self)@ == old(self)@ && r == Err::<(), GraphError>(
                GraphError::InvalidDiff,
            ),
    {
        proof {
            self.lemma_vertices();
        }
        if !self.verticies.is_replaceable_by_index_apply(diff.vertex_index.0) {
            return Err(GraphError::InvalidDiff);
        }
        let vertex = Vertex::new(diff.vertex_data);
        proof {
            self@.lemma_restore_vertex(diff.vertex_index, vertex@);
            self.verticies@.lemma_map_restore(vertex_view(), diff.vertex_index.0, vertex);
        }
        self.verticies.restore(diff.vertex_index.0, vertex);
        Ok(())
    }

    /// Writes the edge back into its slot, which has to stand open at the
    /// generation of the handle, between its two endpoints, which have to be
    /// live.
    fn apply_add_edge_diff(&mut self, diff: AddEdge<E>) -> (r: Result<(), GraphError>)
        requires
            old(self).wf(),
        ensures
            final(self).wf(),
            r.is_ok() == old(self)@.apply_valid(GraphDiff::<V, E>::AddEdge(diff)@),
            r.is_ok() ==> final(self)@ == old(self)@.apply(GraphDiff::<V, E>::AddEdge(diff)@),
            r.is_err() ==> final(self)@ == old(self)@ && r == Err::<(), GraphError>(
                GraphError::InvalidDiff,
            ),
    {
        if self.get_vertex(diff.from).is_none() || self.get_vertex(diff.to).is_none() {
            return Err(GraphError::InvalidDiff);
        }
        if !self.edges.is_replaceable_by_index_apply(diff.edge_index.0) {
            return Err(GraphError::InvalidDiff);
        }
        let edge = Edge::new(diff.from, diff.to, diff.edge_data);
        self.restore_edge(RemoveEdge { edge_index: diff.edge_index, edge });
        Ok(())
    }

    /// Puts `data` in place of the payload of a live vertex.
    fn set_vertex_data(&mut self, index: VertexIndex, data: V) -> (r: Result<(), GraphError>)
        requires
            old(self).wf(),
        ensures
            final(self).wf(),
            r.is_ok() == old(self)@.has_vertex(index),
            r.is_ok() ==> final(self)@ == old(self)@.update_vertex(index, data),
            r.is_err() ==> final(self)@ == old(self)@ && r == Err::<(), GraphError>(
                GraphError::InvalidDiff,
            ),
    {
        proof {
            self.lemma_vertices();
        }
        match self.verticies.get_mut(index.0) {
            Some(vertex) => {
                vertex.data = data;
            },
            None => {
                return Err(GraphError::InvalidDiff);
            },
        }
        proof {
            old(self).lemma_vertex_written(self, index);
            old(self)@.lemma_update_vertex(index, data);
        }
        Ok(())
    }

    /// Puts `data` in place of the payload of a live edge.
    fn set_edge_data(&mut self, index: EdgeIndex, data: E) -> (r: Result<(), GraphError>)
        requires
            old(self).wf(),
        ensures
            final(self).wf(),
            r.is_ok() == old(self)@.has_edge(index),
            r.is_ok() ==> final(self)@ == old(self)@.update_edge(index, data),
            r.is_err() ==> final(self)@ == old(self)@ && r == Err::<(), GraphError>(
                GraphError::InvalidDiff,
            ),
    {
        proof {
        }
        match self.edges.get_mut(index.0) {
            Some(edge) => {
                edge.data = data;
            },
            None => {
                return Err(GraphError::InvalidDiff);
            },
        }
        proof {
            old(self)@.lemma_update_edge(index, data);
        }
        Ok(())
    }

    /// Puts the new payload in place of that of the vertex, which has to be
    /// live.
    fn apply_update_vertex_diff(&mut self, diff: UpdateVertexData<V>) -> (r: Result<
        (),
        GraphError,
    >)
        requires
            old(self).wf(),
        ensures
            final(self).wf(),
            r.is_ok() == old(self)@.apply_valid(GraphDiff::<V, E>::UpdateVertexData(diff)@),
            r.is_ok() ==> final(self)@ == old(self)@.apply(
                GraphDiff::<V, E>::UpdateVertexData(diff)@,
            ),
            r.is_err() ==> final(self)@ == old(self)@ && r == Err::<(), GraphError>(
                GraphError::InvalidDiff,
            ),
    {
        self.set_vertex_data(diff.index, diff.after)
    }

    /// Puts the new payload in place of that of the edge, which has to be live.
    fn apply_update_edge_diff(&mut self, diff: UpdateEdgeData<E>) -> (r: Result<(), GraphError>)
        requires
            old(self).wf(),
        ensures
            final(self).wf(),
            r.is_ok() == old(self)@.apply_valid(GraphDiff::<V, E>::UpdateEdgeData(diff)@),
            r.is_ok() ==> final(self)@ == old(self)@.apply(
                GraphDiff::<V, E>::UpdateEdgeData(diff)@,
            ),
            r.is_err() ==> final(self)@ == old(self)@ && r == Err::<(), GraphError>(
                GraphError::InvalidDiff,
            ),
    {
        self.set_edge_data(diff.index, diff.after)
    }

    /// Removes the edge, which has to be live.
    fn apply_remove_edge_diff(&mut self, diff: RemoveEdge<E>) -> (r: Result<(), GraphError>)
        requires
            old(self).wf(),
            old(self)@.can_remove_edge(diff@.index),
        ensures
            final(self).wf(),
            r.is_ok() == old(self)@.apply_valid(GraphDiff::<V, E>::RemoveEdge(diff)@),
            r.is_ok() ==> final(self)@ == old(self)@.apply(GraphDiff::<V, E>::RemoveEdge(diff)@),
            r.is_err() ==> final(self)@ == old(self)@ && r == Err::<(), GraphError>(
                GraphError::InvalidDiff,
            ),
    {
        match self.remove_edge(diff.edge_index) {
            Ok(_) => Ok(()),
            Err(_) => Err(GraphError::InvalidDiff),
        }
    }

    /// Removes the vertex, which has to be live, and the edges that touch it.
    fn apply_remove_vertex_diff(&mut self, diff: RemoveVertex<V, E>) -> (r: Result<
        (),
        GraphError,
    >)
        requires
            old(self).wf(),
            old(self)@.can_remove_vertex(diff.spec_vertex_index()),
        ensures
            final(self).wf(),
            r.is_ok() == old(self)@.apply_valid(GraphDiff::<V, E>::RemoveVertex(diff)@),
            r.is_ok() ==> final(self)@ == old(self)@.apply(
                GraphDiff::<V, E>::RemoveVertex(diff)@,
            ),
            r.is_err() ==> final(self)@ == old(self)@ && r == Err::<(), GraphError>(
                GraphError::InvalidDiff,
            ),
    {
        match self.remove_vertex(diff.vertex_index) {
            Ok(_) => Ok(()),
            Err(_) => Err(GraphError::InvalidDiff),
        }
    }

    /// Removes the vertex, which has to be live, with the edges that touch it,
    /// and leaves each freed slot at its generation.
    fn rollback_add_vertex_diff(&mut self, diff: AddVertex<V>) -> (r: Result<(), GraphError>)
        requires
            old(self).wf(),
        ensures
            final(self).wf(),
            r.is_ok() == old(self)@.rollback_valid(GraphDiff::<V, E>::AddVertex(diff)@),
            r.is_ok() ==> final(self)@ == old(self)@.rollback(GraphDiff::<V, E>::AddVertex(diff)@),
            r.is_err() ==> final(self)@ == old(self)@ && r == Err::<(), GraphError>(
                GraphError::InvalidDiff,
            ),
    {
        match self.remove_vertex_and_reset(diff.vertex_index) {
            Ok(_) => Ok(()),
            Err(_) => Err(GraphError::InvalidDiff),
        }
    }

    /// Removes the edge, which has to be live, and leaves its slot at its
    /// generation.
    fn rollback_add_edge_diff(&mut self, diff: AddEdge<E>) -> (r: Result<(), GraphError>)
        requires
            old(self).wf(),
        ensures
            final(self).wf(),
            r.is_ok() == old(self)@.rollback_valid(GraphDiff::<V, E>::AddEdge(diff)@),
            r.is_ok() ==> final(self)@ == old(self)@.rollback(GraphDiff::<V, E>::AddEdge(diff)@),
            r.is_err() ==> final(self)@ == old(self)@ && r == Err::<(), GraphError>(
                GraphError::InvalidDiff,
            ),
    {
        match self.remove_edge_and_reset(diff.edge_index) {
            Ok(_) => Ok(()),
            Err(_) => Err(GraphError::InvalidDiff),
        }
    }

    /// Puts the old payload in place of that of the vertex, which has to be
    /// live.
    fn rollback_update_vertex_diff(&mut self, diff: UpdateVertexData<V>) -> (r: Result<
        (),
        GraphError,
    >)
        requires
            old(self).wf(),
        ensures
            final(self).wf(),
            r.is_ok() == old(self)@.rollback_valid(GraphDiff::<V, E>::UpdateVertexData(diff)@),
            r.is_ok() ==> final(self)@ == old(self)@.rollback(
                GraphDiff::<V, E>::UpdateVertexData(diff)@,
            ),
            r.is_err() ==> final(self)@ == old(self)@ && r == Err::<(), GraphError>(
                GraphError::InvalidDiff,
            ),
    {
        self.set_vertex_data(diff.index, diff.before)
    }

    /// Puts the old payload in place of that of the edge, which has to be live.
    fn rollback_update_edge_diff(&mut self, diff: UpdateEdgeData<E>) -> (r: Result<
        (),
        GraphError,
    >)
        requires
            old(self).wf(),
        ensures
            final(self).wf(),
            r.is_ok() == old(self)@.rollback_valid(GraphDiff::<V, E>::UpdateEdgeData(diff)@),
            r.is_ok() ==> final(self)@ == old(self)@.rollback(
                GraphDiff::<V, E>::UpdateEdgeData(diff)@,
            ),
            r.is_err() ==> final(self)@ == old(self)@ && r == Err::<(), GraphError>(
                GraphError::InvalidDiff,
            ),
    {
        self.set_edge_data(diff.index, diff.before)
    }

    /// Writes the edge back into its slot, which has to stand open at the
    /// generation after that of the handle, between its two endpoints, which
    /// have to be live.
    fn rollback_remove_edge_diff(&mut self, diff: RemoveEdge<E>) -> (r: Result<(), GraphError>)
        requires
            old(self).wf(),
        ensures
            final(self).wf(),
            r.is_ok() == old(self)@.rollback_valid(GraphDiff::<V, E>::RemoveEdge(diff)@),
            r.is_ok() ==> final(self)@ == old(self)@.rollback(GraphDiff::<V, E>::RemoveEdge(diff)@),
            r.is_err() ==> final(self)@ == old(self)@ && r == Err::<(), GraphError>(
                GraphError::InvalidDiff,
            ),
    {
        if self.get_vertex(diff.edge.from).is_none() || self.get_vertex(diff.edge.to).is_none() {
            return Err(GraphError::InvalidDiff);
        }
        if !self.edges.is_replaceable_by_index_rollback(diff.edge_index.0) {
            return Err(GraphError::InvalidDiff);
        }
        self.restore_edge(diff);
        Ok(())
    }
}

impl<V: Clone, E: Clone> Graph<V, E> {
    /// Whether each recorded edge can be written back once `vertex_index`
    /// is live again.
    fn can_restore_edges(&self, vertex_index: VertexIndex, records: &Vec<RemoveEdge<E>>) -> (r:
        bool)
        requires
            distinct_slots(record_views(records@)),
        ensures
            r == self@.can_restore_edges(vertex_index, record_views(records@)),
    {
        let ghost views = record_views(records@);
        let mut i: usize = 0;
        while i < records.len()
            invariant
                i <= records@.len(),
                views == record_views(records@),
                forall|k: int|
                    0 <= k < i ==> {
                        let r = #[trigger] views[k];
                        &&& self@.edges.is_open_at(r.index.0.index as int, r.index.0.generation + 1)
                        &&& (r.edge.from == vertex_index || self@.has_vertex(r.edge.from))
                        &&& (r.edge.to == vertex_index || self@.has_vertex(r.edge.to))
                    },
            decreases records@.len() - i,
        {
            let record = &records[i];
            proof {
                assert(views[i as int] == record@);
            }
            if !self.edges.is_replaceable_by_index_rollback(record.edge_index.0) {
                return false;
            }
            if !(record.edge.from == vertex_index || self.get_vertex(record.edge.from).is_some()) {
                return false;
            }
            if !(record.edge.to == vertex_index || self.get_vertex(record.edge.to).is_some()) {
                return false;
            }
            i += 1;
        }
        true
    }

    /// Writes the vertex back into its slot, and each edge that went with it
    /// into its own. Every one of these slots has to stand open at the
    /// generation after that of its handle, and the other endpoint of each
    /// edge has to be live. Nothing is written unless all of it can be.
    fn rollback_remove_vertex_diff(&mut self, diff: RemoveVertex<V, E>) -> (r: Result<
        (),
        GraphError,
    >)
        requires
            old(self).wf(),
        ensures
            final(self).wf(),
            r.is_ok() == old(self)@.rollback_valid(GraphDiff::<V, E>::RemoveVertex(diff)@),
            r.is_ok() ==> final(self)@ == old(self)@.rollback(
                GraphDiff::<V, E>::RemoveVertex(diff)@,
            ),
            r.is_err() ==> final(self)@ == old(self)@ && r == Err::<(), GraphError>(
                GraphError::InvalidDiff,
            ),
    {
        proof {
            use_type_invariant(&diff);
            self.lemma_vertices();
            assert(diff.vertex@.connections_from =~= Seq::empty());
            assert(diff.vertex@.connections_to =~= Seq::empty());
        }
        if !self.verticies.is_replaceable_by_index_rollback(diff.vertex_index.0) {
            return Err(GraphError::InvalidDiff);
        }
        if !self.can_restore_edges(diff.vertex_index, &diff.removed_edges) {
            return Err(GraphError::InvalidDiff);
        }
        let RemoveVertex { vertex_index, vertex, removed_edges } = diff;
        let ghost records = record_views(removed_edges@);
        proof {
            self@.lemma_restore_vertex(vertex_index, vertex@);
            self.verticies@.lemma_map_restore(vertex_view(), vertex_index.0, vertex);
        }
        self.verticies.restore(vertex_index.0, vertex);
        let ghost middle = self@;
        proof {
            assert forall|i: int| 0 <= i < records.len() implies {
                let r = #[trigger] records[i];
                &&& middle.edges.is_open(r.index.0.index)
                &&& middle.has_vertex(r.edge.from)
                &&& middle.has_vertex(r.edge.to)
            } by {
                let r = records[i];
                assert(old(self)@.edges.is_open_at(
                    r.index.0.index as int,
                    r.index.0.generation + 1,
                ));
            }
            assert(records.take(0) =~= Seq::<RemoveEdgeView<E>>::empty());
        }
        let ghost all = removed_edges@;
        for record in it: removed_edges
            invariant
                it.seq() == all,
                records == record_views(all),
                self.wf(),
                middle.wf(),
                distinct_slots(records),
                forall|i: int|
                    0 <= i < records.len() ==> {
                        let r = #[trigger] records[i];
                        &&& middle.edges.is_open(r.index.0.index)
                        &&& middle.has_vertex(r.edge.from)
                        &&& middle.has_vertex(r.edge.to)
                    },
                self@ == middle.restore_edges(records.take(it.index() as int)),
        {
            proof {
                let i = it.index() as int;
                let done = records.take(i);
                assert(record@ == records[i]);
                assert(records.take(i + 1).drop_last() =~= done);
                assert(records.take(i + 1).last() == record@);
                assert(distinct_slots(done)) by {
                    assert forall|a: int, b: int| 0 <= a < b < done.len() implies done[a].index.0.index
                        != done[b].index.0.index by {
                        assert(records[a].index.0.index != records[b].index.0.index);
                    }
                }
                assert forall|k: int| 0 <= k < done.len() implies {
                    let r = #[trigger] done[k];
                    &&& middle.edges.is_open(r.index.0.index)
                    &&& middle.has_vertex(r.edge.from)
                    &&& middle.has_vertex(r.edge.to)
                } by {
                    assert(done[k] == records[k]);
                }
                middle.lemma_restore_edges(done);
                assert forall|k: int| 0 <= k < done.len() implies (#[trigger] done[k]).index.0.index
                    != record@.index.0.index by {
                    assert(records[k].index.0.index != records[i].index.0.index);
                }
                assert(self@.edges.is_open(record@.index.0.index));
                assert(self@.has_vertex(record@.edge.from));
                assert(self@.has_vertex(record@.edge.to));
            }
            self.restore_edge(record);
        }
        proof {
            assert(records.take(records.len() as int) =~= records);
        }
        Ok(())
    }

    /// Makes the mutation that `diff` records again. An addition goes back
    /// into its slot under its old handle, an update puts the new payload
    /// in place, a removal is carried out as `remove_edge` or
    /// `remove_vertex` would. Fails with `InvalidDiff`, and changes nothing,
    /// when the graph is not in the state that the diff was made for.
    pub fn apply_diff(&mut self, diff: GraphDiff<V, E>) -> (r: Result<(), GraphError>)
        requires
            old(self).wf(),
            old(self)@.can_apply(diff@),
        ensures
            final(self).wf(),
            r.is_ok() == old(self)@.apply_valid(diff@),
            r.is_ok() ==> final(self)@ == old(self)@.apply(diff@),
            r.is_err() ==> final(self)@ == old(self)@ && r == Err::<(), GraphError>(
                GraphError::InvalidDiff,
            ),
    {
        match diff {
            GraphDiff::AddVertex(diff) => self.apply_add_vertex_diff(diff),
            GraphDiff::AddEdge(diff) => self.apply_add_edge_diff(diff),
            GraphDiff::UpdateVertexData(diff) => self.apply_update_vertex_diff(diff),
            GraphDiff::UpdateEdgeData(diff) => self.apply_update_edge_diff(diff),
            GraphDiff::RemoveEdge(diff) => self.apply_remove_edge_diff(diff),
            GraphDiff::RemoveVertex(diff) => self.apply_remove_vertex_diff(diff),
        }
    }

    /// Undoes the mutation that `diff` records. An addition is removed and
    /// its slot left at the generation of the handle, an update puts the old
    /// payload back, a removal is written back into its slot under its old
    /// handle, a vertex with all the edges that went with it. Fails with
    /// `InvalidDiff`, and changes nothing, when the graph is not in the
    /// state that the mutation left.
    pub fn rollback_diff(&mut self, diff: GraphDiff<V, E>) -> (r: Result<(), GraphError>)
        requires
            old(self).wf(),
        ensures
            final(self).wf(),
            r.is_ok() == old(self)@.rollback_valid(diff@),
            r.is_ok() ==> final(self)@ == old(self)@.rollback(diff@),
            r.is_err() ==> final(self)@ == old(self)@ && r == Err::<(), GraphError>(
                GraphError::InvalidDiff,
            ),
    {
        match diff {
            GraphDiff::AddVertex(add_vertex) => self.rollback_add_vertex_diff(add_vertex),
            GraphDiff::AddEdge(add_edge) => self.rollback_add_edge_diff(add_edge),
            GraphDiff::UpdateVertexData(diff) => self.rollback_update_vertex_diff(diff),
            GraphDiff::UpdateEdgeData(diff) => self.rollback_update_edge_diff(diff),
            GraphDiff::RemoveEdge(remove_edge) => self.rollback_remove_edge_diff(remove_edge),
            GraphDiff::RemoveVertex(remove_vertex) => self.rollback_remove_vertex_diff(
                remove_vertex,
            ),
        }
    }
}

impl<V: Clone, E: Clone> Graph<V, E> {
    /// Mutable access to the payload of a live vertex. What is written
    /// through it is recorded in no diff.
    pub fn get_vertex_data_mut(&mut self, index: VertexIndex) -> (r: Option<&mut V>)
        requires
            old(self).wf(),
        ensures
            final(self).wf(),
            r.is_some() == old(self)@.has_vertex(index),
            match r {
                Some(data) => *data == old(self)@.vertex(index).data && final(self)@ == old(
                    self,
                )@.update_vertex(index, *final(data)),
                None => final(self)@ == old(self)@,
            },
    {
        proof {
            self.lemma_vertices();
        }
        let ghost after = *final(self);
        match self.verticies.get_mut(index.0) {
            Some(vertex) => {
                proof {
                    old(self).lemma_vertex_written(&after, index);
                    old(self)@.lemma_update_vertex(index, final(vertex).data);
                }
                Some(&mut vertex.data)
            },
            None => None,
        }
    }

    /// Mutable access to the payload of a live edge. What is written
    /// through it is recorded in no diff.
    pub fn get_edge_data_mut(&mut self, index: EdgeIndex) -> (r: Option<&mut E>)
        requires
            old(self).wf(),
        ensures
            final(self).wf(),
            r.is_some() == old(self)@.has_edge(index),
            match r {
                Some(data) => *data == old(self)@.edge(index).data && final(self)@ == old(
                    self,
                )@.update_edge(index, *final(data)),
                None => final(self)@ == old(self)@,
            },
    {
        proof {
        }
        let ghost after = *final(self);
        match self.edges.get_mut(index.0) {
            Some(edge) => {
                proof {
                    old(self)@.lemma_update_edge(index, final(edge).data);
                }
                Some(&mut edge.data)
            },
            None => None,
        }
    }
}

/// The edges of the entries that lead to `to`, in the order of the list.
pub open spec fn edges_to(list: Seq<(VertexIndex, EdgeIndex)>, to: VertexIndex) -> Seq<EdgeIndex> {
    list.filter(|c: (VertexIndex, EdgeIndex)| c.0 == to).map_values(
        |c: (VertexIndex, EdgeIndex)| c.1,
    )
}

/// Going one entry further adds its edge if the entry leads to `to`.
pub proof fn lemma_edges_to_step(list: Seq<(VertexIndex, EdgeIndex)>, to: VertexIndex, n: int)
    requires
        0 <= n < list.len(),
    ensures
        edges_to(list.take(n + 1), to) == (if list[n].0 == to {
            edges_to(list.take(n), to).push(list[n].1)
        } else {
            edges_to(list.take(n), to)
        }),
        edges_to(list.take(0), to) == Seq::<EdgeIndex>::empty(),
{
    reveal(Seq::filter);
    assert(list.take(n + 1).drop_last() =~= list.take(n));
    assert(list.take(0) =~= Seq::<(VertexIndex, EdgeIndex)>::empty());
    let keep = |c: (VertexIndex, EdgeIndex)| c.0 == to;
    let pick = |c: (VertexIndex, EdgeIndex)| c.1;
    if list[n].0 == to {
        assert(list.take(n + 1).filter(keep) == list.take(n).filter(keep).push(list[n]));
        assert(list.take(n).filter(keep).push(list[n]).map_values(pick) =~= list.take(n).filter(
            keep,
        ).map_values(pick).push(list[n].1));
    }
    assert(list.take(0).filter(keep).map_values(pick) =~= Seq::<EdgeIndex>::empty());
}

impl<V, E> Graph<V, E> {
    /// The edges that lead from `from` to `to`, in the order in which
    /// `from` lists them. Edges from `to` to `from` are not among them.
    /// Fails when `from` does not resolve.
    pub fn shared_edges(&self, from: VertexIndex, to: VertexIndex) -> (r: Result<
        Vec<EdgeIndex>,
        GraphError,
    >)
        ensures
            r.is_ok() == self@.has_vertex(from),
            match r {
                Ok(edges) => edges@ == edges_to(self@.out_adj(from), to),
                Err(err) => err == (GraphError::VertexDoesNotExist { index: from }),
            },
    {
        let vertex = match self.get_vertex(from) {
            Some(vertex) => vertex,
            None => {
                return Err(GraphError::VertexDoesNotExist { index: from });
            },
        };
        let list = vertex.get_connections_to();
        let mut out: Vec<EdgeIndex> = Vec::new();
        let mut i: usize = 0;
        proof {
            if list@.len() > 0 {
                lemma_edges_to_step(list@, to, 0);
            } else {
                reveal(Seq::filter);
                assert(list@.take(0) =~= list@);
                assert(edges_to(list@, to) =~= Seq::<EdgeIndex>::empty());
            }
        }
        while i < list.len()
            invariant
                i <= list@.len(),
                out@ == edges_to(list@.take(i as int), to),
            decreases list@.len() - i,
        {
            proof {
                lemma_edges_to_step(list@, to, i as int);
            }
            if list[i].0 == to {
                out.push(list[i].1);
            }
            i += 1;
        }
        proof {
            assert(list@.take(list@.len() as int) =~= list@);
        }
        Ok(out)
    }

    /// The handles of the live vertices, in slot order.
    pub fn vertex_indexes(&self) -> (r: Vec<VertexIndex>)
        ensures
            r@.len() == self@.vertices.live_indexes().len(),
            forall|k: int|
                0 <= k < r@.len() ==> (#[trigger] r@[k]).0 == self@.vertices.live_indexes()[k],
    {
        let found = self.verticies.indexes();
        proof {
            self.lemma_vertices();
            self.verticies.lemma_slots_fit();
            self.verticies@.lemma_map_live(vertex_view(), self.verticies@.slots.len() as int);
        }
        let mut out: Vec<VertexIndex> = Vec::new();
        let mut i: usize = 0;
        while i < found.len()
            invariant
                i <= found@.len(),
                out@.len() == i,
                forall|k: int| 0 <= k < i ==> (#[trigger] out@[k]).0 == found@[k],
            decreases found@.len() - i,
        {
            out.push(VertexIndex(found[i]));
            i += 1;
        }
        out
    }

    /// The handles of the live edges, in slot order.
    pub fn edge_indexes(&self) -> (r: Vec<EdgeIndex>)
        ensures
            r@.len() == self@.edges.live_indexes().len(),
            forall|k: int|
                0 <= k < r@.len() ==> (#[trigger] r@[k]).0 == self@.edges.live_indexes()[k],
    {
        let found = self.edges.indexes();
        let mut out: Vec<EdgeIndex> = Vec::new();
        let mut i: usize = 0;
        while i < found.len()
            invariant
                i <= found@.len(),
                out@.len() == i,
                forall|k: int| 0 <= k < i ==> (#[trigger] out@[k]).0 == found@[k],
            decreases found@.len() - i,
        {
            out.push(EdgeIndex(found[i]));
            i += 1;
        }
        out
    }

    /// The live vertices with their handles, in slot order.
    pub fn vertex_iter(&self) -> (r: Vec<(VertexIndex, &Vertex<V>)>)
        ensures
            r@.len() == self@.vertices.live_indexes().len(),
            forall|k: int|
                0 <= k < r@.len() ==> (#[trigger] r@[k]).0.0 == self@.vertices.live_indexes()[k]
                    && r@[k].1@ == self@.vertex(r@[k].0),
    {
        let found = self.verticies.iter();
        proof {
            self.lemma_vertices();
            self.verticies.lemma_slots_fit();
            self.verticies@.lemma_map_live(vertex_view(), self.verticies@.slots.len() as int);
            self.verticies@.lemma_live_prefix(self.verticies@.slots.len() as int);
        }
        let mut out: Vec<(VertexIndex, &Vertex<V>)> = Vec::new();
        let mut i: usize = 0;
        while i < found.len()
            invariant
                i <= found@.len(),
                out@.len() == i,
                forall|k: int|
                    0 <= k < i ==> (#[trigger] out@[k]).0.0 == found@[k].0 && *out@[k].1
                        == *found@[k].1,
            decreases found@.len() - i,
        {
            out.push((VertexIndex(found[i].0), found[i].1));
            i += 1;
        }
        proof {
            assert forall|k: int| 0 <= k < out@.len() implies (#[trigger] out@[k]).0.0
                == self@.vertices.live_indexes()[k] && out@[k].1@ == self@.vertex(out@[k].0) by {
                assert(found@[k].0 == self.verticies@.live_indexes()[k]);
                assert(self.verticies@.contains(found@[k].0));
                assert(self@.has_vertex(out@[k].0));
            }
        }
        out
    }

    /// The live edges with their handles, in slot order.
    pub fn edge_iter(&self) -> (r: Vec<(EdgeIndex, &Edge<E>)>)
        ensures
            r@.len() == self@.edges.live_indexes().len(),
            forall|k: int|
                0 <= k < r@.len() ==> (#[trigger] r@[k]).0.0 == self@.edges.live_indexes()[k]
                    && *r@[k].1 == self@.edge(r@[k].0),
    {
        let found = self.edges.iter();
        let mut out: Vec<(EdgeIndex, &Edge<E>)> = Vec::new();
        let mut i: usize = 0;
        while i < found.len()
            invariant
                i <= found@.len(),
                out@.len() == i,
                forall|k: int|
                    0 <= k < i ==> (#[trigger] out@[k]).0.0 == found@[k].0 && *out@[k].1
                        == *found@[k].1,
            decreases found@.len() - i,
        {
            out.push((EdgeIndex(found[i].0), found[i].1));
            i += 1;
        }
        out
    }

    /// The payloads of the live vertices with their handles, in slot order.
    pub fn vertex_data_iter(&self) -> (r: Vec<(VertexIndex, &V)>)
        ensures
            r@.len() == self@.vertices.live_indexes().len(),
            forall|k: int|
                0 <= k < r@.len() ==> (#[trigger] r@[k]).0.0 == self@.vertices.live_indexes()[k]
                    && *r@[k].1 == self@.vertex(r@[k].0).data,
    {
        let found = self.vertex_iter();
        let mut out: Vec<(VertexIndex, &V)> = Vec::new();
        let mut i: usize = 0;
        while i < found.len()
            invariant
                i <= found@.len(),
                out@.len() == i,
                forall|k: int|
                    0 <= k < i ==> (#[trigger] out@[k]).0 == found@[k].0 && *out@[k].1
                        == found@[k].1@.data,
            decreases found@.len() - i,
        {
            out.push((found[i].0, &found[i].1.data));
            i += 1;
        }
        out
    }

    /// The payloads of the live edges with their handles, in slot order.
    pub fn edge_data_iter(&self) -> (r: Vec<(EdgeIndex, &E)>)
        ensures
            r@.len() == self@.edges.live_indexes().len(),
            forall|k: int|
                0 <= k < r@.len() ==> (#[trigger] r@[k]).0.0 == self@.edges.live_indexes()[k]
                    && *r@[k].1 == self@.edge(r@[k].0).data,
    {
        let found = self.edge_iter();
        let mut out: Vec<(EdgeIndex, &E)> = Vec::new();
        let mut i: usize = 0;
        while i < found.len()
            invariant
                i <= found@.len(),
                out@.len() == i,
                forall|k: int|
                    0 <= k < i ==> (#[trigger] out@[k]).0 == found@[k].0 && *out@[k].1
                        == found@[k].1.data,
            decreases found@.len() - i,
        {
            out.push((found[i].0, &found[i].1.data));
            i += 1;
        }
        out
    }
}

impl<V: Clone, E: Clone> Default for Graph<V, E> {
    /// An empty graph.
    fn default() -> (r: Self)
        ensures
            r.wf(),
            r@ == GraphView::<V, E>::empty(),
    {
        Graph::new()
    }
}

impl<V, E> Graph<V, E> {
    /// New payloads for live vertices keep the invariant.
    proof fn lemma_payloads_written(&self, after: Self)
        requires
            self.wf(),
            after.edges == self.edges,
            after.verticies.wf(),
            after.verticies@.free == self.verticies@.free,
            after.verticies@.slots.len() == self.verticies@.slots.len(),
            forall|s: int|
                0 <= s < self.verticies@.slots.len() ==> (
                #[trigger] after.verticies@.slots[s]).generation
                    == self.verticies@.slots[s].generation
                    && after.verticies@.slots[s].value.is_some()
                    == self.verticies@.slots[s].value.is_some(),
            forall|v: VertexIndex|
                self@.has_vertex(v) ==> (#[trigger] after.verticies@.value(v.0))@.connections_from
                    == self@.in_adj(v) && after.verticies@.value(v.0)@.connections_to
                    == self@.out_adj(v),
        ensures
            after.wf(),
            after@.edges == self@.edges,
            forall|v: VertexIndex| #[trigger] after@.has_vertex(v) == self@.has_vertex(v),
            forall|v: VertexIndex|
                self@.has_vertex(v) ==> #[trigger] after@.vertex(v) == after.verticies@.value(v.0)@,
            forall|v: VertexIndex|
                self@.has_vertex(v) ==> #[trigger] after@.in_adj(v) == self@.in_adj(v),
            forall|v: VertexIndex|
                self@.has_vertex(v) ==> #[trigger] after@.out_adj(v) == self@.out_adj(v),
    {
        self.lemma_vertices();
        after.lemma_vertices();
        let a = after@;
        let b = self@;
        assert forall|v: VertexIndex| #[trigger] a.has_vertex(v) == b.has_vertex(v) by {
            if v.0.index < self.verticies@.slots.len() {
                assert(after.verticies@.slots[v.0.index as int].generation
                    == self.verticies@.slots[v.0.index as int].generation);
            }
        }
        assert forall|v: VertexIndex| b.has_vertex(v) implies a.in_adj(v) == b.in_adj(v)
            && a.out_adj(v) == b.out_adj(v) by {
            assert(a.has_vertex(v));
            assert(a.vertex(v) == after.verticies@.value(v.0)@);
        }
        assert forall|v: VertexIndex, i: int|
            a.has_vertex(v) && 0 <= i < a.out_adj(v).len() implies #[trigger] a.out_entry_ok(
            v,
            i,
        ) by {
            assert(b.has_vertex(v));
            assert(b.out_entry_ok(v, i));
        }
        assert forall|v: VertexIndex, i: int|
            a.has_vertex(v) && 0 <= i < a.in_adj(v).len() implies #[trigger] a.in_entry_ok(
            v,
            i,
        ) by {
            assert(b.has_vertex(v));
            assert(b.in_entry_ok(v, i));
        }
        assert forall|v: VertexIndex| #[trigger] a.has_vertex(v) implies crate::graph_model::distinct_edges(
            a.out_adj(v),
        ) && crate::graph_model::distinct_edges(a.in_adj(v)) by {
            assert(b.has_vertex(v));
        }
        assert forall|x: EdgeIndex| #[trigger] a.has_edge(x) implies a.edge_linked(x) by {
            assert(b.has_edge(x));
            assert(b.edge_linked(x));
            assert(a.has_vertex(b.edge(x).from));
            assert(a.has_vertex(b.edge(x).to));
        }
    }

    /// Mutable access to the payloads of the live vertices, in slot order.
    /// What is written through it is recorded in no diff.
    pub fn vertex_data_iter_mut(&mut self) -> (r: Vec<(VertexIndex, &mut V)>)
        requires
            old(self).wf(),
        ensures
            final(self).wf(),
            final(self)@.edges == old(self)@.edges,
            forall|v: VertexIndex| #[trigger] final(self)@.has_vertex(v) == old(self)@.has_vertex(v),
            forall|v: VertexIndex|
                old(self)@.has_vertex(v) ==> #[trigger] final(self)@.in_adj(v) == old(self)@.in_adj(
                    v,
                ),
            forall|v: VertexIndex|
                old(self)@.has_vertex(v) ==> #[trigger] final(self)@.out_adj(v) == old(
                    self,
                )@.out_adj(v),
            r@.len() == old(self)@.vertices.live_indexes().len(),
            forall|k: int|
                0 <= k < r@.len() ==> {
                    &&& (#[trigger] r@[k]).0.0 == old(self)@.vertices.live_indexes()[k]
                    &&& *r@[k].1 == old(self)@.vertex(r@[k].0).data
                    &&& *final(r@[k].1) == final(self)@.vertex(r@[k].0).data
                },
    {
        let ghost start = *old(self);
        let ghost fin = *final(self);
        proof {
            self.lemma_vertices();
            self.verticies.lemma_slots_fit();
            self.verticies@.lemma_map_live(vertex_view(), self.verticies@.slots.len() as int);
            self.verticies@.lemma_live_prefix(self.verticies@.slots.len() as int);
        }
        let found = self.verticies.iter_mut();
        let ghost all = found@;
        let mut out: Vec<(VertexIndex, &mut V)> = Vec::new();
        for entry in it: found
            invariant
                it.seq() == all,
                out@.len() == it.index(),
                forall|k: int|
                    0 <= k < out@.len() ==> {
                        &&& (#[trigger] out@[k]).0.0 == all[k].0
                        &&& *out@[k].1 == all[k].1.data
                        &&& *final(out@[k].1) == final(all[k].1).data
                        &&& final(all[k].1)@.connections_from == all[k].1@.connections_from
                        &&& final(all[k].1)@.connections_to == all[k].1@.connections_to
                    },
        {
            let (index, vertex) = entry;
            out.push((VertexIndex(index), &mut vertex.data));
        }
        proof {
            assert forall|v: VertexIndex| start@.has_vertex(v) implies (
            #[trigger] fin.verticies@.value(v.0))@.connections_from == start@.in_adj(v)
                && fin.verticies@.value(v.0)@.connections_to == start@.out_adj(v) by {
                assert(start.verticies@.contains(v.0));
                let k = choose|k: int|
                    0 <= k < start.verticies@.live_indexes().len()
                        && start.verticies@.live_indexes()[k] == v.0;
                assert(all[k].0 == v.0);
                assert(out@[k].0.0 == all[k].0);
                assert(*all[k].1 == start.verticies@.value(all[k].0));
                assert(*final(all[k].1) == fin.verticies@.value(all[k].0));
                assert(start@.vertex(v) == start.verticies@.value(v.0)@);
            }
            start.lemma_payloads_written(fin);
            assert forall|k: int| 0 <= k < out@.len() implies *final((#[trigger] out@[k]).1)
                == fin@.vertex(out@[k].0).data by {
                assert(all[k].0 == start.verticies@.live_indexes()[k]);
                assert(start.verticies@.contains(all[k].0));
                assert(start@.has_vertex(out@[k].0));
            }
        }
        out
    }
}

impl<V, E> Graph<V, E> {
    /// New payloads for live edges keep the invariant.
    proof fn lemma_edge_payloads_written(&self, after: Self)
        requires
            self.wf(),
            after.verticies == self.verticies,
            after.edges.wf(),
            after.edges@.free == self.edges@.free,
            after.edges@.slots.len() == self.edges@.slots.len(),
            forall|s: int|
                0 <= s < self.edges@.slots.len() ==> (#[trigger] after.edges@.slots[s]).generation
                    == self.edges@.slots[s].generation && after.edges@.slots[s].value.is_some()
                    == self.edges@.slots[s].value.is_some(),
            forall|x: EdgeIndex|
                self@.has_edge(x) ==> (#[trigger] after.edges@.value(x.0)).from == self@.edge(
                    x,
                ).from && after.edges@.value(x.0).to == self@.edge(x).to,
        ensures
            after.wf(),
            after@.vertices == self@.vertices,
            forall|x: EdgeIndex| #[trigger] after@.has_edge(x) == self@.has_edge(x),
    {
        let a = after@;
        let b = self@;
        assert forall|x: EdgeIndex| #[trigger] a.has_edge(x) == b.has_edge(x) by {
            if x.0.index < self.edges@.slots.len() {
                assert(after.edges@.slots[x.0.index as int].generation
                    == self.edges@.slots[x.0.index as int].generation);
            }
        }
        assert forall|v: VertexIndex, i: int|
            a.has_vertex(v) && 0 <= i < a.out_adj(v).len() implies #[trigger] a.out_entry_ok(
            v,
            i,
        ) by {
            assert(b.out_entry_ok(v, i));
            assert(b.has_edge(b.out_adj(v)[i].1));
            assert(a.has_edge(b.out_adj(v)[i].1));
        }
        assert forall|v: VertexIndex, i: int|
            a.has_vertex(v) && 0 <= i < a.in_adj(v).len() implies #[trigger] a.in_entry_ok(
            v,
            i,
        ) by {
            assert(b.in_entry_ok(v, i));
            assert(b.has_edge(b.in_adj(v)[i].1));
            assert(a.has_edge(b.in_adj(v)[i].1));
        }
        assert forall|v: VertexIndex| #[trigger] a.has_vertex(v) implies crate::graph_model::distinct_edges(
            a.out_adj(v),
        ) && crate::graph_model::distinct_edges(a.in_adj(v)) by {
            assert(b.has_vertex(v));
        }
        assert forall|x: EdgeIndex| #[trigger] a.has_edge(x) implies a.edge_linked(x) by {
            assert(b.has_edge(x));
            assert(b.edge_linked(x));
        }
    }

    /// Mutable access to the payloads of the live edges, in slot order.
    /// What is written through it is recorded in no diff.
    pub fn edge_data_iter_mut(&mut self) -> (r: Vec<(EdgeIndex, &mut E)>)
        requires
            old(self).wf(),
        ensures
            final(self).wf(),
            final(self)@.vertices == old(self)@.vertices,
            forall|x: EdgeIndex| #[trigger] final(self)@.has_edge(x) == old(self)@.has_edge(x),
            forall|x: EdgeIndex|
                old(self)@.has_edge(x) ==> (#[trigger] final(self)@.edge(x)).from == old(
                    self,
                )@.edge(x).from && final(self)@.edge(x).to == old(self)@.edge(x).to,
            r@.len() == old(self)@.edges.live_indexes().len(),
            forall|k: int|
                0 <= k < r@.len() ==> {
                    &&& (#[trigger] r@[k]).0.0 == old(self)@.edges.live_indexes()[k]
                    &&& *r@[k].1 == old(self)@.edge(r@[k].0).data
                    &&& *final(r@[k].1) == final(self)@.edge(r@[k].0).data
                },
    {
        let ghost start = *old(self);
        let ghost fin = *final(self);
        proof {
            self.edges.lemma_slots_fit();
            self.edges@.lemma_live_prefix(self.edges@.slots.len() as int);
        }
        let found = self.edges.iter_mut();
        let ghost all = found@;
        let mut out: Vec<(EdgeIndex, &mut E)> = Vec::new();
        for entry in it: found
            invariant
                it.seq() == all,
                out@.len() == it.index(),
                forall|k: int|
                    0 <= k < out@.len() ==> {
                        &&& (#[trigger] out@[k]).0.0 == all[k].0
                        &&& *out@[k].1 == all[k].1.data
                        &&& *final(out@[k].1) == final(all[k].1).data
                        &&& final(all[k].1).from == all[k].1.from
                        &&& final(all[k].1).to == all[k].1.to
                    },
        {
            let (index, edge) = entry;
            out.push((EdgeIndex(index), &mut edge.data));
        }
        proof {
            assert forall|x: EdgeIndex| start@.has_edge(x) implies (#[trigger] fin.edges@.value(
                x.0,
            )).from == start@.edge(x).from && fin.edges@.value(x.0).to == start@.edge(x).to by {
                assert(start.edges@.contains(x.0));
                let k = choose|k: int|
                    0 <= k < start.edges@.live_indexes().len() && start.edges@.live_indexes()[k]
                        == x.0;
                assert(all[k].0 == x.0);
                assert(out@[k].0.0 == all[k].0);
                assert(*all[k].1 == start.edges@.value(all[k].0));
                assert(*final(all[k].1) == fin.edges@.value(all[k].0));
            }
            start.lemma_edge_payloads_written(fin);
            assert forall|k: int| 0 <= k < out@.len() implies *final((#[trigger] out@[k]).1)
                == fin@.edge(out@[k].0).data by {
                assert(all[k].0 == start.edges@.live_indexes()[k]);
                assert(start.edges@.contains(all[k].0));
            }
        }
        out
    }
}

} // verus!

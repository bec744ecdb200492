//! The graph as a mathematical value: what each operation does to it, and
//! the invariant that every operation keeps.

use vstd::prelude::*;
use crate::gen_vec::{GenVecView, Index};
use crate::graph_diff::{distinct_slots, GraphDiffView, RemoveEdgeView};
use crate::graph::{
    first_entry, has_entry, lemma_first_entry, without_entry, Edge, EdgeIndex, VertexIndex,
    VertexView,
};

verus! {

/// The two tables of a graph.
pub ghost struct GraphView<V, E> {
    pub vertices: GenVecView<VertexView<V>>,
    pub edges: GenVecView<Edge<E>>,
}

/// No edge has two entries in the list.
pub open spec fn distinct_edges(list: Seq<(VertexIndex, EdgeIndex)>) -> bool {
    forall|i: int, j: int| 0 <= i < j < list.len() ==> list[i].1 != list[j].1
}

impl<V, E> GraphView<V, E> {
    /// The graph without a slot in either table.
    pub open spec fn empty() -> Self {
        GraphView { vertices: GenVecView::empty(), edges: GenVecView::empty() }
    }

    /// The vertex handle resolves.
    pub open spec fn has_vertex(self, v: VertexIndex) -> bool {
        self.vertices.contains(v.0)
    }

    /// The edge handle resolves.
    pub open spec fn has_edge(self, e: EdgeIndex) -> bool {
        self.edges.contains(e.0)
    }

    /// The vertex behind a handle that resolves.
    pub open spec fn vertex(self, v: VertexIndex) -> VertexView<V> {
        self.vertices.value(v.0)
    }

    /// The edge behind a handle that resolves.
    pub open spec fn edge(self, e: EdgeIndex) -> Edge<E> {
        self.edges.value(e.0)
    }

    /// The outgoing edges of `v`, each with its target.
    pub open spec fn out_adj(self, v: VertexIndex) -> Seq<(VertexIndex, EdgeIndex)> {
        self.vertex(v).connections_to
    }

    /// The incoming edges of `v`, each with its source.
    pub open spec fn in_adj(self, v: VertexIndex) -> Seq<(VertexIndex, EdgeIndex)> {
        self.vertex(v).connections_from
    }

    /// Entry `i` of the outgoing list of `v` names a live edge from `v` to
    /// the vertex that the entry gives.
    pub open spec fn out_entry_ok(self, v: VertexIndex, i: int) -> bool {
        let c = self.out_adj(v)[i];
        self.has_edge(c.1) && self.edge(c.1).from == v && self.edge(c.1).to == c.0
    }

    /// Entry `i` of the incoming list of `v` names a live edge to `v` from
    /// the vertex that the entry gives.
    pub open spec fn in_entry_ok(self, v: VertexIndex, i: int) -> bool {
        let c = self.in_adj(v)[i];
        self.has_edge(c.1) && self.edge(c.1).to == v && self.edge(c.1).from == c.0
    }

    /// Both endpoints of `e` are live and list it.
    pub open spec fn edge_linked(self, e: EdgeIndex) -> bool {
        let edge = self.edge(e);
        &&& self.has_vertex(edge.from)
        &&& self.has_vertex(edge.to)
        &&& self.out_adj(edge.from).contains((edge.to, e))
        &&& self.in_adj(edge.to).contains((edge.from, e))
    }

    /// The adjacency invariant: every live edge is listed by both of its
    /// endpoints, every entry of a list names a live edge with matching
    /// endpoints, and no list names an edge twice.
    pub open spec fn adjacent(self) -> bool {
        &&& forall|v: VertexIndex, i: int|
            self.has_vertex(v) && 0 <= i < self.out_adj(v).len() ==> #[trigger] self.out_entry_ok(
                v,
                i,
            )
        &&& forall|v: VertexIndex, i: int|
            self.has_vertex(v) && 0 <= i < self.in_adj(v).len() ==> #[trigger] self.in_entry_ok(
                v,
                i,
            )
        &&& forall|v: VertexIndex| #[trigger]
            self.has_vertex(v) ==> distinct_edges(self.out_adj(v)) && distinct_edges(
                self.in_adj(v),
            )
        &&& forall|e: EdgeIndex| #[trigger] self.has_edge(e) ==> self.edge_linked(e)
    }

    /// What holds of every graph: both free lists are sound and the
    /// adjacency invariant holds.
    pub open spec fn wf(self) -> bool {
        &&& self.vertices.wf()
        &&& self.edges.wf()
        &&& self.adjacent()
    }

    /// The graph with a live vertex replaced.
    pub open spec fn with_vertex(self, v: VertexIndex, value: VertexView<V>) -> Self {
        GraphView { vertices: self.vertices.set_value(v.0, value), ..self }
    }

    /// The graph with one more entry at the end of the outgoing list of `v`.
    pub open spec fn push_out(self, v: VertexIndex, entry: (VertexIndex, EdgeIndex)) -> Self {
        self.with_vertex(
            v,
            VertexView { connections_to: self.out_adj(v).push(entry), ..self.vertex(v) },
        )
    }

    /// The graph with one more entry at the end of the incoming list of `v`.
    pub open spec fn push_in(self, v: VertexIndex, entry: (VertexIndex, EdgeIndex)) -> Self {
        self.with_vertex(
            v,
            VertexView { connections_from: self.in_adj(v).push(entry), ..self.vertex(v) },
        )
    }

    /// The graph without the entry for `e` in the outgoing list of `v`.
    pub open spec fn drop_out(self, v: VertexIndex, e: EdgeIndex) -> Self {
        self.with_vertex(
            v,
            VertexView { connections_to: without_entry(self.out_adj(v), e), ..self.vertex(v) },
        )
    }

    /// The graph without the entry for `e` in the incoming list of `v`.
    pub open spec fn drop_in(self, v: VertexIndex, e: EdgeIndex) -> Self {
        self.with_vertex(
            v,
            VertexView { connections_from: without_entry(self.in_adj(v), e), ..self.vertex(v) },
        )
    }

    /// Lists `e` at its source and then at its target.
    pub open spec fn link(self, e: EdgeIndex, from: VertexIndex, to: VertexIndex) -> Self {
        self.push_out(from, (to, e)).push_in(to, (from, e))
    }

    /// Strikes `e` from the list of its source and then of its target.
    pub open spec fn unlink(self, e: EdgeIndex, from: VertexIndex, to: VertexIndex) -> Self {
        self.drop_out(from, e).drop_in(to, e)
    }

    /// The handle that the next new vertex gets.
    pub open spec fn next_vertex(self) -> VertexIndex {
        VertexIndex(self.vertices.next_index())
    }

    /// The handle that the next new edge gets.
    pub open spec fn next_edge(self) -> EdgeIndex {
        EdgeIndex(self.edges.next_index())
    }

    /// The graph with one more vertex, which no edge touches.
    pub open spec fn add_vertex(self, data: V) -> Self {
        GraphView { vertices: self.vertices.add(VertexView::isolated(data)), ..self }
    }

    /// The graph with one more edge between two live vertices.
    pub open spec fn add_edge(self, from: VertexIndex, to: VertexIndex, data: E) -> Self {
        GraphView { edges: self.edges.add(Edge { from, to, data }), ..self }.link(
            self.next_edge(),
            from,
            to,
        )
    }

    /// The graph with the payload of a live vertex replaced.
    pub open spec fn update_vertex(self, v: VertexIndex, data: V) -> Self {
        self.with_vertex(v, VertexView { data, ..self.vertex(v) })
    }

    /// The graph with the payload of a live edge replaced.
    pub open spec fn update_edge(self, e: EdgeIndex, data: E) -> Self {
        GraphView { edges: self.edges.set_value(e.0, Edge { data, ..self.edge(e) }), ..self }
    }
}

impl<V, E> GraphView<V, E> {
    /// A new vertex keeps the invariant, and changes nothing about the
    /// vertices and edges that were there.
    pub proof fn lemma_add_vertex(self, data: V)
        requires
            self.wf(),
            self.vertices.has_room(),
        ensures
            self.add_vertex(data).wf(),
            !self.has_vertex(self.next_vertex()),
            self.add_vertex(data).has_vertex(self.next_vertex()),
            self.add_vertex(data).vertex(self.next_vertex()) == VertexView::isolated(data),
            forall|v: VertexIndex| #[trigger]
                self.add_vertex(data).has_vertex(v) == (self.has_vertex(v) || v
                    == self.next_vertex()),
            forall|v: VertexIndex|
                self.has_vertex(v) ==> #[trigger] self.add_vertex(data).vertex(v) == self.vertex(v),
    {
        let after = self.add_vertex(data);
        let n = self.next_vertex();
        self.vertices.lemma_add(VertexView::isolated(data));
        assert forall|v: VertexIndex, i: int|
            after.has_vertex(v) && 0 <= i < after.out_adj(v).len() implies #[trigger] after.out_entry_ok(
            v,
            i,
        ) by {
            assert(self.out_entry_ok(v, i));
        }
        assert forall|v: VertexIndex, i: int|
            after.has_vertex(v) && 0 <= i < after.in_adj(v).len() implies #[trigger] after.in_entry_ok(
            v,
            i,
        ) by {
            assert(self.in_entry_ok(v, i));
        }
        assert forall|e: EdgeIndex| #[trigger] after.has_edge(e) implies after.edge_linked(e) by {
            assert(self.has_edge(e));
            assert(self.edge_linked(e));
            assert(self.has_vertex(self.edge(e).from));
            assert(self.has_vertex(self.edge(e).to));
        }
        assert forall|v: VertexIndex| #[trigger] after.has_vertex(v) implies distinct_edges(
            after.out_adj(v),
        ) && distinct_edges(after.in_adj(v)) by {
            if v != n {
                assert(self.has_vertex(v));
            }
        }
    }
}

impl<V, E> GraphView<V, E> {
    /// Replacing a live vertex changes that vertex and nothing else.
    pub proof fn lemma_with_vertex(self, v: VertexIndex, value: VertexView<V>)
        requires
            self.has_vertex(v),
        ensures
            self.with_vertex(v, value).edges == self.edges,
            self.with_vertex(v, value).vertices.wf() == self.vertices.wf(),
            self.with_vertex(v, value).vertex(v) == value,
            forall|u: VertexIndex| #[trigger]
                self.with_vertex(v, value).has_vertex(u) == self.has_vertex(u),
            forall|u: VertexIndex|
                u != v && self.has_vertex(u) ==> #[trigger] self.with_vertex(v, value).vertex(u)
                    == self.vertex(u),
            forall|e: EdgeIndex| #[trigger] self.with_vertex(v, value).has_edge(e) == self.has_edge(e),
            forall|e: EdgeIndex| #[trigger] self.with_vertex(v, value).edge(e) == self.edge(e),
    {
        self.vertices.lemma_set_value(v.0, value);
        let after = self.with_vertex(v, value);
        assert forall|u: VertexIndex| #[trigger] after.has_vertex(u) == self.has_vertex(u) by {
            assert(after.vertices.contains(u.0) == self.vertices.contains(u.0));
        }
        assert forall|u: VertexIndex| u != v && self.has_vertex(u) implies #[trigger] after.vertex(
            u,
        ) == self.vertex(u) by {
            assert(u.0 != v.0);
            assert(after.vertices.value(u.0) == self.vertices.value(u.0));
        }
    }

    /// Listing a new edge at its two live endpoints keeps the invariant.
    /// `edges` is the edge table once `e` has been stored in it.
    pub proof fn lemma_link(self, edges: GenVecView<Edge<E>>, e: EdgeIndex, edge: Edge<E>)
        requires
            self.wf(),
            edges.wf(),
            !self.has_edge(e),
            self.has_vertex(edge.from),
            self.has_vertex(edge.to),
            edges.contains(e.0),
            edges.value(e.0) == edge,
            forall|i: Index| #[trigger] edges.contains(i) == (self.edges.contains(i) || i == e.0),
            forall|i: Index| self.edges.contains(i) ==> #[trigger] edges.value(i) == self.edges.value(i),
        ensures
            (GraphView { edges, ..self }).link(e, edge.from, edge.to).wf(),
            (GraphView { edges, ..self }).link(e, edge.from, edge.to).edges == edges,
            forall|u: VertexIndex| #[trigger]
                (GraphView { edges, ..self }).link(e, edge.from, edge.to).has_vertex(u)
                    == self.has_vertex(u),
            forall|u: VertexIndex|
                self.has_vertex(u) ==> (#[trigger] (GraphView { edges, ..self }).link(
                    e,
                    edge.from,
                    edge.to,
                ).vertex(u)).data == self.vertex(u).data,
    {
        let from = edge.from;
        let to = edge.to;
        let g1 = GraphView { edges, ..self };
        let g2 = g1.push_out(from, (to, e));
        let g3 = g2.push_in(to, (from, e));
        g1.lemma_with_vertex(
            from,
            VertexView { connections_to: g1.out_adj(from).push((to, e)), ..g1.vertex(from) },
        );
        g2.lemma_with_vertex(
            to,
            VertexView { connections_from: g2.in_adj(to).push((from, e)), ..g2.vertex(to) },
        );
        assert forall|u: VertexIndex| g3.has_vertex(u) implies {
            &&& self.has_vertex(u)
            &&& g3.out_adj(u) == (if u == from {
                self.out_adj(u).push((to, e))
            } else {
                self.out_adj(u)
            })
            &&& g3.in_adj(u) == (if u == to {
                self.in_adj(u).push((from, e))
            } else {
                self.in_adj(u)
            })
            &&& g3.vertex(u).data == self.vertex(u).data
        } by {
            assert(g2.has_vertex(u));
            assert(g1.has_vertex(u));
            assert(self.has_vertex(u));
        }
        assert forall|x: EdgeIndex| g3.has_edge(x) implies (self.has_edge(x) || x == e) && g3.edge(x)
            == (if x == e {
            edge
        } else {
            self.edge(x)
        }) by {
            assert(edges.contains(x.0));
        }
        assert forall|x: EdgeIndex| self.has_edge(x) implies g3.has_edge(x) && g3.edge(x)
            == self.edge(x) by {
            assert(edges.contains(x.0));
            assert(edges.value(x.0) == self.edges.value(x.0));
        }
        assert forall|v: VertexIndex, i: int|
            g3.has_vertex(v) && 0 <= i < g3.out_adj(v).len() implies #[trigger] g3.out_entry_ok(
            v,
            i,
        ) by {
            if i < self.out_adj(v).len() {
                assert(self.out_entry_ok(v, i));
                assert(self.has_edge(self.out_adj(v)[i].1));
            } else {
                assert(g3.has_edge(e));
            }
        }
        assert forall|v: VertexIndex, i: int|
            g3.has_vertex(v) && 0 <= i < g3.in_adj(v).len() implies #[trigger] g3.in_entry_ok(
            v,
            i,
        ) by {
            if i < self.in_adj(v).len() {
                assert(self.in_entry_ok(v, i));
                assert(self.has_edge(self.in_adj(v)[i].1));
            } else {
                assert(g3.has_edge(e));
            }
        }
        assert forall|v: VertexIndex| #[trigger] g3.has_vertex(v) implies distinct_edges(
            g3.out_adj(v),
        ) && distinct_edges(g3.in_adj(v)) by {
            assert(self.has_vertex(v));
            assert forall|i: int, j: int| 0 <= i < j < g3.out_adj(v).len() implies g3.out_adj(
                v,
            )[i].1 != g3.out_adj(v)[j].1 by {
                assert(self.out_entry_ok(v, i));
            }
            assert forall|i: int, j: int| 0 <= i < j < g3.in_adj(v).len() implies g3.in_adj(v)[i].1
                != g3.in_adj(v)[j].1 by {
                assert(self.in_entry_ok(v, i));
            }
        }
        assert forall|x: EdgeIndex| #[trigger] g3.has_edge(x) implies g3.edge_linked(x) by {
            if x == e {
                assert(g3.has_vertex(from));
                assert(g3.has_vertex(to));
                assert(g3.out_adj(from)[self.out_adj(from).len() as int] == (to, e));
                assert(g3.in_adj(to)[self.in_adj(to).len() as int] == (from, e));
            } else {
                assert(self.has_edge(x));
                assert(self.edge_linked(x));
                let xe = self.edge(x);
                assert(g3.has_vertex(xe.from));
                assert(g3.has_vertex(xe.to));
                let i = choose|i: int|
                    0 <= i < self.out_adj(xe.from).len() && self.out_adj(xe.from)[i] == (xe.to, x);
                assert(g3.out_adj(xe.from)[i] == (xe.to, x));
                let j = choose|j: int|
                    0 <= j < self.in_adj(xe.to).len() && self.in_adj(xe.to)[j] == (xe.from, x);
                assert(g3.in_adj(xe.to)[j] == (xe.from, x));
            }
        }
        assert forall|u: VertexIndex| #[trigger] g3.has_vertex(u) == self.has_vertex(u) by {
            if self.has_vertex(u) {
                assert(g1.has_vertex(u));
                assert(g2.has_vertex(u));
            }
        }
    }

    /// A new edge between two live vertices keeps the invariant.
    pub proof fn lemma_add_edge(self, from: VertexIndex, to: VertexIndex, data: E)
        requires
            self.wf(),
            self.edges.has_room(),
            self.has_vertex(from),
            self.has_vertex(to),
        ensures
            self.add_edge(from, to, data).wf(),
            !self.has_edge(self.next_edge()),
            self.add_edge(from, to, data).has_edge(self.next_edge()),
            self.add_edge(from, to, data).edge(self.next_edge()) == (Edge { from, to, data }),
            self.add_edge(from, to, data).edges == self.edges.add(Edge { from, to, data }),
            forall|u: VertexIndex| #[trigger]
                self.add_edge(from, to, data).has_vertex(u) == self.has_vertex(u),
            forall|u: VertexIndex|
                self.has_vertex(u) ==> (#[trigger] self.add_edge(from, to, data).vertex(u)).data
                    == self.vertex(u).data,
    {
        let edge = Edge { from, to, data };
        self.edges.lemma_add(edge);
        self.lemma_link(self.edges.add(edge), self.next_edge(), edge);
    }
}

impl<V, E> GraphView<V, E> {
    /// The graph without the edge `e`: the edge is struck from the lists of
    /// its endpoints and its slot is left open at `generation`.
    pub open spec fn detach_edge(self, e: EdgeIndex, generation: u32) -> Self {
        if self.has_edge(e) {
            GraphView {
                edges: self.edges.vacate(e.0.index, generation),
                ..self.unlink(e, self.edge(e).from, self.edge(e).to)
            }
        } else {
            self
        }
    }

    /// The graph after `remove_edge(e)`: the slot moves on to the next
    /// generation.
    pub open spec fn remove_edge(self, e: EdgeIndex) -> Self {
        self.detach_edge(e, (e.0.generation + 1) as u32)
    }

    /// The graph after a removal of `e` that leaves the generation of the
    /// slot as it was.
    pub open spec fn remove_edge_keeping_generation(self, e: EdgeIndex) -> Self {
        self.detach_edge(e, e.0.generation)
    }

    /// The edge `e` starts or ends at `v`.
    pub open spec fn touches(self, e: EdgeIndex, v: VertexIndex) -> bool {
        self.edge(e).from == v || self.edge(e).to == v
    }

    /// Under the invariant, a vertex lists exactly the live edges that start
    /// at it, each with its target.
    pub proof fn lemma_out_adj(self, v: VertexIndex, c: (VertexIndex, EdgeIndex))
        requires
            self.adjacent(),
            self.has_vertex(v),
        ensures
            self.out_adj(v).contains(c) <==> self.has_edge(c.1) && self.edge(c.1).from == v
                && self.edge(c.1).to == c.0,
    {
        if self.out_adj(v).contains(c) {
            let i = choose|i: int| 0 <= i < self.out_adj(v).len() && self.out_adj(v)[i] == c;
            assert(self.out_entry_ok(v, i));
        }
        if self.has_edge(c.1) && self.edge(c.1).from == v && self.edge(c.1).to == c.0 {
            assert(self.edge_linked(c.1));
        }
    }

    /// Under the invariant, a vertex lists exactly the live edges that end
    /// at it, each with its source.
    pub proof fn lemma_in_adj(self, v: VertexIndex, c: (VertexIndex, EdgeIndex))
        requires
            self.adjacent(),
            self.has_vertex(v),
        ensures
            self.in_adj(v).contains(c) <==> self.has_edge(c.1) && self.edge(c.1).to == v
                && self.edge(c.1).from == c.0,
    {
        if self.in_adj(v).contains(c) {
            let i = choose|i: int| 0 <= i < self.in_adj(v).len() && self.in_adj(v)[i] == c;
            assert(self.in_entry_ok(v, i));
        }
        if self.has_edge(c.1) && self.edge(c.1).to == v && self.edge(c.1).from == c.0 {
            assert(self.edge_linked(c.1));
        }
    }
}

/// Striking the entry for `edge` from a list that names no edge twice
/// leaves the other entries, in their order.
pub proof fn lemma_without_entry(list: Seq<(VertexIndex, EdgeIndex)>, edge: EdgeIndex)
    requires
        distinct_edges(list),
    ensures
        distinct_edges(without_entry(list, edge)),
        !has_entry(without_entry(list, edge), edge),
        forall|c: (VertexIndex, EdgeIndex)|
            c.1 != edge ==> (#[trigger] without_entry(list, edge).contains(c) == list.contains(c)),
        forall|i: int|
            0 <= i < without_entry(list, edge).len() ==> list.contains(
                #[trigger] without_entry(list, edge)[i],
            ),
        has_entry(list, edge) ==> without_entry(list, edge).len() == list.len() - 1,
        !has_entry(list, edge) ==> without_entry(list, edge) == list,
{
    if has_entry(list, edge) {
        let k = choose|k: int| 0 <= k < list.len() && (#[trigger] list[k]).1 == edge;
        lemma_first_entry(list, edge, k);
        let p = first_entry(list, edge);
        let rest = list.remove(p);
        assert(rest == without_entry(list, edge));
        assert forall|i: int| 0 <= i < rest.len() implies (#[trigger] rest[i]) == list[if i < p {
            i
        } else {
            i + 1
        }] && rest[i].1 != edge && list.contains(rest[i]) by {
            let ii = if i < p {
                i
            } else {
                i + 1
            };
            assert(rest[i] == list[ii]);
            if ii < p {
                assert(list[ii].1 != list[p].1);
            } else {
                assert(list[p].1 != list[ii].1);
            }
        }
        assert forall|i: int, j: int| 0 <= i < j < rest.len() implies rest[i].1 != rest[j].1 by {
            let ii = if i < p {
                i
            } else {
                i + 1
            };
            let jj = if j < p {
                j
            } else {
                j + 1
            };
            assert(list[ii].1 != list[jj].1);
        }
        assert forall|c: (VertexIndex, EdgeIndex)| c.1 != edge implies (#[trigger] rest.contains(c)
            == list.contains(c)) by {
            if list.contains(c) {
                let i = choose|i: int| 0 <= i < list.len() && list[i] == c;
                if i < p {
                    assert(rest[i] == c);
                } else {
                    assert(rest[i - 1] == c);
                }
            }
            if rest.contains(c) {
                let i = choose|i: int| 0 <= i < rest.len() && rest[i] == c;
                assert(list.contains(rest[i]));
            }
        }
        if has_entry(rest, edge) {
            let i = choose|i: int| 0 <= i < rest.len() && (#[trigger] rest[i]).1 == edge;
            assert(rest[i].1 != edge);
        }
    }
}

impl<V, E> GraphView<V, E> {
    /// Removing a live edge keeps the invariant, and changes nothing but
    /// that edge and the two lists that named it.
    pub proof fn lemma_detach_edge(self, e: EdgeIndex, generation: u32)
        requires
            self.wf(),
            self.has_edge(e),
        ensures
            self.detach_edge(e, generation).wf(),
            self.detach_edge(e, generation).edges == self.edges.vacate(e.0.index, generation),
            forall|x: EdgeIndex| #[trigger]
                self.detach_edge(e, generation).has_edge(x) == (self.has_edge(x) && x != e),
            forall|x: EdgeIndex|
                self.has_edge(x) && x != e ==> #[trigger] self.detach_edge(e, generation).edge(x)
                    == self.edge(x),
            forall|u: VertexIndex| #[trigger]
                self.detach_edge(e, generation).has_vertex(u) == self.has_vertex(u),
            forall|u: VertexIndex|
                self.has_vertex(u) ==> (#[trigger] self.detach_edge(e, generation).vertex(u)).data
                    == self.vertex(u).data,
            self.detach_edge(e, generation).vertices.free == self.vertices.free,
            forall|s: int, g: int| #[trigger]
                self.detach_edge(e, generation).vertices.is_open_at(s, g)
                    == self.vertices.is_open_at(s, g),
    {
        let from = self.edge(e).from;
        let to = self.edge(e).to;
        assert(self.edge_linked(e));
        let g1 = self.drop_out(from, e);
        let g2 = g1.drop_in(to, e);
        let g3 = self.detach_edge(e, generation);
        assert(g3 == GraphView { edges: self.edges.vacate(e.0.index, generation), ..g2 });
        self.lemma_with_vertex(
            from,
            VertexView { connections_to: without_entry(self.out_adj(from), e), ..self.vertex(from) },
        );
        g1.lemma_with_vertex(
            to,
            VertexView { connections_from: without_entry(g1.in_adj(to), e), ..g1.vertex(to) },
        );
        self.edges.lemma_vacate(e.0, generation);
        assert forall|u: VertexIndex| #[trigger] g3.has_vertex(u) == self.has_vertex(u) by {
            if self.has_vertex(u) {
                assert(g1.has_vertex(u));
                assert(g2.has_vertex(u));
            }
            if g3.has_vertex(u) {
                assert(g2.has_vertex(u));
                assert(g1.has_vertex(u));
            }
        }
        assert forall|u: VertexIndex| g3.has_vertex(u) implies {
            &&& g3.out_adj(u) == (if u == from {
                without_entry(self.out_adj(u), e)
            } else {
                self.out_adj(u)
            })
            &&& g3.in_adj(u) == (if u == to {
                without_entry(self.in_adj(u), e)
            } else {
                self.in_adj(u)
            })
            &&& g3.vertex(u).data == self.vertex(u).data
        } by {
            assert(g2.has_vertex(u));
            assert(g1.has_vertex(u));
            assert(self.has_vertex(u));
        }
        assert forall|x: EdgeIndex| #[trigger] g3.has_edge(x) == (self.has_edge(x) && x != e) by {
            assert(g3.edges.contains(x.0) == (self.edges.contains(x.0) && x.0 != e.0));
        }
        assert forall|x: EdgeIndex| self.has_edge(x) && x != e implies #[trigger] g3.edge(x)
            == self.edge(x) by {
            assert(x.0 != e.0);
            assert(g3.edges.value(x.0) == self.edges.value(x.0));
        }
        assert forall|v: VertexIndex| #[trigger] g3.has_vertex(v) implies distinct_edges(
            g3.out_adj(v),
        ) && distinct_edges(g3.in_adj(v)) by {
            assert(self.has_vertex(v));
            lemma_without_entry(self.out_adj(v), e);
            lemma_without_entry(self.in_adj(v), e);
        }
        assert forall|v: VertexIndex, i: int|
            g3.has_vertex(v) && 0 <= i < g3.out_adj(v).len() implies #[trigger] g3.out_entry_ok(
            v,
            i,
        ) by {
            assert(self.has_vertex(v));
            lemma_without_entry(self.out_adj(v), e);
            let c = g3.out_adj(v)[i];
            assert(self.out_adj(v).contains(c));
            self.lemma_out_adj(v, c);
            if c.1 == e {
                assert(v == from);
                assert(has_entry(without_entry(self.out_adj(v), e), e));
            }
            assert(g3.has_edge(c.1));
        }
        assert forall|v: VertexIndex, i: int|
            g3.has_vertex(v) && 0 <= i < g3.in_adj(v).len() implies #[trigger] g3.in_entry_ok(
            v,
            i,
        ) by {
            assert(self.has_vertex(v));
            lemma_without_entry(self.in_adj(v), e);
            let c = g3.in_adj(v)[i];
            assert(self.in_adj(v).contains(c));
            self.lemma_in_adj(v, c);
            if c.1 == e {
                assert(v == to);
                assert(has_entry(without_entry(self.in_adj(v), e), e));
            }
            assert(g3.has_edge(c.1));
        }
        assert forall|x: EdgeIndex| #[trigger] g3.has_edge(x) implies g3.edge_linked(x) by {
            assert(self.has_edge(x));
            assert(self.edge_linked(x));
            let xe = self.edge(x);
            assert(g3.has_vertex(xe.from));
            assert(g3.has_vertex(xe.to));
            lemma_without_entry(self.out_adj(xe.from), e);
            lemma_without_entry(self.in_adj(xe.to), e);
            assert(without_entry(self.out_adj(xe.from), e).contains((xe.to, x)));
            assert(without_entry(self.in_adj(xe.to), e).contains((xe.from, x)));
        }
        assert(g3.vertices.wf());
    }
}

impl<V, E> GraphView<V, E> {
    /// A new payload for a live vertex keeps the invariant.
    pub proof fn lemma_update_vertex(self, v: VertexIndex, data: V)
        requires
            self.wf(),
            self.has_vertex(v),
        ensures
            self.update_vertex(v, data).wf(),
            self.update_vertex(v, data).edges == self.edges,
            self.update_vertex(v, data).vertex(v).data == data,
            forall|u: VertexIndex| #[trigger]
                self.update_vertex(v, data).has_vertex(u) == self.has_vertex(u),
            forall|u: VertexIndex|
                u != v && self.has_vertex(u) ==> #[trigger] self.update_vertex(v, data).vertex(u)
                    == self.vertex(u),
            self.update_vertex(v, data).out_adj(v) == self.out_adj(v),
            self.update_vertex(v, data).in_adj(v) == self.in_adj(v),
    {
        let after = self.update_vertex(v, data);
        self.lemma_with_vertex(v, VertexView { data, ..self.vertex(v) });
        assert forall|u: VertexIndex| after.has_vertex(u) implies self.has_vertex(u)
            && after.out_adj(u) == self.out_adj(u) && after.in_adj(u) == self.in_adj(u) by {
            assert(self.has_vertex(u));
        }
        assert forall|u: VertexIndex, i: int|
            after.has_vertex(u) && 0 <= i < after.out_adj(u).len() implies #[trigger] after.out_entry_ok(
            u,
            i,
        ) by {
            assert(self.out_entry_ok(u, i));
        }
        assert forall|u: VertexIndex, i: int|
            after.has_vertex(u) && 0 <= i < after.in_adj(u).len() implies #[trigger] after.in_entry_ok(
            u,
            i,
        ) by {
            assert(self.in_entry_ok(u, i));
        }
        assert forall|x: EdgeIndex| #[trigger] after.has_edge(x) implies after.edge_linked(x) by {
            assert(self.has_edge(x));
            assert(self.edge_linked(x));
            assert(after.has_vertex(self.edge(x).from));
            assert(after.has_vertex(self.edge(x).to));
        }
        assert forall|u: VertexIndex| #[trigger] after.has_vertex(u) implies distinct_edges(
            after.out_adj(u),
        ) && distinct_edges(after.in_adj(u)) by {
            assert(self.has_vertex(u));
        }
    }

    /// A new payload for a live edge keeps the invariant.
    pub proof fn lemma_update_edge(self, e: EdgeIndex, data: E)
        requires
            self.wf(),
            self.has_edge(e),
        ensures
            self.update_edge(e, data).wf(),
            self.update_edge(e, data).vertices == self.vertices,
            self.update_edge(e, data).edge(e) == (Edge { data, ..self.edge(e) }),
            forall|x: EdgeIndex| #[trigger] self.update_edge(e, data).has_edge(x) == self.has_edge(x),
            forall|x: EdgeIndex|
                x != e && self.has_edge(x) ==> #[trigger] self.update_edge(e, data).edge(x)
                    == self.edge(x),
    {
        let after = self.update_edge(e, data);
        self.edges.lemma_set_value(e.0, Edge { data, ..self.edge(e) });
        assert forall|x: EdgeIndex| #[trigger] after.has_edge(x) == self.has_edge(x) by {
            assert(after.edges.contains(x.0) == self.edges.contains(x.0));
        }
        assert forall|x: EdgeIndex| x != e && self.has_edge(x) implies #[trigger] after.edge(x)
            == self.edge(x) by {
            assert(x.0 != e.0);
            assert(after.edges.value(x.0) == self.edges.value(x.0));
        }
        assert forall|u: VertexIndex, i: int|
            after.has_vertex(u) && 0 <= i < after.out_adj(u).len() implies #[trigger] after.out_entry_ok(
            u,
            i,
        ) by {
            assert(self.out_entry_ok(u, i));
            assert(self.has_edge(self.out_adj(u)[i].1));
        }
        assert forall|u: VertexIndex, i: int|
            after.has_vertex(u) && 0 <= i < after.in_adj(u).len() implies #[trigger] after.in_entry_ok(
            u,
            i,
        ) by {
            assert(self.in_entry_ok(u, i));
            assert(self.has_edge(self.in_adj(u)[i].1));
        }
        assert forall|x: EdgeIndex| #[trigger] after.has_edge(x) implies after.edge_linked(x) by {
            assert(self.has_edge(x));
            assert(self.edge_linked(x));
        }
        assert forall|u: VertexIndex| #[trigger] after.has_vertex(u) implies distinct_edges(
            after.out_adj(u),
        ) && distinct_edges(after.in_adj(u)) by {
            assert(self.has_vertex(u));
        }
    }
}

/// The generation at which a removal leaves a slot: the next one, or the
/// same one when the removal undoes an addition.
pub open spec fn left_at(generation: u32, bump: bool) -> u32 {
    if bump {
        (generation + 1) as u32
    } else {
        generation
    }
}

/// The edges that a vertex lists: the incoming ones, then the outgoing ones.
pub open spec fn listed_edges<V>(vertex: VertexView<V>) -> Seq<EdgeIndex> {
    Seq::new(
        vertex.connections_from.len() + vertex.connections_to.len(),
        |i: int|
            if i < vertex.connections_from.len() {
                vertex.connections_from[i].1
            } else {
                vertex.connections_to[i - vertex.connections_from.len()].1
            },
    )
}

impl<V, E> GraphView<V, E> {
    /// The edges that touch `v`, in the order in which a removal of `v`
    /// takes them out.
    pub open spec fn incident(self, v: VertexIndex) -> Seq<EdgeIndex> {
        listed_edges(self.vertex(v))
    }

    /// The graph after the edges of `list` have been removed one after the
    /// other; an edge that is no longer live is passed over.
    pub open spec fn remove_edges(self, list: Seq<EdgeIndex>, bump: bool) -> Self
        decreases list.len(),
    {
        if list.len() == 0 {
            self
        } else {
            self.remove_edges(list.drop_last(), bump).detach_edge(
                list.last(),
                left_at(list.last().0.generation, bump),
            )
        }
    }

    /// The records of the edges that `remove_edges` takes out, in order.
    pub open spec fn removed_records(self, list: Seq<EdgeIndex>) -> Seq<RemoveEdgeView<E>>
        decreases list.len(),
    {
        if list.len() == 0 {
            Seq::empty()
        } else if self.remove_edges(list.drop_last(), true).has_edge(list.last()) {
            self.removed_records(list.drop_last()).push(
                RemoveEdgeView {
                    index: list.last(),
                    edge: self.remove_edges(list.drop_last(), true).edge(list.last()),
                },
            )
        } else {
            self.removed_records(list.drop_last())
        }
    }

    /// The graph without the vertex `v` and without the edges that touch it.
    pub open spec fn detach_vertex(self, v: VertexIndex, bump: bool) -> Self {
        if self.has_vertex(v) {
            GraphView {
                vertices: self.remove_edges(self.incident(v), bump).vertices.vacate(
                    v.0.index,
                    left_at(v.0.generation, bump),
                ),
                ..self.remove_edges(self.incident(v), bump)
            }
        } else {
            self
        }
    }

    /// The graph after `remove_vertex(v)`.
    pub open spec fn remove_vertex(self, v: VertexIndex) -> Self {
        self.detach_vertex(v, true)
    }

    /// The graph after a removal of `v` that leaves the generations of the
    /// slots as they were.
    pub open spec fn remove_vertex_keeping_generation(self, v: VertexIndex) -> Self {
        self.detach_vertex(v, false)
    }

    /// No generation runs out when `e` is removed.
    pub open spec fn can_remove_edge(self, e: EdgeIndex) -> bool {
        self.has_edge(e) ==> e.0.generation < u32::MAX
    }

    /// No generation runs out when `v` is removed with its edges.
    pub open spec fn can_remove_vertex(self, v: VertexIndex) -> bool {
        self.has_vertex(v) ==> {
            &&& v.0.generation < u32::MAX
            &&& forall|i: int|
                0 <= i < self.incident(v).len() ==> (#[trigger] self.incident(v)[i]).0.generation
                    < u32::MAX
        }
    }

    /// What a removal of several edges does: exactly the live edges of the
    /// list go, the vertices stay, and the invariant holds.
    pub proof fn lemma_remove_edges(self, list: Seq<EdgeIndex>, bump: bool)
        requires
            self.wf(),
        ensures
            self.remove_edges(list, bump).wf(),
            forall|x: EdgeIndex| #[trigger]
                self.remove_edges(list, bump).has_edge(x) == (self.has_edge(x) && !list.contains(x)),
            forall|x: EdgeIndex|
                self.remove_edges(list, bump).has_edge(x) ==> #[trigger] self.remove_edges(
                    list,
                    bump,
                ).edge(x) == self.edge(x),
            forall|u: VertexIndex| #[trigger]
                self.remove_edges(list, bump).has_vertex(u) == self.has_vertex(u),
            forall|u: VertexIndex|
                self.has_vertex(u) ==> (#[trigger] self.remove_edges(list, bump).vertex(u)).data
                    == self.vertex(u).data,
            self.remove_edges(list, bump).vertices.free == self.vertices.free,
            forall|s: int, g: int| #[trigger]
                self.remove_edges(list, bump).vertices.is_open_at(s, g)
                    == self.vertices.is_open_at(s, g),
        decreases list.len(),
    {
        if list.len() > 0 {
            let front = list.drop_last();
            let e = list.last();
            self.lemma_remove_edges(front, bump);
            let g = self.remove_edges(front, bump);
            let after = self.remove_edges(list, bump);
            assert(list =~= front.push(e));
            assert forall|x: EdgeIndex| list.contains(x) == (front.contains(x) || x == e) by {
                if front.contains(x) {
                    let i = choose|i: int| 0 <= i < front.len() && front[i] == x;
                    assert(list[i] == x);
                }
                if x == e {
                    assert(list[list.len() - 1] == x);
                }
            }
            if g.has_edge(e) {
                g.lemma_detach_edge(e, left_at(e.0.generation, bump));
            }
            assert forall|x: EdgeIndex| #[trigger]
                after.has_edge(x) == (self.has_edge(x) && !list.contains(x)) by {
                assert(g.has_edge(x) == (self.has_edge(x) && !front.contains(x)));
            }
            assert forall|x: EdgeIndex| after.has_edge(x) implies #[trigger] after.edge(x)
                == self.edge(x) by {
                assert(g.has_edge(x));
            }
            assert forall|u: VertexIndex| #[trigger] after.has_vertex(u) == self.has_vertex(u) by {
                assert(g.has_vertex(u) == self.has_vertex(u));
            }
            assert forall|u: VertexIndex| self.has_vertex(u) implies (#[trigger] after.vertex(
                u,
            )).data == self.vertex(u).data by {
                assert(g.has_vertex(u));
            }
            assert forall|s: int, gen: int| #[trigger]
                after.vertices.is_open_at(s, gen) == self.vertices.is_open_at(s, gen) by {
                assert(g.vertices.is_open_at(s, gen) == self.vertices.is_open_at(s, gen));
            }
        }
    }

    /// What the records of a removal of several edges hold: each live edge
    /// of the list once, as it was.
    pub proof fn lemma_removed_records(self, list: Seq<EdgeIndex>)
        requires
            self.wf(),
        ensures
            self.removed_records(list).len() <= list.len(),
            forall|i: int|
                0 <= i < self.removed_records(list).len() ==> {
                    let r = #[trigger] self.removed_records(list)[i];
                    self.has_edge(r.index) && list.contains(r.index) && r.edge == self.edge(
                        r.index,
                    )
                },
            forall|i: int, j: int|
                0 <= i < j < self.removed_records(list).len() ==> self.removed_records(
                    list,
                )[i].index != self.removed_records(list)[j].index,
            forall|x: EdgeIndex|
                self.has_edge(x) && list.contains(x) ==> exists|i: int|
                    0 <= i < self.removed_records(list).len() && (#[trigger] self.removed_records(
                        list,
                    )[i]).index == x,
        decreases list.len(),
    {
        if list.len() > 0 {
            let front = list.drop_last();
            let e = list.last();
            self.lemma_removed_records(front);
            self.lemma_remove_edges(front, true);
            let g = self.remove_edges(front, true);
            let prev = self.removed_records(front);
            let now = self.removed_records(list);
            assert(list =~= front.push(e));
            assert forall|x: EdgeIndex| list.contains(x) == (front.contains(x) || x == e) by {
                if front.contains(x) {
                    let i = choose|i: int| 0 <= i < front.len() && front[i] == x;
                    assert(list[i] == x);
                }
                if x == e {
                    assert(list[list.len() - 1] == x);
                }
            }
            assert(g.has_edge(e) == (self.has_edge(e) && !front.contains(e)));
            assert forall|i: int| 0 <= i < now.len() implies {
                let r = #[trigger] now[i];
                self.has_edge(r.index) && list.contains(r.index) && r.edge == self.edge(r.index)
            } by {
                if i < prev.len() {
                    assert(now[i] == prev[i]);
                }
            }
            assert forall|i: int, j: int| 0 <= i < j < now.len() implies now[i].index
                != now[j].index by {
                assert(now[i] == prev[i]);
                if j < prev.len() {
                    assert(now[j] == prev[j]);
                } else {
                    assert(front.contains(prev[i].index));
                }
            }
            assert forall|x: EdgeIndex| self.has_edge(x) && list.contains(x) implies exists|i: int|
                0 <= i < now.len() && (#[trigger] now[i]).index == x by {
                if front.contains(x) {
                    let i = choose|i: int| 0 <= i < prev.len() && (#[trigger] prev[i]).index == x;
                    assert(now[i].index == x);
                } else {
                    assert(now[now.len() - 1].index == x);
                }
            }
        }
    }

    /// Under the invariant, the edges that a vertex lists are the live edges
    /// that touch it.
    pub proof fn lemma_incident(self, v: VertexIndex, x: EdgeIndex)
        requires
            self.adjacent(),
            self.has_vertex(v),
        ensures
            self.incident(v).contains(x) <==> self.has_edge(x) && self.touches(x, v),
    {
        let list = self.incident(v);
        let n = self.in_adj(v).len() as int;
        if list.contains(x) {
            let i = choose|i: int| 0 <= i < list.len() && list[i] == x;
            if i < n {
                assert(self.in_entry_ok(v, i));
            } else {
                assert(self.out_entry_ok(v, i - n));
            }
        }
        if self.has_edge(x) && self.touches(x, v) {
            assert(self.edge_linked(x));
            if self.edge(x).to == v {
                let j = choose|j: int|
                    0 <= j < self.in_adj(v).len() && self.in_adj(v)[j] == (self.edge(x).from, x);
                assert(list[j] == x);
            } else {
                let j = choose|j: int|
                    0 <= j < self.out_adj(v).len() && self.out_adj(v)[j] == (self.edge(x).to, x);
                assert(list[n + j] == x);
            }
        }
    }

    /// Once the edges that touch `v` are gone, `v` lists nothing.
    pub proof fn lemma_isolated(self, v: VertexIndex, bump: bool)
        requires
            self.wf(),
            self.has_vertex(v),
        ensures
            self.remove_edges(self.incident(v), bump).in_adj(v).len() == 0,
            self.remove_edges(self.incident(v), bump).out_adj(v).len() == 0,
            self.remove_edges(self.incident(v), bump).vertex(v) == VertexView::isolated(
                self.vertex(v).data,
            ),
    {
        let g = self.remove_edges(self.incident(v), bump);
        self.lemma_remove_edges(self.incident(v), bump);
        assert(g.has_vertex(v));
        if g.in_adj(v).len() > 0 {
            assert(g.in_entry_ok(v, 0));
            let x = g.in_adj(v)[0].1;
            assert(g.has_edge(x));
            assert(self.has_edge(x));
            self.lemma_incident(v, x);
        }
        if g.out_adj(v).len() > 0 {
            assert(g.out_entry_ok(v, 0));
            let x = g.out_adj(v)[0].1;
            assert(g.has_edge(x));
            assert(self.has_edge(x));
            self.lemma_incident(v, x);
        }
        assert(g.vertex(v).connections_from =~= Seq::empty());
        assert(g.vertex(v).connections_to =~= Seq::empty());
    }

    /// Removing a live vertex keeps the invariant. Exactly the edges that
    /// touch it go with it, and the records hold each of them once.
    pub proof fn lemma_detach_vertex(self, v: VertexIndex, bump: bool)
        requires
            self.wf(),
            self.has_vertex(v),
        ensures
            self.detach_vertex(v, bump).wf(),
            forall|u: VertexIndex| #[trigger]
                self.detach_vertex(v, bump).has_vertex(u) == (self.has_vertex(u) && u != v),
            forall|u: VertexIndex|
                self.has_vertex(u) && u != v ==> (#[trigger] self.detach_vertex(v, bump).vertex(
                    u,
                )).data == self.vertex(u).data,
            forall|x: EdgeIndex| #[trigger]
                self.detach_vertex(v, bump).has_edge(x) == (self.has_edge(x) && !self.touches(x, v)),
            forall|x: EdgeIndex|
                self.detach_vertex(v, bump).has_edge(x) ==> #[trigger] self.detach_vertex(
                    v,
                    bump,
                ).edge(x) == self.edge(x),
            self.detach_vertex(v, bump).vertices.is_open_at(
                v.0.index as int,
                left_at(v.0.generation, bump) as int,
            ),
    {
        let list = self.incident(v);
        let g = self.remove_edges(list, bump);
        let after = self.detach_vertex(v, bump);
        self.lemma_remove_edges(list, bump);
        self.lemma_isolated(v, bump);
        assert(g.has_vertex(v));
        g.vertices.lemma_vacate(v.0, left_at(v.0.generation, bump));
        assert forall|u: VertexIndex| #[trigger]
            after.has_vertex(u) == (self.has_vertex(u) && u != v) by {
            assert(after.vertices.contains(u.0) == (g.vertices.contains(u.0) && u.0 != v.0));
            assert(g.has_vertex(u) == self.has_vertex(u));
        }
        assert forall|u: VertexIndex| after.has_vertex(u) implies after.vertex(u) == g.vertex(u) by {
            assert(u.0 != v.0);
            assert(g.has_vertex(u));
            assert(after.vertices.value(u.0) == g.vertices.value(u.0));
        }
        assert forall|x: EdgeIndex| #[trigger]
            after.has_edge(x) == (self.has_edge(x) && !self.touches(x, v)) by {
            self.lemma_incident(v, x);
            assert(g.has_edge(x) == (self.has_edge(x) && !list.contains(x)));
        }
        assert forall|x: EdgeIndex| after.has_edge(x) implies #[trigger] after.edge(x) == self.edge(
            x,
        ) by {
            assert(g.has_edge(x));
        }
        assert forall|u: VertexIndex, i: int|
            after.has_vertex(u) && 0 <= i < after.out_adj(u).len() implies #[trigger] after.out_entry_ok(
            u,
            i,
        ) by {
            assert(g.has_vertex(u));
            assert(g.out_entry_ok(u, i));
        }
        assert forall|u: VertexIndex, i: int|
            after.has_vertex(u) && 0 <= i < after.in_adj(u).len() implies #[trigger] after.in_entry_ok(
            u,
            i,
        ) by {
            assert(g.has_vertex(u));
            assert(g.in_entry_ok(u, i));
        }
        assert forall|u: VertexIndex| #[trigger] after.has_vertex(u) implies distinct_edges(
            after.out_adj(u),
        ) && distinct_edges(after.in_adj(u)) by {
            assert(g.has_vertex(u));
        }
        assert forall|x: EdgeIndex| #[trigger] after.has_edge(x) implies after.edge_linked(x) by {
            assert(g.has_edge(x));
            assert(g.edge_linked(x));
            let xe = g.edge(x);
            assert(g.has_vertex(xe.from));
            assert(g.has_vertex(xe.to));
            assert(after.has_vertex(xe.from));
            assert(after.has_vertex(xe.to));
        }
    }
}

impl<V, E> GraphView<V, E> {
    /// The graph with a recorded edge written back into its open slot, at
    /// the generation of its handle, and listed at both endpoints.
    pub open spec fn restore_edge(self, record: RemoveEdgeView<E>) -> Self {
        GraphView { edges: self.edges.restore(record.index.0, record.edge), ..self }.link(
            record.index,
            record.edge.from,
            record.edge.to,
        )
    }

    /// The graph with the recorded edges written back one after the other.
    pub open spec fn restore_edges(self, records: Seq<RemoveEdgeView<E>>) -> Self
        decreases records.len(),
    {
        if records.len() == 0 {
            self
        } else {
            self.restore_edges(records.drop_last()).restore_edge(records.last())
        }
    }

    /// The graph with a vertex written back into its open slot, at the
    /// generation of its handle.
    pub open spec fn restore_vertex(self, v: VertexIndex, vertex: VertexView<V>) -> Self {
        GraphView { vertices: self.vertices.restore(v.0, vertex), ..self }
    }

    /// No generation runs out when the diff is applied.
    pub open spec fn can_apply(self, diff: GraphDiffView<V, E>) -> bool {
        match diff {
            GraphDiffView::RemoveEdge { index, .. } => self.can_remove_edge(index),
            GraphDiffView::RemoveVertex { index, .. } => self.can_remove_vertex(index),
            _ => true,
        }
    }

    /// Whether the diff can be applied: an addition needs its slot open at
    /// the generation of its handle (and an edge needs live endpoints);
    /// an update or a removal needs its entry live.
    pub open spec fn apply_valid(self, diff: GraphDiffView<V, E>) -> bool {
        match diff {
            GraphDiffView::AddVertex { index, .. } => self.vertices.is_open_at(
                index.0.index as int,
                index.0.generation as int,
            ),
            GraphDiffView::AddEdge { index, from, to, .. } => {
                &&& self.has_vertex(from)
                &&& self.has_vertex(to)
                &&& self.edges.is_open_at(index.0.index as int, index.0.generation as int)
            },
            GraphDiffView::RemoveEdge { index, .. } => self.has_edge(index),
            GraphDiffView::RemoveVertex { index, .. } => self.has_vertex(index),
            GraphDiffView::UpdateVertexData { index, .. } => self.has_vertex(index),
            GraphDiffView::UpdateEdgeData { index, .. } => self.has_edge(index),
        }
    }

    /// The graph after the diff has been applied.
    pub open spec fn apply(self, diff: GraphDiffView<V, E>) -> Self {
        match diff {
            GraphDiffView::AddVertex { index, data } => self.restore_vertex(
                index,
                VertexView::isolated(data),
            ),
            GraphDiffView::AddEdge { index, from, to, data } => self.restore_edge(
                RemoveEdgeView { index, edge: Edge { from, to, data } },
            ),
            GraphDiffView::RemoveEdge { index, .. } => self.remove_edge(index),
            GraphDiffView::RemoveVertex { index, .. } => self.remove_vertex(index),
            GraphDiffView::UpdateVertexData { index, after, .. } => self.update_vertex(
                index,
                after,
            ),
            GraphDiffView::UpdateEdgeData { index, after, .. } => self.update_edge(index, after),
        }
    }

    /// Whether the recorded edges of a removed vertex can be written back:
    /// each slot is open at the generation after that of the handle, no two
    /// records share a slot, and each endpoint is live or is `v` itself.
    pub open spec fn can_restore_edges(
        self,
        v: VertexIndex,
        records: Seq<RemoveEdgeView<E>>,
    ) -> bool {
        &&& distinct_slots(records)
        &&& forall|i: int|
            0 <= i < records.len() ==> {
                let r = #[trigger] records[i];
                &&& self.edges.is_open_at(r.index.0.index as int, r.index.0.generation + 1)
                &&& (r.edge.from == v || self.has_vertex(r.edge.from))
                &&& (r.edge.to == v || self.has_vertex(r.edge.to))
            }
    }

    /// Whether the diff can be rolled back: an addition or an update needs
    /// its entry live; a removal needs its slot open at the generation after
    /// that of the handle, and live endpoints for each edge it brings back.
    pub open spec fn rollback_valid(self, diff: GraphDiffView<V, E>) -> bool {
        match diff {
            GraphDiffView::AddVertex { index, .. } => self.has_vertex(index),
            GraphDiffView::AddEdge { index, .. } => self.has_edge(index),
            GraphDiffView::RemoveEdge { index, edge } => {
                &&& self.has_vertex(edge.from)
                &&& self.has_vertex(edge.to)
                &&& self.edges.is_open_at(index.0.index as int, index.0.generation + 1)
            },
            GraphDiffView::RemoveVertex { index, vertex, removed_edges } => {
                &&& self.vertices.is_open_at(index.0.index as int, index.0.generation + 1)
                &&& vertex == VertexView::isolated(vertex.data)
                &&& self.can_restore_edges(index, removed_edges)
            },
            GraphDiffView::UpdateVertexData { index, .. } => self.has_vertex(index),
            GraphDiffView::UpdateEdgeData { index, .. } => self.has_edge(index),
        }
    }

    /// The graph after the diff has been rolled back.
    pub open spec fn rollback(self, diff: GraphDiffView<V, E>) -> Self {
        match diff {
            GraphDiffView::AddVertex { index, .. } => self.remove_vertex_keeping_generation(index),
            GraphDiffView::AddEdge { index, .. } => self.remove_edge_keeping_generation(index),
            GraphDiffView::RemoveEdge { index, edge } => self.restore_edge(
                RemoveEdgeView { index, edge },
            ),
            GraphDiffView::RemoveVertex { index, vertex, removed_edges } => self.restore_vertex(
                index,
                vertex,
            ).restore_edges(removed_edges),
            GraphDiffView::UpdateVertexData { index, before, .. } => self.update_vertex(
                index,
                before,
            ),
            GraphDiffView::UpdateEdgeData { index, before, .. } => self.update_edge(index, before),
        }
    }

    /// Writing an isolated vertex back into an open slot keeps the
    /// invariant, and changes nothing else.
    pub proof fn lemma_restore_vertex(self, v: VertexIndex, vertex: VertexView<V>)
        requires
            self.wf(),
            self.vertices.is_open(v.0.index),
            vertex == VertexView::isolated(vertex.data),
        ensures
            self.restore_vertex(v, vertex).wf(),
            self.restore_vertex(v, vertex).edges == self.edges,
            !self.has_vertex(v),
            self.restore_vertex(v, vertex).vertex(v) == vertex,
            forall|u: VertexIndex| #[trigger]
                self.restore_vertex(v, vertex).has_vertex(u) == (self.has_vertex(u) || u == v),
            forall|u: VertexIndex|
                self.has_vertex(u) ==> #[trigger] self.restore_vertex(v, vertex).vertex(u)
                    == self.vertex(u),
    {
        let after = self.restore_vertex(v, vertex);
        self.vertices.lemma_restore(v.0, vertex);
        assert forall|u: VertexIndex| #[trigger]
            after.has_vertex(u) == (self.has_vertex(u) || u == v) by {
            assert(after.vertices.contains(u.0) == (self.vertices.contains(u.0) || u.0 == v.0));
        }
        assert forall|u: VertexIndex| self.has_vertex(u) implies #[trigger] after.vertex(u)
            == self.vertex(u) by {
            assert(after.vertices.value(u.0) == self.vertices.value(u.0));
        }
        assert forall|u: VertexIndex, i: int|
            after.has_vertex(u) && 0 <= i < after.out_adj(u).len() implies #[trigger] after.out_entry_ok(
            u,
            i,
        ) by {
            assert(self.has_vertex(u));
            assert(self.out_entry_ok(u, i));
        }
        assert forall|u: VertexIndex, i: int|
            after.has_vertex(u) && 0 <= i < after.in_adj(u).len() implies #[trigger] after.in_entry_ok(
            u,
            i,
        ) by {
            assert(self.has_vertex(u));
            assert(self.in_entry_ok(u, i));
        }
        assert forall|u: VertexIndex| #[trigger] after.has_vertex(u) implies distinct_edges(
            after.out_adj(u),
        ) && distinct_edges(after.in_adj(u)) by {
            if u != v {
                assert(self.has_vertex(u));
            }
        }
        assert forall|x: EdgeIndex| #[trigger] after.has_edge(x) implies after.edge_linked(x) by {
            assert(self.has_edge(x));
            assert(self.edge_linked(x));
            assert(after.has_vertex(self.edge(x).from));
            assert(after.has_vertex(self.edge(x).to));
        }
    }

    /// Writing a recorded edge back into an open slot, between two live
    /// vertices, keeps the invariant, and changes nothing but that edge and
    /// the two lists that name it.
    pub proof fn lemma_restore_edge(self, record: RemoveEdgeView<E>)
        requires
            self.wf(),
            self.edges.is_open(record.index.0.index),
            self.has_vertex(record.edge.from),
            self.has_vertex(record.edge.to),
        ensures
            self.restore_edge(record).wf(),
            self.restore_edge(record).edges == self.edges.restore(record.index.0, record.edge),
            !self.has_edge(record.index),
            self.restore_edge(record).edge(record.index) == record.edge,
            forall|x: EdgeIndex| #[trigger]
                self.restore_edge(record).has_edge(x) == (self.has_edge(x) || x == record.index),
            forall|x: EdgeIndex|
                self.has_edge(x) ==> #[trigger] self.restore_edge(record).edge(x) == self.edge(x),
            forall|u: VertexIndex| #[trigger]
                self.restore_edge(record).has_vertex(u) == self.has_vertex(u),
            forall|u: VertexIndex|
                self.has_vertex(u) ==> (#[trigger] self.restore_edge(record).vertex(u)).data
                    == self.vertex(u).data,
            forall|s: usize|
                s != record.index.0.index ==> #[trigger] self.restore_edge(record).edges.is_open(s)
                    == self.edges.is_open(s),
    {
        let edges = self.edges.restore(record.index.0, record.edge);
        self.edges.lemma_restore(record.index.0, record.edge);
        self.lemma_link(edges, record.index, record.edge);
        let after = self.restore_edge(record);
        assert forall|x: EdgeIndex| #[trigger]
            after.has_edge(x) == (self.has_edge(x) || x == record.index) by {
            assert(edges.contains(x.0) == (self.edges.contains(x.0) || x.0 == record.index.0));
        }
        assert forall|x: EdgeIndex| self.has_edge(x) implies #[trigger] after.edge(x) == self.edge(
            x,
        ) by {
            assert(edges.value(x.0) == self.edges.value(x.0));
        }
    }

    /// Writing recorded edges back keeps the invariant: each record becomes
    /// a live edge again, and nothing else changes.
    pub proof fn lemma_restore_edges(self, records: Seq<RemoveEdgeView<E>>)
        requires
            self.wf(),
            distinct_slots(records),
            forall|i: int|
                0 <= i < records.len() ==> {
                    let r = #[trigger] records[i];
                    &&& self.edges.is_open(r.index.0.index)
                    &&& self.has_vertex(r.edge.from)
                    &&& self.has_vertex(r.edge.to)
                },
        ensures
            self.restore_edges(records).wf(),
            forall|x: EdgeIndex| #[trigger]
                self.restore_edges(records).has_edge(x) == (self.has_edge(x) || exists|i: int|
                    0 <= i < records.len() && (#[trigger] records[i]).index == x),
            forall|i: int|
                0 <= i < records.len() ==> self.restore_edges(records).edge(
                    (#[trigger] records[i]).index,
                ) == records[i].edge,
            forall|x: EdgeIndex|
                self.has_edge(x) ==> #[trigger] self.restore_edges(records).edge(x) == self.edge(x),
            forall|u: VertexIndex| #[trigger]
                self.restore_edges(records).has_vertex(u) == self.has_vertex(u),
            forall|u: VertexIndex|
                self.has_vertex(u) ==> (#[trigger] self.restore_edges(records).vertex(u)).data
                    == self.vertex(u).data,
            forall|s: usize|
                (forall|i: int| 0 <= i < records.len() ==> (#[trigger] records[i]).index.0.index != s)
                    ==> #[trigger] self.restore_edges(records).edges.is_open(s)
                    == self.edges.is_open(s),
        decreases records.len(),
    {
        if records.len() > 0 {
            let front = records.drop_last();
            let last = records.last();
            let n = front.len() as int;
            assert forall|i: int| 0 <= i < front.len() implies front[i] == records[i] by {}
            assert(distinct_slots(front)) by {
                assert forall|i: int, j: int| 0 <= i < j < front.len() implies front[i].index.0.index
                    != front[j].index.0.index by {
                    assert(records[i].index.0.index != records[j].index.0.index);
                }
            }
            assert forall|i: int| 0 <= i < front.len() implies {
                let r = #[trigger] front[i];
                &&& self.edges.is_open(r.index.0.index)
                &&& self.has_vertex(r.edge.from)
                &&& self.has_vertex(r.edge.to)
            } by {
                assert(front[i] == records[i]);
            }
            self.lemma_restore_edges(front);
            let g = self.restore_edges(front);
            let after = self.restore_edges(records);
            assert(records[n] == last);
            assert forall|i: int| 0 <= i < front.len() implies (#[trigger] front[i]).index.0.index
                != last.index.0.index by {
                assert(records[i].index.0.index != records[n].index.0.index);
            }
            assert(g.edges.is_open(last.index.0.index));
            assert(g.has_vertex(last.edge.from));
            assert(g.has_vertex(last.edge.to));
            g.lemma_restore_edge(last);
            assert forall|x: EdgeIndex| #[trigger]
                after.has_edge(x) == (self.has_edge(x) || exists|i: int|
                    0 <= i < records.len() && (#[trigger] records[i]).index == x) by {
                assert(after.has_edge(x) == (g.has_edge(x) || x == last.index));
                assert(g.has_edge(x) == (self.has_edge(x) || exists|i: int|
                    0 <= i < front.len() && (#[trigger] front[i]).index == x));
                if exists|i: int| 0 <= i < front.len() && (#[trigger] front[i]).index == x {
                    let i = choose|i: int| 0 <= i < front.len() && (#[trigger] front[i]).index == x;
                    assert(records[i].index == x);
                }
                if exists|i: int| 0 <= i < records.len() && (#[trigger] records[i]).index == x {
                    let i = choose|i: int|
                        0 <= i < records.len() && (#[trigger] records[i]).index == x;
                    if i < n {
                        assert(front[i].index == x);
                    }
                }
            }
            assert forall|i: int| 0 <= i < records.len() implies after.edge(
                (#[trigger] records[i]).index,
            ) == records[i].edge by {
                if i < n {
                    assert(front[i] == records[i]);
                    assert(g.has_edge(front[i].index));
                    assert(g.edge(front[i].index) == front[i].edge);
                }
            }
            assert forall|x: EdgeIndex| self.has_edge(x) implies #[trigger] after.edge(x)
                == self.edge(x) by {
                assert(g.has_edge(x));
                assert(g.edge(x) == self.edge(x));
            }
            assert forall|u: VertexIndex| #[trigger] after.has_vertex(u) == self.has_vertex(u) by {
                assert(g.has_vertex(u) == self.has_vertex(u));
            }
            assert forall|u: VertexIndex| self.has_vertex(u) implies (#[trigger] after.vertex(
                u,
            )).data == self.vertex(u).data by {
                assert(g.has_vertex(u));
            }
            assert forall|s: usize|
                (forall|i: int|
                    0 <= i < records.len() ==> (#[trigger] records[i]).index.0.index
                        != s) implies #[trigger] after.edges.is_open(s) == self.edges.is_open(s) by {
                assert(records[n].index.0.index != s);
                assert forall|i: int| 0 <= i < front.len() implies (#[trigger] front[i]).index.0.index
                    != s by {
                    assert(records[i].index.0.index != s);
                }
                assert(g.edges.is_open(s) == self.edges.is_open(s));
            }
        }
    }
}

impl<V, E> GraphView<V, E> {
    /// Each edge that a removal of several edges takes out leaves its slot
    /// open at the generation after that of its handle.
    pub proof fn lemma_remove_edges_open(self, list: Seq<EdgeIndex>)
        requires
            self.wf(),
            forall|i: int| 0 <= i < list.len() ==> (#[trigger] list[i]).0.generation < u32::MAX,
        ensures
            forall|x: EdgeIndex|
                self.has_edge(x) && list.contains(x) ==> #[trigger] self.remove_edges(
                    list,
                    true,
                ).edges.is_open_at(x.0.index as int, x.0.generation + 1),
        decreases list.len(),
    {
        if list.len() > 0 {
            let front = list.drop_last();
            let e = list.last();
            assert forall|i: int| 0 <= i < front.len() implies (#[trigger] front[i]).0.generation
                < u32::MAX by {
                assert(front[i] == list[i]);
            }
            assert(list[list.len() - 1] == e);
            self.lemma_remove_edges_open(front);
            self.lemma_remove_edges(front, true);
            let g = self.remove_edges(front, true);
            let after = self.remove_edges(list, true);
            if g.has_edge(e) {
                g.lemma_detach_edge(e, (e.0.generation + 1) as u32);
                g.edges.lemma_vacate(e.0, (e.0.generation + 1) as u32);
            }
            assert forall|x: EdgeIndex| self.has_edge(x) && list.contains(x) implies #[trigger] after.edges.is_open_at(
                x.0.index as int,
                x.0.generation + 1,
            ) by {
                let i = choose|i: int| 0 <= i < list.len() && list[i] == x;
                if front.contains(x) {
                    assert(g.edges.is_open_at(x.0.index as int, x.0.generation + 1));
                    if g.has_edge(e) {
                        assert(e.0.index != x.0.index);
                    }
                } else {
                    if i < front.len() {
                        assert(front[i] == x);
                    }
                    assert(x == e);
                    assert(g.has_edge(e) == (self.has_edge(e) && !front.contains(e)));
                }
            }
        }
    }
}

/// A mutation of a graph that hands out a diff.
#[allow(inconsistent_fields)]
pub ghost enum GraphOp<V, E> {
    AddVertex { data: V },
    AddEdge { from: VertexIndex, to: VertexIndex, data: E },
    UpdateVertex { index: VertexIndex, data: V },
    UpdateEdge { index: EdgeIndex, data: E },
    RemoveEdge { index: EdgeIndex },
    RemoveVertex { index: VertexIndex },
}

impl<V, E> GraphView<V, E> {
    /// The graph after one mutation. A mutation that names a handle that
    /// does not resolve changes nothing.
    pub open spec fn step(self, op: GraphOp<V, E>) -> Self {
        match op {
            GraphOp::AddVertex { data } => self.add_vertex(data),
            GraphOp::AddEdge { from, to, data } => if self.has_vertex(from) && self.has_vertex(to) {
                self.add_edge(from, to, data)
            } else {
                self
            },
            GraphOp::UpdateVertex { index, data } => if self.has_vertex(index) {
                self.update_vertex(index, data)
            } else {
                self
            },
            GraphOp::UpdateEdge { index, data } => if self.has_edge(index) {
                self.update_edge(index, data)
            } else {
                self
            },
            GraphOp::RemoveEdge { index } => self.remove_edge(index),
            GraphOp::RemoveVertex { index } => self.remove_vertex(index),
        }
    }

    /// The mutation runs into no limit of the machine: no table is full and
    /// no generation runs out.
    pub open spec fn step_ok(self, op: GraphOp<V, E>) -> bool {
        match op {
            GraphOp::AddVertex { .. } => self.vertices.has_room(),
            GraphOp::AddEdge { .. } => self.edges.has_room(),
            GraphOp::RemoveEdge { index } => self.can_remove_edge(index),
            GraphOp::RemoveVertex { index } => self.can_remove_vertex(index),
            _ => true,
        }
    }

    /// The graph after the mutations of `ops`, one after the other.
    pub open spec fn run(self, ops: Seq<GraphOp<V, E>>) -> Self
        decreases ops.len(),
    {
        if ops.len() == 0 {
            self
        } else {
            self.run(ops.drop_last()).step(ops.last())
        }
    }

    /// None of the mutations of `ops` runs into a limit of the machine.
    pub open spec fn run_ok(self, ops: Seq<GraphOp<V, E>>) -> bool
        decreases ops.len(),
    {
        ops.len() == 0 || (self.run_ok(ops.drop_last()) && self.run(ops.drop_last()).step_ok(
            ops.last(),
        ))
    }

    /// No slot of `before` is missing in either table, and none stands at
    /// an earlier generation.
    pub open spec fn not_older(self, before: Self) -> bool {
        self.vertices.not_older(before.vertices) && self.edges.not_older(before.edges)
    }

    /// A change of the lists takes no generation back.
    pub proof fn lemma_lists_not_older(self, e: EdgeIndex, from: VertexIndex, to: VertexIndex)
        requires
            self.vertices.wf(),
            self.has_vertex(from),
            self.has_vertex(to),
        ensures
            self.link(e, from, to).vertices.not_older(self.vertices),
            self.unlink(e, from, to).vertices.not_older(self.vertices),
            self.link(e, from, to).edges == self.edges,
            self.unlink(e, from, to).edges == self.edges,
    {
        let a = self.push_out(from, (to, e));
        let b = a.push_in(to, (from, e));
        self.vertices.lemma_set_value_not_older(from.0, a.vertex(from));
        self.lemma_with_vertex(from, a.vertex(from));
        assert(a.vertices.wf());
        assert(a.has_vertex(to));
        a.vertices.lemma_set_value_not_older(to.0, b.vertex(to));
        b.vertices.lemma_not_older_trans(a.vertices, self.vertices);
        let c = self.drop_out(from, e);
        let d = c.drop_in(to, e);
        self.vertices.lemma_set_value_not_older(from.0, c.vertex(from));
        self.lemma_with_vertex(from, c.vertex(from));
        assert(c.vertices.wf());
        assert(c.has_vertex(to));
        c.vertices.lemma_set_value_not_older(to.0, d.vertex(to));
        d.vertices.lemma_not_older_trans(c.vertices, self.vertices);
    }

    /// A removal of several edges takes no generation back.
    pub proof fn lemma_remove_edges_not_older(self, list: Seq<EdgeIndex>)
        requires
            self.wf(),
            forall|i: int| 0 <= i < list.len() ==> (#[trigger] list[i]).0.generation < u32::MAX,
        ensures
            self.remove_edges(list, true).not_older(self),
            forall|x: EdgeIndex|
                self.has_edge(x) && list.contains(x) ==> #[trigger] self.remove_edges(
                    list,
                    true,
                ).edges.retired(x.0),
        decreases list.len(),
    {
        if list.len() > 0 {
            let front = list.drop_last();
            let e = list.last();
            assert forall|i: int| 0 <= i < front.len() implies (#[trigger] front[i]).0.generation
                < u32::MAX by {
                assert(front[i] == list[i]);
            }
            assert(list[list.len() - 1] == e);
            self.lemma_remove_edges_not_older(front);
            self.lemma_remove_edges(front, true);
            let g = self.remove_edges(front, true);
            let after = self.remove_edges(list, true);
            let bumped = (e.0.generation + 1) as u32;
            if g.has_edge(e) {
                assert(g.edge_linked(e));
                g.lemma_lists_not_older(e, g.edge(e).from, g.edge(e).to);
                g.edges.lemma_vacate_not_older(e.0, bumped);
                after.vertices.lemma_not_older_trans(g.vertices, self.vertices);
                after.edges.lemma_not_older_trans(g.edges, self.edges);
            }
            assert forall|x: EdgeIndex| self.has_edge(x) && list.contains(x) implies #[trigger] after.edges.retired(
                x.0,
            ) by {
                let i = choose|i: int| 0 <= i < list.len() && list[i] == x;
                if front.contains(x) {
                    assert(g.edges.retired(x.0));
                    after.edges.lemma_retired_kept(g.edges, x.0);
                } else {
                    if i < front.len() {
                        assert(front[i] == x);
                    }
                    assert(x == e);
                    assert(g.has_edge(e) == (self.has_edge(e) && !front.contains(e)));
                }
            }
        }
    }

    /// No mutation takes a generation back, and every mutation keeps the
    /// invariant. A removal retires the handle it removes, and the removal
    /// of a vertex also those of the edges that touched it.
    pub proof fn lemma_step(self, op: GraphOp<V, E>)
        requires
            self.wf(),
            self.step_ok(op),
        ensures
            self.step(op).wf(),
            self.step(op).not_older(self),
            match op {
                GraphOp::RemoveEdge { index } => self.has_edge(index) ==> self.step(
                    op,
                ).edges.retired(index.0),
                GraphOp::RemoveVertex { index } => self.has_vertex(index) ==> {
                    &&& self.step(op).vertices.retired(index.0)
                    &&& forall|x: EdgeIndex|
                        self.has_edge(x) && self.touches(x, index) ==> #[trigger] self.step(
                            op,
                        ).edges.retired(x.0)
                },
                _ => true,
            },
    {
        match op {
            GraphOp::AddVertex { data } => {
                self.lemma_add_vertex(data);
                self.vertices.lemma_add_not_older(VertexView::isolated(data));
            },
            GraphOp::AddEdge { from, to, data } => {
                if self.has_vertex(from) && self.has_vertex(to) {
                    self.lemma_add_edge(from, to, data);
                    let edge = Edge { from, to, data };
                    self.edges.lemma_add_not_older(edge);
                    let g1 = GraphView { edges: self.edges.add(edge), ..self };
                    g1.lemma_lists_not_older(self.next_edge(), from, to);
                }
            },
            GraphOp::UpdateVertex { index, data } => {
                if self.has_vertex(index) {
                    self.lemma_update_vertex(index, data);
                    self.vertices.lemma_set_value_not_older(
                        index.0,
                        VertexView { data, ..self.vertex(index) },
                    );
                }
            },
            GraphOp::UpdateEdge { index, data } => {
                if self.has_edge(index) {
                    self.lemma_update_edge(index, data);
                    self.edges.lemma_set_value_not_older(
                        index.0,
                        Edge { data, ..self.edge(index) },
                    );
                }
            },
            GraphOp::RemoveEdge { index } => {
                if self.has_edge(index) {
                    let bumped = (index.0.generation + 1) as u32;
                    self.lemma_detach_edge(index, bumped);
                    assert(self.edge_linked(index));
                    self.lemma_lists_not_older(index, self.edge(index).from, self.edge(index).to);
                    self.edges.lemma_vacate_not_older(index.0, bumped);
                }
            },
            GraphOp::RemoveVertex { index } => {
                if self.has_vertex(index) {
                    let list = self.incident(index);
                    let g = self.remove_edges(list, true);
                    let bumped = (index.0.generation + 1) as u32;
                    self.lemma_detach_vertex(index, true);
                    self.lemma_remove_edges(list, true);
                    self.lemma_remove_edges_not_older(list);
                    assert(g.has_vertex(index));
                    g.vertices.lemma_vacate_not_older(index.0, bumped);
                    let after = self.step(op);
                    after.vertices.lemma_not_older_trans(g.vertices, self.vertices);
                    assert forall|x: EdgeIndex|
                        self.has_edge(x) && self.touches(x, index) implies #[trigger] after.edges.retired(
                        x.0,
                    ) by {
                        self.lemma_incident(index, x);
                    }
                }
            },
        }
    }

    /// A run of mutations keeps the invariant and takes no generation back.
    pub proof fn lemma_run(self, ops: Seq<GraphOp<V, E>>)
        requires
            self.wf(),
            self.run_ok(ops),
        ensures
            self.run(ops).wf(),
            self.run(ops).not_older(self),
        decreases ops.len(),
    {
        if ops.len() > 0 {
            self.lemma_run(ops.drop_last());
            let g = self.run(ops.drop_last());
            g.lemma_step(ops.last());
            let after = self.run(ops);
            after.vertices.lemma_not_older_trans(g.vertices, self.vertices);
            after.edges.lemma_not_older_trans(g.edges, self.edges);
        }
    }
}

} // verus!

//! The states of the slots under the operations on a graph, and what
//! follows for a whole history of diffs.

use vstd::prelude::*;
use crate::gen_vec::{GenVecView, Index};
use crate::graph::{Edge, EdgeIndex, VertexIndex, VertexView};
use crate::graph_diff::{distinct_slots, GraphDiffView, RemoveEdgeView};
use crate::graph_model::{left_at, GraphOp, GraphView};
use crate::laws::{lemma_same_content, same_content};

verus! {

impl<V, E> GraphView<V, E> {
    /// A new value for a live vertex leaves the state of every slot.
    pub proof fn lemma_with_vertex_states(self, v: VertexIndex, value: VertexView<V>)
        requires
            self.has_vertex(v),
        ensures
            self.with_vertex(v, value).vertices.same_states(self.vertices),
            self.with_vertex(v, value).edges == self.edges,
    {
        let after = self.with_vertex(v, value);
        assert forall|s: int| 0 <= s < self.vertices.slots.len() implies #[trigger] after.vertices.state(
            s,
        ) == self.vertices.state(s) by {}
    }

    /// Listing an edge at two live vertices, or striking it there, leaves
    /// the state of every slot.
    pub proof fn lemma_lists_states(self, e: EdgeIndex, from: VertexIndex, to: VertexIndex)
        requires
            self.has_vertex(from),
            self.has_vertex(to),
        ensures
            self.link(e, from, to).vertices.same_states(self.vertices),
            self.unlink(e, from, to).vertices.same_states(self.vertices),
            self.link(e, from, to).edges == self.edges,
            self.unlink(e, from, to).edges == self.edges,
    {
        let a = self.push_out(from, (to, e));
        let b = a.push_in(to, (from, e));
        self.lemma_with_vertex_states(from, a.vertex(from));
        self.lemma_with_vertex(from, a.vertex(from));
        assert(a.has_vertex(to));
        a.lemma_with_vertex_states(to, b.vertex(to));
        assert forall|s: int| 0 <= s < self.vertices.slots.len() implies #[trigger] b.vertices.state(
            s,
        ) == self.vertices.state(s) by {
            assert(a.vertices.state(s) == self.vertices.state(s));
        }
        let c = self.drop_out(from, e);
        let d = c.drop_in(to, e);
        self.lemma_with_vertex_states(from, c.vertex(from));
        self.lemma_with_vertex(from, c.vertex(from));
        assert(c.has_vertex(to));
        c.lemma_with_vertex_states(to, d.vertex(to));
        assert forall|s: int| 0 <= s < self.vertices.slots.len() implies #[trigger] d.vertices.state(
            s,
        ) == self.vertices.state(s) by {
            assert(c.vertices.state(s) == self.vertices.state(s));
        }
    }

    /// Removing a live edge opens its slot at the given generation and
    /// leaves the state of every other slot.
    pub proof fn lemma_detach_edge_states(self, e: EdgeIndex, generation: u32)
        requires
            self.wf(),
            self.has_edge(e),
        ensures
            self.detach_edge(e, generation).vertices.same_states(self.vertices),
            self.detach_edge(e, generation).edges.same_states_but(self.edges, e.0.index as int),
            self.detach_edge(e, generation).edges.state(e.0.index as int) == (generation, false),
    {
        assert(self.edge_linked(e));
        self.lemma_lists_states(e, self.edge(e).from, self.edge(e).to);
        let after = self.detach_edge(e, generation);
        assert forall|s: int|
            0 <= s < self.edges.slots.len() && s != e.0.index implies #[trigger] after.edges.state(s)
            == self.edges.state(s) by {}
    }

    /// A removal of several edges opens the slot of each live edge of the
    /// list, at the generation that the removal leaves, and leaves the
    /// state of every other slot.
    pub proof fn lemma_remove_edges_states(self, list: Seq<EdgeIndex>, bump: bool)
        requires
            self.wf(),
        ensures
            self.remove_edges(list, bump).vertices.same_states(self.vertices),
            self.remove_edges(list, bump).edges.slots.len() == self.edges.slots.len(),
            forall|s: int|
                0 <= s < self.edges.slots.len() ==> #[trigger] self.remove_edges(
                    list,
                    bump,
                ).edges.state(s) == (if self.edges.state(s).1 && list.contains(
                    EdgeIndex(self.edges.handle_at(s)),
                ) {
                    (left_at(self.edges.slots[s].generation, bump), false)
                } else {
                    self.edges.state(s)
                }),
        decreases list.len(),
    {
        let after = self.remove_edges(list, bump);
        if list.len() == 0 {
            assert forall|s: int| 0 <= s < self.vertices.slots.len() implies #[trigger] after.vertices.state(
                s,
            ) == self.vertices.state(s) by {}
        } else {
            let front = list.drop_last();
            let e = list.last();
            self.lemma_remove_edges_states(front, bump);
            self.lemma_remove_edges(front, bump);
            let g = self.remove_edges(front, bump);
            assert(list =~= front.push(e));
            assert forall|x: EdgeIndex| list.contains(x) == (front.contains(x) || x == e) by {
                if front.contains(x) {
                    let i = choose|i: int| 0 <= i < front.len() && front[i] == x;
                    assert(list[i] == x);
                }
                if x == e {
                    assert(list[list.len() - 1] == x);
                }
            }
            if g.has_edge(e) {
                g.lemma_detach_edge_states(e, left_at(e.0.generation, bump));
                assert(self.has_edge(e));
            }
            assert forall|s: int| 0 <= s < self.vertices.slots.len() implies #[trigger] after.vertices.state(
                s,
            ) == self.vertices.state(s) by {
                assert(g.vertices.state(s) == self.vertices.state(s));
            }
            assert forall|s: int| 0 <= s < self.edges.slots.len() implies #[trigger] after.edges.state(
                s,
            ) == (if self.edges.state(s).1 && list.contains(EdgeIndex(self.edges.handle_at(s))) {
                (left_at(self.edges.slots[s].generation, bump), false)
            } else {
                self.edges.state(s)
            }) by {
                let h = EdgeIndex(self.edges.handle_at(s));
                assert(g.edges.state(s) == (if self.edges.state(s).1 && front.contains(h) {
                    (left_at(self.edges.slots[s].generation, bump), false)
                } else {
                    self.edges.state(s)
                }));
                assert(g.has_edge(e) == (self.has_edge(e) && !front.contains(e)));
                if g.has_edge(e) {
                    if s == e.0.index {
                        assert(h == e);
                    } else {
                        assert(after.edges.state(s) == g.edges.state(s));
                        assert(h != e);
                    }
                } else {
                    if h == e && self.edges.state(s).1 {
                        assert(self.has_edge(e));
                        assert(front.contains(e));
                    }
                }
            }
        }
    }

    /// Removing a live vertex opens its slot and the slot of each edge that
    /// touched it, at the generation that the removal leaves, and leaves
    /// the state of every other slot.
    pub proof fn lemma_detach_vertex_states(self, v: VertexIndex, bump: bool)
        requires
            self.wf(),
            self.has_vertex(v),
        ensures
            self.detach_vertex(v, bump).vertices.same_states_but(
                self.vertices,
                v.0.index as int,
            ),
            self.detach_vertex(v, bump).vertices.state(v.0.index as int) == (
                left_at(v.0.generation, bump),
                false,
            ),
            self.detach_vertex(v, bump).edges.slots.len() == self.edges.slots.len(),
            forall|s: int|
                0 <= s < self.edges.slots.len() ==> #[trigger] self.detach_vertex(
                    v,
                    bump,
                ).edges.state(s) == (if self.edges.state(s).1 && self.touches(
                    EdgeIndex(self.edges.handle_at(s)),
                    v,
                ) {
                    (left_at(self.edges.slots[s].generation, bump), false)
                } else {
                    self.edges.state(s)
                }),
    {
        let list = self.incident(v);
        let g = self.remove_edges(list, bump);
        let after = self.detach_vertex(v, bump);
        self.lemma_remove_edges_states(list, bump);
        self.lemma_remove_edges(list, bump);
        assert(g.has_vertex(v));
        assert forall|s: int|
            0 <= s < self.vertices.slots.len() && s != v.0.index implies #[trigger] after.vertices.state(
            s,
        ) == self.vertices.state(s) by {
            assert(g.vertices.state(s) == self.vertices.state(s));
        }
        assert forall|s: int| 0 <= s < self.edges.slots.len() implies #[trigger] after.edges.state(
            s,
        ) == (if self.edges.state(s).1 && self.touches(EdgeIndex(self.edges.handle_at(s)), v) {
            (left_at(self.edges.slots[s].generation, bump), false)
        } else {
            self.edges.state(s)
        }) by {
            let h = EdgeIndex(self.edges.handle_at(s));
            assert(after.edges.state(s) == g.edges.state(s));
            if self.edges.state(s).1 {
                assert(self.has_edge(h));
                self.lemma_incident(v, h);
            }
        }
    }

    /// Writing a vertex back occupies its slot at the generation of the
    /// handle and leaves the state of every other slot.
    pub proof fn lemma_restore_vertex_states(self, v: VertexIndex, vertex: VertexView<V>)
        requires
            self.vertices.is_open(v.0.index),
        ensures
            self.restore_vertex(v, vertex).vertices.same_states_but(
                self.vertices,
                v.0.index as int,
            ),
            self.restore_vertex(v, vertex).vertices.state(v.0.index as int) == (
                v.0.generation,
                true,
            ),
            self.restore_vertex(v, vertex).edges == self.edges,
    {
        let after = self.restore_vertex(v, vertex);
        assert forall|s: int|
            0 <= s < self.vertices.slots.len() && s != v.0.index implies #[trigger] after.vertices.state(
            s,
        ) == self.vertices.state(s) by {}
    }

    /// Writing an edge back occupies its slot at the generation of the
    /// handle and leaves the state of every other slot.
    pub proof fn lemma_restore_edge_states(self, record: RemoveEdgeView<E>)
        requires
            self.edges.is_open(record.index.0.index),
            self.has_vertex(record.edge.from),
            self.has_vertex(record.edge.to),
        ensures
            self.restore_edge(record).vertices.same_states(self.vertices),
            self.restore_edge(record).edges.same_states_but(
                self.edges,
                record.index.0.index as int,
            ),
            self.restore_edge(record).edges.state(record.index.0.index as int) == (
                record.index.0.generation,
                true,
            ),
    {
        let g1 = GraphView { edges: self.edges.restore(record.index.0, record.edge), ..self };
        g1.lemma_lists_states(record.index, record.edge.from, record.edge.to);
        let after = self.restore_edge(record);
        assert forall|s: int|
            0 <= s < self.edges.slots.len() && s != record.index.0.index implies #[trigger] after.edges.state(
            s,
        ) == self.edges.state(s) by {}
    }
}

/// The slot of the edge table that a record of `records` is for, if there
/// is one.
pub open spec fn recorded_at<E>(records: Seq<RemoveEdgeView<E>>, slot: int) -> bool {
    exists|i: int| 0 <= i < records.len() && (#[trigger] records[i]).index.0.index == slot
}

impl<V, E> GraphView<V, E> {
    /// Writing recorded edges back occupies the slot of each record at the
    /// generation of its handle and leaves the state of every other slot.
    pub proof fn lemma_restore_edges_states(self, records: Seq<RemoveEdgeView<E>>)
        requires
            self.wf(),
            distinct_slots(records),
            forall|i: int|
                0 <= i < records.len() ==> {
                    let r = #[trigger] records[i];
                    &&& self.edges.is_open(r.index.0.index)
                    &&& self.has_vertex(r.edge.from)
                    &&& self.has_vertex(r.edge.to)
                },
        ensures
            self.restore_edges(records).vertices.same_states(self.vertices),
            self.restore_edges(records).edges.slots.len() == self.edges.slots.len(),
            forall|i: int|
                0 <= i < records.len() ==> self.restore_edges(records).edges.state(
                    (#[trigger] records[i]).index.0.index as int,
                ) == (records[i].index.0.generation, true),
            forall|s: int|
                0 <= s < self.edges.slots.len() && !recorded_at(records, s)
                    ==> #[trigger] self.restore_edges(records).edges.state(s) == self.edges.state(s),
        decreases records.len(),
    {
        let after = self.restore_edges(records);
        if records.len() == 0 {
            assert forall|s: int| 0 <= s < self.vertices.slots.len() implies #[trigger] after.vertices.state(
                s,
            ) == self.vertices.state(s) by {}
        } else {
            let front = records.drop_last();
            let last = records.last();
            let n = front.len() as int;
            assert forall|i: int| 0 <= i < front.len() implies front[i] == records[i] by {}
            assert(distinct_slots(front)) by {
                assert forall|i: int, j: int| 0 <= i < j < front.len() implies front[i].index.0.index
                    != front[j].index.0.index by {
                    assert(records[i].index.0.index != records[j].index.0.index);
                }
            }
            assert forall|i: int| 0 <= i < front.len() implies {
                let r = #[trigger] front[i];
                &&& self.edges.is_open(r.index.0.index)
                &&& self.has_vertex(r.edge.from)
                &&& self.has_vertex(r.edge.to)
            } by {
                assert(front[i] == records[i]);
            }
            self.lemma_restore_edges_states(front);
            self.lemma_restore_edges(front);
            let g = self.restore_edges(front);
            assert(records[n] == last);
            assert forall|i: int| 0 <= i < front.len() implies (#[trigger] front[i]).index.0.index
                != last.index.0.index by {
                assert(records[i].index.0.index != records[n].index.0.index);
            }
            assert(g.edges.is_open(last.index.0.index));
            assert(g.has_vertex(last.edge.from));
            assert(g.has_vertex(last.edge.to));
            g.lemma_restore_edge_states(last);
            assert forall|s: int| 0 <= s < self.vertices.slots.len() implies #[trigger] after.vertices.state(
                s,
            ) == self.vertices.state(s) by {
                assert(g.vertices.state(s) == self.vertices.state(s));
            }
            assert forall|i: int| 0 <= i < records.len() implies after.edges.state(
                (#[trigger] records[i]).index.0.index as int,
            ) == (records[i].index.0.generation, true) by {
                if i < n {
                    assert(front[i] == records[i]);
                    assert(records[i].index.0.index != records[n].index.0.index);
                    assert(g.edges.state(front[i].index.0.index as int) == (
                        front[i].index.0.generation,
                        true,
                    ));
                    assert(after.edges.state(records[i].index.0.index as int) == g.edges.state(
                        records[i].index.0.index as int,
                    ));
                }
            }
            assert forall|s: int|
                0 <= s < self.edges.slots.len() && !recorded_at(
                    records,
                    s,
                ) implies #[trigger] after.edges.state(s) == self.edges.state(s) by {
                assert(records[n].index.0.index != s);
                if recorded_at(front, s) {
                    let i = choose|i: int|
                        0 <= i < front.len() && (#[trigger] front[i]).index.0.index == s;
                    assert(records[i].index.0.index == s);
                }
                assert(g.edges.state(s) == self.edges.state(s));
                assert(after.edges.state(s) == g.edges.state(s));
            }
        }
    }
}

/// `h` stands for `g`: it holds what `g` holds, every slot of `g` is there
/// in the same state, and every further slot is open at generation 0.
pub open spec fn stands_for<V, E>(h: GraphView<V, E>, g: GraphView<V, E>) -> bool {
    &&& same_content(h, g)
    &&& h.vertices.keeps_states(g.vertices)
    &&& h.edges.keeps_states(g.edges)
}

/// The diff that a mutation hands out, if the mutation goes through.
pub open spec fn diff_of<V, E>(g: GraphView<V, E>, op: GraphOp<V, E>) -> Option<
    GraphDiffView<V, E>,
> {
    match op {
        GraphOp::AddVertex { data } => Some(
            GraphDiffView::AddVertex { index: g.next_vertex(), data },
        ),
        GraphOp::AddEdge { from, to, data } => if g.has_vertex(from) && g.has_vertex(to) {
            Some(GraphDiffView::AddEdge { index: g.next_edge(), from, to, data })
        } else {
            None
        },
        GraphOp::UpdateVertex { index, data } => if g.has_vertex(index) {
            Some(
                GraphDiffView::UpdateVertexData {
                    index,
                    before: g.vertex(index).data,
                    after: data,
                },
            )
        } else {
            None
        },
        GraphOp::UpdateEdge { index, data } => if g.has_edge(index) {
            Some(GraphDiffView::UpdateEdgeData { index, before: g.edge(index).data, after: data })
        } else {
            None
        },
        GraphOp::RemoveEdge { index } => if g.has_edge(index) {
            Some(GraphDiffView::RemoveEdge { index, edge: g.edge(index) })
        } else {
            None
        },
        GraphOp::RemoveVertex { index } => if g.has_vertex(index) {
            Some(crate::laws::remove_vertex_diff(g, index))
        } else {
            None
        },
    }
}

/// What `add` does to the states of the slots.
pub proof fn lemma_add_states<T>(table: GenVecView<T>, value: T)
    requires
        table.wf(),
        table.has_room(),
    ensures
        table.free.len() > 0 ==> {
            &&& table.add(value).same_states_but(table, table.next_index().index as int)
            &&& table.next_index().index < table.slots.len()
            &&& table.state(table.next_index().index as int) == (
                table.next_index().generation,
                false,
            )
        },
        table.free.len() == 0 ==> {
            &&& table.add(value).slots.len() == table.slots.len() + 1
            &&& table.next_index().index == table.slots.len()
            &&& table.next_index().generation == 0
            &&& forall|s: int|
                0 <= s < table.slots.len() ==> #[trigger] table.add(value).state(s) == table.state(s)
        },
        table.add(value).state(table.next_index().index as int) == (
            table.next_index().generation,
            true,
        ),
{
    let after = table.add(value);
    if table.free.len() > 0 {
        assert(table.free[0] < table.slots.len());
        assert forall|s: int|
            0 <= s < table.slots.len() && s != table.free[0] implies #[trigger] after.state(s)
            == table.state(s) by {}
    } else {
        assert forall|s: int| 0 <= s < table.slots.len() implies #[trigger] after.state(s)
            == table.state(s) by {}
    }
}

/// Rolling back the diff of an added vertex, in a graph that stands for the
/// one that the addition left, leaves a graph that stands for the one
/// before the addition.
pub proof fn lemma_back_add_vertex<V, E>(g: GraphView<V, E>, data: V, h: GraphView<V, E>)
    requires
        g.wf(),
        g.vertices.has_room(),
        h.wf(),
        stands_for(h, g.add_vertex(data)),
    ensures
        h.rollback_valid(GraphDiffView::AddVertex { index: g.next_vertex(), data }),
        h.rollback(GraphDiffView::AddVertex { index: g.next_vertex(), data }).wf(),
        stands_for(h.rollback(GraphDiffView::AddVertex { index: g.next_vertex(), data }), g),
{
    let index = g.next_vertex();
    let done = g.add_vertex(data);
    let back = h.detach_vertex(index, false);
    g.lemma_add_vertex(data);
    lemma_add_states(g.vertices, VertexView::isolated(data));
    assert(done.has_vertex(index));
    assert(h.has_vertex(index));
    h.lemma_detach_vertex(index, false);
    h.lemma_detach_vertex_states(index, false);
    assert forall|v: VertexIndex| #[trigger] back.has_vertex(v) == g.has_vertex(v) by {
        assert(h.has_vertex(v) == done.has_vertex(v));
    }
    assert forall|v: VertexIndex| back.has_vertex(v) implies (#[trigger] back.vertex(v)).data
        == g.vertex(v).data by {
        assert(h.has_vertex(v));
        assert(done.has_vertex(v));
        assert(h.vertex(v).data == done.vertex(v).data);
    }
    assert forall|e: EdgeIndex| h.has_edge(e) implies !h.touches(e, index) by {
        assert(done.has_edge(e));
        assert(g.has_edge(e));
        assert(g.edge_linked(e));
        assert(h.edge(e) == done.edge(e));
    }
    assert forall|e: EdgeIndex| #[trigger] back.has_edge(e) == g.has_edge(e) by {
        assert(h.has_edge(e) == done.has_edge(e));
    }
    assert forall|e: EdgeIndex| back.has_edge(e) implies #[trigger] back.edge(e) == g.edge(e) by {
        assert(h.has_edge(e));
        assert(h.edge(e) == done.edge(e));
    }
    lemma_same_content(back, g);
    assert forall|s: int| 0 <= s < g.vertices.slots.len() implies #[trigger] back.vertices.state(
        s,
    ) == g.vertices.state(s) by {
        if s != index.0.index {
            assert(back.vertices.state(s) == h.vertices.state(s));
            assert(h.vertices.state(s) == done.vertices.state(s));
            assert(done.vertices.state(s) == g.vertices.state(s));
        }
    }
    assert forall|s: int|
        g.vertices.slots.len() <= s < back.vertices.slots.len() implies #[trigger] back.vertices.state(
        s,
    ) == (0u32, false) by {
        if s != index.0.index {
            assert(back.vertices.state(s) == h.vertices.state(s));
        }
    }
    assert forall|s: int| 0 <= s < g.edges.slots.len() implies #[trigger] back.edges.state(s)
        == g.edges.state(s) by {
        assert(h.edges.state(s) == done.edges.state(s));
        if h.edges.state(s).1 {
            assert(h.has_edge(EdgeIndex(h.edges.handle_at(s))));
        }
    }
    assert forall|s: int|
        g.edges.slots.len() <= s < back.edges.slots.len() implies #[trigger] back.edges.state(s)
        == (0u32, false) by {
        assert(h.edges.state(s) == (0u32, false));
    }
}

/// The vertices and what they hold are the same in two graphs of which one
/// stands for the other.
pub proof fn lemma_stands_for<V, E>(h: GraphView<V, E>, g: GraphView<V, E>)
    requires
        stands_for(h, g),
    ensures
        forall|v: VertexIndex| #[trigger] h.has_vertex(v) == g.has_vertex(v),
        forall|v: VertexIndex| g.has_vertex(v) ==> (#[trigger] h.vertex(v)).data == g.vertex(v).data,
        forall|e: EdgeIndex| #[trigger] h.has_edge(e) == g.has_edge(e),
        forall|e: EdgeIndex| g.has_edge(e) ==> #[trigger] h.edge(e) == g.edge(e),
        forall|e: EdgeIndex, v: VertexIndex|
            g.has_edge(e) ==> #[trigger] h.touches(e, v) == g.touches(e, v),
{
    assert forall|v: VertexIndex| g.has_vertex(v) implies (#[trigger] h.vertex(v)).data == g.vertex(
        v,
    ).data by {
        assert(h.has_vertex(v));
    }
    assert forall|e: EdgeIndex| g.has_edge(e) implies #[trigger] h.edge(e) == g.edge(e) by {
        assert(h.has_edge(e));
    }
    assert forall|e: EdgeIndex, v: VertexIndex| g.has_edge(e) implies #[trigger] h.touches(e, v)
        == g.touches(e, v) by {
        assert(h.has_edge(e));
        assert(h.edge(e) == g.edge(e));
    }
}

/// Rolling back the diff of an added edge, in a graph that stands for the
/// one that the addition left, leaves a graph that stands for the one
/// before the addition.
pub proof fn lemma_back_add_edge<V, E>(
    g: GraphView<V, E>,
    from: VertexIndex,
    to: VertexIndex,
    data: E,
    h: GraphView<V, E>,
)
    requires
        g.wf(),
        g.edges.has_room(),
        g.has_vertex(from),
        g.has_vertex(to),
        h.wf(),
        stands_for(h, g.add_edge(from, to, data)),
    ensures
        h.rollback_valid(GraphDiffView::AddEdge { index: g.next_edge(), from, to, data }),
        h.rollback(GraphDiffView::AddEdge { index: g.next_edge(), from, to, data }).wf(),
        stands_for(
            h.rollback(GraphDiffView::AddEdge { index: g.next_edge(), from, to, data }),
            g,
        ),
{
    let index = g.next_edge();
    let edge = Edge { from, to, data };
    let done = g.add_edge(from, to, data);
    let back = h.detach_edge(index, index.0.generation);
    g.lemma_add_edge(from, to, data);
    g.edges.lemma_add(edge);
    lemma_add_states(g.edges, edge);
    (GraphView { edges: g.edges.add(edge), ..g }).lemma_lists_states(index, from, to);
    lemma_stands_for(h, done);
    assert(done.has_edge(index));
    assert(h.has_edge(index));
    h.lemma_detach_edge(index, index.0.generation);
    h.lemma_detach_edge_states(index, index.0.generation);
    assert forall|v: VertexIndex| #[trigger] back.has_vertex(v) == g.has_vertex(v) by {
        assert(h.has_vertex(v) == done.has_vertex(v));
        assert(done.has_vertex(v) == g.has_vertex(v));
    }
    assert forall|v: VertexIndex| back.has_vertex(v) implies (#[trigger] back.vertex(v)).data
        == g.vertex(v).data by {
        assert(h.has_vertex(v));
        assert(done.has_vertex(v));
        assert(g.has_vertex(v));
        assert(h.vertex(v).data == done.vertex(v).data);
        assert(done.vertex(v).data == g.vertex(v).data);
    }
    assert forall|e: EdgeIndex| #[trigger] back.has_edge(e) == g.has_edge(e) by {
        assert(h.has_edge(e) == done.has_edge(e));
        assert(done.edges.contains(e.0) == (g.edges.contains(e.0) || e.0 == index.0));
    }
    assert forall|e: EdgeIndex| back.has_edge(e) implies #[trigger] back.edge(e) == g.edge(e) by {
        assert(h.has_edge(e));
        assert(done.has_edge(e));
        assert(h.edge(e) == done.edge(e));
        assert(g.edges.contains(e.0));
        assert(done.edges.value(e.0) == g.edges.value(e.0));
    }
    lemma_same_content(back, g);
    assert forall|s: int| 0 <= s < g.vertices.slots.len() implies #[trigger] back.vertices.state(
        s,
    ) == g.vertices.state(s) by {
        assert(back.vertices.state(s) == h.vertices.state(s));
        assert(h.vertices.state(s) == done.vertices.state(s));
        assert(done.vertices.state(s) == g.vertices.state(s));
    }
    assert forall|s: int|
        g.vertices.slots.len() <= s < back.vertices.slots.len() implies #[trigger] back.vertices.state(
        s,
    ) == (0u32, false) by {
        assert(back.vertices.state(s) == h.vertices.state(s));
    }
    assert forall|s: int| 0 <= s < g.edges.slots.len() implies #[trigger] back.edges.state(s)
        == g.edges.state(s) by {
        if s != index.0.index {
            assert(back.edges.state(s) == h.edges.state(s));
            assert(h.edges.state(s) == done.edges.state(s));
            assert(done.edges.state(s) == g.edges.state(s));
        }
    }
    assert forall|s: int|
        g.edges.slots.len() <= s < back.edges.slots.len() implies #[trigger] back.edges.state(s)
        == (0u32, false) by {
        if s != index.0.index {
            assert(back.edges.state(s) == h.edges.state(s));
        }
    }
}

/// A new payload changes nothing about what a graph stands for, but for
/// the payload.
pub proof fn lemma_update_vertex_stands<V, E>(
    h: GraphView<V, E>,
    g: GraphView<V, E>,
    index: VertexIndex,
    data: V,
    other: V,
)
    requires
        g.wf(),
        h.wf(),
        g.has_vertex(index),
        stands_for(h, g.update_vertex(index, other)),
    ensures
        h.has_vertex(index),
        h.update_vertex(index, data).wf(),
        stands_for(h.update_vertex(index, data), g.update_vertex(index, data)),
{
    let there = g.update_vertex(index, other);
    let here = g.update_vertex(index, data);
    let after = h.update_vertex(index, data);
    g.lemma_update_vertex(index, other);
    g.lemma_update_vertex(index, data);
    g.lemma_with_vertex_states(index, VertexView { data: other, ..g.vertex(index) });
    g.lemma_with_vertex_states(index, VertexView { data, ..g.vertex(index) });
    lemma_stands_for(h, there);
    assert(there.has_vertex(index));
    assert(h.has_vertex(index));
    h.lemma_update_vertex(index, data);
    h.lemma_with_vertex_states(index, VertexView { data, ..h.vertex(index) });
    assert forall|v: VertexIndex| #[trigger] after.has_vertex(v) == here.has_vertex(v) by {
        assert(h.has_vertex(v) == there.has_vertex(v));
        assert(there.has_vertex(v) == g.has_vertex(v));
    }
    assert forall|v: VertexIndex| after.has_vertex(v) implies (#[trigger] after.vertex(v)).data
        == here.vertex(v).data by {
        assert(h.has_vertex(v));
        assert(there.has_vertex(v));
        assert(g.has_vertex(v));
        if v != index {
            assert(after.vertex(v) == h.vertex(v));
            assert(here.vertex(v) == g.vertex(v));
            assert(there.vertex(v) == g.vertex(v));
            assert(h.vertex(v).data == there.vertex(v).data);
        }
    }
    assert forall|e: EdgeIndex| #[trigger] after.has_edge(e) == here.has_edge(e) by {
        assert(h.has_edge(e) == there.has_edge(e));
    }
    assert forall|e: EdgeIndex| after.has_edge(e) implies #[trigger] after.edge(e) == here.edge(
        e,
    ) by {
        assert(h.has_edge(e));
        assert(h.edge(e) == there.edge(e));
    }
    lemma_same_content(after, here);
    assert forall|s: int| 0 <= s < here.vertices.slots.len() implies #[trigger] after.vertices.state(
        s,
    ) == here.vertices.state(s) by {
        assert(after.vertices.state(s) == h.vertices.state(s));
        assert(h.vertices.state(s) == there.vertices.state(s));
        assert(there.vertices.state(s) == g.vertices.state(s));
        assert(here.vertices.state(s) == g.vertices.state(s));
    }
    assert forall|s: int|
        here.vertices.slots.len() <= s < after.vertices.slots.len() implies #[trigger] after.vertices.state(
        s,
    ) == (0u32, false) by {
        assert(after.vertices.state(s) == h.vertices.state(s));
    }
}

/// A new payload changes nothing about what a graph stands for, but for
/// the payload.
pub proof fn lemma_update_edge_stands<V, E>(
    h: GraphView<V, E>,
    g: GraphView<V, E>,
    index: EdgeIndex,
    data: E,
    other: E,
)
    requires
        g.wf(),
        h.wf(),
        g.has_edge(index),
        stands_for(h, g.update_edge(index, other)),
    ensures
        h.has_edge(index),
        h.update_edge(index, data).wf(),
        stands_for(h.update_edge(index, data), g.update_edge(index, data)),
{
    let there = g.update_edge(index, other);
    let here = g.update_edge(index, data);
    let after = h.update_edge(index, data);
    g.lemma_update_edge(index, other);
    g.lemma_update_edge(index, data);
    lemma_stands_for(h, there);
    assert(there.has_edge(index));
    assert(h.has_edge(index));
    h.lemma_update_edge(index, data);
    assert forall|v: VertexIndex| #[trigger] after.has_vertex(v) == here.has_vertex(v) by {
        assert(h.has_vertex(v) == there.has_vertex(v));
    }
    assert forall|v: VertexIndex| after.has_vertex(v) implies (#[trigger] after.vertex(v)).data
        == here.vertex(v).data by {
        assert(h.has_vertex(v));
        assert(h.vertex(v).data == there.vertex(v).data);
    }
    assert forall|e: EdgeIndex| #[trigger] after.has_edge(e) == here.has_edge(e) by {
        assert(h.has_edge(e) == there.has_edge(e));
        assert(there.has_edge(e) == g.has_edge(e));
    }
    assert forall|e: EdgeIndex| after.has_edge(e) implies #[trigger] after.edge(e) == here.edge(
        e,
    ) by {
        assert(h.has_edge(e));
        assert(there.has_edge(e));
        assert(g.has_edge(e));
        assert(h.edge(e) == there.edge(e));
        if e != index {
            assert(after.edge(e) == h.edge(e));
            assert(here.edge(e) == g.edge(e));
            assert(there.edge(e) == g.edge(e));
        }
    }
    lemma_same_content(after, here);
    assert forall|s: int| 0 <= s < here.edges.slots.len() implies #[trigger] after.edges.state(s)
        == here.edges.state(s) by {
        assert(h.edges.state(s) == there.edges.state(s));
    }
    assert forall|s: int|
        here.edges.slots.len() <= s < after.edges.slots.len() implies #[trigger] after.edges.state(
        s,
    ) == (0u32, false) by {
        assert(h.edges.state(s) == (0u32, false));
    }
}

/// Standing for goes on from graph to graph.
pub proof fn lemma_stands_for_trans<V, E>(a: GraphView<V, E>, b: GraphView<V, E>, c: GraphView<V, E>)
    requires
        stands_for(a, b),
        stands_for(b, c),
    ensures
        stands_for(a, c),
{
    lemma_stands_for(a, b);
    lemma_stands_for(b, c);
    assert forall|v: VertexIndex| #[trigger] a.has_vertex(v) == c.has_vertex(v) by {
        assert(a.has_vertex(v) == b.has_vertex(v));
        assert(b.has_vertex(v) == c.has_vertex(v));
    }
    assert forall|v: VertexIndex| a.has_vertex(v) implies (#[trigger] a.vertex(v)).data == c.vertex(
        v,
    ).data by {
        assert(b.has_vertex(v));
        assert(c.has_vertex(v));
        assert(b.vertex(v).data == c.vertex(v).data);
    }
    assert forall|v: VertexIndex, x: (VertexIndex, EdgeIndex)| a.has_vertex(v) implies (
    #[trigger] a.out_adj(v).contains(x)) == c.out_adj(v).contains(x) by {
        assert(b.has_vertex(v));
        assert(a.out_adj(v).contains(x) == b.out_adj(v).contains(x));
        assert(b.out_adj(v).contains(x) == c.out_adj(v).contains(x));
    }
    assert forall|v: VertexIndex, x: (VertexIndex, EdgeIndex)| a.has_vertex(v) implies (
    #[trigger] a.in_adj(v).contains(x)) == c.in_adj(v).contains(x) by {
        assert(b.has_vertex(v));
        assert(a.in_adj(v).contains(x) == b.in_adj(v).contains(x));
        assert(b.in_adj(v).contains(x) == c.in_adj(v).contains(x));
    }
    assert forall|e: EdgeIndex| #[trigger] a.has_edge(e) == c.has_edge(e) by {
        assert(a.has_edge(e) == b.has_edge(e));
        assert(b.has_edge(e) == c.has_edge(e));
    }
    assert forall|e: EdgeIndex| a.has_edge(e) implies #[trigger] a.edge(e) == c.edge(e) by {
        assert(b.has_edge(e));
        assert(c.has_edge(e));
        assert(b.edge(e) == c.edge(e));
    }
    assert forall|s: int| 0 <= s < c.vertices.slots.len() implies #[trigger] a.vertices.state(s)
        == c.vertices.state(s) by {
        assert(b.vertices.state(s) == c.vertices.state(s));
        assert(a.vertices.state(s) == b.vertices.state(s));
    }
    assert forall|s: int|
        c.vertices.slots.len() <= s < a.vertices.slots.len() implies #[trigger] a.vertices.state(s)
        == (0u32, false) by {
        if s < b.vertices.slots.len() {
            assert(b.vertices.state(s) == (0u32, false));
            assert(a.vertices.state(s) == b.vertices.state(s));
        }
    }
    assert forall|s: int| 0 <= s < c.edges.slots.len() implies #[trigger] a.edges.state(s)
        == c.edges.state(s) by {
        assert(b.edges.state(s) == c.edges.state(s));
        assert(a.edges.state(s) == b.edges.state(s));
    }
    assert forall|s: int|
        c.edges.slots.len() <= s < a.edges.slots.len() implies #[trigger] a.edges.state(s) == (
        0u32,
        false,
    ) by {
        if s < b.edges.slots.len() {
            assert(b.edges.state(s) == (0u32, false));
            assert(a.edges.state(s) == b.edges.state(s));
        }
    }
}

/// Rolling back the diff of a removed edge, in a graph that stands for the
/// one that the removal left, leaves a graph that stands for the one before
/// the removal.
pub proof fn lemma_back_remove_edge<V, E>(g: GraphView<V, E>, index: EdgeIndex, h: GraphView<V, E>)
    requires
        g.wf(),
        g.has_edge(index),
        g.can_remove_edge(index),
        h.wf(),
        stands_for(h, g.remove_edge(index)),
    ensures
        h.rollback_valid(GraphDiffView::RemoveEdge { index, edge: g.edge(index) }),
        h.rollback(GraphDiffView::RemoveEdge { index, edge: g.edge(index) }).wf(),
        stands_for(h.rollback(GraphDiffView::RemoveEdge { index, edge: g.edge(index) }), g),
{
    let edge = g.edge(index);
    let record = RemoveEdgeView { index, edge };
    let done = g.remove_edge(index);
    let bumped = (index.0.generation + 1) as u32;
    g.lemma_detach_edge(index, bumped);
    g.lemma_detach_edge_states(index, bumped);
    lemma_stands_for(h, done);
    assert(g.edge_linked(index));
    assert(done.has_vertex(edge.from));
    assert(done.has_vertex(edge.to));
    assert(h.has_vertex(edge.from));
    assert(h.has_vertex(edge.to));
    assert(h.edges.state(index.0.index as int) == done.edges.state(index.0.index as int));
    assert(h.edges.is_open_at(index.0.index as int, index.0.generation + 1));
    let back = h.restore_edge(record);
    h.lemma_restore_edge(record);
    h.lemma_restore_edge_states(record);
    assert forall|v: VertexIndex| #[trigger] back.has_vertex(v) == g.has_vertex(v) by {
        assert(h.has_vertex(v) == done.has_vertex(v));
        assert(done.has_vertex(v) == g.has_vertex(v));
    }
    assert forall|v: VertexIndex| back.has_vertex(v) implies (#[trigger] back.vertex(v)).data
        == g.vertex(v).data by {
        assert(h.has_vertex(v));
        assert(done.has_vertex(v));
        assert(g.has_vertex(v));
        assert(h.vertex(v).data == done.vertex(v).data);
    }
    assert forall|e: EdgeIndex| #[trigger] back.has_edge(e) == g.has_edge(e) by {
        assert(h.has_edge(e) == done.has_edge(e));
        assert(done.has_edge(e) == (g.has_edge(e) && e != index));
    }
    assert forall|e: EdgeIndex| back.has_edge(e) implies #[trigger] back.edge(e) == g.edge(e) by {
        if e != index {
            assert(h.has_edge(e));
            assert(done.has_edge(e));
            assert(h.edge(e) == done.edge(e));
            assert(done.edge(e) == g.edge(e));
        }
    }
    lemma_same_content(back, g);
    assert forall|s: int| 0 <= s < g.vertices.slots.len() implies #[trigger] back.vertices.state(
        s,
    ) == g.vertices.state(s) by {
        assert(back.vertices.state(s) == h.vertices.state(s));
        assert(h.vertices.state(s) == done.vertices.state(s));
        assert(done.vertices.state(s) == g.vertices.state(s));
    }
    assert forall|s: int|
        g.vertices.slots.len() <= s < back.vertices.slots.len() implies #[trigger] back.vertices.state(
        s,
    ) == (0u32, false) by {
        assert(back.vertices.state(s) == h.vertices.state(s));
    }
    assert forall|s: int| 0 <= s < g.edges.slots.len() implies #[trigger] back.edges.state(s)
        == g.edges.state(s) by {
        if s != index.0.index {
            assert(back.edges.state(s) == h.edges.state(s));
            assert(h.edges.state(s) == done.edges.state(s));
            assert(done.edges.state(s) == g.edges.state(s));
        }
    }
    assert forall|s: int|
        g.edges.slots.len() <= s < back.edges.slots.len() implies #[trigger] back.edges.state(s)
        == (0u32, false) by {
        assert(back.edges.state(s) == h.edges.state(s));
    }
}

/// Rolling back the diff of a removed vertex, in a graph that stands for
/// the one that the removal left, leaves a graph that stands for the one
/// before the removal.
pub proof fn lemma_back_remove_vertex<V, E>(
    g: GraphView<V, E>,
    index: VertexIndex,
    h: GraphView<V, E>,
)
    requires
        g.wf(),
        g.has_vertex(index),
        g.can_remove_vertex(index),
        h.wf(),
        stands_for(h, g.remove_vertex(index)),
    ensures
        h.rollback_valid(crate::laws::remove_vertex_diff(g, index)),
        h.rollback(crate::laws::remove_vertex_diff(g, index)).wf(),
        stands_for(h.rollback(crate::laws::remove_vertex_diff(g, index)), g),
{
    let diff = crate::laws::remove_vertex_diff(g, index);
    let list = g.incident(index);
    let records = g.removed_records(list);
    let vertex = VertexView::isolated(g.vertex(index).data);
    let done = g.remove_vertex(index);
    g.lemma_detach_vertex(index, true);
    g.lemma_detach_vertex_states(index, true);
    g.lemma_removed_records(list);
    lemma_stands_for(h, done);
    assert forall|i: int| 0 <= i < records.len() implies g.has_edge((#[trigger] records[i]).index)
        && g.touches(records[i].index, index) && records[i].edge == g.edge(records[i].index)
        && records[i].index.0.generation < u32::MAX by {
        let x = records[i].index;
        g.lemma_incident(index, x);
        let k = choose|k: int| 0 <= k < list.len() && list[k] == x;
        assert(list[k].0.generation < u32::MAX);
    }
    assert forall|i: int, j: int| 0 <= i < j < records.len() implies records[i].index.0.index
        != records[j].index.0.index by {
        assert(g.has_edge(records[i].index));
        assert(g.has_edge(records[j].index));
        assert(records[i].index != records[j].index);
    }
    assert(h.vertices.state(index.0.index as int) == done.vertices.state(index.0.index as int));
    assert forall|i: int| 0 <= i < records.len() implies {
        let r = #[trigger] records[i];
        &&& h.edges.is_open_at(r.index.0.index as int, r.index.0.generation + 1)
        &&& (r.edge.from == index || h.has_vertex(r.edge.from))
        &&& (r.edge.to == index || h.has_vertex(r.edge.to))
    } by {
        let r = records[i];
        let s = r.index.0.index as int;
        assert(g.has_edge(r.index));
        assert(g.edge_linked(r.index));
        assert(g.edges.handle_at(s) == r.index.0);
        assert(done.edges.state(s) == ((r.index.0.generation + 1) as u32, false));
        assert(h.edges.state(s) == done.edges.state(s));
        assert(done.has_vertex(r.edge.from) == (g.has_vertex(r.edge.from) && r.edge.from != index));
        assert(done.has_vertex(r.edge.to) == (g.has_vertex(r.edge.to) && r.edge.to != index));
        assert(h.has_vertex(r.edge.from) == done.has_vertex(r.edge.from));
        assert(h.has_vertex(r.edge.to) == done.has_vertex(r.edge.to));
    }
    assert(h.rollback_valid(diff));
    let mid = h.restore_vertex(index, vertex);
    h.lemma_restore_vertex(index, vertex);
    h.lemma_restore_vertex_states(index, vertex);
    assert forall|i: int| 0 <= i < records.len() implies {
        let r = #[trigger] records[i];
        &&& mid.edges.is_open(r.index.0.index)
        &&& mid.has_vertex(r.edge.from)
        &&& mid.has_vertex(r.edge.to)
    } by {
        let r = records[i];
        assert(h.edges.is_open_at(r.index.0.index as int, r.index.0.generation + 1));
        assert(mid.has_vertex(r.edge.from) == (h.has_vertex(r.edge.from) || r.edge.from == index));
        assert(mid.has_vertex(r.edge.to) == (h.has_vertex(r.edge.to) || r.edge.to == index));
    }
    mid.lemma_restore_edges(records);
    mid.lemma_restore_edges_states(records);
    let back = h.rollback(diff);
    assert(back == mid.restore_edges(records));
    assert forall|v: VertexIndex| #[trigger] back.has_vertex(v) == g.has_vertex(v) by {
        assert(mid.has_vertex(v) == (h.has_vertex(v) || v == index));
        assert(h.has_vertex(v) == done.has_vertex(v));
        assert(done.has_vertex(v) == (g.has_vertex(v) && v != index));
    }
    assert forall|v: VertexIndex| back.has_vertex(v) implies (#[trigger] back.vertex(v)).data
        == g.vertex(v).data by {
        assert(mid.has_vertex(v));
        if v != index {
            assert(h.has_vertex(v));
            assert(done.has_vertex(v));
            assert(mid.vertex(v) == h.vertex(v));
            assert(h.vertex(v).data == done.vertex(v).data);
        }
    }
    assert forall|e: EdgeIndex| #[trigger] back.has_edge(e) == g.has_edge(e) by {
        assert(mid.has_edge(e) == h.has_edge(e));
        assert(h.has_edge(e) == done.has_edge(e));
        assert(done.has_edge(e) == (g.has_edge(e) && !g.touches(e, index)));
        g.lemma_incident(index, e);
        if exists|i: int| 0 <= i < records.len() && (#[trigger] records[i]).index == e {
            let i = choose|i: int| 0 <= i < records.len() && (#[trigger] records[i]).index == e;
            assert(g.has_edge(records[i].index));
        }
    }
    assert forall|e: EdgeIndex| back.has_edge(e) implies #[trigger] back.edge(e) == g.edge(e) by {
        assert(mid.has_edge(e) == h.has_edge(e));
        if mid.has_edge(e) {
            assert(mid.edge(e) == h.edge(e));
            assert(done.has_edge(e));
            assert(h.edge(e) == done.edge(e));
            assert(done.edge(e) == g.edge(e));
        } else {
            let i = choose|i: int| 0 <= i < records.len() && (#[trigger] records[i]).index == e;
            assert(back.edge(records[i].index) == records[i].edge);
        }
    }
    lemma_same_content(back, g);
    assert forall|s: int| 0 <= s < g.vertices.slots.len() implies #[trigger] back.vertices.state(
        s,
    ) == g.vertices.state(s) by {
        assert(back.vertices.state(s) == mid.vertices.state(s));
        if s != index.0.index {
            assert(mid.vertices.state(s) == h.vertices.state(s));
            assert(h.vertices.state(s) == done.vertices.state(s));
            assert(done.vertices.state(s) == g.vertices.state(s));
        }
    }
    assert forall|s: int|
        g.vertices.slots.len() <= s < back.vertices.slots.len() implies #[trigger] back.vertices.state(
        s,
    ) == (0u32, false) by {
        assert(back.vertices.state(s) == mid.vertices.state(s));
        assert(mid.vertices.state(s) == h.vertices.state(s));
        assert(h.vertices.state(s) == (0u32, false));
    }
    assert forall|s: int| 0 <= s < g.edges.slots.len() implies #[trigger] back.edges.state(s)
        == g.edges.state(s) by {
        let x = EdgeIndex(g.edges.handle_at(s));
        assert(h.edges.state(s) == done.edges.state(s));
        if g.edges.state(s).1 && g.touches(x, index) {
            assert(g.has_edge(x));
            g.lemma_incident(index, x);
            let i = choose|i: int| 0 <= i < records.len() && (#[trigger] records[i]).index == x;
            assert(back.edges.state(records[i].index.0.index as int) == (
                records[i].index.0.generation,
                true,
            ));
        } else {
            if recorded_at(records, s) {
                let i = choose|i: int|
                    0 <= i < records.len() && (#[trigger] records[i]).index.0.index == s;
                assert(g.has_edge(records[i].index));
                assert(records[i].index == x);
            }
            assert(back.edges.state(s) == mid.edges.state(s));
        }
    }
    assert forall|s: int|
        g.edges.slots.len() <= s < back.edges.slots.len() implies #[trigger] back.edges.state(s)
        == (0u32, false) by {
        if recorded_at(records, s) {
            let i = choose|i: int|
                0 <= i < records.len() && (#[trigger] records[i]).index.0.index == s;
            assert(g.has_edge(records[i].index));
        }
        assert(back.edges.state(s) == mid.edges.state(s));
        assert(h.edges.state(s) == (0u32, false));
    }
}

/// Applying the diff of an added vertex, in a graph that stands for the one
/// before the addition and has the slot, leaves a graph that stands for the
/// one that the addition left.
pub proof fn lemma_forth_add_vertex<V, E>(g: GraphView<V, E>, data: V, u: GraphView<V, E>)
    requires
        g.wf(),
        g.vertices.has_room(),
        u.wf(),
        stands_for(u, g),
        u.vertices.slots.len() >= g.add_vertex(data).vertices.slots.len(),
    ensures
        u.apply_valid(GraphDiffView::AddVertex { index: g.next_vertex(), data }),
        u.apply(GraphDiffView::AddVertex { index: g.next_vertex(), data }).wf(),
        stands_for(
            u.apply(GraphDiffView::AddVertex { index: g.next_vertex(), data }),
            g.add_vertex(data),
        ),
{
    let index = g.next_vertex();
    let vertex = VertexView::<V>::isolated(data);
    let done = g.add_vertex(data);
    g.lemma_add_vertex(data);
    lemma_add_states(g.vertices, vertex);
    lemma_stands_for(u, g);
    let s0 = index.0.index as int;
    assert(u.vertices.state(s0) == (index.0.generation, false)) by {
        if g.vertices.free.len() > 0 {
            assert(u.vertices.state(s0) == g.vertices.state(s0));
        }
    }
    assert(u.vertices.is_open(index.0.index));
    let forth = u.restore_vertex(index, vertex);
    u.lemma_restore_vertex(index, vertex);
    u.lemma_restore_vertex_states(index, vertex);
    assert forall|v: VertexIndex| #[trigger] forth.has_vertex(v) == done.has_vertex(v) by {
        assert(u.has_vertex(v) == g.has_vertex(v));
    }
    assert forall|v: VertexIndex| forth.has_vertex(v) implies (#[trigger] forth.vertex(v)).data
        == done.vertex(v).data by {
        if v != index {
            assert(u.has_vertex(v));
            assert(g.has_vertex(v));
            assert(forth.vertex(v) == u.vertex(v));
            assert(done.vertex(v) == g.vertex(v));
        }
    }
    assert forall|e: EdgeIndex| #[trigger] forth.has_edge(e) == done.has_edge(e) by {
        assert(u.has_edge(e) == g.has_edge(e));
    }
    assert forall|e: EdgeIndex| forth.has_edge(e) implies #[trigger] forth.edge(e) == done.edge(
        e,
    ) by {
        assert(u.has_edge(e));
        assert(g.has_edge(e));
    }
    lemma_same_content(forth, done);
    assert forall|s: int| 0 <= s < done.vertices.slots.len() implies #[trigger] forth.vertices.state(
        s,
    ) == done.vertices.state(s) by {
        if s != s0 {
            assert(forth.vertices.state(s) == u.vertices.state(s));
            assert(u.vertices.state(s) == g.vertices.state(s));
            assert(done.vertices.state(s) == g.vertices.state(s));
        }
    }
    assert forall|s: int|
        done.vertices.slots.len() <= s < forth.vertices.slots.len() implies #[trigger] forth.vertices.state(
        s,
    ) == (0u32, false) by {
        assert(forth.vertices.state(s) == u.vertices.state(s));
        assert(u.vertices.state(s) == (0u32, false));
    }
    assert forall|s: int| 0 <= s < done.edges.slots.len() implies #[trigger] forth.edges.state(s)
        == done.edges.state(s) by {
        assert(u.edges.state(s) == g.edges.state(s));
    }
    assert forall|s: int|
        done.edges.slots.len() <= s < forth.edges.slots.len() implies #[trigger] forth.edges.state(
        s,
    ) == (0u32, false) by {
        assert(u.edges.state(s) == (0u32, false));
    }
}

/// Applying the diff of an added edge, in a graph that stands for the one
/// before the addition and has the slot, leaves a graph that stands for the
/// one that the addition left.
pub proof fn lemma_forth_add_edge<V, E>(
    g: GraphView<V, E>,
    from: VertexIndex,
    to: VertexIndex,
    data: E,
    u: GraphView<V, E>,
)
    requires
        g.wf(),
        g.edges.has_room(),
        g.has_vertex(from),
        g.has_vertex(to),
        u.wf(),
        stands_for(u, g),
        u.edges.slots.len() >= g.add_edge(from, to, data).edges.slots.len(),
    ensures
        u.apply_valid(GraphDiffView::AddEdge { index: g.next_edge(), from, to, data }),
        u.apply(GraphDiffView::AddEdge { index: g.next_edge(), from, to, data }).wf(),
        stands_for(
            u.apply(GraphDiffView::AddEdge { index: g.next_edge(), from, to, data }),
            g.add_edge(from, to, data),
        ),
{
    let index = g.next_edge();
    let edge = Edge { from, to, data };
    let record = RemoveEdgeView { index, edge };
    let done = g.add_edge(from, to, data);
    g.lemma_add_edge(from, to, data);
    g.edges.lemma_add(edge);
    lemma_add_states(g.edges, edge);
    (GraphView { edges: g.edges.add(edge), ..g }).lemma_lists_states(index, from, to);
    lemma_stands_for(u, g);
    let s0 = index.0.index as int;
    assert(u.edges.state(s0) == (index.0.generation, false)) by {
        if g.edges.free.len() > 0 {
            assert(u.edges.state(s0) == g.edges.state(s0));
        }
    }
    assert(u.edges.is_open(index.0.index));
    assert(u.has_vertex(from));
    assert(u.has_vertex(to));
    let forth = u.restore_edge(record);
    u.lemma_restore_edge(record);
    u.lemma_restore_edge_states(record);
    assert forall|v: VertexIndex| #[trigger] forth.has_vertex(v) == done.has_vertex(v) by {
        assert(u.has_vertex(v) == g.has_vertex(v));
        assert(done.has_vertex(v) == g.has_vertex(v));
    }
    assert forall|v: VertexIndex| forth.has_vertex(v) implies (#[trigger] forth.vertex(v)).data
        == done.vertex(v).data by {
        assert(u.has_vertex(v));
        assert(g.has_vertex(v));
        assert(forth.vertex(v).data == u.vertex(v).data);
        assert(done.vertex(v).data == g.vertex(v).data);
    }
    assert forall|e: EdgeIndex| #[trigger] forth.has_edge(e) == done.has_edge(e) by {
        assert(u.has_edge(e) == g.has_edge(e));
        assert(done.edges.contains(e.0) == (g.edges.contains(e.0) || e.0 == index.0));
    }
    assert forall|e: EdgeIndex| forth.has_edge(e) implies #[trigger] forth.edge(e) == done.edge(
        e,
    ) by {
        if e != index {
            assert(u.has_edge(e));
            assert(g.has_edge(e));
            assert(g.edges.contains(e.0));
            assert(done.edges.value(e.0) == g.edges.value(e.0));
        }
    }
    lemma_same_content(forth, done);
    assert forall|s: int| 0 <= s < done.vertices.slots.len() implies #[trigger] forth.vertices.state(
        s,
    ) == done.vertices.state(s) by {
        assert(forth.vertices.state(s) == u.vertices.state(s));
        assert(u.vertices.state(s) == g.vertices.state(s));
        assert(done.vertices.state(s) == g.vertices.state(s));
    }
    assert forall|s: int|
        done.vertices.slots.len() <= s < forth.vertices.slots.len() implies #[trigger] forth.vertices.state(
        s,
    ) == (0u32, false) by {
        assert(forth.vertices.state(s) == u.vertices.state(s));
    }
    assert forall|s: int| 0 <= s < done.edges.slots.len() implies #[trigger] forth.edges.state(s)
        == done.edges.state(s) by {
        if s != s0 {
            assert(forth.edges.state(s) == u.edges.state(s));
            assert(u.edges.state(s) == g.edges.state(s));
            assert(done.edges.state(s) == g.edges.state(s));
        }
    }
    assert forall|s: int|
        done.edges.slots.len() <= s < forth.edges.slots.len() implies #[trigger] forth.edges.state(
        s,
    ) == (0u32, false) by {
        assert(forth.edges.state(s) == u.edges.state(s));
        assert(u.edges.state(s) == (0u32, false));
    }
}

/// Removing an edge in a graph that stands for another leaves a graph that
/// stands for the other without that edge.
pub proof fn lemma_forth_remove_edge<V, E>(g: GraphView<V, E>, index: EdgeIndex, u: GraphView<V, E>)
    requires
        g.wf(),
        g.has_edge(index),
        g.can_remove_edge(index),
        u.wf(),
        stands_for(u, g),
    ensures
        u.has_edge(index),
        u.remove_edge(index).wf(),
        stands_for(u.remove_edge(index), g.remove_edge(index)),
{
    let bumped = (index.0.generation + 1) as u32;
    let done = g.remove_edge(index);
    let forth = u.remove_edge(index);
    lemma_stands_for(u, g);
    assert(u.has_edge(index));
    g.lemma_detach_edge(index, bumped);
    g.lemma_detach_edge_states(index, bumped);
    u.lemma_detach_edge(index, bumped);
    u.lemma_detach_edge_states(index, bumped);
    assert forall|v: VertexIndex| #[trigger] forth.has_vertex(v) == done.has_vertex(v) by {
        assert(u.has_vertex(v) == g.has_vertex(v));
        assert(done.has_vertex(v) == g.has_vertex(v));
    }
    assert forall|v: VertexIndex| forth.has_vertex(v) implies (#[trigger] forth.vertex(v)).data
        == done.vertex(v).data by {
        assert(u.has_vertex(v));
        assert(g.has_vertex(v));
        assert(forth.vertex(v).data == u.vertex(v).data);
        assert(done.vertex(v).data == g.vertex(v).data);
    }
    assert forall|e: EdgeIndex| #[trigger] forth.has_edge(e) == done.has_edge(e) by {
        assert(u.has_edge(e) == g.has_edge(e));
        assert(done.has_edge(e) == (g.has_edge(e) && e != index));
    }
    assert forall|e: EdgeIndex| forth.has_edge(e) implies #[trigger] forth.edge(e) == done.edge(
        e,
    ) by {
        assert(u.has_edge(e));
        assert(g.has_edge(e));
        assert(done.has_edge(e));
    }
    lemma_same_content(forth, done);
    assert forall|s: int| 0 <= s < done.vertices.slots.len() implies #[trigger] forth.vertices.state(
        s,
    ) == done.vertices.state(s) by {
        assert(forth.vertices.state(s) == u.vertices.state(s));
        assert(u.vertices.state(s) == g.vertices.state(s));
        assert(done.vertices.state(s) == g.vertices.state(s));
    }
    assert forall|s: int|
        done.vertices.slots.len() <= s < forth.vertices.slots.len() implies #[trigger] forth.vertices.state(
        s,
    ) == (0u32, false) by {
        assert(forth.vertices.state(s) == u.vertices.state(s));
    }
    assert forall|s: int| 0 <= s < done.edges.slots.len() implies #[trigger] forth.edges.state(s)
        == done.edges.state(s) by {
        if s != index.0.index {
            assert(forth.edges.state(s) == u.edges.state(s));
            assert(u.edges.state(s) == g.edges.state(s));
            assert(done.edges.state(s) == g.edges.state(s));
        }
    }
    assert forall|s: int|
        done.edges.slots.len() <= s < forth.edges.slots.len() implies #[trigger] forth.edges.state(
        s,
    ) == (0u32, false) by {
        assert(forth.edges.state(s) == u.edges.state(s));
        assert(u.edges.state(s) == (0u32, false));
    }
}

/// Removing a vertex in a graph that stands for another leaves a graph that
/// stands for the other without that vertex.
pub proof fn lemma_forth_remove_vertex<V, E>(
    g: GraphView<V, E>,
    index: VertexIndex,
    u: GraphView<V, E>,
)
    requires
        g.wf(),
        g.has_vertex(index),
        g.can_remove_vertex(index),
        u.wf(),
        stands_for(u, g),
    ensures
        u.has_vertex(index),
        u.can_remove_vertex(index),
        u.remove_vertex(index).wf(),
        stands_for(u.remove_vertex(index), g.remove_vertex(index)),
{
    let done = g.remove_vertex(index);
    let forth = u.remove_vertex(index);
    lemma_stands_for(u, g);
    assert(u.has_vertex(index));
    g.lemma_detach_vertex(index, true);
    g.lemma_detach_vertex_states(index, true);
    u.lemma_detach_vertex(index, true);
    u.lemma_detach_vertex_states(index, true);
    assert(u.can_remove_vertex(index)) by {
        assert forall|i: int| 0 <= i < u.incident(index).len() implies (#[trigger] u.incident(
            index,
        )[i]).0.generation < u32::MAX by {
            let e = u.incident(index)[i];
            assert(u.incident(index).contains(e));
            u.lemma_incident(index, e);
            assert(g.has_edge(e));
            assert(u.touches(e, index) == g.touches(e, index));
            g.lemma_incident(index, e);
            let k = choose|k: int| 0 <= k < g.incident(index).len() && g.incident(index)[k] == e;
            assert(g.incident(index)[k].0.generation < u32::MAX);
        }
    }
    assert forall|v: VertexIndex| #[trigger] forth.has_vertex(v) == done.has_vertex(v) by {
        assert(u.has_vertex(v) == g.has_vertex(v));
        assert(done.has_vertex(v) == (g.has_vertex(v) && v != index));
    }
    assert forall|v: VertexIndex| forth.has_vertex(v) implies (#[trigger] forth.vertex(v)).data
        == done.vertex(v).data by {
        assert(u.has_vertex(v));
        assert(g.has_vertex(v));
        assert(forth.vertex(v).data == u.vertex(v).data);
        assert(done.vertex(v).data == g.vertex(v).data);
    }
    assert forall|e: EdgeIndex| #[trigger] forth.has_edge(e) == done.has_edge(e) by {
        assert(u.has_edge(e) == g.has_edge(e));
        assert(done.has_edge(e) == (g.has_edge(e) && !g.touches(e, index)));
        if g.has_edge(e) {
            assert(u.touches(e, index) == g.touches(e, index));
        }
    }
    assert forall|e: EdgeIndex| forth.has_edge(e) implies #[trigger] forth.edge(e) == done.edge(
        e,
    ) by {
        assert(u.has_edge(e));
        assert(g.has_edge(e));
        assert(done.has_edge(e));
    }
    lemma_same_content(forth, done);
    assert forall|s: int| 0 <= s < done.vertices.slots.len() implies #[trigger] forth.vertices.state(
        s,
    ) == done.vertices.state(s) by {
        if s != index.0.index {
            assert(forth.vertices.state(s) == u.vertices.state(s));
            assert(u.vertices.state(s) == g.vertices.state(s));
            assert(done.vertices.state(s) == g.vertices.state(s));
        }
    }
    assert forall|s: int|
        done.vertices.slots.len() <= s < forth.vertices.slots.len() implies #[trigger] forth.vertices.state(
        s,
    ) == (0u32, false) by {
        assert(forth.vertices.state(s) == u.vertices.state(s));
        assert(u.vertices.state(s) == (0u32, false));
    }
    assert forall|s: int| 0 <= s < done.edges.slots.len() implies #[trigger] forth.edges.state(s)
        == done.edges.state(s) by {
        assert(u.edges.state(s) == g.edges.state(s));
        let x = EdgeIndex(g.edges.handle_at(s));
        assert(u.edges.handle_at(s) == g.edges.handle_at(s));
        if g.edges.state(s).1 {
            assert(g.has_edge(x));
            assert(u.touches(x, index) == g.touches(x, index));
        }
    }
    assert forall|s: int|
        done.edges.slots.len() <= s < forth.edges.slots.len() implies #[trigger] forth.edges.state(
        s,
    ) == (0u32, false) by {
        assert(u.edges.state(s) == (0u32, false));
    }
}

/// The two graphs have as many slots in each table.
pub open spec fn same_size<V, E>(a: GraphView<V, E>, b: GraphView<V, E>) -> bool {
    a.vertices.slots.len() == b.vertices.slots.len() && a.edges.slots.len() == b.edges.slots.len()
}

/// A diff that is rolled back neither adds a slot nor takes one away.
pub proof fn lemma_rollback_size<V, E>(h: GraphView<V, E>, diff: GraphDiffView<V, E>)
    requires
        h.wf(),
        h.rollback_valid(diff),
    ensures
        same_size(h.rollback(diff), h),
{
    match diff {
        GraphDiffView::AddVertex { index, .. } => {
            h.lemma_detach_vertex_states(index, false);
        },
        GraphDiffView::AddEdge { index, .. } => {
            h.lemma_detach_edge_states(index, index.0.generation);
        },
        GraphDiffView::RemoveEdge { index, edge } => {
            h.lemma_restore_edge_states(RemoveEdgeView { index, edge });
        },
        GraphDiffView::RemoveVertex { index, vertex, removed_edges } => {
            let mid = h.restore_vertex(index, vertex);
            h.lemma_restore_vertex(index, vertex);
            h.lemma_restore_vertex_states(index, vertex);
            assert forall|i: int| 0 <= i < removed_edges.len() implies {
                let r = #[trigger] removed_edges[i];
                &&& mid.edges.is_open(r.index.0.index)
                &&& mid.has_vertex(r.edge.from)
                &&& mid.has_vertex(r.edge.to)
            } by {
                let r = removed_edges[i];
                assert(h.edges.is_open_at(r.index.0.index as int, r.index.0.generation + 1));
                assert(mid.has_vertex(r.edge.from) == (h.has_vertex(r.edge.from) || r.edge.from
                    == index));
                assert(mid.has_vertex(r.edge.to) == (h.has_vertex(r.edge.to) || r.edge.to == index));
            }
            mid.lemma_restore_edges_states(removed_edges);
        },
        GraphDiffView::UpdateVertexData { index, before, .. } => {
            h.lemma_with_vertex_states(index, VertexView { data: before, ..h.vertex(index) });
        },
        GraphDiffView::UpdateEdgeData { index, .. } => {},
    }
}

/// A diff that is applied neither adds a slot nor takes one away.
pub proof fn lemma_apply_size<V, E>(u: GraphView<V, E>, diff: GraphDiffView<V, E>)
    requires
        u.wf(),
        u.apply_valid(diff),
    ensures
        same_size(u.apply(diff), u),
{
    match diff {
        GraphDiffView::AddVertex { index, data } => {
            u.lemma_restore_vertex_states(index, VertexView::isolated(data));
        },
        GraphDiffView::AddEdge { index, from, to, data } => {
            u.lemma_restore_edge_states(RemoveEdgeView { index, edge: Edge { from, to, data } });
        },
        GraphDiffView::RemoveEdge { index, .. } => {
            u.lemma_detach_edge_states(index, (index.0.generation + 1) as u32);
        },
        GraphDiffView::RemoveVertex { index, .. } => {
            u.lemma_detach_vertex_states(index, true);
        },
        GraphDiffView::UpdateVertexData { index, after, .. } => {
            u.lemma_with_vertex_states(index, VertexView { data: after, ..u.vertex(index) });
        },
        GraphDiffView::UpdateEdgeData { index, .. } => {},
    }
}

/// The payload of a vertex put in place of itself changes nothing.
pub proof fn lemma_update_vertex_same<V, E>(g: GraphView<V, E>, index: VertexIndex)
    requires
        g.has_vertex(index),
    ensures
        g.update_vertex(index, g.vertex(index).data) == g,
{
    assert(g.update_vertex(index, g.vertex(index).data).vertices.slots =~= g.vertices.slots);
}

/// The payload of an edge put in place of itself changes nothing.
pub proof fn lemma_update_edge_same<V, E>(g: GraphView<V, E>, index: EdgeIndex)
    requires
        g.has_edge(index),
    ensures
        g.update_edge(index, g.edge(index).data) == g,
{
    assert(g.update_edge(index, g.edge(index).data).edges.slots =~= g.edges.slots);
}

/// One step back: in a graph that stands for the one that a mutation left,
/// the diff of the mutation can be rolled back, and what is left stands for
/// the graph before the mutation.
pub proof fn lemma_step_back<V, E>(g: GraphView<V, E>, op: GraphOp<V, E>, h: GraphView<V, E>)
    requires
        g.wf(),
        g.step_ok(op),
        h.wf(),
        stands_for(h, g.step(op)),
    ensures
        match diff_of(g, op) {
            Some(diff) => {
                &&& h.rollback_valid(diff)
                &&& h.rollback(diff).wf()
                &&& stands_for(h.rollback(diff), g)
                &&& same_size(h.rollback(diff), h)
            },
            None => stands_for(h, g),
        },
{
    match op {
        GraphOp::AddVertex { data } => {
            lemma_back_add_vertex(g, data, h);
        },
        GraphOp::AddEdge { from, to, data } => {
            if g.has_vertex(from) && g.has_vertex(to) {
                lemma_back_add_edge(g, from, to, data, h);
            }
        },
        GraphOp::UpdateVertex { index, data } => {
            if g.has_vertex(index) {
                lemma_update_vertex_stands(h, g, index, g.vertex(index).data, data);
                lemma_update_vertex_same(g, index);
            }
        },
        GraphOp::UpdateEdge { index, data } => {
            if g.has_edge(index) {
                lemma_update_edge_stands(h, g, index, g.edge(index).data, data);
                lemma_update_edge_same(g, index);
            }
        },
        GraphOp::RemoveEdge { index } => {
            if g.has_edge(index) {
                lemma_back_remove_edge(g, index, h);
            }
        },
        GraphOp::RemoveVertex { index } => {
            if g.has_vertex(index) {
                lemma_back_remove_vertex(g, index, h);
            }
        },
    }
    if diff_of(g, op) is Some {
        lemma_rollback_size(h, diff_of(g, op).unwrap());
    }
}

/// One step forth: in a graph that stands for the one before a mutation,
/// and that has the slots that the mutation made, the diff of the mutation
/// can be applied, and what is left stands for the graph that the mutation
/// left.
pub proof fn lemma_step_forth<V, E>(g: GraphView<V, E>, op: GraphOp<V, E>, u: GraphView<V, E>)
    requires
        g.wf(),
        g.step_ok(op),
        u.wf(),
        stands_for(u, g),
        u.vertices.slots.len() >= g.step(op).vertices.slots.len(),
        u.edges.slots.len() >= g.step(op).edges.slots.len(),
    ensures
        match diff_of(g, op) {
            Some(diff) => {
                &&& u.apply_valid(diff)
                &&& u.can_apply(diff)
                &&& u.apply(diff).wf()
                &&& stands_for(u.apply(diff), g.step(op))
                &&& same_size(u.apply(diff), u)
            },
            None => stands_for(u, g.step(op)),
        },
{
    match op {
        GraphOp::AddVertex { data } => {
            lemma_forth_add_vertex(g, data, u);
        },
        GraphOp::AddEdge { from, to, data } => {
            if g.has_vertex(from) && g.has_vertex(to) {
                lemma_forth_add_edge(g, from, to, data, u);
            }
        },
        GraphOp::UpdateVertex { index, data } => {
            if g.has_vertex(index) {
                lemma_update_vertex_same(g, index);
                lemma_update_vertex_stands(u, g, index, data, g.vertex(index).data);
            }
        },
        GraphOp::UpdateEdge { index, data } => {
            if g.has_edge(index) {
                lemma_update_edge_same(g, index);
                lemma_update_edge_stands(u, g, index, data, g.edge(index).data);
            }
        },
        GraphOp::RemoveEdge { index } => {
            if g.has_edge(index) {
                lemma_forth_remove_edge(g, index, u);
            }
        },
        GraphOp::RemoveVertex { index } => {
            if g.has_vertex(index) {
                lemma_forth_remove_vertex(g, index, u);
            }
        },
    }
    if diff_of(g, op) is Some {
        lemma_apply_size(u, diff_of(g, op).unwrap());
    }
}

/// The graph `h` after the diffs of the run `ops` from `g` have been
/// rolled back, the last one first.
pub open spec fn unwound<V, E>(
    g: GraphView<V, E>,
    ops: Seq<GraphOp<V, E>>,
    h: GraphView<V, E>,
) -> GraphView<V, E>
    decreases ops.len(),
{
    if ops.len() == 0 {
        h
    } else {
        match diff_of(g.run(ops.drop_last()), ops.last()) {
            Some(diff) => unwound(g, ops.drop_last(), h.rollback(diff)),
            None => unwound(g, ops.drop_last(), h),
        }
    }
}

/// Each diff of the run `ops` from `g` can be rolled back in its turn, the
/// last one first, starting in `h`.
pub open spec fn unwinds<V, E>(
    g: GraphView<V, E>,
    ops: Seq<GraphOp<V, E>>,
    h: GraphView<V, E>,
) -> bool
    decreases ops.len(),
{
    if ops.len() == 0 {
        true
    } else {
        match diff_of(g.run(ops.drop_last()), ops.last()) {
            Some(diff) => h.rollback_valid(diff) && unwinds(g, ops.drop_last(), h.rollback(diff)),
            None => unwinds(g, ops.drop_last(), h),
        }
    }
}

/// The graph `u` after the diffs of the run `ops` from `g` have been
/// applied, the first one first.
pub open spec fn rewound<V, E>(
    g: GraphView<V, E>,
    ops: Seq<GraphOp<V, E>>,
    u: GraphView<V, E>,
) -> GraphView<V, E>
    decreases ops.len(),
{
    if ops.len() == 0 {
        u
    } else {
        match diff_of(g.run(ops.drop_last()), ops.last()) {
            Some(diff) => rewound(g, ops.drop_last(), u).apply(diff),
            None => rewound(g, ops.drop_last(), u),
        }
    }
}

/// Each diff of the run `ops` from `g` can be applied in its turn, the
/// first one first, starting in `u`.
pub open spec fn rewinds<V, E>(
    g: GraphView<V, E>,
    ops: Seq<GraphOp<V, E>>,
    u: GraphView<V, E>,
) -> bool
    decreases ops.len(),
{
    if ops.len() == 0 {
        true
    } else {
        rewinds(g, ops.drop_last(), u) && match diff_of(g.run(ops.drop_last()), ops.last()) {
            Some(diff) => rewound(g, ops.drop_last(), u).apply_valid(diff) && rewound(
                g,
                ops.drop_last(),
                u,
            ).can_apply(diff),
            None => true,
        }
    }
}

/// Undo: in a graph that stands for the one that a run of mutations left,
/// the diffs of the run can be rolled back one after the other, the last
/// one first, and what is left stands for the graph before the run.
pub proof fn lemma_undo<V, E>(g: GraphView<V, E>, ops: Seq<GraphOp<V, E>>, h: GraphView<V, E>)
    requires
        g.wf(),
        g.run_ok(ops),
        h.wf(),
        stands_for(h, g.run(ops)),
    ensures
        unwinds(g, ops, h),
        unwound(g, ops, h).wf(),
        stands_for(unwound(g, ops, h), g),
        same_size(unwound(g, ops, h), h),
    decreases ops.len(),
{
    if ops.len() > 0 {
        let front = ops.drop_last();
        let before = g.run(front);
        g.lemma_run(front);
        lemma_step_back(before, ops.last(), h);
        match diff_of(before, ops.last()) {
            Some(diff) => {
                lemma_undo(g, front, h.rollback(diff));
            },
            None => {
                lemma_undo(g, front, h);
            },
        }
    }
}

/// Redo: in a graph that stands for the one before a run of mutations, and
/// that has the slots that the run made, the diffs of the run can be
/// applied one after the other, the first one first, and what is left
/// stands for the graph that the run left.
pub proof fn lemma_redo<V, E>(g: GraphView<V, E>, ops: Seq<GraphOp<V, E>>, u: GraphView<V, E>)
    requires
        g.wf(),
        g.run_ok(ops),
        u.wf(),
        stands_for(u, g),
        u.vertices.slots.len() >= g.run(ops).vertices.slots.len(),
        u.edges.slots.len() >= g.run(ops).edges.slots.len(),
    ensures
        rewinds(g, ops, u),
        rewound(g, ops, u).wf(),
        stands_for(rewound(g, ops, u), g.run(ops)),
        same_size(rewound(g, ops, u), u),
    decreases ops.len(),
{
    if ops.len() > 0 {
        let front = ops.drop_last();
        let before = g.run(front);
        g.lemma_run(front);
        before.lemma_step(ops.last());
        lemma_redo(g, front, u);
        lemma_step_forth(before, ops.last(), rewound(g, front, u));
    }
}

/// Undo and redo of a whole history. After any run of mutations, the diffs
/// that the mutations handed out can be rolled back one after the other,
/// the last one first, which leaves what the graph held before the run;
/// and they can then be applied again one after the other, the first one
/// first, which leaves what the graph held after the run.
pub proof fn lemma_undo_redo<V, E>(g: GraphView<V, E>, ops: Seq<GraphOp<V, E>>)
    requires
        g.wf(),
        g.run_ok(ops),
    ensures
        unwinds(g, ops, g.run(ops)),
        same_content(unwound(g, ops, g.run(ops)), g),
        rewinds(g, ops, unwound(g, ops, g.run(ops))),
        same_content(rewound(g, ops, unwound(g, ops, g.run(ops))), g.run(ops)),
{
    let end = g.run(ops);
    g.lemma_run(ops);
    lemma_stands_self(end);
    lemma_undo(g, ops, end);
    lemma_redo(g, ops, unwound(g, ops, end));
}

/// A graph under the invariant stands for itself.
pub proof fn lemma_stands_self<V, E>(g: GraphView<V, E>)
    requires
        g.adjacent(),
    ensures
        stands_for(g, g),
{
    lemma_same_content(g, g);
}

} // verus!

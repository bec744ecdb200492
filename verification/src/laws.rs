//! What holds of every graph and every diff: a diff that a mutation hands
//! out undoes that mutation and makes it again.

use vstd::prelude::*;
use crate::gen_vec::{GenVecView, Index};
use crate::graph::{Edge, EdgeIndex, VertexIndex, VertexView};
use crate::graph_diff::{GraphDiffView, RemoveEdgeView};
use crate::graph_model::{GraphOp, GraphView};

verus! {

/// Two graphs hold the same thing: the same live vertices with the same
/// payloads, the same live edges with the same endpoints and payloads, and
/// each vertex lists the same edges (in whatever order).
pub open spec fn same_content<V, E>(a: GraphView<V, E>, b: GraphView<V, E>) -> bool {
    &&& forall|v: VertexIndex| #[trigger] a.has_vertex(v) == b.has_vertex(v)
    &&& forall|v: VertexIndex|
        a.has_vertex(v) ==> (#[trigger] a.vertex(v)).data == b.vertex(v).data
    &&& forall|v: VertexIndex, c: (VertexIndex, EdgeIndex)|
        a.has_vertex(v) ==> (#[trigger] a.out_adj(v).contains(c)) == b.out_adj(v).contains(c)
    &&& forall|v: VertexIndex, c: (VertexIndex, EdgeIndex)|
        a.has_vertex(v) ==> (#[trigger] a.in_adj(v).contains(c)) == b.in_adj(v).contains(c)
    &&& forall|e: EdgeIndex| #[trigger] a.has_edge(e) == b.has_edge(e)
    &&& forall|e: EdgeIndex| a.has_edge(e) ==> #[trigger] a.edge(e) == b.edge(e)
}

/// Under the adjacency invariant the lists follow from the edges: two
/// graphs with the same vertices and the same edges hold the same thing.
pub proof fn lemma_same_content<V, E>(a: GraphView<V, E>, b: GraphView<V, E>)
    requires
        a.adjacent(),
        b.adjacent(),
        forall|v: VertexIndex| #[trigger] a.has_vertex(v) == b.has_vertex(v),
        forall|v: VertexIndex|
            a.has_vertex(v) ==> (#[trigger] a.vertex(v)).data == b.vertex(v).data,
        forall|e: EdgeIndex| #[trigger] a.has_edge(e) == b.has_edge(e),
        forall|e: EdgeIndex| a.has_edge(e) ==> #[trigger] a.edge(e) == b.edge(e),
    ensures
        same_content(a, b),
{
    assert forall|v: VertexIndex, c: (VertexIndex, EdgeIndex)| a.has_vertex(v) implies (
    #[trigger] a.out_adj(v).contains(c)) == b.out_adj(v).contains(c) by {
        assert(b.has_vertex(v));
        a.lemma_out_adj(v, c);
        b.lemma_out_adj(v, c);
        assert(a.has_edge(c.1) == b.has_edge(c.1));
        if a.has_edge(c.1) {
            assert(a.edge(c.1) == b.edge(c.1));
        }
    }
    assert forall|v: VertexIndex, c: (VertexIndex, EdgeIndex)| a.has_vertex(v) implies (
    #[trigger] a.in_adj(v).contains(c)) == b.in_adj(v).contains(c) by {
        assert(b.has_vertex(v));
        a.lemma_in_adj(v, c);
        b.lemma_in_adj(v, c);
        assert(a.has_edge(c.1) == b.has_edge(c.1));
        if a.has_edge(c.1) {
            assert(a.edge(c.1) == b.edge(c.1));
        }
    }
}

/// The diff of `add_vertex` can be rolled back, which leaves what the graph
/// held before; it can then be applied again, which leaves what the graph
/// held after the addition, the new vertex under the same handle.
pub proof fn lemma_add_vertex_round_trip<V, E>(g: GraphView<V, E>, data: V)
    requires
        g.wf(),
        g.vertices.has_room(),
    ensures
        ({
            let diff = GraphDiffView::AddVertex { index: g.next_vertex(), data };
            let done = g.add_vertex(data);
            let undone = done.rollback(diff);
            let redone = undone.apply(diff);
            &&& done.rollback_valid(diff)
            &&& undone.wf()
            &&& same_content(undone, g)
            &&& undone.apply_valid(diff)
            &&& undone.can_apply(diff)
            &&& redone.wf()
            &&& same_content(redone, done)
            &&& redone.has_vertex(g.next_vertex())
        }),
{
    let index = g.next_vertex();
    let diff = GraphDiffView::<V, E>::AddVertex { index, data };
    let done = g.add_vertex(data);
    g.lemma_add_vertex(data);
    let undone = done.rollback(diff);
    done.lemma_detach_vertex(index, false);
    lemma_same_content(undone, g);
    let redone = undone.apply(diff);
    undone.lemma_restore_vertex(index, VertexView::isolated(data));
    lemma_same_content(redone, done);
}

/// The diff of `add_edge` can be rolled back, which leaves what the graph
/// held before; it can then be applied again, which leaves what the graph
/// held after the addition, the new edge under the same handle.
pub proof fn lemma_add_edge_round_trip<V, E>(
    g: GraphView<V, E>,
    from: VertexIndex,
    to: VertexIndex,
    data: E,
)
    requires
        g.wf(),
        g.edges.has_room(),
        g.has_vertex(from),
        g.has_vertex(to),
    ensures
        ({
            let diff = GraphDiffView::AddEdge { index: g.next_edge(), from, to, data };
            let done = g.add_edge(from, to, data);
            let undone = done.rollback(diff);
            let redone = undone.apply(diff);
            &&& done.rollback_valid(diff)
            &&& undone.wf()
            &&& same_content(undone, g)
            &&& undone.apply_valid(diff)
            &&& undone.can_apply(diff)
            &&& redone.wf()
            &&& same_content(redone, done)
            &&& redone.has_edge(g.next_edge())
        }),
{
    let index = g.next_edge();
    let diff = GraphDiffView::<V, E>::AddEdge { index, from, to, data };
    let done = g.add_edge(from, to, data);
    g.lemma_add_edge(from, to, data);
    let undone = done.rollback(diff);
    done.lemma_detach_edge(index, index.0.generation);
    done.edges.lemma_vacate(index.0, index.0.generation);
    assert forall|v: VertexIndex| #[trigger] undone.has_vertex(v) == g.has_vertex(v) by {
        assert(done.has_vertex(v) == g.has_vertex(v));
    }
    assert forall|v: VertexIndex| undone.has_vertex(v) implies (#[trigger] undone.vertex(v)).data
        == g.vertex(v).data by {
        assert(done.has_vertex(v));
        assert(g.has_vertex(v));
    }
    assert forall|e: EdgeIndex| #[trigger] undone.has_edge(e) == g.has_edge(e) by {
        assert(done.has_edge(e) == (g.has_edge(e) || e == index)) by {
            assert(done.edges.contains(e.0) == (g.edges.contains(e.0) || e.0 == index.0)) by {
                g.edges.lemma_add(Edge { from, to, data });
            }
        }
    }
    assert forall|e: EdgeIndex| undone.has_edge(e) implies #[trigger] undone.edge(e) == g.edge(
        e,
    ) by {
        g.edges.lemma_add(Edge { from, to, data });
        assert(done.has_edge(e));
        assert(g.has_edge(e));
        assert(done.edges.value(e.0) == g.edges.value(e.0));
    }
    lemma_same_content(undone, g);
    let redone = undone.apply(diff);
    assert(undone.has_vertex(from));
    assert(undone.has_vertex(to));
    undone.lemma_restore_edge(RemoveEdgeView { index, edge: Edge { from, to, data } });
    assert forall|v: VertexIndex| #[trigger] redone.has_vertex(v) == done.has_vertex(v) by {
        assert(undone.has_vertex(v) == g.has_vertex(v));
    }
    assert forall|v: VertexIndex| redone.has_vertex(v) implies (#[trigger] redone.vertex(v)).data
        == done.vertex(v).data by {
        assert(undone.has_vertex(v));
        assert(done.has_vertex(v));
        assert(g.has_vertex(v));
    }
    assert forall|e: EdgeIndex| #[trigger] redone.has_edge(e) == done.has_edge(e) by {
        assert(undone.has_edge(e) == g.has_edge(e));
        assert(done.edges.contains(e.0) == (g.edges.contains(e.0) || e.0 == index.0)) by {
            g.edges.lemma_add(Edge { from, to, data });
        }
    }
    assert forall|e: EdgeIndex| redone.has_edge(e) implies #[trigger] redone.edge(e) == done.edge(
        e,
    ) by {
        g.edges.lemma_add(Edge { from, to, data });
        if e != index {
            assert(undone.has_edge(e));
            assert(g.has_edge(e));
            assert(done.edges.value(e.0) == g.edges.value(e.0));
        }
    }
    lemma_same_content(redone, done);
}

/// The diff of `update_vertex` can be rolled back, which leaves the graph
/// as it was; it can then be applied again, which leaves the graph as the
/// update left it.
pub proof fn lemma_update_vertex_round_trip<V, E>(g: GraphView<V, E>, index: VertexIndex, data: V)
    requires
        g.wf(),
        g.has_vertex(index),
    ensures
        ({
            let diff = GraphDiffView::UpdateVertexData {
                index,
                before: g.vertex(index).data,
                after: data,
            };
            let done = g.update_vertex(index, data);
            let undone = done.rollback(diff);
            let redone = undone.apply(diff);
            &&& done.rollback_valid(diff)
            &&& undone.wf()
            &&& same_content(undone, g)
            &&& undone.apply_valid(diff)
            &&& undone.can_apply(diff)
            &&& redone.wf()
            &&& same_content(redone, done)
        }),
{
    let before = g.vertex(index).data;
    let diff = GraphDiffView::<V, E>::UpdateVertexData { index, before, after: data };
    let done = g.update_vertex(index, data);
    g.lemma_update_vertex(index, data);
    let undone = done.rollback(diff);
    done.lemma_update_vertex(index, before);
    assert forall|v: VertexIndex| #[trigger] undone.has_vertex(v) == g.has_vertex(v) by {
        assert(done.has_vertex(v) == g.has_vertex(v));
    }
    assert forall|v: VertexIndex| undone.has_vertex(v) implies (#[trigger] undone.vertex(v)).data
        == g.vertex(v).data by {
        assert(done.has_vertex(v));
        if v != index {
            assert(undone.vertex(v) == done.vertex(v));
            assert(done.vertex(v) == g.vertex(v));
        }
    }
    lemma_same_content(undone, g);
    let redone = undone.apply(diff);
    undone.lemma_update_vertex(index, data);
    assert forall|v: VertexIndex| #[trigger] redone.has_vertex(v) == done.has_vertex(v) by {
        assert(undone.has_vertex(v) == done.has_vertex(v));
    }
    assert forall|v: VertexIndex| redone.has_vertex(v) implies (#[trigger] redone.vertex(v)).data
        == done.vertex(v).data by {
        assert(undone.has_vertex(v));
        assert(done.has_vertex(v));
        if v != index {
            assert(redone.vertex(v) == undone.vertex(v));
            assert(undone.vertex(v) == done.vertex(v));
        }
    }
    lemma_same_content(redone, done);
}

/// The diff of `update_edge` can be rolled back, which leaves the graph as
/// it was; it can then be applied again, which leaves the graph as the
/// update left it.
pub proof fn lemma_update_edge_round_trip<V, E>(g: GraphView<V, E>, index: EdgeIndex, data: E)
    requires
        g.wf(),
        g.has_edge(index),
    ensures
        ({
            let diff = GraphDiffView::UpdateEdgeData {
                index,
                before: g.edge(index).data,
                after: data,
            };
            let done = g.update_edge(index, data);
            let undone = done.rollback(diff);
            let redone = undone.apply(diff);
            &&& done.rollback_valid(diff)
            &&& undone.wf()
            &&& same_content(undone, g)
            &&& undone.apply_valid(diff)
            &&& undone.can_apply(diff)
            &&& redone.wf()
            &&& same_content(redone, done)
        }),
{
    let before = g.edge(index).data;
    let diff = GraphDiffView::<V, E>::UpdateEdgeData { index, before, after: data };
    let done = g.update_edge(index, data);
    g.lemma_update_edge(index, data);
    let undone = done.rollback(diff);
    done.lemma_update_edge(index, before);
    assert forall|e: EdgeIndex| #[trigger] undone.has_edge(e) == g.has_edge(e) by {
        assert(done.has_edge(e) == g.has_edge(e));
    }
    assert forall|e: EdgeIndex| undone.has_edge(e) implies #[trigger] undone.edge(e) == g.edge(
        e,
    ) by {
        assert(done.has_edge(e));
        if e != index {
            assert(undone.edge(e) == done.edge(e));
            assert(done.edge(e) == g.edge(e));
        }
    }
    lemma_same_content(undone, g);
    let redone = undone.apply(diff);
    undone.lemma_update_edge(index, data);
    assert forall|e: EdgeIndex| #[trigger] redone.has_edge(e) == done.has_edge(e) by {
        assert(undone.has_edge(e) == done.has_edge(e));
    }
    assert forall|e: EdgeIndex| redone.has_edge(e) implies #[trigger] redone.edge(e) == done.edge(
        e,
    ) by {
        assert(undone.has_edge(e));
        assert(done.has_edge(e));
        if e != index {
            assert(redone.edge(e) == undone.edge(e));
            assert(undone.edge(e) == done.edge(e));
        }
    }
    lemma_same_content(redone, done);
}

/// The diff of `remove_edge` can be rolled back, which leaves what the
/// graph held before, the edge under its old handle; it can then be applied
/// again, which leaves what the graph held after the removal.
pub proof fn lemma_remove_edge_round_trip<V, E>(g: GraphView<V, E>, index: EdgeIndex)
    requires
        g.wf(),
        g.has_edge(index),
        g.can_remove_edge(index),
    ensures
        ({
            let diff = GraphDiffView::RemoveEdge { index, edge: g.edge(index) };
            let done = g.remove_edge(index);
            let undone = done.rollback(diff);
            let redone = undone.apply(diff);
            &&& !done.has_edge(index)
            &&& done.rollback_valid(diff)
            &&& undone.wf()
            &&& same_content(undone, g)
            &&& undone.apply_valid(diff)
            &&& undone.can_apply(diff)
            &&& redone.wf()
            &&& same_content(redone, done)
        }),
{
    let edge = g.edge(index);
    let diff = GraphDiffView::<V, E>::RemoveEdge { index, edge };
    let done = g.remove_edge(index);
    let bumped = (index.0.generation + 1) as u32;
    g.lemma_detach_edge(index, bumped);
    g.edges.lemma_vacate(index.0, bumped);
    assert(g.edge_linked(index));
    assert(done.has_vertex(edge.from));
    assert(done.has_vertex(edge.to));
    let undone = done.rollback(diff);
    done.lemma_restore_edge(RemoveEdgeView { index, edge });
    assert forall|v: VertexIndex| #[trigger] undone.has_vertex(v) == g.has_vertex(v) by {
        assert(done.has_vertex(v) == g.has_vertex(v));
    }
    assert forall|v: VertexIndex| undone.has_vertex(v) implies (#[trigger] undone.vertex(v)).data
        == g.vertex(v).data by {
        assert(done.has_vertex(v));
        assert(g.has_vertex(v));
    }
    assert forall|e: EdgeIndex| #[trigger] undone.has_edge(e) == g.has_edge(e) by {
        assert(done.has_edge(e) == (g.has_edge(e) && e != index));
    }
    assert forall|e: EdgeIndex| undone.has_edge(e) implies #[trigger] undone.edge(e) == g.edge(
        e,
    ) by {
        if e != index {
            assert(done.has_edge(e));
            assert(done.edge(e) == g.edge(e));
        }
    }
    lemma_same_content(undone, g);
    let redone = undone.apply(diff);
    undone.lemma_detach_edge(index, bumped);
    assert forall|v: VertexIndex| #[trigger] redone.has_vertex(v) == done.has_vertex(v) by {
        assert(undone.has_vertex(v) == done.has_vertex(v));
    }
    assert forall|v: VertexIndex| redone.has_vertex(v) implies (#[trigger] redone.vertex(v)).data
        == done.vertex(v).data by {
        assert(undone.has_vertex(v));
        assert(done.has_vertex(v));
    }
    assert forall|e: EdgeIndex| #[trigger] redone.has_edge(e) == done.has_edge(e) by {
        assert(undone.has_edge(e) == (done.has_edge(e) || e == index));
    }
    assert forall|e: EdgeIndex| redone.has_edge(e) implies #[trigger] redone.edge(e) == done.edge(
        e,
    ) by {
        assert(undone.has_edge(e));
        assert(done.has_edge(e));
        assert(undone.edge(e) == done.edge(e));
    }
    lemma_same_content(redone, done);
}

/// The diff that `remove_vertex` hands out for the vertex `index`.
pub open spec fn remove_vertex_diff<V, E>(g: GraphView<V, E>, index: VertexIndex) -> GraphDiffView<
    V,
    E,
> {
    GraphDiffView::RemoveVertex {
        index,
        vertex: VertexView::isolated(g.vertex(index).data),
        removed_edges: g.removed_records(g.incident(index)),
    }
}

/// Removing a vertex removes exactly the edges that touch it, and the diff
/// records each of them once, as it was: the records are as many as the
/// edges that touched the vertex.
pub proof fn lemma_cascade<V, E>(g: GraphView<V, E>, index: VertexIndex)
    requires
        g.wf(),
        g.has_vertex(index),
    ensures
        ({
            let done = g.remove_vertex(index);
            let records = g.removed_records(g.incident(index));
            let touching = Set::new(|e: EdgeIndex| g.has_edge(e) && g.touches(e, index));
            &&& done.wf()
            &&& !done.has_vertex(index)
            &&& forall|v: VertexIndex|
                v != index ==> #[trigger] done.has_vertex(v) == g.has_vertex(v)
            &&& forall|e: EdgeIndex| #[trigger]
                done.has_edge(e) == (g.has_edge(e) && !g.touches(e, index))
            &&& forall|e: EdgeIndex| done.has_edge(e) ==> #[trigger] done.edge(e) == g.edge(e)
            &&& forall|i: int|
                0 <= i < records.len() ==> touching.contains((#[trigger] records[i]).index)
                    && records[i].edge == g.edge(records[i].index)
            &&& forall|i: int, j: int|
                0 <= i < j < records.len() ==> records[i].index != records[j].index
            &&& forall|e: EdgeIndex|
                touching.contains(e) ==> exists|i: int|
                    0 <= i < records.len() && (#[trigger] records[i]).index == e
            &&& touching.finite()
            &&& records.len() == touching.len()
        }),
{
    let done = g.remove_vertex(index);
    let list = g.incident(index);
    let records = g.removed_records(list);
    let touching = Set::new(|e: EdgeIndex| g.has_edge(e) && g.touches(e, index));
    g.lemma_detach_vertex(index, true);
    g.lemma_removed_records(list);
    assert forall|i: int| 0 <= i < records.len() implies touching.contains(
        (#[trigger] records[i]).index,
    ) && records[i].edge == g.edge(records[i].index) by {
        g.lemma_incident(index, records[i].index);
    }
    assert forall|e: EdgeIndex| touching.contains(e) implies exists|i: int|
        0 <= i < records.len() && (#[trigger] records[i]).index == e by {
        g.lemma_incident(index, e);
    }
    let handles = Seq::new(records.len(), |i: int| records[i].index);
    assert(handles.no_duplicates());
    assert(handles.to_set() =~= touching) by {
        assert forall|e: EdgeIndex| handles.to_set().contains(e) == touching.contains(e) by {
            if handles.contains(e) {
                let i = choose|i: int| 0 <= i < handles.len() && handles[i] == e;
                assert(touching.contains(records[i].index));
            }
            if touching.contains(e) {
                let i = choose|i: int| 0 <= i < records.len() && (#[trigger] records[i]).index == e;
                assert(handles[i] == e);
            }
        }
    }
    handles.unique_seq_to_set();
    vstd::seq_lib::seq_to_set_is_finite(handles);
}

/// The diff of `remove_vertex` can be rolled back, which leaves what the
/// graph held before, the vertex and every edge that touched it under their
/// old handles; it can then be applied again, which leaves what the graph
/// held after the removal.
pub proof fn lemma_remove_vertex_round_trip<V, E>(g: GraphView<V, E>, index: VertexIndex)
    requires
        g.wf(),
        g.has_vertex(index),
        g.can_remove_vertex(index),
    ensures
        ({
            let diff = remove_vertex_diff(g, index);
            let done = g.remove_vertex(index);
            let undone = done.rollback(diff);
            let redone = undone.apply(diff);
            &&& !done.has_vertex(index)
            &&& done.rollback_valid(diff)
            &&& undone.wf()
            &&& same_content(undone, g)
            &&& undone.apply_valid(diff)
            &&& undone.can_apply(diff)
            &&& redone.wf()
            &&& same_content(redone, done)
        }),
{
    let diff = remove_vertex_diff(g, index);
    let list = g.incident(index);
    let records = g.removed_records(list);
    let vertex = VertexView::isolated(g.vertex(index).data);
    let done = g.remove_vertex(index);
    let cut = g.remove_edges(list, true);
    g.lemma_detach_vertex(index, true);
    g.lemma_removed_records(list);
    g.lemma_remove_edges(list, true);
    g.lemma_remove_edges_open(list);
    assert(cut.has_vertex(index));
    cut.vertices.lemma_vacate(index.0, (index.0.generation + 1) as u32);
    assert(done.edges == cut.edges);
    // The records can be written back.
    assert forall|i: int, j: int| 0 <= i < j < records.len() implies records[i].index.0.index
        != records[j].index.0.index by {
        assert(g.has_edge(records[i].index));
        assert(g.has_edge(records[j].index));
        assert(records[i].index != records[j].index);
    }
    assert forall|i: int| 0 <= i < records.len() implies {
        let r = #[trigger] records[i];
        &&& done.edges.is_open_at(r.index.0.index as int, r.index.0.generation + 1)
        &&& (r.edge.from == index || done.has_vertex(r.edge.from))
        &&& (r.edge.to == index || done.has_vertex(r.edge.to))
    } by {
        let r = records[i];
        assert(g.has_edge(r.index));
        assert(g.edge_linked(r.index));
        assert(cut.edges.is_open_at(r.index.0.index as int, r.index.0.generation + 1));
    }
    assert(done.rollback_valid(diff));
    // Rolling back.
    let mid = done.restore_vertex(index, vertex);
    done.lemma_restore_vertex(index, vertex);
    assert forall|i: int| 0 <= i < records.len() implies {
        let r = #[trigger] records[i];
        &&& mid.edges.is_open(r.index.0.index)
        &&& mid.has_vertex(r.edge.from)
        &&& mid.has_vertex(r.edge.to)
    } by {
        let r = records[i];
        assert(done.edges.is_open_at(r.index.0.index as int, r.index.0.generation + 1));
    }
    mid.lemma_restore_edges(records);
    let undone = done.rollback(diff);
    assert(undone == mid.restore_edges(records));
    assert forall|v: VertexIndex| #[trigger] undone.has_vertex(v) == g.has_vertex(v) by {
        assert(mid.has_vertex(v) == (done.has_vertex(v) || v == index));
        assert(done.has_vertex(v) == (g.has_vertex(v) && v != index));
    }
    assert forall|v: VertexIndex| undone.has_vertex(v) implies (#[trigger] undone.vertex(v)).data
        == g.vertex(v).data by {
        assert(mid.has_vertex(v));
        if v != index {
            assert(done.has_vertex(v));
            assert(mid.vertex(v) == done.vertex(v));
        }
    }
    assert forall|e: EdgeIndex| #[trigger] undone.has_edge(e) == g.has_edge(e) by {
        assert(mid.has_edge(e) == done.has_edge(e));
        assert(done.has_edge(e) == (g.has_edge(e) && !g.touches(e, index)));
        g.lemma_incident(index, e);
        if exists|i: int| 0 <= i < records.len() && (#[trigger] records[i]).index == e {
            let i = choose|i: int| 0 <= i < records.len() && (#[trigger] records[i]).index == e;
            assert(g.has_edge(records[i].index));
        }
    }
    assert forall|e: EdgeIndex| undone.has_edge(e) implies #[trigger] undone.edge(e) == g.edge(
        e,
    ) by {
        assert(mid.has_edge(e) == done.has_edge(e));
        if mid.has_edge(e) {
            assert(mid.edge(e) == done.edge(e));
            assert(done.edge(e) == g.edge(e));
        } else {
            let i = choose|i: int| 0 <= i < records.len() && (#[trigger] records[i]).index == e;
            assert(undone.edge(records[i].index) == records[i].edge);
        }
    }
    lemma_same_content(undone, g);
    // Applying again.
    assert(undone.can_remove_vertex(index)) by {
        assert forall|i: int| 0 <= i < undone.incident(index).len() implies (
        #[trigger] undone.incident(index)[i]).0.generation < u32::MAX by {
            let e = undone.incident(index)[i];
            assert(undone.incident(index).contains(e));
            undone.lemma_incident(index, e);
            assert(g.has_edge(e));
            assert(g.edge(e) == undone.edge(e));
            g.lemma_incident(index, e);
            let k = choose|k: int| 0 <= k < list.len() && list[k] == e;
            assert(list[k].0.generation < u32::MAX);
        }
    }
    let redone = undone.apply(diff);
    undone.lemma_detach_vertex(index, true);
    assert forall|v: VertexIndex| #[trigger] redone.has_vertex(v) == done.has_vertex(v) by {
        assert(undone.has_vertex(v) == g.has_vertex(v));
    }
    assert forall|v: VertexIndex| redone.has_vertex(v) implies (#[trigger] redone.vertex(v)).data
        == done.vertex(v).data by {
        assert(undone.has_vertex(v));
        assert(g.has_vertex(v));
        assert(done.has_vertex(v));
    }
    assert forall|e: EdgeIndex| #[trigger] redone.has_edge(e) == done.has_edge(e) by {
        assert(undone.has_edge(e) == g.has_edge(e));
        if g.has_edge(e) {
            assert(undone.edge(e) == g.edge(e));
        }
    }
    assert forall|e: EdgeIndex| redone.has_edge(e) implies #[trigger] redone.edge(e) == done.edge(
        e,
    ) by {
        assert(undone.has_edge(e));
        assert(g.has_edge(e));
        assert(done.has_edge(e));
    }
    lemma_same_content(redone, done);
}

/// The handle of a removed vertex never resolves again, whatever vertices
/// and edges are added, updated and removed afterwards, also when its slot
/// is used again.
pub proof fn lemma_stale_vertex_rejected<V, E>(
    g: GraphView<V, E>,
    index: VertexIndex,
    ops: Seq<GraphOp<V, E>>,
)
    requires
        g.wf(),
        g.has_vertex(index),
        g.can_remove_vertex(index),
        g.remove_vertex(index).run_ok(ops),
    ensures
        !g.remove_vertex(index).run(ops).has_vertex(index),
{
    let op = GraphOp::<V, E>::RemoveVertex { index };
    g.lemma_step(op);
    let removed = g.remove_vertex(index);
    removed.lemma_run(ops);
    removed.run(ops).vertices.lemma_retired_kept(removed.vertices, index.0);
}

/// The handle of an edge that went with a removed vertex never resolves
/// again, whatever vertices and edges are added, updated and removed
/// afterwards.
pub proof fn lemma_stale_incident_edge_rejected<V, E>(
    g: GraphView<V, E>,
    index: VertexIndex,
    edge: EdgeIndex,
    ops: Seq<GraphOp<V, E>>,
)
    requires
        g.wf(),
        g.has_vertex(index),
        g.has_edge(edge),
        g.touches(edge, index),
        g.can_remove_vertex(index),
        g.remove_vertex(index).run_ok(ops),
    ensures
        !g.remove_vertex(index).run(ops).has_edge(edge),
{
    let op = GraphOp::<V, E>::RemoveVertex { index };
    g.lemma_step(op);
    let removed = g.remove_vertex(index);
    assert(removed.edges.retired(edge.0));
    removed.lemma_run(ops);
    removed.run(ops).edges.lemma_retired_kept(removed.edges, edge.0);
}

/// The handle of a removed edge never resolves again, whatever vertices and
/// edges are added, updated and removed afterwards, also when its slot is
/// used again.
pub proof fn lemma_stale_edge_rejected<V, E>(
    g: GraphView<V, E>,
    index: EdgeIndex,
    ops: Seq<GraphOp<V, E>>,
)
    requires
        g.wf(),
        g.has_edge(index),
        g.can_remove_edge(index),
        g.remove_edge(index).run_ok(ops),
    ensures
        !g.remove_edge(index).run(ops).has_edge(index),
{
    let op = GraphOp::<V, E>::RemoveEdge { index };
    g.lemma_step(op);
    let removed = g.remove_edge(index);
    removed.lemma_run(ops);
    removed.run(ops).edges.lemma_retired_kept(removed.edges, index.0);
}

/// The slot that the diff is about has moved on from the handle that the
/// diff holds.
pub open spec fn handle_retired<V, E>(g: GraphView<V, E>, diff: GraphDiffView<V, E>) -> bool {
    match diff {
        GraphDiffView::AddVertex { index, .. } => g.vertices.retired(index.0),
        GraphDiffView::UpdateVertexData { index, .. } => g.vertices.retired(index.0),
        GraphDiffView::RemoveVertex { index, .. } => g.vertices.retired(index.0),
        GraphDiffView::AddEdge { index, .. } => g.edges.retired(index.0),
        GraphDiffView::UpdateEdgeData { index, .. } => g.edges.retired(index.0),
        GraphDiffView::RemoveEdge { index, .. } => g.edges.retired(index.0),
    }
}

/// A diff is rejected once its slot has moved on: it cannot be applied, and
/// the diff of an addition or an update cannot be rolled back either. (The
/// diff of a removal can be rolled back as long as the slot stands open at
/// the generation that the removal left.)
pub proof fn lemma_stale_diff_rejected<V, E>(g: GraphView<V, E>, diff: GraphDiffView<V, E>)
    requires
        handle_retired(g, diff),
    ensures
        !g.apply_valid(diff),
        !(diff is RemoveVertex) && !(diff is RemoveEdge) ==> !g.rollback_valid(diff),
{
}

/// Once a vertex has been removed, the diffs that added it or gave it a
/// payload are rejected, whatever vertices and edges are added, updated and
/// removed afterwards; and so is the diff of the removal, when applied
/// again.
pub proof fn lemma_diffs_of_removed_vertex_rejected<V, E>(
    g: GraphView<V, E>,
    index: VertexIndex,
    ops: Seq<GraphOp<V, E>>,
    diff: GraphDiffView<V, E>,
)
    requires
        g.wf(),
        g.has_vertex(index),
        g.can_remove_vertex(index),
        g.remove_vertex(index).run_ok(ops),
        match diff {
            GraphDiffView::AddVertex { index: i, .. } => i == index,
            GraphDiffView::UpdateVertexData { index: i, .. } => i == index,
            GraphDiffView::RemoveVertex { index: i, .. } => i == index,
            _ => false,
        },
    ensures
        !g.remove_vertex(index).run(ops).apply_valid(diff),
        !(diff is RemoveVertex) ==> !g.remove_vertex(index).run(ops).rollback_valid(diff),
{
    let op = GraphOp::<V, E>::RemoveVertex { index };
    g.lemma_step(op);
    let removed = g.remove_vertex(index);
    removed.lemma_run(ops);
    removed.run(ops).vertices.lemma_retired_kept(removed.vertices, index.0);
    lemma_stale_diff_rejected(removed.run(ops), diff);
}

/// Once an edge has been removed, the diffs that added it or gave it a
/// payload are rejected, whatever vertices and edges are added, updated and
/// removed afterwards; and so is the diff of the removal, when applied
/// again.
pub proof fn lemma_diffs_of_removed_edge_rejected<V, E>(
    g: GraphView<V, E>,
    index: EdgeIndex,
    ops: Seq<GraphOp<V, E>>,
    diff: GraphDiffView<V, E>,
)
    requires
        g.wf(),
        g.has_edge(index),
        g.can_remove_edge(index),
        g.remove_edge(index).run_ok(ops),
        match diff {
            GraphDiffView::AddEdge { index: i, .. } => i == index,
            GraphDiffView::UpdateEdgeData { index: i, .. } => i == index,
            GraphDiffView::RemoveEdge { index: i, .. } => i == index,
            _ => false,
        },
    ensures
        !g.remove_edge(index).run(ops).apply_valid(diff),
        !(diff is RemoveEdge) ==> !g.remove_edge(index).run(ops).rollback_valid(diff),
{
    let op = GraphOp::<V, E>::RemoveEdge { index };
    g.lemma_step(op);
    let removed = g.remove_edge(index);
    removed.lemma_run(ops);
    removed.run(ops).edges.lemma_retired_kept(removed.edges, index.0);
    lemma_stale_diff_rejected(removed.run(ops), diff);
}

/// A change of a table through its public operations.
pub ghost enum TableOp<T> {
    Add { value: T },
    Remove { index: Index },
    Write { index: Index, value: T },
}

/// The table after one change. A change that names a handle that does not
/// resolve changes nothing.
pub open spec fn table_step<T>(table: GenVecView<T>, op: TableOp<T>) -> GenVecView<T> {
    match op {
        TableOp::Add { value } => table.add(value),
        TableOp::Remove { index } => table.remove(index),
        TableOp::Write { index, value } => if table.contains(index) {
            table.set_value(index, value)
        } else {
            table
        },
    }
}

/// The change runs into no limit of the machine.
pub open spec fn table_step_ok<T>(table: GenVecView<T>, op: TableOp<T>) -> bool {
    match op {
        TableOp::Add { .. } => table.has_room(),
        TableOp::Remove { index } => table.contains(index) ==> index.generation < u32::MAX,
        TableOp::Write { .. } => true,
    }
}

/// The table after the changes of `ops`, one after the other.
pub open spec fn table_run<T>(table: GenVecView<T>, ops: Seq<TableOp<T>>) -> GenVecView<T>
    decreases ops.len(),
{
    if ops.len() == 0 {
        table
    } else {
        table_step(table_run(table, ops.drop_last()), ops.last())
    }
}

/// None of the changes of `ops` runs into a limit of the machine.
pub open spec fn table_run_ok<T>(table: GenVecView<T>, ops: Seq<TableOp<T>>) -> bool
    decreases ops.len(),
{
    ops.len() == 0 || (table_run_ok(table, ops.drop_last()) && table_step_ok(
        table_run(table, ops.drop_last()),
        ops.last(),
    ))
}

/// A run of changes keeps the free list sound and takes no generation back.
pub proof fn lemma_table_run<T>(table: GenVecView<T>, ops: Seq<TableOp<T>>)
    requires
        table.wf(),
        table_run_ok(table, ops),
    ensures
        table_run(table, ops).wf(),
        table_run(table, ops).not_older(table),
    decreases ops.len(),
{
    if ops.len() > 0 {
        lemma_table_run(table, ops.drop_last());
        let before = table_run(table, ops.drop_last());
        let after = table_run(table, ops);
        match ops.last() {
            TableOp::Add { value } => {
                before.lemma_add(value);
                before.lemma_add_not_older(value);
            },
            TableOp::Remove { index } => {
                if before.contains(index) {
                    before.lemma_vacate(index, (index.generation + 1) as u32);
                    before.lemma_vacate_not_older(index, (index.generation + 1) as u32);
                }
            },
            TableOp::Write { index, value } => {
                if before.contains(index) {
                    before.lemma_set_value(index, value);
                    before.lemma_set_value_not_older(index, value);
                }
            },
        }
        after.lemma_not_older_trans(before, table);
    }
}

/// The handle of a removed entry never resolves again, whatever is added,
/// written and removed afterwards, also when its slot is used again.
pub proof fn lemma_stale_index_rejected<T>(
    table: GenVecView<T>,
    index: Index,
    ops: Seq<TableOp<T>>,
)
    requires
        table.wf(),
        table.contains(index),
        index.generation < u32::MAX,
        table_run_ok(table.remove(index), ops),
    ensures
        !table_run(table.remove(index), ops).contains(index),
{
    let removed = table.remove(index);
    table.lemma_vacate(index, (index.generation + 1) as u32);
    table.lemma_vacate_not_older(index, (index.generation + 1) as u32);
    lemma_table_run(removed, ops);
    table_run(removed, ops).lemma_retired_kept(removed, index);
}

} // verus!

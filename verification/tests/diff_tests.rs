use generational_graph::errors::GraphError;
use generational_graph::gen_vec::Index;
use generational_graph::graph::{EdgeIndex, Graph, VertexIndex};
use generational_graph::graph_diff::GraphDiff;

fn vertex_handle(index: usize, generation: u32) -> VertexIndex {
    VertexIndex(Index { index, generation })
}

/// What a graph holds: the vertices with their payloads and sorted lists,
/// and the edges with their endpoints and payloads.
fn content(
    graph: &Graph<i32, i32>,
) -> (
    Vec<(VertexIndex, i32, Vec<(VertexIndex, EdgeIndex)>, Vec<(VertexIndex, EdgeIndex)>)>,
    Vec<(EdgeIndex, VertexIndex, VertexIndex, i32)>,
) {
    let mut vertices = Vec::new();
    for (index, vertex) in graph.vertex_iter() {
        let mut incoming = vertex.get_connections_from().clone();
        incoming.sort();
        let mut outgoing = vertex.get_connections_to().clone();
        outgoing.sort();
        vertices.push((index, *vertex.data(), incoming, outgoing));
    }
    let mut edges = Vec::new();
    for (index, edge) in graph.edge_iter() {
        edges.push((index, edge.get_from(), edge.get_to(), *edge.data()));
    }
    (vertices, edges)
}

fn sample() -> (Graph<i32, i32>, Vec<VertexIndex>, Vec<EdgeIndex>) {
    let mut graph = Graph::new();
    let (a, _) = graph.add_vertex(1);
    let (b, _) = graph.add_vertex(2);
    let (c, _) = graph.add_vertex(3);
    let (ab, _) = graph.add_edge(a, b, 10).unwrap();
    let (bc, _) = graph.add_edge(b, c, 20).unwrap();
    let (ca, _) = graph.add_edge(c, a, 30).unwrap();
    let (bb, _) = graph.add_edge(b, b, 40).unwrap();
    (graph, vec![a, b, c], vec![ab, bc, ca, bb])
}

/// Rolls the diff back and applies it again, and holds both states against
/// the ones given.
fn round_trip(
    graph: &mut Graph<i32, i32>,
    diff: &GraphDiff<i32, i32>,
    before: &(
        Vec<(VertexIndex, i32, Vec<(VertexIndex, EdgeIndex)>, Vec<(VertexIndex, EdgeIndex)>)>,
        Vec<(EdgeIndex, VertexIndex, VertexIndex, i32)>,
    ),
) {
    let after = content(graph);
    assert_eq!(graph.rollback_diff(diff.clone()), Ok(()));
    assert_eq!(&content(graph), before);
    assert_eq!(graph.apply_diff(diff.clone()), Ok(()));
    assert_eq!(content(graph), after);
    assert_eq!(graph.rollback_diff(diff.clone()), Ok(()));
    assert_eq!(&content(graph), before);
    assert_eq!(graph.apply_diff(diff.clone()), Ok(()));
    assert_eq!(content(graph), after);
}

#[test]
fn round_trip_of_add_vertex() {
    let (mut graph, _, _) = sample();
    let before = content(&graph);
    let (index, diff) = graph.add_vertex(9);
    round_trip(&mut graph, &diff, &before);
    assert_eq!(graph.get_vertex_data(index), Some(&9));
}

#[test]
fn round_trip_of_add_vertex_into_a_reused_slot() {
    let (mut graph, vertices, _) = sample();
    graph.remove_vertex(vertices[0]).unwrap();
    let before = content(&graph);
    let (index, diff) = graph.add_vertex(9);
    assert_eq!(index, vertex_handle(0, 1));
    round_trip(&mut graph, &diff, &before);
    assert_eq!(graph.get_vertex_data(index), Some(&9));
}

#[test]
fn round_trip_of_add_edge() {
    let (mut graph, vertices, _) = sample();
    let before = content(&graph);
    let (index, diff) = graph.add_edge(vertices[2], vertices[1], 50).unwrap();
    round_trip(&mut graph, &diff, &before);
    assert_eq!(graph.get_edge_data(index), Some(&50));
}

#[test]
fn round_trip_of_updates() {
    let (mut graph, vertices, edges) = sample();
    let before = content(&graph);
    let (_, diff) = graph.update_vertex(vertices[1], 22).unwrap();
    round_trip(&mut graph, &diff, &before);
    assert_eq!(graph.get_vertex_data(vertices[1]), Some(&22));
    let before = content(&graph);
    let (_, diff) = graph.update_edge(edges[1], 222).unwrap();
    round_trip(&mut graph, &diff, &before);
    assert_eq!(graph.get_edge_data(edges[1]), Some(&222));
}

#[test]
fn round_trip_of_remove_edge() {
    let (mut graph, _, edges) = sample();
    let before = content(&graph);
    let (_, diff) = graph.remove_edge(edges[0]).unwrap();
    round_trip(&mut graph, &diff, &before);
    assert!(graph.get_edge(edges[0]).is_none());
}

#[test]
fn round_trip_of_remove_vertex_with_its_edges() {
    let (mut graph, vertices, edges) = sample();
    let before = content(&graph);
    let (_, diff) = graph.remove_vertex(vertices[1]).unwrap();
    match &diff {
        GraphDiff::RemoveVertex(removed) => assert_eq!(removed.get_removed_edges().len(), 3),
        _ => panic!("a removal of a vertex was expected"),
    }
    assert_eq!(graph.edge_indexes(), vec![edges[2]]);
    round_trip(&mut graph, &diff, &before);
    assert!(graph.get_vertex(vertices[1]).is_none());
    graph.rollback_diff(diff).unwrap();
    assert_eq!(graph.get_vertex_data(vertices[1]), Some(&2));
    assert_eq!(graph.get_edge_data(edges[0]), Some(&10));
    assert_eq!(graph.get_edge_data(edges[1]), Some(&20));
    assert_eq!(graph.get_edge_data(edges[3]), Some(&40));
}

#[test]
fn whole_history_rolls_back_and_forward() {
    let mut graph: Graph<i32, i32> = Graph::new();
    let mut states = vec![content(&graph)];
    let mut diffs = Vec::new();
    let (a, diff) = graph.add_vertex(1);
    diffs.push(diff);
    states.push(content(&graph));
    let (b, diff) = graph.add_vertex(2);
    diffs.push(diff);
    states.push(content(&graph));
    let (ab, diff) = graph.add_edge(a, b, 10).unwrap();
    diffs.push(diff);
    states.push(content(&graph));
    let (_, diff) = graph.add_edge(b, a, 20).unwrap();
    diffs.push(diff);
    states.push(content(&graph));
    let (_, diff) = graph.update_edge(ab, 11).unwrap();
    diffs.push(diff);
    states.push(content(&graph));
    let (_, diff) = graph.remove_edge(ab).unwrap();
    diffs.push(diff);
    states.push(content(&graph));
    let (_, diff) = graph.remove_vertex(a).unwrap();
    diffs.push(diff);
    states.push(content(&graph));
    let (c, diff) = graph.add_vertex(3);
    diffs.push(diff);
    states.push(content(&graph));
    let (_, diff) = graph.add_edge(c, b, 30).unwrap();
    diffs.push(diff);
    states.push(content(&graph));
    let mut round = 0;
    while round < 2 {
        let mut at = diffs.len();
        while at > 0 {
            at -= 1;
            assert_eq!(graph.rollback_diff(diffs[at].clone()), Ok(()));
            assert_eq!(content(&graph), states[at]);
        }
        while at < diffs.len() {
            assert_eq!(graph.apply_diff(diffs[at].clone()), Ok(()));
            at += 1;
            assert_eq!(content(&graph), states[at]);
        }
        round += 1;
    }
}

#[test]
fn re_applied_addition_leaves_the_free_list_sound() {
    let mut graph: Graph<i32, i32> = Graph::new();
    let (a, diff) = graph.add_vertex(1);
    graph.rollback_diff(diff.clone()).unwrap();
    assert!(graph.get_vertex(a).is_none());
    graph.apply_diff(diff).unwrap();
    assert_eq!(graph.get_vertex_data(a), Some(&1));
    // The slot of `a` is taken: the next vertex gets a slot of its own.
    let (b, _) = graph.add_vertex(2);
    assert_eq!(b, vertex_handle(1, 0));
    assert_eq!(graph.get_vertex_data(a), Some(&1));
    assert_eq!(graph.get_vertex_data(b), Some(&2));
}

#[test]
fn restored_slot_leaves_the_middle_of_the_free_list() {
    let mut graph: Graph<i32, i32> = Graph::new();
    let (a, _) = graph.add_vertex(1);
    let (b, _) = graph.add_vertex(2);
    let (c, _) = graph.add_vertex(3);
    let (_, remove_a) = graph.remove_vertex(a).unwrap();
    let (_, remove_b) = graph.remove_vertex(b).unwrap();
    let (_, remove_c) = graph.remove_vertex(c).unwrap();
    // The free list is c, b, a. Bring b back, out of its middle.
    graph.rollback_diff(remove_b).unwrap();
    assert_eq!(graph.get_vertex_data(b), Some(&2));
    let (d, _) = graph.add_vertex(4);
    let (e, _) = graph.add_vertex(5);
    let (f, _) = graph.add_vertex(6);
    assert_eq!(d, vertex_handle(2, 1));
    assert_eq!(e, vertex_handle(0, 1));
    assert_eq!(f, vertex_handle(3, 0));
    assert_eq!(graph.get_vertex_data(b), Some(&2));
    assert_eq!(graph.rollback_diff(remove_a), Err(GraphError::InvalidDiff));
    assert_eq!(graph.rollback_diff(remove_c), Err(GraphError::InvalidDiff));
}

#[test]
fn out_of_order_diffs_are_rejected_and_change_nothing() {
    let mut graph: Graph<i32, i32> = Graph::new();
    let (a, add_a) = graph.add_vertex(1);
    let (_, remove_a) = graph.remove_vertex(a).unwrap();
    let (_, add_b) = graph.add_vertex(2);
    let before = content(&graph);
    assert_eq!(graph.rollback_diff(add_a.clone()), Err(GraphError::InvalidDiff));
    assert_eq!(graph.rollback_diff(remove_a.clone()), Err(GraphError::InvalidDiff));
    assert_eq!(graph.apply_diff(add_a.clone()), Err(GraphError::InvalidDiff));
    assert_eq!(graph.apply_diff(remove_a.clone()), Err(GraphError::InvalidDiff));
    assert_eq!(graph.apply_diff(add_b.clone()), Err(GraphError::InvalidDiff));
    assert_eq!(content(&graph), before);
    // In order, all of them go through.
    assert_eq!(graph.rollback_diff(add_b), Ok(()));
    assert_eq!(graph.rollback_diff(remove_a), Ok(()));
    assert_eq!(graph.rollback_diff(add_a), Ok(()));
    assert_eq!(content(&graph), (vec![], vec![]));
}

#[test]
fn every_kind_of_diff_is_rejected_on_an_empty_graph() {
    let (mut graph, vertices, edges) = sample();
    let (_, update_vertex) = graph.update_vertex(vertices[0], 5).unwrap();
    let (_, update_edge) = graph.update_edge(edges[0], 5).unwrap();
    let (_, add_vertex) = graph.add_vertex(6);
    let (_, add_edge) = graph.add_edge(vertices[0], vertices[1], 7).unwrap();
    let (_, remove_edge) = graph.remove_edge(edges[1]).unwrap();
    let (_, remove_vertex) = graph.remove_vertex(vertices[2]).unwrap();
    let diffs = vec![
        update_vertex,
        update_edge,
        add_vertex,
        add_edge,
        remove_edge,
        remove_vertex,
    ];
    let mut empty: Graph<i32, i32> = Graph::new();
    for diff in diffs {
        assert_eq!(empty.apply_diff(diff.clone()), Err(GraphError::InvalidDiff));
        assert_eq!(empty.rollback_diff(diff), Err(GraphError::InvalidDiff));
        assert_eq!(content(&empty), (vec![], vec![]));
    }
}

#[test]
fn edge_diffs_need_live_endpoints() {
    let mut graph: Graph<i32, i32> = Graph::new();
    let (a, _) = graph.add_vertex(1);
    let (b, _) = graph.add_vertex(2);
    let (e, add_e) = graph.add_edge(a, b, 10).unwrap();
    let (_, remove_e) = graph.remove_edge(e).unwrap();
    graph.remove_vertex(b).unwrap();
    let before = content(&graph);
    // The slot is free, but an endpoint is gone.
    assert_eq!(graph.rollback_diff(remove_e), Err(GraphError::InvalidDiff));
    assert_eq!(content(&graph), before);
    let mut other: Graph<i32, i32> = Graph::new();
    other.add_vertex(1);
    assert_eq!(other.apply_diff(add_e), Err(GraphError::InvalidDiff));
    assert_eq!(other.edge_indexes(), Vec::<EdgeIndex>::new());
}

#[test]
fn vertex_rollback_needs_the_other_endpoints() {
    let mut graph: Graph<i32, i32> = Graph::new();
    let (a, _) = graph.add_vertex(1);
    let (b, _) = graph.add_vertex(2);
    graph.add_edge(a, b, 10).unwrap();
    let (_, remove_b) = graph.remove_vertex(b).unwrap();
    let (_, remove_a) = graph.remove_vertex(a).unwrap();
    let before = content(&graph);
    // The edge of `b` came from `a`, which is gone.
    assert_eq!(graph.rollback_diff(remove_b.clone()), Err(GraphError::InvalidDiff));
    assert_eq!(content(&graph), before);
    assert_eq!(graph.rollback_diff(remove_a), Ok(()));
    assert_eq!(graph.rollback_diff(remove_b), Ok(()));
    assert_eq!(graph.edge_indexes().len(), 1);
}

#[test]
fn rollback_of_an_addition_takes_later_edges_along() {
    let mut graph: Graph<i32, i32> = Graph::new();
    let (a, add_a) = graph.add_vertex(1);
    let (b, _) = graph.add_vertex(2);
    let (e, _) = graph.add_edge(a, b, 10).unwrap();
    assert_eq!(graph.rollback_diff(add_a), Ok(()));
    assert!(graph.get_vertex(a).is_none());
    assert!(graph.get_edge(e).is_none());
    assert!(graph.get_vertex(b).unwrap().get_connections_from().is_empty());
    // The freed slots stand at the generations of the old handles.
    assert_eq!(graph.add_vertex(3).0, a);
    assert_eq!(graph.add_edge(a, b, 11).unwrap().0, e);
}

#[test]
fn update_diffs_set_the_recorded_payloads() {
    let mut graph: Graph<i32, i32> = Graph::new();
    let (a, _) = graph.add_vertex(1);
    let (_, first) = graph.update_vertex(a, 2).unwrap();
    let (_, second) = graph.update_vertex(a, 3).unwrap();
    graph.rollback_diff(first.clone()).unwrap();
    assert_eq!(graph.get_vertex_data(a), Some(&1));
    graph.apply_diff(second.clone()).unwrap();
    assert_eq!(graph.get_vertex_data(a), Some(&3));
    graph.rollback_diff(second).unwrap();
    assert_eq!(graph.get_vertex_data(a), Some(&2));
    graph.apply_diff(first).unwrap();
    assert_eq!(graph.get_vertex_data(a), Some(&2));
}

#[test]
fn cloned_removal_diff_keeps_its_records() {
    let (mut graph, vertices, _) = sample();
    let (_, diff) = graph.remove_vertex(vertices[1]).unwrap();
    let copy = diff.clone();
    match (&diff, &copy) {
        (GraphDiff::RemoveVertex(left), GraphDiff::RemoveVertex(right)) => {
            assert_eq!(left.get_vertex_index(), right.get_vertex_index());
            assert_eq!(left.get_vertex().data(), right.get_vertex().data());
            assert_eq!(left.get_removed_edges().len(), right.get_removed_edges().len());
            let mut at = 0;
            while at < left.get_removed_edges().len() {
                let a = &left.get_removed_edges()[at];
                let b = &right.get_removed_edges()[at];
                assert_eq!(a.get_edge_index(), b.get_edge_index());
                assert_eq!(a.get_edge().get_from(), b.get_edge().get_from());
                assert_eq!(a.get_edge().get_to(), b.get_edge().get_to());
                assert_eq!(a.get_edge().data(), b.get_edge().data());
                at += 1;
            }
        }
        _ => panic!("a removal of a vertex was expected"),
    }
}

#[test]
fn long_random_history_rolls_back_and_forward() {
    let mut graph: Graph<i32, i32> = Graph::new();
    let mut states = vec![content(&graph)];
    let mut diffs: Vec<GraphDiff<i32, i32>> = Vec::new();
    let mut vertices: Vec<VertexIndex> = Vec::new();
    let mut edges: Vec<EdgeIndex> = Vec::new();
    let mut seed: u32 = 2024;
    let mut step = 0;
    while step < 300 {
        seed = seed.wrapping_mul(1664525).wrapping_add(1013904223);
        let pick = (seed >> 8) as usize;
        let diff = match pick % 7 {
            0 | 1 => {
                let (vertex, diff) = graph.add_vertex(step);
                vertices.push(vertex);
                Some(diff)
            }
            2 | 3 => {
                if vertices.is_empty() {
                    None
                } else {
                    let from = vertices[pick % vertices.len()];
                    let to = vertices[(pick / 11) % vertices.len()];
                    match graph.add_edge(from, to, step) {
                        Ok((edge, diff)) => {
                            edges.push(edge);
                            Some(diff)
                        }
                        Err(_) => None,
                    }
                }
            }
            4 => {
                if edges.is_empty() {
                    None
                } else {
                    let edge = edges[pick % edges.len()];
                    match graph.remove_edge(edge) {
                        Ok((_, diff)) => Some(diff),
                        Err(_) => graph.update_edge(edge, -step).ok().map(|done| done.1),
                    }
                }
            }
            5 => {
                if vertices.is_empty() {
                    None
                } else {
                    let vertex = vertices[pick % vertices.len()];
                    graph.remove_vertex(vertex).ok().map(|done| done.1)
                }
            }
            _ => {
                if vertices.is_empty() {
                    None
                } else {
                    let vertex = vertices[pick % vertices.len()];
                    graph.update_vertex(vertex, -step).ok().map(|done| done.1)
                }
            }
        };
        if let Some(diff) = diff {
            diffs.push(diff);
            states.push(content(&graph));
        }
        step += 1;
    }
    assert!(diffs.len() > 100);
    let mut round = 0;
    while round < 2 {
        let mut at = diffs.len();
        while at > 0 {
            at -= 1;
            assert_eq!(graph.rollback_diff(diffs[at].clone()), Ok(()));
            assert_eq!(content(&graph), states[at]);
        }
        assert_eq!(content(&graph), (vec![], vec![]));
        while at < diffs.len() {
            assert_eq!(graph.apply_diff(diffs[at].clone()), Ok(()));
            at += 1;
            assert_eq!(content(&graph), states[at]);
        }
        round += 1;
    }
    // The later half of the history can be rolled back on its own.
    let half = diffs.len() / 2;
    let mut at = diffs.len();
    while at > half {
        at -= 1;
        assert_eq!(graph.rollback_diff(diffs[at].clone()), Ok(()));
    }
    assert_eq!(content(&graph), states[half]);
}

use generational_graph::errors::GraphError;
use generational_graph::gen_vec::Index;
use generational_graph::graph::{Edge, EdgeIndex, Graph, VertexIndex};
use generational_graph::graph_diff::GraphDiff;

fn vertex_handle(index: usize, generation: u32) -> VertexIndex {
    VertexIndex(Index { index, generation })
}

fn edge_handle(index: usize, generation: u32) -> EdgeIndex {
    EdgeIndex(Index { index, generation })
}

fn edges_of(list: &Vec<(VertexIndex, EdgeIndex)>) -> Vec<EdgeIndex> {
    let mut edges: Vec<EdgeIndex> = list.iter().map(|entry| entry.1).collect();
    edges.sort();
    edges
}

/// Whether every edge is listed by both endpoints and every entry names a
/// live edge with those endpoints.
fn adjacency_holds(graph: &Graph<i32, i32>) -> bool {
    for (index, edge) in graph.edge_iter() {
        let from = match graph.get_vertex(edge.get_from()) {
            Some(vertex) => vertex,
            None => return false,
        };
        let to = match graph.get_vertex(edge.get_to()) {
            Some(vertex) => vertex,
            None => return false,
        };
        let listed_out = from
            .get_connections_to()
            .iter()
            .filter(|entry| **entry == (edge.get_to(), index))
            .count();
        let listed_in = to
            .get_connections_from()
            .iter()
            .filter(|entry| **entry == (edge.get_from(), index))
            .count();
        if listed_out != 1 || listed_in != 1 {
            return false;
        }
    }
    for (index, vertex) in graph.vertex_iter() {
        for (to, edge) in vertex.get_connections_to() {
            match graph.get_edge(*edge) {
                Some(found) => {
                    if found.get_from() != index || found.get_to() != *to {
                        return false;
                    }
                }
                None => return false,
            }
        }
        for (from, edge) in vertex.get_connections_from() {
            match graph.get_edge(*edge) {
                Some(found) => {
                    if found.get_to() != index || found.get_from() != *from {
                        return false;
                    }
                }
                None => return false,
            }
        }
    }
    true
}

#[test]
fn new_graph_is_empty() {
    let graph: Graph<i32, i32> = Graph::new();
    assert_eq!(graph.vertex_indexes(), Vec::<VertexIndex>::new());
    assert_eq!(graph.edge_indexes(), Vec::<EdgeIndex>::new());
    assert!(graph.get_verticies().is_empty());
    assert!(graph.get_edges().is_empty());
    let other: Graph<i32, i32> = Graph::default();
    assert!(other.get_verticies().is_empty());
    let third: Graph<i32, i32> = Graph::from_constraints();
    assert!(third.get_edges().is_empty());
}

#[test]
fn slot_reuse_scenario() {
    let mut graph: Graph<i32, ()> = Graph::new();
    let (a, _) = graph.add_vertex(2);
    assert_eq!(a, vertex_handle(0, 0));
    let (data, _) = graph.remove_vertex(a).unwrap();
    assert_eq!(data, 2);
    let (b, _) = graph.add_vertex(4);
    assert_eq!(b.0.index, a.0.index);
    assert!(b.0.generation > a.0.generation);
    assert_eq!(b, vertex_handle(0, 1));
    assert!(graph.get_vertex(a).is_none());
    assert_eq!(graph.get_vertex_data(a), None);
    assert_eq!(graph.get_vertex_data(b), Some(&4));
    assert_eq!(
        graph.assert_vertex_exists(a),
        Err(GraphError::VertexDoesNotExist { index: a })
    );
    assert_eq!(graph.assert_vertex_exists(b), Ok(()));
}

#[test]
fn add_vertex_diff_holds_handle_and_data() {
    let mut graph: Graph<i32, i32> = Graph::new();
    let (a, diff) = graph.add_vertex(5);
    match diff {
        GraphDiff::AddVertex(add) => {
            assert_eq!(add.get_vertex_index(), a);
            assert_eq!(*add.get_vertex_data(), 5);
        }
        _ => panic!("an addition of a vertex was expected"),
    }
    let vertex = graph.get_vertex(a).unwrap();
    assert!(vertex.get_connections_from().is_empty());
    assert!(vertex.get_connections_to().is_empty());
}

#[test]
fn add_edge_links_both_endpoints() {
    let mut graph: Graph<i32, i32> = Graph::new();
    let (a, _) = graph.add_vertex(1);
    let (b, _) = graph.add_vertex(2);
    let (e, diff) = graph.add_edge(a, b, 7).unwrap();
    assert_eq!(e, edge_handle(0, 0));
    match diff {
        GraphDiff::AddEdge(add) => {
            assert_eq!(add.get_edge_index(), e);
            assert_eq!(add.get_from(), a);
            assert_eq!(add.get_to(), b);
            assert_eq!(*add.get_edge_data(), 7);
        }
        _ => panic!("an addition of an edge was expected"),
    }
    let edge = graph.get_edge(e).unwrap();
    assert_eq!(edge.get_from(), a);
    assert_eq!(edge.get_to(), b);
    assert_eq!(*edge.data(), 7);
    assert_eq!(graph.get_edge_data(e), Some(&7));
    assert_eq!(graph.get_vertex(a).unwrap().get_connections_to(), &vec![(b, e)]);
    assert!(graph.get_vertex(a).unwrap().get_connections_from().is_empty());
    assert_eq!(graph.get_vertex(b).unwrap().get_connections_from(), &vec![(a, e)]);
    assert!(graph.get_vertex(b).unwrap().get_connections_to().is_empty());
    assert!(adjacency_holds(&graph));
}

#[test]
fn add_edge_needs_both_endpoints() {
    let mut graph: Graph<i32, i32> = Graph::new();
    let (a, _) = graph.add_vertex(1);
    let (b, _) = graph.add_vertex(2);
    graph.remove_vertex(b).unwrap();
    let gone = vertex_handle(9, 0);
    assert_eq!(
        graph.add_edge(a, b, 0).err(),
        Some(GraphError::VertexDoesNotExist { index: b })
    );
    assert_eq!(
        graph.add_edge(b, a, 0).err(),
        Some(GraphError::VertexDoesNotExist { index: b })
    );
    assert_eq!(
        graph.add_edge(gone, b, 0).err(),
        Some(GraphError::VertexDoesNotExist { index: gone })
    );
    assert_eq!(graph.edge_indexes(), Vec::<EdgeIndex>::new());
    assert!(graph.get_vertex(a).unwrap().get_connections_to().is_empty());
    // The failed calls took no slot.
    assert_eq!(graph.add_edge(a, a, 0).unwrap().0, edge_handle(0, 0));
}

#[test]
fn update_hands_back_the_old_payload() {
    let mut graph: Graph<i32, i32> = Graph::new();
    let (a, _) = graph.add_vertex(1);
    let (b, _) = graph.add_vertex(2);
    let (e, _) = graph.add_edge(a, b, 3).unwrap();
    let (old, diff) = graph.update_vertex(a, 10).unwrap();
    assert_eq!(old, 1);
    match diff {
        GraphDiff::UpdateVertexData(update) => {
            assert_eq!(*update.get_before(), 1);
            assert_eq!(*update.get_after(), 10);
        }
        _ => panic!("an update of a vertex was expected"),
    }
    let (old, diff) = graph.update_edge(e, 30).unwrap();
    assert_eq!(old, 3);
    match diff {
        GraphDiff::UpdateEdgeData(update) => {
            assert_eq!(*update.get_before(), 3);
            assert_eq!(*update.get_after(), 30);
        }
        _ => panic!("an update of an edge was expected"),
    }
    assert_eq!(graph.get_vertex_data(a), Some(&10));
    assert_eq!(graph.get_edge_data(e), Some(&30));
    // The lists are as they were.
    assert_eq!(graph.get_vertex(a).unwrap().get_connections_to(), &vec![(b, e)]);
    assert!(adjacency_holds(&graph));
}

#[test]
fn update_of_a_missing_entry_fails() {
    let mut graph: Graph<i32, i32> = Graph::new();
    let (a, _) = graph.add_vertex(1);
    let missing_vertex = vertex_handle(0, 1);
    let missing_edge = edge_handle(0, 0);
    assert_eq!(
        graph.update_vertex(missing_vertex, 5).err(),
        Some(GraphError::VertexDoesNotExist { index: missing_vertex })
    );
    assert_eq!(
        graph.update_edge(missing_edge, 5).err(),
        Some(GraphError::EdgeDoesNotExist { index: missing_edge })
    );
    assert_eq!(graph.get_vertex_data(a), Some(&1));
}

#[test]
fn data_mut_writes_without_a_diff() {
    let mut graph: Graph<i32, i32> = Graph::new();
    let (a, _) = graph.add_vertex(1);
    let (e, _) = graph.add_edge(a, a, 2).unwrap();
    *graph.get_vertex_data_mut(a).unwrap() = 11;
    *graph.get_edge_data_mut(e).unwrap() = 22;
    assert_eq!(graph.get_vertex_data(a), Some(&11));
    assert_eq!(graph.get_edge_data(e), Some(&22));
    assert!(graph.get_vertex_data_mut(vertex_handle(3, 0)).is_none());
    assert!(graph.get_edge_data_mut(edge_handle(3, 0)).is_none());
    assert!(adjacency_holds(&graph));
}

#[test]
fn remove_edge_detaches_both_endpoints() {
    let mut graph: Graph<i32, i32> = Graph::new();
    let (a, _) = graph.add_vertex(1);
    let (b, _) = graph.add_vertex(2);
    let (e1, _) = graph.add_edge(a, b, 10).unwrap();
    let (e2, _) = graph.add_edge(a, b, 20).unwrap();
    let (e3, _) = graph.add_edge(b, a, 30).unwrap();
    let (data, diff) = graph.remove_edge(e1).unwrap();
    assert_eq!(data, 10);
    match diff {
        GraphDiff::RemoveEdge(removed) => {
            assert_eq!(removed.get_edge_index(), e1);
            assert_eq!(removed.get_edge().get_from(), a);
            assert_eq!(removed.get_edge().get_to(), b);
            assert_eq!(*removed.get_edge().data(), 10);
        }
        _ => panic!("a removal of an edge was expected"),
    }
    assert!(graph.get_edge(e1).is_none());
    assert_eq!(graph.get_vertex(a).unwrap().get_connections_to(), &vec![(b, e2)]);
    assert_eq!(graph.get_vertex(b).unwrap().get_connections_from(), &vec![(a, e2)]);
    assert_eq!(graph.get_vertex(b).unwrap().get_connections_to(), &vec![(a, e3)]);
    assert_eq!(graph.edge_indexes(), vec![e2, e3]);
    assert_eq!(
        graph.remove_edge(e1).err(),
        Some(GraphError::EdgeDoesNotExist { index: e1 })
    );
    assert_eq!(
        graph.assert_edge_exists(e1),
        Err(GraphError::EdgeDoesNotExist { index: e1 })
    );
    assert_eq!(graph.assert_edge_exists(e2), Ok(()));
    assert!(adjacency_holds(&graph));
}

#[test]
fn remove_vertex_takes_exactly_the_edges_that_touch_it() {
    let mut graph: Graph<i32, i32> = Graph::new();
    let (a, _) = graph.add_vertex(1);
    let (b, _) = graph.add_vertex(2);
    let (c, _) = graph.add_vertex(3);
    let (ab, _) = graph.add_edge(a, b, 10).unwrap();
    let (bc, _) = graph.add_edge(b, c, 20).unwrap();
    let (ca, _) = graph.add_edge(c, a, 30).unwrap();
    let (ac, _) = graph.add_edge(a, c, 40).unwrap();
    let (data, diff) = graph.remove_vertex(b).unwrap();
    assert_eq!(data, 2);
    match &diff {
        GraphDiff::RemoveVertex(removed) => {
            assert_eq!(removed.get_vertex_index(), b);
            assert_eq!(*removed.get_vertex().data(), 2);
            let records = removed.get_removed_edges();
            assert_eq!(records.len(), 2);
            // The incoming edges come first.
            assert_eq!(records[0].get_edge_index(), ab);
            assert_eq!(*records[0].get_edge().data(), 10);
            assert_eq!(records[1].get_edge_index(), bc);
            assert_eq!(*records[1].get_edge().data(), 20);
        }
        _ => panic!("a removal of a vertex was expected"),
    }
    assert!(graph.get_vertex(b).is_none());
    assert!(graph.get_edge(ab).is_none());
    assert!(graph.get_edge(bc).is_none());
    assert_eq!(graph.edge_indexes(), vec![ca, ac]);
    assert_eq!(graph.vertex_indexes(), vec![a, c]);
    assert_eq!(edges_of(graph.get_vertex(a).unwrap().get_connections_to()), vec![ac]);
    assert_eq!(edges_of(graph.get_vertex(c).unwrap().get_connections_from()), vec![ac]);
    assert!(adjacency_holds(&graph));
    assert_eq!(
        graph.remove_vertex(b).err(),
        Some(GraphError::VertexDoesNotExist { index: b })
    );
}

#[test]
fn remove_vertex_without_edges_records_none() {
    let mut graph: Graph<i32, i32> = Graph::new();
    let (a, _) = graph.add_vertex(1);
    let (b, _) = graph.add_vertex(2);
    let (e, _) = graph.add_edge(a, a, 5).unwrap();
    let (_, diff) = graph.remove_vertex(b).unwrap();
    match diff {
        GraphDiff::RemoveVertex(removed) => assert!(removed.get_removed_edges().is_empty()),
        _ => panic!("a removal of a vertex was expected"),
    }
    assert!(graph.get_edge(e).is_some());
}

#[test]
fn remove_vertex_with_a_loop_records_it_once() {
    let mut graph: Graph<i32, i32> = Graph::new();
    let (a, _) = graph.add_vertex(1);
    let (b, _) = graph.add_vertex(2);
    let (aa, _) = graph.add_edge(a, a, 10).unwrap();
    let (ab, _) = graph.add_edge(a, b, 20).unwrap();
    let (_, diff) = graph.remove_vertex(a).unwrap();
    match &diff {
        GraphDiff::RemoveVertex(removed) => {
            let records = removed.get_removed_edges();
            assert_eq!(records.len(), 2);
            assert_eq!(records[0].get_edge_index(), aa);
            assert_eq!(records[1].get_edge_index(), ab);
        }
        _ => panic!("a removal of a vertex was expected"),
    }
    assert_eq!(graph.edge_indexes(), Vec::<EdgeIndex>::new());
    assert!(graph.get_vertex(b).unwrap().get_connections_from().is_empty());
    graph.rollback_diff(diff.clone()).unwrap();
    assert_eq!(graph.get_vertex(a).unwrap().get_connections_to().len(), 2);
    assert_eq!(graph.get_vertex(a).unwrap().get_connections_from(), &vec![(a, aa)]);
    assert!(adjacency_holds(&graph));
    graph.apply_diff(diff).unwrap();
    assert!(graph.get_vertex(a).is_none());
    assert!(adjacency_holds(&graph));
}

#[test]
fn shared_edges_go_one_way() {
    let mut graph: Graph<i32, i32> = Graph::new();
    let (a, _) = graph.add_vertex(1);
    let (b, _) = graph.add_vertex(2);
    let (c, _) = graph.add_vertex(3);
    let (ab1, _) = graph.add_edge(a, b, 0).unwrap();
    let (_ac, _) = graph.add_edge(a, c, 0).unwrap();
    let (ab2, _) = graph.add_edge(a, b, 0).unwrap();
    let (ba, _) = graph.add_edge(b, a, 0).unwrap();
    assert_eq!(graph.shared_edges(a, b), Ok(vec![ab1, ab2]));
    assert_eq!(graph.shared_edges(b, a), Ok(vec![ba]));
    assert_eq!(graph.shared_edges(b, c), Ok(vec![]));
    assert_eq!(graph.shared_edges(a, a), Ok(vec![]));
    let missing = vertex_handle(7, 0);
    assert_eq!(
        graph.shared_edges(missing, a),
        Err(GraphError::VertexDoesNotExist { index: missing })
    );
    // A target that does not resolve shares no edge.
    assert_eq!(graph.shared_edges(a, missing), Ok(vec![]));
}

#[test]
fn listings_go_by_slot() {
    let mut graph: Graph<i32, i32> = Graph::new();
    let (a, _) = graph.add_vertex(1);
    let (b, _) = graph.add_vertex(2);
    let (c, _) = graph.add_vertex(3);
    let (ab, _) = graph.add_edge(a, b, 10).unwrap();
    let (bc, _) = graph.add_edge(b, c, 20).unwrap();
    graph.remove_vertex(a).unwrap();
    let (d, _) = graph.add_vertex(4);
    assert_eq!(d, vertex_handle(0, 1));
    assert_eq!(graph.vertex_indexes(), vec![d, b, c]);
    assert_eq!(graph.edge_indexes(), vec![bc]);
    assert_eq!(graph.vertex_data_iter(), vec![(d, &4), (b, &2), (c, &3)]);
    assert_eq!(graph.edge_data_iter(), vec![(bc, &20)]);
    let vertices = graph.vertex_iter();
    assert_eq!(vertices.len(), 3);
    assert_eq!(vertices[1].0, b);
    assert_eq!(*vertices[1].1.data(), 2);
    let edges = graph.edge_iter();
    assert_eq!(edges.len(), 1);
    assert_eq!(edges[0].0, bc);
    assert_eq!(edges[0].1.get_from(), b);
    assert!(graph.get_edge(ab).is_none());
    assert_eq!(graph.get_verticies().len(), 3);
    assert_eq!(graph.get_edges().len(), 1);
}

#[test]
fn edge_constructor_and_getters() {
    let edge = Edge::new(vertex_handle(1, 2), vertex_handle(3, 4), 'x');
    assert_eq!(edge.get_from(), vertex_handle(1, 2));
    assert_eq!(edge.get_to(), vertex_handle(3, 4));
    assert_eq!(*edge.data(), 'x');
}

#[test]
fn adjacency_holds_over_a_long_run() {
    let mut graph: Graph<i32, i32> = Graph::new();
    let mut vertices: Vec<VertexIndex> = Vec::new();
    let mut edges: Vec<EdgeIndex> = Vec::new();
    let mut seed: u32 = 12345;
    let mut step = 0;
    while step < 400 {
        seed = seed.wrapping_mul(1103515245).wrapping_add(12345);
        let pick = (seed >> 16) as usize;
        match pick % 6 {
            0 => vertices.push(graph.add_vertex(step).0),
            1 | 2 => {
                if !vertices.is_empty() {
                    let from = vertices[pick % vertices.len()];
                    let to = vertices[(pick / 7) % vertices.len()];
                    if let Ok((edge, _)) = graph.add_edge(from, to, step) {
                        edges.push(edge);
                    }
                }
            }
            3 => {
                if !edges.is_empty() {
                    let edge = edges[pick % edges.len()];
                    let _ = graph.remove_edge(edge);
                }
            }
            4 => {
                if !vertices.is_empty() {
                    let vertex = vertices[pick % vertices.len()];
                    let _ = graph.remove_vertex(vertex);
                }
            }
            _ => {
                if !vertices.is_empty() {
                    let vertex = vertices[pick % vertices.len()];
                    let _ = graph.update_vertex(vertex, -step);
                }
            }
        }
        assert!(adjacency_holds(&graph));
        step += 1;
    }
}

#[test]
fn data_iter_mut_writes_every_payload() {
    let mut graph: Graph<i32, i32> = Graph::new();
    let (a, _) = graph.add_vertex(1);
    let (b, _) = graph.add_vertex(2);
    let (c, _) = graph.add_vertex(3);
    let (ab, _) = graph.add_edge(a, b, 10).unwrap();
    let (bc, _) = graph.add_edge(b, c, 20).unwrap();
    graph.remove_vertex(a).unwrap();
    {
        let vertices = graph.vertex_data_iter_mut();
        assert_eq!(vertices.len(), 2);
        assert_eq!(vertices[0].0, b);
        assert_eq!(vertices[1].0, c);
        for (_, data) in vertices {
            *data += 100;
        }
    }
    {
        let edges = graph.edge_data_iter_mut();
        assert_eq!(edges.len(), 1);
        assert_eq!(edges[0].0, bc);
        for (_, data) in edges {
            *data += 1000;
        }
    }
    assert_eq!(graph.vertex_data_iter(), vec![(b, &102), (c, &103)]);
    assert_eq!(graph.edge_data_iter(), vec![(bc, &1020)]);
    assert!(graph.get_edge(ab).is_none());
    assert_eq!(graph.get_vertex(b).unwrap().get_connections_to(), &vec![(c, bc)]);
    assert!(adjacency_holds(&graph));
}

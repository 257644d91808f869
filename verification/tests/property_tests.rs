//! Scenario and property tests: the chain-with-shortcut and grid scenarios,
//! the container invariant under mixed mutations, surgery and cleanup
//! bookkeeping, every error variant, and exact values for the integer
//! distance arithmetic and the wireframe conversion.

use graph_search::a_star::a_star_search;
use graph_search::arith::{isqrt_u128, saturating_add_u128};
use graph_search::edge::Edge;
use graph_search::error::GraphError;
use graph_search::graph::{Graph, MAX_NODES};
use graph_search::mesh::triangles_to_lines;
use graph_search::node::{get_distance_between_nodes, get_midpoint_between_nodes, Node};

fn chain_with_shortcut() -> Graph {
    let mut graph = Graph::new();
    for i in 0..5 {
        graph
            .add_node(Node::new(i as i64 * 1000, i as i64 * 1000, i))
            .unwrap();
    }
    for i in 0..4 {
        graph.add_edge(Edge::new(i, i + 1)).unwrap();
    }
    graph.add_edge(Edge::new(0, 4)).unwrap();
    graph
}

#[test]
fn scenario_a_shortcut() {
    // A chain 0-1-2-3-4 plus a direct edge 0-4: the search takes the
    // shortcut.
    let graph = chain_with_shortcut();
    let path = a_star_search(0, 4, &graph).unwrap();
    assert_eq!(path, vec![0, 4]);
}

#[test]
fn scenario_b_no_path() {
    // The same graph with the edges 3-4 and 0-4 removed: node 4 is cut off.
    let mut graph = chain_with_shortcut();
    graph.remove_edge(4).unwrap();
    graph.remove_edge(3).unwrap();
    assert_eq!(a_star_search(0, 4, &graph), Err(GraphError::PathNotFound));
}

#[test]
fn scenario_c_grid() {
    // A 10x10 grid with right- and down-neighbour edges at uniform spacing.
    // From slot 90 (bottom-left) to slot 29 (right side, third row) every
    // shortest path moves strictly up and right: 16 edges, 17 nodes.
    let mut graph = Graph::new();
    const GRID_WIDTH: i32 = 10;
    for i in 0..100 {
        let x = (i % GRID_WIDTH) as i64 * 50000 + 50000;
        let y = (i / GRID_WIDTH) as i64 * 50000 + 50000;
        graph.add_node(Node::new(x, y, i)).unwrap();
    }
    for i in 0..100 {
        if i % GRID_WIDTH != GRID_WIDTH - 1 {
            graph.add_edge(Edge::new(i, i + 1)).unwrap();
        }
        if i < 90 {
            graph.add_edge(Edge::new(i, i + GRID_WIDTH)).unwrap();
        }
    }

    let path = a_star_search(90, 29, &graph).unwrap();
    assert_eq!(path[0], 90);
    assert_eq!(path[path.len() - 1], 29);
    assert_eq!(path.len(), 17);
    for w in path.windows(2) {
        // Every step follows an active edge, strictly up or right.
        assert!(graph.has_edge_bi_directional(w[0], w[1]));
        assert!(w[1] == w[0] + 1 || w[1] == w[0] - GRID_WIDTH);
    }
}

#[test]
fn trivial_path_from_any_node() {
    let graph = chain_with_shortcut();
    let path = a_star_search(3, 3, &graph).unwrap();
    assert_eq!(path, vec![3]);
}

#[test]
fn path_follows_edges() {
    let mut graph = chain_with_shortcut();
    graph.remove_edge(4).unwrap();
    let path = a_star_search(0, 4, &graph).unwrap();
    assert_eq!(path[0], 0);
    assert_eq!(path[path.len() - 1], 4);
    for w in path.windows(2) {
        assert!(graph.has_edge_bi_directional(w[0], w[1]));
    }
}

#[test]
fn edge_query_is_symmetric() {
    let graph = chain_with_shortcut();
    for a in 0..5 {
        for b in 0..5 {
            assert_eq!(
                graph.has_edge_bi_directional(a, b),
                graph.has_edge_bi_directional(b, a)
            );
        }
    }
    assert!(graph.has_edge_bi_directional(4, 0));
    assert!(!graph.has_edge_bi_directional(0, 2));
}

#[test]
fn slot_identity_after_mixed_mutations() {
    // After any sequence of adds and removes, each active slot holds a node
    // whose index equals the slot.
    let mut graph = Graph::new();
    for i in 0..6 {
        graph
            .add_node(Node::new(i as i64 * 100, i as i64 * 200, i))
            .unwrap();
    }
    graph.remove_node(2).unwrap();
    graph.add_node(Node::new(7000, 7000, 1)).unwrap();
    graph.remove_node(0).unwrap();
    graph.add_node(Node::new(8000, 8000, 5)).unwrap();
    for i in 0..=graph.last_node_index {
        assert_eq!(graph.nodes[i as usize].index_of, i);
    }
    for i in (graph.last_node_index + 1)..8 {
        assert!(!graph.nodes[i as usize].is_active());
    }
}

#[test]
fn surgery_replaces_matched_edge() {
    // Splicing a node into an existing edge: one node more, one edge more
    // (one removed, two added), the old pair no longer joined, both new
    // pairs joined.
    let mut graph = chain_with_shortcut();
    let before = graph.get_node(2);
    let after = graph.get_node(3);
    let spliced = Node::new(2500, 2500, 5);
    graph.add_node_between(spliced, before, after).unwrap();

    assert_eq!(graph.last_node_index, 5);
    assert_eq!(graph.last_edge_index, 5);
    assert!(!graph.has_edge_bi_directional(2, 3));
    assert!(graph.has_edge_bi_directional(2, 5));
    assert!(graph.has_edge_bi_directional(5, 3));
    // Unrelated pairs keep their edges.
    assert!(graph.has_edge_bi_directional(0, 1));
    assert!(graph.has_edge_bi_directional(1, 2));
    assert!(graph.has_edge_bi_directional(3, 4));
    assert!(graph.has_edge_bi_directional(0, 4));
}

#[test]
fn cleanup_drops_incident_edges_and_renumbers() {
    // Removing a node drops the edges that touched it; an edge spanning the
    // removed slot survives with both endpoints renumbered one down.
    let mut graph = Graph::new();
    for i in 0..4 {
        graph
            .add_node(Node::new(i as i64 * 1000, 0, i))
            .unwrap();
    }
    graph.add_edge(Edge::new(0, 2)).unwrap();
    graph.add_edge(Edge::new(1, 3)).unwrap();
    graph.remove_node(1).unwrap();

    assert_eq!(graph.last_node_index, 2);
    // The edge 1-3 touched the removed node and is gone; 0-2 survives as
    // 0-1 in the new numbering.
    assert_eq!(graph.last_edge_index, 0);
    assert_eq!(graph.edges[0].source_index, 0);
    assert_eq!(graph.edges[0].destination_index, 1);
    assert!(!graph.edges[1].is_active());
}

#[test]
fn add_node_gap_is_rejected() {
    let mut graph = Graph::new();
    graph.add_node(Node::new(0, 0, 0)).unwrap();
    // Slot 2 is beyond the first free slot and would leave a gap.
    assert_eq!(
        graph.add_node(Node::new(1000, 1000, 2)),
        Err(GraphError::InvalidNodeIndex)
    );
    assert_eq!(graph.last_node_index, 0);
}

#[test]
fn add_edge_invalid_endpoint_is_rejected() {
    let mut graph = Graph::new();
    graph.add_node(Node::new(0, 0, 0)).unwrap();
    graph.add_node(Node::new(1000, 0, 1)).unwrap();
    assert_eq!(
        graph.add_edge(Edge::new(0, 5)),
        Err(GraphError::EdgeEndpointInvalid)
    );
    assert_eq!(
        graph.add_edge(Edge::new(-2, 1)),
        Err(GraphError::EdgeEndpointInvalid)
    );
    assert_eq!(graph.last_edge_index, -1);
}

#[test]
fn remove_edge_out_of_range_is_rejected() {
    let mut graph = Graph::new();
    assert_eq!(graph.remove_edge(0), Err(GraphError::OutOfRangeIndex));
    assert_eq!(graph.remove_node(-1), Err(GraphError::OutOfRangeIndex));
}

#[test]
fn add_node_capacity_exceeded() {
    let mut graph = Graph::new();
    for i in 0..MAX_NODES {
        graph.add_node(Node::new(0, 0, i as i32)).unwrap();
    }
    assert_eq!(
        graph.add_node(Node::new(0, 0, MAX_NODES as i32)),
        Err(GraphError::CapacityExceeded)
    );
}

#[test]
fn duplicate_edge_is_ignored() {
    let mut graph = Graph::new();
    graph.add_node(Node::new(0, 0, 0)).unwrap();
    graph.add_node(Node::new(1000, 0, 1)).unwrap();
    graph.add_edge(Edge::new(0, 1)).unwrap();
    graph.add_edge(Edge::new(0, 1)).unwrap();
    graph.add_edge(Edge::new(1, 0)).unwrap();
    assert_eq!(graph.last_edge_index, 0);
}

#[test]
fn distance_rounds_down_to_whole_ticks() {
    // One unit diagonally: the true distance is 1000 * sqrt(2) = 1414.21...
    let a = Node::new(0, 0, 0);
    let b = Node::new(1000, 1000, 1);
    assert_eq!(get_distance_between_nodes(a, b), 1414);
}

#[test]
fn midpoint_halves_round_toward_zero() {
    let a = Node::new(-1, -1, 0);
    let b = Node::new(-2, -2, 1);
    let midpoint = get_midpoint_between_nodes(a, b);
    assert_eq!(midpoint.x, -1);
    assert_eq!(midpoint.y, -1);
}

#[test]
fn inactive_sentinels() {
    let node = Node::new_inactive();
    assert_eq!(node.index_of, -1);
    assert!(!node.is_active());
    let edge = Edge::new_inactive();
    assert_eq!(edge.source_index, -1);
    assert_eq!(edge.destination_index, -1);
    assert!(!edge.is_active());
    assert!(Edge::new(0, 0).is_active());
}

#[test]
fn update_index_changes_identity_only() {
    let mut node = Node::new(123, 456, 0);
    node.update_index(7);
    assert_eq!(node.index_of, 7);
    assert_eq!(node.x_pos, 123);
    assert_eq!(node.y_pos, 456);
}

#[test]
fn isqrt_exact_values() {
    assert_eq!(isqrt_u128(0), 0);
    assert_eq!(isqrt_u128(1), 1);
    assert_eq!(isqrt_u128(2), 1);
    assert_eq!(isqrt_u128(3), 1);
    assert_eq!(isqrt_u128(4), 2);
    assert_eq!(isqrt_u128(2_000_000), 1414);
    assert_eq!(isqrt_u128(u64::MAX as u128 * u64::MAX as u128), u64::MAX as u128);
}

#[test]
fn saturating_add_pins_at_infinite() {
    assert_eq!(saturating_add_u128(1, 2), 3);
    assert_eq!(saturating_add_u128(u128::MAX - 1, 1), u128::MAX);
    assert_eq!(saturating_add_u128(u128::MAX, 5), u128::MAX);
}

#[test]
fn triangles_to_lines_single_triangle() {
    let lines = triangles_to_lines(&[0, 1, 2]);
    assert_eq!(lines, vec![0, 1, 1, 2, 0, 2]);
}

#[test]
fn triangles_to_lines_shared_edge_once() {
    // The second triangle shares the edge 1-2 with the first; it is emitted
    // only once.
    let lines = triangles_to_lines(&[0, 1, 2, 1, 2, 3]);
    assert_eq!(lines, vec![0, 1, 1, 2, 0, 2, 2, 3, 1, 3]);
}

#[test]
fn triangles_to_lines_ignores_trailing_partial_triangle() {
    let lines = triangles_to_lines(&[0, 1, 2, 9]);
    assert_eq!(lines, vec![0, 1, 1, 2, 0, 2]);
}

#[test]
fn triangles_to_lines_empty() {
    let lines = triangles_to_lines(&[]);
    assert_eq!(lines, Vec::<u32>::new());
}

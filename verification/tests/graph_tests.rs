//! Tests for the graph container: adding and removing nodes and edges,
//! insertion into occupied slots, surgery, and connection queries.
//!
//! Positions are integer coordinates in milli-unit ticks: a position of
//! `1500` reads as one and a half units.

use graph_search::edge::Edge;
use graph_search::error::GraphError;
use graph_search::graph::Graph;
use graph_search::node::Node;

#[test]
fn test_shift_left() {
    let mut graph = Graph::new();
    let node_0 = Node::new(1000, 1000, 0);
    let node_1 = Node::new(2000, 2000, 1);
    let node_2 = Node::new(3000, 3000, 2);

    let edge = Edge::new(1, 2);

    graph.add_node(node_0).unwrap();
    graph.add_node(node_1).unwrap();
    graph.add_node(node_2).unwrap();
    graph.add_edge(edge).unwrap();

    let end_at = graph.last_node_index;
    graph.shift_nodes_left(1, end_at, 1);

    assert_eq!(graph.nodes[0].index_of, 0);
    assert_eq!(graph.nodes[0].x_pos, 2000);

    assert_eq!(graph.nodes[1].index_of, 1);
    assert_eq!(graph.nodes[1].x_pos, 3000);

    assert_eq!(graph.edges[0].source_index, 0);
    assert_eq!(graph.edges[0].destination_index, 1);

    assert_eq!(graph.nodes[2].index_of, -1);
}

#[test]
fn test_shift_right() {
    let mut graph = Graph::new();
    let node_0 = Node::new(1000, 1000, 0);
    let node_1 = Node::new(2000, 2000, 1);
    let node_2 = Node::new(3000, 3000, 2);

    let edge = Edge::new(0, 1);

    graph.add_node(node_0).unwrap();
    graph.add_node(node_1).unwrap();
    graph.add_node(node_2).unwrap();
    graph.add_edge(edge).unwrap();

    let end_at = graph.last_node_index + 1;
    graph.shift_nodes_right(1, end_at, 1);

    assert_eq!(graph.nodes[2].x_pos, 2000);
    assert_eq!(graph.nodes[2].index_of, 2);
    assert_eq!(graph.nodes[1].index_of, -1);
    assert_eq!(graph.edges[0].source_index, 0);
    assert_eq!(graph.edges[0].destination_index, 2);
}

#[test]
fn test_add_node() {
    let mut graph = Graph::new();
    let node = Node::new(1000, 2000, 0);
    graph.add_node(node).unwrap();

    assert_eq!(graph.last_node_index, 0);
    assert_eq!(graph.nodes[0].x_pos, 1000);
    assert_eq!(graph.nodes[0].y_pos, 2000);
    assert_eq!(graph.nodes[0].index_of, 0);
}

#[test]
fn test_add_multiple_nodes() {
    let mut graph = Graph::new();
    let node_0 = Node::new(1000, 2000, 0);
    let node_1 = Node::new(3000, 4000, 1);
    graph.add_node(node_0).unwrap();
    graph.add_node(node_1).unwrap();

    assert_eq!(graph.last_node_index, 1);
    assert_eq!(graph.nodes[0].x_pos, 1000);
    assert_eq!(graph.nodes[0].y_pos, 2000);
    assert_eq!(graph.nodes[0].index_of, 0);
    assert_eq!(graph.nodes[1].x_pos, 3000);
    assert_eq!(graph.nodes[1].y_pos, 4000);
    assert_eq!(graph.nodes[1].index_of, 1);
}

#[test]
fn test_insert_node_into_already_occupied_index() {
    let mut graph = Graph::new();
    let node_0 = Node::new(1000, 1000, 0);
    let node_1 = Node::new(2000, 2000, 1);
    let node_2 = Node::new(3000, 3000, 2);
    let node4: Node = Node::new(4000, 4000, 1);

    graph.add_node(node_0).unwrap();
    graph.add_node(node_1).unwrap();
    graph.add_node(node_2).unwrap();
    graph.add_node(node4).unwrap();

    assert_eq!(graph.last_node_index, 3);
    assert_eq!(graph.nodes[0].x_pos, 1000);
    assert_eq!(graph.nodes[1].x_pos, 4000);
    assert_eq!(graph.nodes[2].x_pos, 2000);
    assert_eq!(graph.nodes[3].x_pos, 3000);
}

#[test]
fn test_add_node_with_negative_index() {
    let mut graph = Graph::new();
    let node = Node::new(1000, 2000, -1);
    assert_eq!(graph.add_node(node), Ok(false));
}

#[test]
fn test_remove_first_node() {
    let mut graph = Graph::new();
    let node_0 = Node::new(1000, 1000, 0);
    let node_1 = Node::new(2000, 2000, 1);
    let node_2 = Node::new(3000, 3000, 2);

    graph.add_node(node_0).unwrap();
    graph.add_node(node_1).unwrap();
    graph.add_node(node_2).unwrap();

    graph.remove_node(0).unwrap();

    assert_eq!(graph.last_node_index, 1);
    assert_eq!(graph.nodes[0].x_pos, 2000);
    assert_eq!(graph.nodes[0].index_of, 0);
    assert_eq!(graph.nodes[1].x_pos, 3000);
    assert_eq!(graph.nodes[1].index_of, 1);
    assert_eq!(graph.nodes[2].is_active(), false);
}

#[test]
fn test_remove_last_node() {
    let mut graph = Graph::new();
    let node_0 = Node::new(1000, 1000, 0);
    let node_1 = Node::new(2000, 2000, 1);
    let node_2 = Node::new(3000, 3000, 2);

    graph.add_node(node_0).unwrap();
    graph.add_node(node_1).unwrap();
    graph.add_node(node_2).unwrap();

    graph.remove_node(2).unwrap();

    assert_eq!(graph.last_node_index, 1);
    assert_eq!(graph.nodes[0].x_pos, 1000);
    assert_eq!(graph.nodes[0].index_of, 0);
    assert_eq!(graph.nodes[1].x_pos, 2000);
    assert_eq!(graph.nodes[1].index_of, 1);
    assert_eq!(graph.nodes[2].is_active(), false);
}

#[test]
fn test_remove_middle_node() {
    let mut graph = Graph::new();
    let node_0 = Node::new(1000, 1000, 0);
    let node_1 = Node::new(2000, 2000, 1);
    let node_2 = Node::new(3000, 3000, 2);

    graph.add_node(node_0).unwrap();
    graph.add_node(node_1).unwrap();
    graph.add_node(node_2).unwrap();

    graph.remove_node(1).unwrap();

    assert_eq!(graph.last_node_index, 1);
    assert_eq!(graph.nodes[0].x_pos, 1000);
    assert_eq!(graph.nodes[0].index_of, 0);
    assert_eq!(graph.nodes[1].x_pos, 3000);
    assert_eq!(graph.nodes[1].index_of, 1);
    assert_eq!(graph.nodes[2].is_active(), false);
}

#[test]
fn test_remove_nonexistent_node() {
    let mut graph = Graph::new();
    let node_0 = Node::new(1000, 1000, 0);
    let node_1 = Node::new(2000, 2000, 1);

    graph.add_node(node_0).unwrap();
    graph.add_node(node_1).unwrap();

    assert_eq!(graph.remove_node(3), Err(GraphError::OutOfRangeIndex));
}

#[test]
fn test_remove_node_with_edges() {
    let mut graph = Graph::new();
    let node_0 = Node::new(1000, 1000, 0);
    let node_1 = Node::new(2000, 2000, 1);
    let node_2 = Node::new(3000, 3000, 2);

    let edge1 = Edge::new(0, 1);
    let edge2 = Edge::new(1, 2);

    graph.add_node(node_0).unwrap();
    graph.add_node(node_1).unwrap();
    graph.add_node(node_2).unwrap();
    graph.add_edge(edge1).unwrap();
    graph.add_edge(edge2).unwrap();

    graph.remove_node(1).unwrap();

    assert_eq!(graph.last_node_index, 1);
    assert_eq!(graph.nodes[0].x_pos, 1000);
    assert_eq!(graph.nodes[0].index_of, 0);
    assert_eq!(graph.nodes[1].x_pos, 3000);
    assert_eq!(graph.nodes[1].index_of, 1);
    assert_eq!(graph.nodes[2].is_active(), false);

    assert_eq!(graph.edges[0].is_active(), false);
    assert_eq!(graph.edges[1].is_active(), false);
}

#[test]
fn test_add_node_between() {
    let mut graph = Graph::new();
    let node_0 = Node::new(1000, 1000, 0);
    let node_1 = Node::new(2000, 2000, 1);
    let node_2 = Node::new(3000, 3000, 2);
    let node_between = Node::new(1500, 1500, 3);

    let edge1 = Edge::new(0, 1);
    let edge2 = Edge::new(1, 2);

    graph.add_node(node_0).unwrap();
    graph.add_node(node_1).unwrap();
    graph.add_node(node_2).unwrap();
    graph.add_edge(edge1).unwrap();
    graph.add_edge(edge2).unwrap();

    graph.add_node_between(node_between, node_0, node_1).unwrap();

    assert_eq!(graph.last_node_index, 3);
    assert_eq!(graph.nodes[0].x_pos, 1000);
    assert_eq!(graph.nodes[0].index_of, 0);
    assert_eq!(graph.nodes[1].x_pos, 2000);
    assert_eq!(graph.nodes[1].index_of, 1);
    assert_eq!(graph.nodes[2].x_pos, 3000);
    assert_eq!(graph.nodes[2].index_of, 2);
    assert_eq!(graph.nodes[3].x_pos, 1500);
    assert_eq!(graph.nodes[3].index_of, 3);

    // The first edge will now be the second one we added, since we deleted
    // the edge between node_0 and node_1 when we inserted the new node
    assert_eq!(graph.edges[0].source_index, 1);
    assert_eq!(graph.edges[0].destination_index, 2);
    // These edges should be the new ones added to replace the original
    // edge between node_0 and node_1
    assert_eq!(graph.edges[1].source_index, 0);
    assert_eq!(graph.edges[1].destination_index, 3);
    assert_eq!(graph.edges[2].source_index, 3);
    assert_eq!(graph.edges[2].destination_index, 1);
}

#[test]
fn test_add_node_between_reverse_edge() {
    let mut graph = Graph::new();
    let node_0 = Node::new(1000, 1000, 0);
    let node_1 = Node::new(2000, 2000, 1);
    let node_2 = Node::new(3000, 3000, 2);
    let node_between = Node::new(1500, 1500, 3);

    let edge1 = Edge::new(1, 0);
    let edge2 = Edge::new(2, 1);

    graph.add_node(node_0).unwrap();
    graph.add_node(node_1).unwrap();
    graph.add_node(node_2).unwrap();
    graph.add_edge(edge1).unwrap();
    graph.add_edge(edge2).unwrap();

    graph.add_node_between(node_between, node_0, node_1).unwrap();

    assert_eq!(graph.last_node_index, 3);
    assert_eq!(graph.nodes[0].x_pos, 1000);
    assert_eq!(graph.nodes[0].index_of, 0);
    assert_eq!(graph.nodes[1].x_pos, 2000);
    assert_eq!(graph.nodes[1].index_of, 1);
    assert_eq!(graph.nodes[2].x_pos, 3000);
    assert_eq!(graph.nodes[2].index_of, 2);
    assert_eq!(graph.nodes[3].x_pos, 1500);
    assert_eq!(graph.nodes[3].index_of, 3);

    assert_eq!(graph.edges[0].source_index, 2);
    assert_eq!(graph.edges[0].destination_index, 1);
    assert_eq!(graph.edges[1].source_index, 0);
    assert_eq!(graph.edges[1].destination_index, 3);
    assert_eq!(graph.edges[2].source_index, 3);
    assert_eq!(graph.edges[2].destination_index, 1);
}

#[test]
fn test_add_node_between_no_existing_edge() {
    let mut graph = Graph::new();
    let node_0 = Node::new(1000, 1000, 0);
    let node_1 = Node::new(2000, 2000, 1);
    let node_2 = Node::new(3000, 3000, 2);
    let node_between = Node::new(1500, 1500, 1);

    graph.add_node(node_0).unwrap();
    graph.add_node(node_1).unwrap();
    graph.add_node(node_2).unwrap();

    graph.add_node_between(node_between, node_0, node_1).unwrap();

    assert_eq!(graph.last_node_index, 3);
    assert_eq!(graph.nodes[0].x_pos, 1000);
    assert_eq!(graph.nodes[0].index_of, 0);
    assert_eq!(graph.nodes[1].x_pos, 1500);
    assert_eq!(graph.nodes[1].index_of, 1);
    assert_eq!(graph.nodes[2].x_pos, 2000);
    assert_eq!(graph.nodes[2].index_of, 2);
    assert_eq!(graph.nodes[3].x_pos, 3000);
    assert_eq!(graph.nodes[3].index_of, 3);
    //Make sure we haven't inadvertently added any edges
    assert!(!graph.edges[0].is_active());
    assert_eq!(graph.last_edge_index, -1);
}

#[test]
fn test_get_connected_nodes() {
    let mut graph = Graph::new();
    let node_0 = Node::new(1000, 1000, 0);
    let node_1 = Node::new(2000, 2000, 1);
    let node_2 = Node::new(3000, 3000, 2);

    let edge1 = Edge::new(0, 1);
    let edge2 = Edge::new(1, 2);

    graph.add_node(node_0).unwrap();
    graph.add_node(node_1).unwrap();
    graph.add_node(node_2).unwrap();
    graph.add_edge(edge1).unwrap();
    graph.add_edge(edge2).unwrap();

    let connected_nodes = graph.get_connected_nodes(node_1);
    assert_eq!(connected_nodes.len(), 2);
    assert!(connected_nodes.contains(&node_0));
    assert!(connected_nodes.contains(&node_2));
}

#[test]
fn test_get_connected_nodes_no_edges() {
    let mut graph = Graph::new();
    let node_0 = Node::new(1000, 1000, 0);
    let node_1 = Node::new(2000, 2000, 1);

    graph.add_node(node_0).unwrap();
    graph.add_node(node_1).unwrap();

    let connected_nodes = graph.get_connected_nodes(node_0);
    assert_eq!(connected_nodes.len(), 0);
}

#[test]
fn test_get_connected_nodes_single_edge() {
    let mut graph = Graph::new();
    let node_0 = Node::new(1000, 1000, 0);
    let node_1 = Node::new(2000, 2000, 1);

    let edge = Edge::new(0, 1);

    graph.add_node(node_0).unwrap();
    graph.add_node(node_1).unwrap();
    graph.add_edge(edge).unwrap();

    let connected_nodes = graph.get_connected_nodes(node_0);
    assert_eq!(connected_nodes.len(), 1);
    assert!(connected_nodes.contains(&node_1));
}

#[test]
fn test_get_connected_nodes_bidirectional_edges() {
    let mut graph = Graph::new();
    let node_0 = Node::new(1000, 1000, 0);
    let node_1 = Node::new(2000, 2000, 1);

    let edge1 = Edge::new(0, 1);
    let edge2 = Edge::new(1, 0);

    graph.add_node(node_0).unwrap();
    graph.add_node(node_1).unwrap();
    graph.add_edge(edge1).unwrap();
    graph.add_edge(edge2).unwrap();

    let connected_nodes = graph.get_connected_nodes(node_0);
    assert_eq!(connected_nodes.len(), 1);
    assert!(connected_nodes.contains(&node_1));
}

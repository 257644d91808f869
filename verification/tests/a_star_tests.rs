//! Tests for the A* search on a small chain-with-shortcut graph. Positions
//! are integer coordinates in milli-unit ticks: node `i` sits at
//! `(i * 1000, i * 1000)`.

use graph_search::a_star::a_star_search;
use graph_search::edge::Edge;
use graph_search::error::GraphError;
use graph_search::graph::Graph;
use graph_search::node::Node;

fn create_test_graph() -> Graph {
    let mut graph = Graph::new();
    let node_a = Node::new(0, 0, 0);
    let node_b = Node::new(1000, 1000, 1);
    let node_c = Node::new(2000, 2000, 2);
    let node_d = Node::new(3000, 3000, 3);
    let node_e = Node::new(4000, 4000, 4);

    graph.add_node(node_a).unwrap();
    graph.add_node(node_b).unwrap();
    graph.add_node(node_c).unwrap();
    graph.add_node(node_d).unwrap();
    graph.add_node(node_e).unwrap();

    graph.add_edge(Edge::new(0, 1)).unwrap();
    graph.add_edge(Edge::new(1, 2)).unwrap();
    graph.add_edge(Edge::new(2, 3)).unwrap();
    graph.add_edge(Edge::new(3, 4)).unwrap();
    graph.add_edge(Edge::new(0, 4)).unwrap();

    graph
}

#[test]
fn test_a_star_search_direct_path() {
    let graph = create_test_graph();
    let path = a_star_search(0, 4, &graph).unwrap();
    assert_eq!(path, vec![0, 4]);
}

#[test]
fn test_a_star_search_no_path() {
    let mut graph = create_test_graph();
    graph.remove_edge(4).unwrap();
    graph.remove_edge(3).unwrap();
    assert_eq!(a_star_search(0, 4, &graph), Err(GraphError::PathNotFound));
}

#[test]
fn test_a_star_search_same_start_and_end() {
    let graph = create_test_graph();
    let path = a_star_search(0, 0, &graph).unwrap();
    assert_eq!(path, vec![0]);
}

#[test]
fn test_a_star_search_alternative_path() {
    let mut graph = create_test_graph();
    graph.remove_edge(4).unwrap();
    graph.add_edge(Edge::new(1, 4)).unwrap();
    let path = a_star_search(0, 4, &graph).unwrap();
    assert_eq!(path, vec![0, 1, 4]);
}

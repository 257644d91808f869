//! Tests for node distances and midpoints. Positions are integer
//! coordinates in milli-unit ticks, so a distance of `5000` reads as five
//! units.

use graph_search::node::{
    get_distance_between_nodes, get_manhattan_distance_between_nodes, get_midpoint_between_nodes,
    Node,
};

#[test]
fn test_get_midpoint_between_nodes() {
    let node_a = Node::new(0, 0, 0);
    let node_b = Node::new(4000, 4000, 1);
    let midpoint = get_midpoint_between_nodes(node_a, node_b);
    assert_eq!(midpoint.x, 2000);
    assert_eq!(midpoint.y, 2000);
}

#[test]
fn test_get_midpoint_between_same_nodes() {
    let node_a = Node::new(1000, 1000, 0);
    let node_b = Node::new(1000, 1000, 1);
    let midpoint = get_midpoint_between_nodes(node_a, node_b);
    assert_eq!(midpoint.x, 1000);
    assert_eq!(midpoint.y, 1000);
}

#[test]
fn test_get_midpoint_between_negative_coordinates() {
    let node_a = Node::new(-1000, -1000, 0);
    let node_b = Node::new(-3000, -3000, 1);
    let midpoint = get_midpoint_between_nodes(node_a, node_b);
    assert_eq!(midpoint.x, -2000);
    assert_eq!(midpoint.y, -2000);
}

#[test]
fn test_get_midpoint_between_mixed_coordinates() {
    let node_a = Node::new(-1000, 1000, 0);
    let node_b = Node::new(3000, -3000, 1);
    let midpoint = get_midpoint_between_nodes(node_a, node_b);
    assert_eq!(midpoint.x, 1000);
    assert_eq!(midpoint.y, -1000);
}

#[test]
fn test_get_distance_between_nodes() {
    let node_a = Node::new(0, 0, 0);
    let node_b = Node::new(3000, 4000, 1);
    let distance = get_distance_between_nodes(node_a, node_b);
    assert_eq!(distance, 5000);
}

#[test]
fn test_get_distance_between_same_nodes() {
    let node_a = Node::new(1000, 1000, 0);
    let node_b = Node::new(1000, 1000, 1);
    let distance = get_distance_between_nodes(node_a, node_b);
    assert_eq!(distance, 0);
}

#[test]
fn test_get_distance_between_negative_coordinates() {
    let node_a = Node::new(-1000, -1000, 0);
    let node_b = Node::new(-4000, -5000, 1);
    let distance = get_distance_between_nodes(node_a, node_b);
    assert_eq!(distance, 5000);
}

#[test]
fn test_get_manhattan_distance_between_nodes() {
    let node_a = Node::new(0, 0, 0);
    let node_b = Node::new(3000, 4000, 1);
    let distance = get_manhattan_distance_between_nodes(node_a, node_b);
    assert_eq!(distance, 7000);
}

#[test]
fn test_get_manhattan_distance_between_same_nodes() {
    let node_a = Node::new(1000, 1000, 0);
    let node_b = Node::new(1000, 1000, 1);
    let distance = get_manhattan_distance_between_nodes(node_a, node_b);
    assert_eq!(distance, 0);
}

#[test]
fn test_get_manhattan_distance_between_negative_coordinates() {
    let node_a = Node::new(-1000, -1000, 0);
    let node_b = Node::new(-4000, -5000, 1);
    let distance = get_manhattan_distance_between_nodes(node_a, node_b);
    assert_eq!(distance, 7000);
}

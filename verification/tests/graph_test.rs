//! Tests for the directed graph container: creation, edge insertion,
//! validation errors, and edge queries.

use dsa_in_rust::graph::Graph;
use dsa_in_rust::graph::GraphError;

/// Creating a graph yields the requested node count.
#[test]
fn test_new_graph() {
    let graph = Graph::new(5);
    assert_eq!(graph.node_count(), 5);
}

/// Edges between valid nodes are added and observable.
#[test]
fn test_add_valid_edges() {
    let mut graph = Graph::new(5);
    assert!(graph.add_edge(0, 1).is_ok());
    assert!(graph.add_edge(1, 2).is_ok());
    assert!(graph.has_edge(0, 1));
    assert!(graph.has_edge(1, 2));
}

/// An out-of-bounds endpoint is rejected with its index.
#[test]
fn test_invalid_node_edge() {
    let mut graph = Graph::new(5);
    assert!(matches!(graph.add_edge(5, 1), Err(GraphError::InvalidNode(5))));
}

/// The second insertion of the same edge is rejected.
#[test]
fn test_duplicate_edge() {
    let mut graph = Graph::new(5);
    assert!(graph.add_edge(0, 1).is_ok());
    assert!(matches!(graph.add_edge(0, 1), Err(GraphError::EdgeExists(0, 1))));
}

/// A graph with zero nodes is valid.
#[test]
fn graph_test_test_empty_graph() {
    let graph = Graph::new(0);
    assert_eq!(graph.node_count(), 0);
}

/// A self-loop is an ordinary edge.
#[test]
fn graph_test_test_self_loop() {
    let mut graph = Graph::new(3);
    assert!(graph.add_edge(2, 2).is_ok());
    assert!(graph.has_edge(2, 2));
}

/// All edges of a complete graph can be added.
#[test]
fn test_complete_graph() {
    let mut graph = Graph::new(4);
    for i in 0..4 {
        for j in 0..4 {
            if i != j {
                assert!(graph.add_edge(i, j).is_ok());
            }
        }
    }
}

/// A cycle of edges is accepted.
#[test]
fn graph_test_test_cycle() {
    let mut graph = Graph::new(3);
    assert!(graph.add_edge(0, 1).is_ok());
    assert!(graph.add_edge(1, 2).is_ok());
    assert!(graph.add_edge(2, 0).is_ok());
    assert!(graph.has_edge(0, 1));
    assert!(graph.has_edge(1, 2));
    assert!(graph.has_edge(2, 0));
}

/// A large graph accepts edges without trouble.
#[test]
fn test_large_graph() {
    let node_count = 1000;
    let mut graph = Graph::new(node_count);
    for i in 0..10 {
        assert!(graph.add_edge(i, (i + 1) % node_count).is_ok());
    }
}

/// Several edges from the same source coexist.
#[test]
fn test_multiple_edges() {
    let mut graph = Graph::new(5);
    assert!(graph.add_edge(0, 1).is_ok());
    assert!(graph.add_edge(0, 2).is_ok());
    assert!(graph.add_edge(0, 3).is_ok());
    assert!(graph.has_edge(0, 1));
    assert!(graph.has_edge(0, 2));
    assert!(graph.has_edge(0, 3));
}

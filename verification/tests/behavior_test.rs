//! Scenario tests for reachability, edge counting, the array search, and
//! the helpers.

use dsa_in_rust::dfs::depth_first_search;
use dsa_in_rust::dfs_search::DfsSearch;
use dsa_in_rust::graph::Graph;
use dsa_in_rust::graph::GraphError;
use dsa_in_rust::helpers::generate_sorted_integers;
use dsa_in_rust::helpers::shuffle_integers;

/// A fresh graph has the given node count and no edges.
#[test]
fn new_graph_counts() {
    let graph = Graph::new(7);
    assert_eq!(graph.node_count(), 7);
    assert_eq!(graph.edge_count(), 0);
}

/// Each successful insertion raises the edge count by one; failures leave
/// it alone.
#[test]
fn edge_count_tracks_insertions() {
    let mut graph = Graph::new(3);
    assert!(graph.add_edge(0, 1).is_ok());
    assert_eq!(graph.edge_count(), 1);
    assert!(graph.add_edge(1, 2).is_ok());
    assert_eq!(graph.edge_count(), 2);
    assert!(graph.add_edge(0, 1).is_err());
    assert_eq!(graph.edge_count(), 2);
    assert!(graph.add_edge(0, 9).is_err());
    assert_eq!(graph.edge_count(), 2);
}

/// The invalid-node error carries the larger of the two indices.
#[test]
fn invalid_node_reports_larger_index() {
    let mut graph = Graph::new(4);
    assert!(matches!(graph.add_edge(9, 2), Err(GraphError::InvalidNode(9))));
    assert!(matches!(graph.add_edge(2, 6), Err(GraphError::InvalidNode(6))));
}

/// An inserted edge is present in exactly its own direction.
#[test]
fn has_edge_is_directed() {
    let mut graph = Graph::new(5);
    assert!(graph.add_edge(0, 1).is_ok());
    assert!(graph.has_edge(0, 1));
    assert!(!graph.has_edge(1, 0));
    assert!(!graph.has_edge(0, 2));
    assert!(!graph.has_edge(7, 0));
    assert!(!graph.has_edge(0, 7));
}

/// Every valid node reaches itself, with no self-loop needed.
#[test]
fn has_path_is_reflexive() {
    let graph = Graph::new(3);
    assert_eq!(graph.has_path(0, 0), Ok(true));
    assert_eq!(graph.has_path(1, 1), Ok(true));
    assert_eq!(graph.has_path(2, 2), Ok(true));
}

/// Reachability follows edge direction on a three-node chain.
#[test]
fn has_path_three_node_chain() {
    let mut graph = Graph::new(3);
    assert!(graph.add_edge(0, 1).is_ok());
    assert!(graph.add_edge(1, 2).is_ok());
    assert_eq!(graph.has_path(0, 2), Ok(true));
    assert_eq!(graph.has_path(2, 0), Ok(false));
}

/// An out-of-range endpoint makes the reachability query fail.
#[test]
fn has_path_invalid_node() {
    let graph = Graph::new(3);
    assert!(matches!(graph.has_path(0, 5), Err(GraphError::InvalidNode(5))));
    assert!(matches!(graph.has_path(5, 0), Err(GraphError::InvalidNode(5))));
}

/// A cycle does not keep the traversal from terminating.
#[test]
fn has_path_cycle_terminates() {
    let mut graph = Graph::new(2);
    assert!(graph.add_edge(0, 1).is_ok());
    assert!(graph.add_edge(1, 0).is_ok());
    assert_eq!(graph.has_path(0, 1), Ok(true));
    assert_eq!(graph.has_path(1, 0), Ok(true));
}

/// With zero nodes, start index zero is already out of range.
#[test]
fn search_empty_adjacency() {
    let graph: Vec<Vec<usize>> = vec![];
    let dfs = DfsSearch::new(&graph);
    assert_eq!(dfs.search(0, 0), None);
}

/// A two-node cycle with an absent target terminates with no path.
#[test]
fn search_two_cycle_terminates() {
    let graph = vec![vec![1], vec![0]];
    let dfs = DfsSearch::new(&graph);
    assert_eq!(dfs.search(0, 5), None);
}

/// The array search finds a present value at its preorder position.
#[test]
fn array_search_finds_value() {
    let arr = vec![1, 2, 3, 4, 5];
    assert_eq!(depth_first_search(&arr, 3), Some(2));
    assert_eq!(depth_first_search(&arr, 6), None);
}

/// The copy of the array search behaves like the one in `dfs`.
#[test]
fn array_search_second_copy() {
    let arr = vec![1, 2, 3, 4, 5];
    assert_eq!(dsa_in_rust::dfs_search::depth_first_search(&arr, 3), Some(2));
    assert_eq!(dsa_in_rust::dfs_search::depth_first_search(&arr, 6), None);
    let empty: Vec<i32> = vec![];
    assert_eq!(dsa_in_rust::dfs_search::depth_first_search(&empty, 1), None);
}

/// The generated run is exactly 1 up to the count.
#[test]
fn generated_integers_are_sorted() {
    assert_eq!(generate_sorted_integers(5), vec![1, 2, 3, 4, 5]);
    assert_eq!(generate_sorted_integers(0), Vec::<i32>::new());
}

/// Shuffling keeps exactly the same elements: sorting the shuffle restores
/// the sorted run.
#[test]
fn shuffle_preserves_elements() {
    let mut arr = generate_sorted_integers(100);
    shuffle_integers(&mut arr);
    assert_eq!(arr.len(), 100);
    dsa_in_rust::bubble_sort::bubble_sort(&mut arr);
    assert_eq!(arr, generate_sorted_integers(100));
}

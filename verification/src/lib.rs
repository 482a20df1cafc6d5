pub mod bubble_sort;
pub mod dfs;
pub mod dfs_search;
pub mod graph;
pub mod helpers;
pub mod reachability;

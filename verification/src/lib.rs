//! Breadth-first search over adjacency-list graphs and 4-connected grids,
//! one search per start point, run in parallel and gathered in input order.
pub mod adjacency;
pub mod counting;
pub mod error;
pub mod fanout;
pub mod graph;
pub mod grid;
pub mod grid_search;
pub mod workload;

pub use adjacency::bfs;
pub use error::{BatchError, BfsError};
pub use fanout::{gather, multi_bfs, multi_bfs_slots, multi_grid_bfs, multi_grid_bfs_slots};
pub use graph::Graph;
pub use grid::Grid;
pub use grid_search::grid_bfs;

//! Tile-world navigation: 8-connected grid graphs and line-of-sight checks.
//!
//! A grid of cells is turned into an undirected graph in which every cell is
//! joined to the cells around it, ready for a shortest-path search. Whether
//! one cell can be seen from another is decided by walking the straight line
//! between them, cell by cell, and looking for a cell that the graph lacks.

pub mod builder;
pub mod error;
pub mod graph;
pub mod grid;
pub mod line;
pub mod visibility;

pub use crate::builder::build_empty_tile_graph;
pub use crate::error::GridError;
pub use crate::graph::TileGraph;
pub use crate::grid::{_neighbors_3x3, neighbors, Point};
pub use crate::line::{Line, Path};
pub use crate::visibility::{collision_between, first_gap};

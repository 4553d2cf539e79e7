//! Search-based path planning over 2D occupancy grids.
//!
//! The crate provides an occupancy-grid map type with traversability and
//! collision queries, a family of discrete frontier searches (breadth-first,
//! depth-first, Dijkstra, A*) sharing one traversal engine, and a sampling
//! tree planner that grows toward randomly sampled targets.

pub mod maps;
pub mod planners;

pub use crate::maps::gridmap::Gridmap;

pub use crate::planners::a_star;
pub use crate::planners::bfs;
pub use crate::planners::dfs;
pub use crate::planners::dijkstra;
pub use crate::planners::rrt;

//! Path planners over occupancy grids.

pub mod planner_base;
pub mod planner_common;
pub mod frontier;

pub mod bfs;
pub mod dfs;
pub mod dijkstra;
pub mod a_star;
pub mod rrt;

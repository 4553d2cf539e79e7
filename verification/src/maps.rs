//! Occupancy-grid map types and builders.

pub mod gridmap;
pub mod builder;
pub mod samples;

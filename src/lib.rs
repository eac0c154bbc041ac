//! Ray casting against a static occupancy grid, by incremental grid-line
//! traversal in exact integer arithmetic.
pub mod grid;
pub mod raycast;
pub mod laws;
pub mod sweep;

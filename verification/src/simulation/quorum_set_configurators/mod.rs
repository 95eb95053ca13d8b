//! Policies that assign quorum sets to nodes, and the graphs that some of
//! them draw on.

pub mod graph;
pub mod random;
pub mod super_safe;

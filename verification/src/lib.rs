//! Degrees of separation in an undirected graph: breadth-first distances from
//! every node, and the statistics folded from them.

pub mod collections;
pub mod data_reading;
pub mod graph;
pub mod laws;
pub mod measures;
mod search;
pub mod separation_deg;
pub mod spread;
pub mod sums;

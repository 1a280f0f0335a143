//! Degrees of separation on a weighted undirected graph: a hop-bounded
//! shortest-path search from every vertex, per-hop-count statistics, and the
//! selection of the most central vertex at each hop count.

pub mod graph;
pub mod stats;
pub mod search;
pub mod analysis;
pub mod selection;

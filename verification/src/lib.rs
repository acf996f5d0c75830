//! A small in-memory graph library: nodes, directed links with optional
//! integer weights, adjacency queries, connected components, and a
//! single-source single-target shortest-path search.

pub mod algo;
pub mod graph;

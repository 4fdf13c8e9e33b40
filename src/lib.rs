//! A directed relationship graph built from an edge list of named entities,
//! with verified hop-distance queries and centrality ranking.
pub mod digraph;
pub mod error;
pub mod paths;
pub mod ranking;
pub mod store;

//! A small undirected graph engine: unit-weight shortest paths from a start
//! node toward gateway nodes, which are reached but never expanded.
pub mod graph;
pub mod lemmas;

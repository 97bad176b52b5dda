//! Structural analytics of a directed route network: graph construction,
//! degree statistics, hub ranking, a power-law shape heuristic and average
//! shortest-path length.

pub mod degree;
pub mod digraph;
pub mod flight;
pub mod graph;
pub mod paths;
pub mod ranking;
pub mod utils;

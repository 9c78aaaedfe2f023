//! Solvers for two grid-and-graph puzzles: a Hashiwokakero ("bridges") solver and
//! a path-finding agent blocker on an undirected graph with exit gateways.
pub mod text;
pub mod domain;
pub mod hashi;
pub mod graph;
pub mod solve;
pub mod reading;
pub mod skynet;

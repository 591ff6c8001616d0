//! Heuristic solver for one-sided crossing minimization: given a bipartite
//! graph whose one side is fixed, order the free side so that few edges cross.
//!
//! Small graphs fall into the strongly connected components of a precedence
//! graph, each of which is ordered by sifting on a matrix of crossing
//! numbers; large graphs are sifted as a whole. Every long-running routine
//! polls a flag and ends with the best ordering it has once the flag is
//! raised.

pub mod bipartite_graph;
pub mod clock;
pub mod connectivity;
pub mod cost;
pub mod global_abort;
pub mod graph;
pub mod heuristic;
pub mod input;
pub mod permutation;
pub mod random;
pub mod refine;
pub mod scc;
pub mod sifting;
pub mod sifting_large;
pub mod sifting_very_large;
pub mod sorting;
pub mod traversal;

pub use bipartite_graph::BipartiteGraph;

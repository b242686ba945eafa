//! Chordality testing through a naive lexicographic breadth-first search.
//!
//! A LexBFS engine computes an elimination ordering of an undirected graph,
//! and a verifier checks whether that ordering is a perfect elimination
//! scheme, which it is exactly when the graph is chordal.

/// Label sets and their comparison.
pub mod common;
/// The graph the library works on, and what it reads of it.
pub mod graph;
/// What a LexBFS ordering is, and the state shared by the engines.
pub mod lexbfs;
/// Building a graph from an adjacency matrix given as text.
pub mod matrix;
/// What a perfect elimination scheme is, and the steps of its check.
pub mod pes;
/// The data-parallel strategy.
pub mod rayon;
/// Chunking and the pieces of the parallel reductions.
pub mod reduce;
/// The sequential strategy.
pub mod serial;
/// The worker-pool strategy.
pub mod threads;

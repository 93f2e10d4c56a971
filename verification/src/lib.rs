//! Structural metrics over a static directed graph held as an adjacency map:
//! least-weight distance between two nodes, hop distances from a source,
//! mean distances, local clustering and edge density.
//!
//! Every ratio is returned exactly, as a pair of integers; turning it into a
//! floating-point number is left to the caller.

pub mod breadth_first;
pub mod graph;
pub mod heap;
pub mod ingest;
pub mod metrics;
pub mod shortest_path;
pub mod sum;
pub mod text;
pub mod walk;

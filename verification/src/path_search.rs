//! Searching for paths in a graph.
pub mod hamiltonian;

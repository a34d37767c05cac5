//! Minimum spanning forests of weighted undirected graphs.
//!
//! The heart of the crate is [`min_spanning_tree`]: three builders, after
//! Kruskal, Prim and Boruvka, that all return the same edges, and the proof
//! that these edges form a spanning forest of least weight.  The builders
//! rest on the graph model of [`graph`], on the order of weights of
//! [`weight`], on the disjoint-set structure of [`union_find`], and on the
//! notion of connectivity of [`connectivity`].
//!
//! Around it stand routines for [`sorting`] a slice, for
//! [`binary_search`] in a sorted slice, and for listing Hamiltonian paths
//! in [`path_search`].
pub mod binary_search;
pub mod connectivity;
pub mod error;
pub mod graph;
pub mod min_spanning_tree;
pub mod path_search;
pub mod sorting;
pub mod union_find;
pub mod weight;

//! Minimum spanning forests: what they are, and three ways to build one.
use crate::error::MsfError;
use crate::graph::Graph;
use vstd::prelude::*;

pub mod boruvka;
pub mod forest;
pub mod kruskal;
pub mod laws;
pub mod optimality;
pub mod prim;

verus! {

/// The way in which a forest is built.
#[derive(Clone, Copy, Debug, PartialEq, Eq, Structural)]
pub enum Strategy {
    /// Scan the edges in ascending order.
    Kruskal,
    /// Grow one tree after the other from a seed.
    Prim,
    /// Let every tree name its cheapest outgoing edge, round by round.
    Boruvka,
}

/// Builds a minimum spanning forest of the graph in the chosen way and
/// returns the endpoints of its edges.  The graph is checked first: an
/// endpoint out of range or a weight that is not finite is an error.
pub fn build_mst(graph: &Graph, strategy: Strategy) -> (r: Result<Vec<(usize, usize)>, MsfError>)
    ensures
        match r {
            Ok(forest) => {
                &&& graph.well_formed()
                &&& graph.is_msf_result(forest@)
                &&& strategy == Strategy::Kruskal ==> graph.is_ascending_result(forest@)
            },
            Err(e) => graph.defect() == Some(e),
        },
{
    match strategy {
        Strategy::Kruskal => kruskal::build_mst(graph),
        Strategy::Prim => prim::build_mst(graph),
        Strategy::Boruvka => boruvka::build_mst(graph),
    }
}

} // verus!

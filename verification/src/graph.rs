//! The graph model: a vertex count and a list of weighted edges.
use crate::error::MsfError;
use crate::weight::{is_finite, weight_is_finite, weight_value};
use vstd::prelude::*;

verus! {

/// One entry of a vertex's neighbour list: the vertex at the other end of
/// an edge, with the edge's weight and its position in the edge list.
#[derive(Clone, Copy, Debug, PartialEq, Eq, Structural)]
pub struct Neighbor {
    pub vertex: usize,
    pub weight: u32,
    pub edge: usize,
}

/// The entry stands in the list of `u` for an edge between `u` and the
/// entry's vertex.
pub open spec fn entry_ok(graph: &Graph, u: int, entry: Neighbor) -> bool {
    &&& entry.edge < graph.edges@.len()
    &&& entry.weight == graph.edges@[entry.edge as int].2
    &&& ((graph.edges@[entry.edge as int].0 == u && graph.edges@[entry.edge as int].1
        == entry.vertex) || (graph.edges@[entry.edge as int].1 == u
        && graph.edges@[entry.edge as int].0 == entry.vertex))
}

/// The first `count` edges of the graph, and nothing else, are listed at
/// both of their endpoints.
pub open spec fn lists_edges(graph: &Graph, adj: Seq<Vec<Neighbor>>, count: int) -> bool {
    &&& adj.len() == graph.vertex_count
    &&& forall|u: int, pos: int|
        0 <= u < adj.len() && 0 <= pos < adj[u]@.len() ==> entry_ok(
            graph,
            u,
            #[trigger] adj[u]@[pos],
        ) && adj[u]@[pos].edge < count
    &&& forall|e: int|
        0 <= e < count ==> {
            let edge = #[trigger] graph.edges@[e];
            &&& adj[edge.0 as int]@.contains(
                Neighbor { vertex: edge.1, weight: edge.2, edge: e as usize },
            )
            &&& adj[edge.1 as int]@.contains(
                Neighbor { vertex: edge.0, weight: edge.2, edge: e as usize },
            )
        }
}

/// `adj` is the adjacency view of the graph: every edge is listed at both
/// of its endpoints, and nothing else is listed.
pub open spec fn is_adjacency(graph: &Graph, adj: Seq<Vec<Neighbor>>) -> bool {
    lists_edges(graph, adj, graph.edges@.len() as int)
}

/// Appends an entry to the list of `u`.
fn list_neighbor(adj: &mut Vec<Vec<Neighbor>>, u: usize, entry: Neighbor)
    requires
        u < old(adj)@.len(),
    ensures
        final(adj)@.len() == old(adj)@.len(),
        final(adj)@[u as int]@ == old(adj)@[u as int]@.push(entry),
        forall|k: int| 0 <= k < old(adj)@.len() && k != u ==> final(adj)@[k] == old(adj)@[k],
{
    adj[u].push(entry);
}

/// A weighted undirected graph on the vertices `0 .. vertex_count`.
///
/// An edge is `(u, v, w)`: its two endpoints and the bits of its weight, a
/// single-precision number.  Parallel edges and loops may occur; a loop is
/// never part of a forest.
#[derive(Debug)]
pub struct Graph {
    pub vertex_count: usize,
    pub edges: Vec<(usize, usize, u32)>,
}

impl Graph {
    /// The endpoints of every edge.
    pub open spec fn pairs(&self) -> Seq<(int, int)> {
        Seq::new(self.edges@.len(), |i: int| (self.edges@[i].0 as int, self.edges@[i].1 as int))
    }

    /// The value of every edge's weight, in units of `2^-149`.
    pub open spec fn weights(&self) -> Seq<int> {
        Seq::new(self.edges@.len(), |i: int| weight_value(self.edges@[i].2))
    }

    /// Both endpoints of every edge are vertices of the graph.
    pub open spec fn indices_ok(&self) -> bool {
        forall|i: int|
            0 <= i < self.edges@.len() ==> (#[trigger] self.edges@[i]).0 < self.vertex_count
                && self.edges@[i].1 < self.vertex_count
    }

    /// Every weight is a finite number.
    pub open spec fn weights_ok(&self) -> bool {
        forall|i: int| 0 <= i < self.edges@.len() ==> is_finite((#[trigger] self.edges@[i]).2)
    }

    /// The graph is fit to build a forest on.
    pub open spec fn well_formed(&self) -> bool {
        self.indices_ok() && self.weights_ok()
    }

    /// What is wrong with the graph, if anything.  An endpoint out of range
    /// is reported before a weight that is not finite.
    pub open spec fn defect(&self) -> Option<MsfError> {
        if !self.indices_ok() {
            Some(MsfError::InvalidIndex)
        } else if !self.weights_ok() {
            Some(MsfError::InvalidWeight)
        } else {
            None
        }
    }

    /// The endpoints of the edges at the positions `ids`, in that order.
    pub open spec fn endpoints(&self, ids: Seq<int>) -> Seq<(usize, usize)> {
        Seq::new(ids.len(), |k: int| (self.edges@[ids[k]].0, self.edges@[ids[k]].1))
    }

    /// A graph of `vertex_count` vertices with the given edges.  Nothing is
    /// checked here: `validate` and the builders do that.
    pub fn new(vertex_count: usize, edges: Vec<(usize, usize, u32)>) -> (graph: Self)
        ensures
            graph.vertex_count == vertex_count,
            graph.edges@ == edges@,
    {
        Graph { vertex_count, edges }
    }

    /// Checks the endpoints and the weights of all edges.
    pub fn validate(&self) -> (r: Result<(), MsfError>)
        ensures
            r == match self.defect() {
                Some(e) => Err::<(), MsfError>(e),
                None => Ok::<(), MsfError>(()),
            },
    {
        let m = self.edges.len();
        let mut i: usize = 0;
        while i < m
            invariant
                m == self.edges@.len(),
                i <= m,
                forall|k: int|
                    0 <= k < i ==> (#[trigger] self.edges@[k]).0 < self.vertex_count
                        && self.edges@[k].1 < self.vertex_count,
            decreases m - i,
        {
            let edge = self.edges[i];
            if edge.0 >= self.vertex_count || edge.1 >= self.vertex_count {
                return Err(MsfError::InvalidIndex);
            }
            i += 1;
        }
        let mut j: usize = 0;
        while j < m
            invariant
                m == self.edges@.len(),
                j <= m,
                self.indices_ok(),
                forall|k: int| 0 <= k < j ==> is_finite((#[trigger] self.edges@[k]).2),
            decreases m - j,
        {
            let edge = self.edges[j];
            if !weight_is_finite(edge.2) {
                return Err(MsfError::InvalidWeight);
            }
            j += 1;
        }
        Ok(())
    }

    /// The adjacency view: for every vertex the list of its neighbours,
    /// one entry for each end of each edge.
    pub fn adjacency(&self) -> (adj: Vec<Vec<Neighbor>>)
        requires
            self.indices_ok(),
        ensures
            is_adjacency(self, adj@),
    {
        let n = self.vertex_count;
        let m = self.edges.len();
        let mut adj: Vec<Vec<Neighbor>> = Vec::new();
        let mut k: usize = 0;
        while k < n
            invariant
                k <= n,
                adj@.len() == k,
                forall|u: int| 0 <= u < k ==> (#[trigger] adj@[u])@.len() == 0,
            decreases n - k,
        {
            adj.push(Vec::new());
            k += 1;
        }
        let mut i: usize = 0;
        while i < m
            invariant
                n == self.vertex_count,
                m == self.edges@.len(),
                i <= m,
                self.indices_ok(),
                lists_edges(self, adj@, i as int),
            decreases m - i,
        {
            let edge = self.edges[i];
            let ghost adj0 = adj@;
            let to_first = Neighbor { vertex: edge.1, weight: edge.2, edge: i };
            let to_second = Neighbor { vertex: edge.0, weight: edge.2, edge: i };
            list_neighbor(&mut adj, edge.0, to_first);
            let ghost adj1 = adj@;
            list_neighbor(&mut adj, edge.1, to_second);
            proof {
                let adj2 = adj@;
                // what was listed is still listed, at its old place
                assert forall|u: int, pos: int|
                    0 <= u < adj0.len() && 0 <= pos < adj0[u]@.len() implies pos < adj2[u]@.len()
                    && #[trigger] adj2[u]@[pos] == adj0[u]@[pos] by {
                    assert(pos < adj1[u]@.len() && adj1[u]@[pos] == adj0[u]@[pos]);
                }
                assert forall|u: int, pos: int|
                    0 <= u < adj2.len() && 0 <= pos < adj2[u]@.len() implies entry_ok(
                    self,
                    u,
                    #[trigger] adj2[u]@[pos],
                ) && adj2[u]@[pos].edge < i + 1 by {
                    if pos < adj0[u]@.len() {
                        assert(adj2[u]@[pos] == adj0[u]@[pos]);
                    } else if pos < adj1[u]@.len() {
                        assert(adj2[u]@[pos] == adj1[u]@[pos]);
                        assert(adj2[u]@[pos] == to_first);
                    } else {
                        assert(adj2[u]@[pos] == to_first || adj2[u]@[pos] == to_second);
                    }
                }
                assert forall|e: int| 0 <= e < i + 1 implies {
                    let old_edge = #[trigger] self.edges@[e];
                    &&& adj2[old_edge.0 as int]@.contains(
                        Neighbor { vertex: old_edge.1, weight: old_edge.2, edge: e as usize },
                    )
                    &&& adj2[old_edge.1 as int]@.contains(
                        Neighbor { vertex: old_edge.0, weight: old_edge.2, edge: e as usize },
                    )
                } by {
                    let old_edge = self.edges@[e];
                    let first = Neighbor {
                        vertex: old_edge.1,
                        weight: old_edge.2,
                        edge: e as usize,
                    };
                    let second = Neighbor {
                        vertex: old_edge.0,
                        weight: old_edge.2,
                        edge: e as usize,
                    };
                    if e < i {
                        let at_first = choose|p: int|
                            0 <= p < adj0[old_edge.0 as int]@.len() && adj0[old_edge.0 as int]@[p]
                                == first;
                        assert(adj2[old_edge.0 as int]@[at_first] == first);
                        let at_second = choose|p: int|
                            0 <= p < adj0[old_edge.1 as int]@.len() && adj0[old_edge.1 as int]@[p]
                                == second;
                        assert(adj2[old_edge.1 as int]@[at_second] == second);
                    } else {
                        let at_first = adj0[edge.0 as int]@.len() as int;
                        assert(adj1[edge.0 as int]@[at_first] == to_first);
                        assert(adj2[edge.0 as int]@[at_first] == to_first);
                        let at_second = adj1[edge.1 as int]@.len() as int;
                        assert(adj2[edge.1 as int]@[at_second] == to_second);
                    }
                }
            }
            i += 1;
        }
        adj
    }

    /// The endpoints of the edges at the positions `ids`, in that order.
    pub fn endpoints_of(&self, ids: &Vec<usize>) -> (pairs: Vec<(usize, usize)>)
        requires
            forall|k: int| 0 <= k < ids@.len() ==> (#[trigger] ids@[k]) < self.edges@.len(),
        ensures
            pairs@ == self.endpoints(as_ids(ids@)),
    {
        let mut pairs: Vec<(usize, usize)> = Vec::new();
        let mut k: usize = 0;
        while k < ids.len()
            invariant
                k <= ids@.len(),
                pairs@.len() == k,
                forall|j: int| 0 <= j < ids@.len() ==> (#[trigger] ids@[j]) < self.edges@.len(),
                forall|j: int|
                    0 <= j < k ==> #[trigger] pairs@[j] == (
                        self.edges@[ids@[j] as int].0,
                        self.edges@[ids@[j] as int].1,
                    ),
            decreases ids@.len() - k,
        {
            let edge = self.edges[ids[k]];
            pairs.push((edge.0, edge.1));
            k += 1;
        }
        assert(pairs@ =~= self.endpoints(as_ids(ids@)));
        pairs
    }
}

/// The positions held in a vector, as mathematical integers.
pub open spec fn as_ids(s: Seq<usize>) -> Seq<int> {
    Seq::new(s.len(), |k: int| s[k] as int)
}

} // verus!

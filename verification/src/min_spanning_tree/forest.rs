//! What a minimum spanning forest is, and how a disjoint-set structure
//! keeps track of the forest built so far.
use crate::connectivity::{
    all_edges, closed, connected, count_classes, is_forest, lemma_closed_holds_class,
    lemma_connected_empty, lemma_connected_insert, lemma_connected_refl, selection,
};
use crate::graph::Graph;
use crate::union_find::{merged_root, DisjointSet};
use crate::weight::weight_less;
use vstd::prelude::*;

verus! {

/// The edges at `ids` connect whatever the whole edge list connects.
pub open spec fn spans(edges: Seq<(int, int)>, ids: Seq<int>) -> bool {
    forall|a: int, b: int| #[trigger]
        connected(edges, all_edges(edges), a, b) ==> connected(edges, selection(ids), a, b)
}

/// The edges at `ids` form a forest that reaches as far as the graph does:
/// a spanning tree of each of its components.
pub open spec fn is_spanning_forest(edges: Seq<(int, int)>, ids: Seq<int>) -> bool {
    is_forest(edges, ids) && spans(edges, ids)
}

/// The sum of the weights of the edges at `ids`.
pub open spec fn total_weight(weights: Seq<int>, ids: Seq<int>) -> int
    decreases ids.len(),
{
    if ids.len() == 0 {
        0
    } else {
        total_weight(weights, ids.drop_last()) + weights[ids.last()]
    }
}

/// A spanning forest that no other spanning forest undercuts.
pub open spec fn is_min_spanning_forest(
    edges: Seq<(int, int)>,
    weights: Seq<int>,
    ids: Seq<int>,
) -> bool {
    &&& is_spanning_forest(edges, ids)
    &&& forall|other: Seq<int>| #[trigger]
        is_spanning_forest(edges, other) ==> total_weight(weights, ids) <= total_weight(
            weights,
            other,
        )
}

/// Edge `i` comes before edge `j`: it is lighter, or as heavy and earlier
/// in the list.
pub open spec fn precedes(weights: Seq<int>, i: int, j: int) -> bool {
    weights[i] < weights[j] || (weights[i] == weights[j] && i < j)
}

/// The edges that come before edge `i`.
pub open spec fn before(weights: Seq<int>, i: int) -> Set<int> {
    Set::new(|j: int| 0 <= j < weights.len() && precedes(weights, j, i))
}

/// Edge `i` joins two vertices that the edges before it leave apart.
/// These are the edges that a scan in ascending order picks.
pub open spec fn is_pick(edges: Seq<(int, int)>, weights: Seq<int>, i: int) -> bool {
    0 <= i < edges.len() && !connected(edges, before(weights, i), edges[i].0, edges[i].1)
}

/// Tells whether edge `i` comes before edge `j`.
pub fn edge_precedes(graph: &Graph, i: usize, j: usize) -> (first: bool)
    requires
        i < graph.edges@.len(),
        j < graph.edges@.len(),
    ensures
        first == precedes(graph.weights(), i as int, j as int),
{
    let wi: u32 = graph.edges[i].2;
    let wj: u32 = graph.edges[j].2;
    if weight_less(wi, wj) {
        true
    } else if weight_less(wj, wi) {
        false
    } else {
        i < j
    }
}

/// The first edge, in ascending order, that leaves a set of vertices joins
/// two vertices which the edges before it leave apart.
pub proof fn lemma_first_across_is_pick(
    edges: Seq<(int, int)>,
    weights: Seq<int>,
    b: int,
    part: Set<int>,
)
    requires
        edges.len() == weights.len(),
        0 <= b < edges.len(),
        part.contains(edges[b].0) != part.contains(edges[b].1),
        forall|j: int|
            0 <= j < edges.len() && part.contains((#[trigger] edges[j]).0) != part.contains(
                edges[j].1,
            ) ==> j == b || precedes(weights, b, j),
    ensures
        is_pick(edges, weights, b),
{
    let front = before(weights, b);
    assert forall|j: int| 0 <= j < edges.len() && #[trigger] front.contains(j) implies (
    part.contains(edges[j].0) <==> part.contains(edges[j].1)) by {
        if part.contains(edges[j].0) != part.contains(edges[j].1) {
            assert(j == b || precedes(weights, b, j));
        }
    }
    assert(closed(edges, front, part));
    if connected(edges, front, edges[b].0, edges[b].1) {
        lemma_closed_holds_class(edges, front, part, edges[b].0, edges[b].1);
    }
}

/// The positions are in range and in strictly ascending order of their
/// edges.
pub open spec fn ascending(weights: Seq<int>, ids: Seq<int>) -> bool {
    &&& forall|k: int| 0 <= k < ids.len() ==> 0 <= #[trigger] ids[k] < weights.len()
    &&& forall|j: int, k: int|
        0 <= j < k < ids.len() ==> precedes(weights, #[trigger] ids[j], #[trigger] ids[k])
}

/// The positions `lo .. hi`, each once, in ascending order of their edges.
pub open spec fn orders_range(weights: Seq<int>, order: Seq<int>, lo: int, hi: int) -> bool {
    &&& order.len() == hi - lo
    &&& ascending(weights, order)
    &&& forall|k: int| 0 <= k < order.len() ==> lo <= #[trigger] order[k] < hi
    &&& forall|i: int| lo <= i < hi ==> order.contains(i)
}

/// All positions of the edge list, each once, in ascending order of their
/// edges: lighter edges first, and of two equally heavy ones the one that
/// stands earlier in the list.
pub open spec fn is_edge_order(weights: Seq<int>, order: Seq<int>) -> bool {
    orders_range(weights, order, 0, weights.len() as int)
}

/// In an edge order, what stands in front of a place is what comes before
/// the edge at that place.
pub proof fn lemma_before_is_prefix(weights: Seq<int>, order: Seq<int>, p: int)
    requires
        is_edge_order(weights, order),
        0 <= p < order.len(),
    ensures
        before(weights, order[p]) == selection(order.take(p)),
{
    let front = order.take(p);
    assert forall|x: int| before(weights, order[p]).contains(x) <==> selection(front).contains(
        x,
    ) by {
        if before(weights, order[p]).contains(x) {
            assert(order.contains(x));
            let q = choose|q: int| 0 <= q < order.len() && order[q] == x;
            if q > p {
                assert(precedes(weights, order[p], order[q]));
            }
            assert(q < p);
            assert(front[q] == x);
        }
        if selection(front).contains(x) {
            let q = choose|q: int| 0 <= q < front.len() && front[q] == x;
            assert(order[q] == x);
            assert(precedes(weights, order[q], order[p]));
        }
    }
    assert(before(weights, order[p]) =~= selection(front));
}

/// The edges at `ids` are exactly the picked edges, and they form a
/// spanning forest.  Every builder returns these edges; the builders
/// differ in the order in which they list them.
pub open spec fn is_pick_forest(edges: Seq<(int, int)>, weights: Seq<int>, ids: Seq<int>) -> bool {
    &&& is_spanning_forest(edges, ids)
    &&& forall|i: int| 0 <= i < edges.len() ==> (ids.contains(i) <==> is_pick(edges, weights, i))
}

/// The structure holds two vertices in one set exactly if the selected
/// edges connect them.
pub open spec fn tracks(ds: DisjointSet, edges: Seq<(int, int)>, sel: Set<int>) -> bool {
    &&& ds.well_formed()
    &&& forall|a: int, b: int|
        #![trigger ds.root(a), ds.root(b)]
        0 <= a < ds.size() && 0 <= b < ds.size() ==> (ds.root(a) == ds.root(b) <==> connected(
            edges,
            sel,
            a,
            b,
        ))
}

/// A structure of singletons tracks the empty selection.
pub proof fn lemma_tracks_fresh(ds: DisjointSet, edges: Seq<(int, int)>)
    requires
        ds.well_formed(),
        forall|x: int| 0 <= x < ds.size() ==> #[trigger] ds.root(x) == x,
    ensures
        tracks(ds, edges, Set::<int>::empty()),
{
    assert forall|a: int, b: int|
        #![trigger ds.root(a), ds.root(b)]
        0 <= a < ds.size() && 0 <= b < ds.size() implies (ds.root(a) == ds.root(b) <==> connected(
        edges,
        Set::<int>::empty(),
        a,
        b,
    )) by {
        if connected(edges, Set::<int>::empty(), a, b) {
            lemma_connected_empty(edges, a, b);
        }
        lemma_connected_refl(edges, Set::<int>::empty(), a);
    }
}

/// Tracking survives whatever leaves every root in its place.
pub proof fn lemma_tracks_same_roots(
    ds: DisjointSet,
    after: DisjointSet,
    edges: Seq<(int, int)>,
    sel: Set<int>,
)
    requires
        tracks(ds, edges, sel),
        after.well_formed(),
        after.size() == ds.size(),
        forall|x: int| 0 <= x < ds.size() ==> #[trigger] after.root(x) == ds.root(x),
    ensures
        tracks(after, edges, sel),
{
    assert forall|a: int, b: int|
        #![trigger after.root(a), after.root(b)]
        0 <= a < after.size() && 0 <= b < after.size() implies (after.root(a) == after.root(b)
        <==> connected(edges, sel, a, b)) by {
        assert(ds.root(a) == ds.root(b) <==> connected(edges, sel, a, b));
    }
}

/// After the sets of an edge's endpoints have been joined, the structure
/// tracks the selection with that edge added.
pub proof fn lemma_tracks_union(
    ds: DisjointSet,
    after: DisjointSet,
    edges: Seq<(int, int)>,
    sel: Set<int>,
    e: int,
)
    requires
        tracks(ds, edges, sel),
        0 <= e < edges.len(),
        0 <= edges[e].0 < ds.size(),
        0 <= edges[e].1 < ds.size(),
        after.well_formed(),
        after.size() == ds.size(),
        forall|x: int|
            0 <= x < ds.size() ==> #[trigger] after.root(x) == merged_root(
                ds.parents(),
                ds.ranks(),
                edges[e].0,
                edges[e].1,
                x,
            ),
    ensures
        tracks(after, edges, sel.insert(e)),
{
    let u = edges[e].0;
    let v = edges[e].1;
    assert forall|a: int, b: int|
        #![trigger after.root(a), after.root(b)]
        0 <= a < after.size() && 0 <= b < after.size() implies (after.root(a) == after.root(b)
        <==> connected(edges, sel.insert(e), a, b)) by {
        lemma_connected_insert(edges, sel, e, a, b);
        assert(ds.root(a) == ds.root(b) <==> connected(edges, sel, a, b));
        assert(ds.root(a) == ds.root(u) <==> connected(edges, sel, a, u));
        assert(ds.root(a) == ds.root(v) <==> connected(edges, sel, a, v));
        assert(ds.root(u) == ds.root(b) <==> connected(edges, sel, u, b));
        assert(ds.root(v) == ds.root(b) <==> connected(edges, sel, v, b));
        assert(ds.root(u) == ds.root(v) <==> connected(edges, sel, u, v));
    }
}

impl Graph {
    /// The edges at `ids` form a spanning forest of the graph.
    pub open spec fn is_spanning_forest(&self, ids: Seq<int>) -> bool {
        is_spanning_forest(self.pairs(), ids)
    }

    /// The edges at `ids` are the picked edges of the graph: those that
    /// join two vertices which the edges before them, in ascending order,
    /// leave apart.
    pub open spec fn is_pick_forest(&self, ids: Seq<int>) -> bool {
        is_pick_forest(self.pairs(), self.weights(), ids)
    }

    /// The edges at `ids` form a minimum spanning forest of the graph.
    pub open spec fn is_msf(&self, ids: Seq<int>) -> bool {
        is_min_spanning_forest(self.pairs(), self.weights(), ids)
    }

    /// `forest` lists the endpoints of the picked edges of the graph, which
    /// form a minimum spanning forest of it.
    pub open spec fn is_msf_result(&self, forest: Seq<(usize, usize)>) -> bool {
        exists|ids: Seq<int>|
            {
                &&& #[trigger] self.is_msf(ids)
                &&& self.is_pick_forest(ids)
                &&& forest == self.endpoints(ids)
            }
    }

    /// `forest` lists the endpoints of the picked edges of the graph in
    /// ascending order of the edges.
    pub open spec fn is_ascending_result(&self, forest: Seq<(usize, usize)>) -> bool {
        exists|ids: Seq<int>|
            {
                &&& #[trigger] self.is_pick_forest(ids)
                &&& ascending(self.weights(), ids)
                &&& forest == self.endpoints(ids)
            }
    }

    /// The weight of the edges at `ids`, in units of `2^-149`.
    pub open spec fn total_weight(&self, ids: Seq<int>) -> int {
        total_weight(self.weights(), ids)
    }

    /// The number of connected components of the graph.
    pub open spec fn component_count(&self) -> nat {
        count_classes(self.pairs(), all_edges(self.pairs()), self.vertex_count as nat)
    }

    /// Both vertices lie in one connected component of the graph.
    pub open spec fn connects(&self, a: int, b: int) -> bool {
        connected(self.pairs(), all_edges(self.pairs()), a, b)
    }
}

} // verus!

//! What holds of every forest that the builders return.
use crate::connectivity::{
    all_edges, closed, connected, is_forest, lemma_connected_mono, lemma_connected_refl,
    lemma_count_same, lemma_edge_connects, lemma_forest_count, selection,
};
use crate::graph::Graph;
use crate::min_spanning_tree::forest::{ascending, precedes};
use vstd::prelude::*;

verus! {

/// The endpoint pairs of a forest, as mathematical integers.
pub open spec fn as_pairs(forest: Seq<(usize, usize)>) -> Seq<(int, int)> {
    Seq::new(forest.len(), |k: int| (forest[k].0 as int, forest[k].1 as int))
}

/// No edge of the list joins two vertices that the edges listed before it
/// have joined already: run through a disjoint-set structure, every edge
/// merges two sets.
pub open spec fn is_acyclic(pairs: Seq<(int, int)>) -> bool {
    forall|k: int|
        0 <= k < pairs.len() ==> !connected(
            pairs,
            Set::new(|j: int| 0 <= j < k),
            (#[trigger] pairs[k]).0,
            pairs[k].1,
        )
}

/// Some edge of the forest ends in `v`.
pub open spec fn touches(graph: &Graph, ids: Seq<int>, v: int) -> bool {
    exists|k: int|
        0 <= k < ids.len() && ((#[trigger] graph.pairs()[ids[k]]).0 == v || graph.pairs()[ids[k]].1
            == v)
}

/// Some vertex other than `v` lies in the component of `v`.
pub open spec fn has_company(graph: &Graph, v: int) -> bool {
    exists|b: int| b != v && #[trigger] graph.connects(v, b)
}

/// **Equal weight.**  Any two minimum spanning forests of a graph weigh
/// the same, whichever builder made them and whichever edges they hold.
pub proof fn lemma_equal_weight(graph: &Graph, first: Seq<int>, second: Seq<int>)
    requires
        graph.is_msf(first),
        graph.is_msf(second),
    ensures
        graph.total_weight(first) == graph.total_weight(second),
{
}

/// A spanning forest connects exactly what the graph connects.
pub proof fn lemma_same_components(graph: &Graph, ids: Seq<int>, a: int, b: int)
    requires
        graph.is_spanning_forest(ids),
    ensures
        graph.connects(a, b) <==> connected(graph.pairs(), selection(ids), a, b),
{
    let edges = graph.pairs();
    assert forall|x: int| selection(ids).contains(x) implies all_edges(edges).contains(x) by {
        let k = choose|k: int| 0 <= k < ids.len() && ids[k] == x;
        assert(0 <= ids[k] < edges.len());
    }
    assert(selection(ids).subset_of(all_edges(edges)));
    if connected(edges, selection(ids), a, b) {
        lemma_connected_mono(edges, selection(ids), all_edges(edges), a, b);
    }
}

/// **Edge count.**  A spanning forest has as many edges as the graph has
/// vertices, less one for each of its components.
pub proof fn lemma_edge_count(graph: &Graph, ids: Seq<int>)
    requires
        graph.indices_ok(),
        graph.is_spanning_forest(ids),
    ensures
        ids.len() + graph.component_count() == graph.vertex_count,
{
    let edges = graph.pairs();
    let n = graph.vertex_count as nat;
    assert forall|k: int| #![trigger ids[k]] 0 <= k < ids.len() implies 0 <= edges[ids[k]].0 < n
        && 0 <= edges[ids[k]].1 < n by {
        assert(0 <= ids[k] < edges.len());
        assert(graph.edges@[ids[k]].0 < n);
    }
    lemma_forest_count(edges, ids, n);
    assert forall|a: int, b: int|
        #![trigger connected(edges, selection(ids), a, b)]
        #![trigger connected(edges, all_edges(edges), a, b)]
        connected(edges, selection(ids), a, b) <==> connected(edges, all_edges(edges), a, b) by {
        lemma_same_components(graph, ids, a, b);
    }
    lemma_count_same(edges, selection(ids), edges, all_edges(edges), n);
}

/// The list of endpoints that a builder returns has that many pairs.
pub proof fn lemma_result_edge_count(graph: &Graph, forest: Seq<(usize, usize)>)
    requires
        graph.indices_ok(),
        graph.is_msf_result(forest),
    ensures
        forest.len() + graph.component_count() == graph.vertex_count,
{
    let ids = choose|ids: Seq<int>|
        {
            &&& #[trigger] graph.is_msf(ids)
            &&& graph.is_pick_forest(ids)
            &&& forest == graph.endpoints(ids)
        };
    lemma_edge_count(graph, ids);
}

/// **No cycle.**  The endpoints of a forest's edges, taken by themselves
/// as an edge list, never close a cycle.
pub proof fn lemma_endpoints_acyclic(graph: &Graph, ids: Seq<int>)
    requires
        is_forest(graph.pairs(), ids),
    ensures
        is_acyclic(as_pairs(graph.endpoints(ids))),
{
    let edges = graph.pairs();
    let pairs = as_pairs(graph.endpoints(ids));
    assert forall|k: int| 0 <= k < pairs.len() implies !connected(
        pairs,
        Set::new(|j: int| 0 <= j < k),
        (#[trigger] pairs[k]).0,
        pairs[k].1,
    ) by {
        let earlier = Set::new(|j: int| 0 <= j < k);
        let front = selection(ids.take(k));
        assert(0 <= ids[k] < edges.len());
        assert(pairs[k] == edges[ids[k]]);
        if connected(pairs, earlier, pairs[k].0, pairs[k].1) {
            assert forall|s: Set<int>| #[trigger]
                closed(edges, front, s) && s.contains(edges[ids[k]].0) implies s.contains(
                edges[ids[k]].1,
            ) by {
                assert forall|j: int| 0 <= j < pairs.len() && #[trigger] earlier.contains(
                    j,
                ) implies (s.contains(pairs[j].0) <==> s.contains(pairs[j].1)) by {
                    assert(0 <= ids[j] < edges.len());
                    assert(pairs[j] == edges[ids[j]]);
                    assert(ids.take(k)[j] == ids[j]);
                    assert(front.contains(ids[j]));
                }
                assert(closed(pairs, earlier, s));
            }
            assert(connected(edges, front, edges[ids[k]].0, edges[ids[k]].1));
        }
    }
}

/// The list of endpoints that a builder returns never closes a cycle.
pub proof fn lemma_result_acyclic(graph: &Graph, forest: Seq<(usize, usize)>)
    requires
        graph.is_msf_result(forest),
    ensures
        is_acyclic(as_pairs(forest)),
{
    let ids = choose|ids: Seq<int>|
        {
            &&& #[trigger] graph.is_msf(ids)
            &&& graph.is_pick_forest(ids)
            &&& forest == graph.endpoints(ids)
        };
    lemma_endpoints_acyclic(graph, ids);
}

/// **Spanning.**  A spanning forest has an edge at every vertex that is
/// not alone in its component, and at no other vertex.
pub proof fn lemma_vertex_covered(graph: &Graph, ids: Seq<int>, v: int)
    requires
        graph.is_spanning_forest(ids),
    ensures
        touches(graph, ids, v) <==> has_company(graph, v),
{
    let edges = graph.pairs();
    if has_company(graph, v) && !touches(graph, ids, v) {
        let b = choose|b: int| b != v && #[trigger] graph.connects(v, b);
        let alone = Set::new(|x: int| x == v);
        assert forall|i: int| 0 <= i < edges.len() && #[trigger] selection(ids).contains(
            i,
        ) implies (alone.contains(edges[i].0) <==> alone.contains(edges[i].1)) by {
            let k = choose|k: int| 0 <= k < ids.len() && ids[k] == i;
            assert(!(graph.pairs()[ids[k]].0 == v || graph.pairs()[ids[k]].1 == v));
        }
        assert(closed(edges, selection(ids), alone));
        lemma_same_components(graph, ids, v, b);
        assert(alone.contains(v));
        assert(alone.contains(b));
    }
    if touches(graph, ids, v) {
        let k = choose|k: int|
            0 <= k < ids.len() && ((#[trigger] graph.pairs()[ids[k]]).0 == v
                || graph.pairs()[ids[k]].1 == v);
        let e = ids[k];
        assert(0 <= ids[k] < edges.len());
        let other = if edges[e].0 == v {
            edges[e].1
        } else {
            edges[e].0
        };
        if other == v {
            lemma_connected_refl(edges, selection(ids.take(k)), v);
        }
        assert(all_edges(edges).contains(e));
        lemma_edge_connects(edges, all_edges(edges), e);
        assert(graph.connects(v, other));
    }
}

/// Some pair of the forest names `v`.
pub open spec fn names(forest: Seq<(usize, usize)>, v: int) -> bool {
    exists|k: int| 0 <= k < forest.len() && ((#[trigger] forest[k]).0 == v || forest[k].1 == v)
}

/// The list of endpoints that a builder returns names every vertex that is
/// not alone in its component, and no other vertex.
pub proof fn lemma_result_covers(graph: &Graph, forest: Seq<(usize, usize)>, v: int)
    requires
        graph.is_msf_result(forest),
    ensures
        names(forest, v) <==> has_company(graph, v),
{
    let ids = choose|ids: Seq<int>|
        {
            &&& #[trigger] graph.is_msf(ids)
            &&& graph.is_pick_forest(ids)
            &&& forest == graph.endpoints(ids)
        };
    lemma_vertex_covered(graph, ids, v);
    if names(forest, v) {
        let k = choose|k: int|
            0 <= k < forest.len() && ((#[trigger] forest[k]).0 == v || forest[k].1 == v);
        assert(0 <= ids[k] < graph.pairs().len());
        assert(graph.pairs()[ids[k]].0 == v || graph.pairs()[ids[k]].1 == v);
    }
    if touches(graph, ids, v) {
        let k = choose|k: int|
            0 <= k < ids.len() && ((#[trigger] graph.pairs()[ids[k]]).0 == v
                || graph.pairs()[ids[k]].1 == v);
        assert(0 <= ids[k] < graph.pairs().len());
        assert(forest[k].0 == v || forest[k].1 == v);
    }
}

/// Two lists in ascending order that hold the same edges are one list.
pub proof fn lemma_ascending_unique(weights: Seq<int>, first: Seq<int>, second: Seq<int>)
    requires
        ascending(weights, first),
        ascending(weights, second),
        forall|x: int| first.contains(x) <==> second.contains(x),
    ensures
        first == second,
    decreases first.len(),
{
    if first.len() == 0 {
        if second.len() > 0 {
            assert(second.contains(second[0]));
            assert(first.contains(second[0]));
        }
        assert(first =~= second);
    } else {
        let a = first.last();
        assert(first.contains(a));
        assert(second.contains(a));
        let b = second.last();
        assert(second.contains(b));
        assert(first.contains(b));
        let ka = choose|k: int| 0 <= k < second.len() && second[k] == a;
        let kb = choose|k: int| 0 <= k < first.len() && first[k] == b;
        if a != b {
            assert(precedes(weights, second[ka], second[second.len() - 1]));
            assert(precedes(weights, first[kb], first[first.len() - 1]));
        }
        let f = first.drop_last();
        let s = second.drop_last();
        assert forall|x: int| f.contains(x) <==> s.contains(x) by {
            if f.contains(x) {
                let k = choose|k: int| 0 <= k < f.len() && f[k] == x;
                assert(first[k] == x);
                assert(precedes(weights, first[k], first[first.len() - 1]));
                assert(second.contains(x));
                let q = choose|q: int| 0 <= q < second.len() && second[q] == x;
                assert(s[q] == x);
            }
            if s.contains(x) {
                let k = choose|k: int| 0 <= k < s.len() && s[k] == x;
                assert(second[k] == x);
                assert(precedes(weights, second[k], second[second.len() - 1]));
                assert(first.contains(x));
                let q = choose|q: int| 0 <= q < first.len() && first[q] == x;
                assert(f[q] == x);
            }
        }
        assert(ascending(weights, f)) by {
            assert forall|j: int, k: int| 0 <= j < k < f.len() implies precedes(
                weights,
                #[trigger] f[j],
                #[trigger] f[k],
            ) by {
                assert(f[j] == first[j] && f[k] == first[k]);
            }
            assert forall|k: int| 0 <= k < f.len() implies 0 <= #[trigger] f[k]
                < weights.len() by {
                assert(f[k] == first[k]);
            }
        }
        assert(ascending(weights, s)) by {
            assert forall|j: int, k: int| 0 <= j < k < s.len() implies precedes(
                weights,
                #[trigger] s[j],
                #[trigger] s[k],
            ) by {
                assert(s[j] == second[j] && s[k] == second[k]);
            }
            assert forall|k: int| 0 <= k < s.len() implies 0 <= #[trigger] s[k]
                < weights.len() by {
                assert(s[k] == second[k]);
            }
        }
        lemma_ascending_unique(weights, f, s);
        assert(first =~= f.push(a));
        assert(second =~= s.push(b));
    }
}

/// **One choice of edges.**  Whichever builder made them, two forests of
/// picked edges hold the same edges; they can differ only in the order in
/// which the edges are listed.
pub proof fn lemma_same_edges(graph: &Graph, first: Seq<int>, second: Seq<int>)
    requires
        graph.is_pick_forest(first),
        graph.is_pick_forest(second),
    ensures
        forall|i: int| first.contains(i) <==> second.contains(i),
{
    let edges = graph.pairs();
    assert forall|i: int| first.contains(i) <==> second.contains(i) by {
        if first.contains(i) {
            let k = choose|k: int| 0 <= k < first.len() && first[k] == i;
            assert(0 <= first[k] < edges.len());
        }
        if second.contains(i) {
            let k = choose|k: int| 0 <= k < second.len() && second[k] == i;
            assert(0 <= second[k] < edges.len());
        }
    }
}

/// **Kruskal is determined.**  The graph alone fixes which edges the scan
/// yields and in which order: two runs on one graph return the same list.
pub proof fn lemma_kruskal_determined(
    graph: &Graph,
    first: Seq<(usize, usize)>,
    second: Seq<(usize, usize)>,
)
    requires
        graph.is_ascending_result(first),
        graph.is_ascending_result(second),
    ensures
        first == second,
{
    let w = graph.weights();
    let a = choose|ids: Seq<int>|
        {
            &&& #[trigger] graph.is_pick_forest(ids)
            &&& ascending(w, ids)
            &&& first == graph.endpoints(ids)
        };
    let b = choose|ids: Seq<int>|
        {
            &&& #[trigger] graph.is_pick_forest(ids)
            &&& ascending(w, ids)
            &&& second == graph.endpoints(ids)
        };
    lemma_same_edges(graph, a, b);
    lemma_ascending_unique(w, a, b);
}

} // verus!

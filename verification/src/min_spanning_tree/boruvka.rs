//! Boruvka's algorithm: in rounds, every tree of the forest names the
//! cheapest edge that leaves it, and the named edges are added.
use crate::connectivity::{
    all_edges, connected, is_forest, lemma_forest_count, lemma_forest_push, lemma_selection_push,
    lemma_spans_when_every_edge_joined, selection,
};
use crate::error::MsfError;
use crate::graph::{as_ids, Graph};
use crate::min_spanning_tree::forest::{
    is_pick, lemma_first_across_is_pick, lemma_tracks_fresh, lemma_tracks_same_roots,
    lemma_tracks_union, precedes, spans, tracks,
};
use crate::min_spanning_tree::optimality::lemma_picked_forest_is_minimum;
use crate::union_find::{lemma_root_in_range, DisjointSet};
use crate::weight::weight_less;
use vstd::prelude::*;

verus! {

/// Edge `j` has exactly one endpoint in the set led by `root`.
pub open spec fn leaves(ds: DisjointSet, edges: Seq<(int, int)>, j: int, root: int) -> bool {
    (ds.root(edges[j].0) == root) != (ds.root(edges[j].1) == root)
}

/// `cand` is the first, in ascending order, of the edges below `limit`
/// that leave the set led by `root`; it is `None` if there is no such edge.
pub open spec fn is_cheapest(
    ds: DisjointSet,
    edges: Seq<(int, int)>,
    weights: Seq<int>,
    limit: int,
    root: int,
    cand: Option<usize>,
) -> bool {
    match cand {
        Some(b) => {
            &&& b < limit
            &&& leaves(ds, edges, b as int, root)
            &&& forall|j: int|
                0 <= j < limit && #[trigger] leaves(ds, edges, j, root) ==> j == b || precedes(
                    weights,
                    b as int,
                    j,
                )
        },
        None => forall|j: int| 0 <= j < limit ==> !#[trigger] leaves(ds, edges, j, root),
    }
}

/// The candidate of a set after edge `i`, which leaves it, has been seen:
/// the edge replaces the candidate if it is strictly lighter.
pub open spec fn cheaper(weights: Seq<int>, cand: Option<usize>, i: usize) -> Option<usize> {
    match cand {
        Some(b) => if weights[i as int] < weights[b as int] {
            Some(i)
        } else {
            Some(b)
        },
        None => Some(i),
    }
}

/// Offers edge `i` to the set led by `root`.
fn offer(graph: &Graph, best: &mut Vec<Option<usize>>, root: usize, i: usize)
    requires
        root < old(best)@.len(),
        i < graph.edges@.len(),
        match old(best)@[root as int] {
            Some(b) => b < graph.edges@.len(),
            None => true,
        },
    ensures
        final(best)@ == old(best)@.update(
            root as int,
            cheaper(graph.weights(), old(best)@[root as int], i),
        ),
{
    let better = match best[root] {
        Some(b) => weight_less(graph.edges[i].2, graph.edges[b].2),
        None => true,
    };
    if better {
        best.set(root, Some(i));
    }
    proof {
        assert(final(best)@ =~= old(best)@.update(
            root as int,
            cheaper(graph.weights(), old(best)@[root as int], i),
        ));
    }
}

/// One candidate slot per vertex, all empty.
fn no_candidates(n: usize) -> (best: Vec<Option<usize>>)
    ensures
        best@.len() == n,
        forall|r: int| 0 <= r < n ==> (#[trigger] best@[r]) is None,
{
    let mut best: Vec<Option<usize>> = Vec::new();
    let mut k: usize = 0;
    while k < n
        invariant
            k <= n,
            best@.len() == k,
            forall|r: int| 0 <= r < k ==> (#[trigger] best@[r]) is None,
        decreases n - k,
    {
        best.push(None);
        k += 1;
    }
    best
}

/// The positions of the forest edges that Boruvka's rounds select.
pub fn select_edges(graph: &Graph) -> (r: Result<Vec<usize>, MsfError>)
    ensures
        match r {
            Ok(ids) => {
                &&& graph.well_formed()
                &&& graph.is_msf(as_ids(ids@))
                &&& graph.is_pick_forest(as_ids(ids@))
            },
            Err(e) => graph.defect() == Some(e),
        },
{
    match graph.validate() {
        Err(e) => {
            return Err(e);
        },
        Ok(()) => {},
    }
    let n = graph.vertex_count;
    let m = graph.edges.len();
    let mut ds = DisjointSet::new();
    ds.make_set(n);
    let mut picked: Vec<usize> = Vec::new();
    let ghost edges = graph.pairs();
    let ghost w = graph.weights();
    proof {
        lemma_tracks_fresh(ds, edges);
        assert(selection(as_ids(picked@)) =~= Set::<int>::empty());
    }
    let mut done = false;
    while !done
        invariant
            graph.well_formed(),
            edges == graph.pairs(),
            w == graph.weights(),
            n == graph.vertex_count,
            m == graph.edges@.len(),
            ds.size() == n,
            tracks(ds, edges, selection(as_ids(picked@))),
            is_forest(edges, as_ids(picked@)),
            picked@.len() <= n,
            forall|k: int|
                0 <= k < picked@.len() ==> is_pick(edges, w, #[trigger] as_ids(picked@)[k]),
            done ==> spans(edges, as_ids(picked@)),
        decreases n - picked@.len() + (if done {
            0int
        } else {
            1int
        }),
    {
        // every set looks for the cheapest edge that leaves it
        let ghost scan = ds;
        let ghost sel = selection(as_ids(picked@));
        let ghost mut wit: int = 0;
        let mut best = no_candidates(n);
        let mut any = false;
        let mut i: usize = 0;
        while i < m
            invariant
                graph.well_formed(),
                edges == graph.pairs(),
                w == graph.weights(),
                n == graph.vertex_count,
                m == graph.edges@.len(),
                i <= m,
                ds.size() == n,
                scan.size() == n,
                ds.well_formed(),
                forall|x: int| 0 <= x < n ==> #[trigger] ds.root(x) == scan.root(x),
                best@.len() == n,
                forall|r: int|
                    0 <= r < n ==> is_cheapest(scan, edges, w, i as int, r, #[trigger] best@[r]),
                any ==> 0 <= wit < n && best@[wit] is Some,
                !any ==> forall|j: int|
                    0 <= j < i ==> scan.root((#[trigger] edges[j]).0) == scan.root(edges[j].1),
            decreases m - i,
        {
            let edge = graph.edges[i];
            let u: usize = edge.0;
            let v: usize = edge.1;
            proof {
                assert(edges[i as int] == (u as int, v as int));
            }
            let ghost best0 = best@;
            let ghost d0 = ds;
            let found_u = ds.find(u);
            let ghost d1 = ds;
            let found_v = ds.find(v);
            match (found_u, found_v) {
                (Ok(ru), Ok(rv)) => {
                    proof {
                        lemma_root_in_range(d0, u as int);
                        lemma_root_in_range(d1, v as int);
                        assert(d0.root(u as int) == scan.root(u as int));
                        assert(d1.root(v as int) == d0.root(v as int));
                        assert(d0.root(v as int) == scan.root(v as int));
                        assert(ru == scan.root(u as int));
                        assert(rv == scan.root(v as int));
                        assert forall|x: int| 0 <= x < n implies #[trigger] ds.root(x)
                            == scan.root(x) by {
                            assert(ds.root(x) == d1.root(x));
                            assert(d1.root(x) == d0.root(x));
                            assert(d0.root(x) == scan.root(x));
                        }
                    }
                    if ru != rv {
                        proof {
                            assert(is_cheapest(scan, edges, w, i as int, ru as int, best@[ru as int]));
                            assert(is_cheapest(scan, edges, w, i as int, rv as int, best@[rv as int]));
                        }
                        offer(graph, &mut best, ru, i);
                        offer(graph, &mut best, rv, i);
                        any = true;
                        proof {
                            wit = ru as int;
                        }
                    }
                    proof {
                        assert forall|r: int| 0 <= r < n implies is_cheapest(
                            scan,
                            edges,
                            w,
                            i + 1,
                            r,
                            #[trigger] best@[r],
                        ) by {
                            assert(is_cheapest(scan, edges, w, i as int, r, best0[r]));
                            if ru != rv && (r == ru || r == rv) {
                                assert(leaves(scan, edges, i as int, r));
                                assert(best@[r] == cheaper(w, best0[r], i));
                                match best0[r] {
                                    Some(b) => {
                                        assert forall|j: int|
                                            0 <= j < i + 1 && #[trigger] leaves(
                                                scan,
                                                edges,
                                                j,
                                                r,
                                            ) implies j == best@[r]->0 || precedes(
                                            w,
                                            best@[r]->0 as int,
                                            j,
                                        ) by {
                                            if j < i {
                                                assert(j == b || precedes(w, b as int, j));
                                            }
                                        }
                                    },
                                    None => {},
                                }
                            } else {
                                assert(!leaves(scan, edges, i as int, r));
                                assert(best@[r] == best0[r]);
                            }
                        }
                    }
                },
                _ => {
                    return Err(MsfError::InvalidIndex);
                },
            }
            i += 1;
        }
        proof {
            lemma_tracks_same_roots(scan, ds, edges, sel);
        }
        if !any {
            proof {
                let ids = as_ids(picked@);
                assert forall|j: int| 0 <= j < edges.len() implies connected(
                    edges,
                    sel,
                    (#[trigger] edges[j]).0,
                    edges[j].1,
                ) by {
                    assert(scan.root(edges[j].0) == scan.root(edges[j].1));
                    assert(graph.edges@[j].0 < n && graph.edges@[j].1 < n);
                    assert(scan.root(edges[j].0) == scan.root(edges[j].1) <==> connected(
                        edges,
                        sel,
                        edges[j].0,
                        edges[j].1,
                    ));
                }
                assert forall|a: int, b: int| #[trigger]
                    connected(edges, all_edges(edges), a, b) implies connected(
                    edges,
                    sel,
                    a,
                    b,
                ) by {
                    lemma_spans_when_every_edge_joined(edges, sel, a, b);
                }
            }
            done = true;
        } else {
            // the candidates are added, each unless its ends have met meanwhile
            let ghost len0 = picked@.len();
            proof {
                assert forall|r: int| 0 <= r < n && (#[trigger] best@[r]) is Some implies is_pick(
                    edges,
                    w,
                    best@[r]->0 as int,
                ) by {
                    assert(is_cheapest(scan, edges, w, m as int, r, best@[r]));
                    let part = Set::new(|x: int| scan.root(x) == r);
                    assert forall|j: int|
                        0 <= j < edges.len() && part.contains((#[trigger] edges[j]).0)
                            != part.contains(edges[j].1) implies j == best@[r]->0 || precedes(
                        w,
                        best@[r]->0 as int,
                        j,
                    ) by {
                        assert(leaves(scan, edges, j, r));
                    }
                    lemma_first_across_is_pick(edges, w, best@[r]->0 as int, part);
                }
            }
            let mut r: usize = 0;
            while r < n
                invariant
                    graph.well_formed(),
                    edges == graph.pairs(),
                    w == graph.weights(),
                    n == graph.vertex_count,
                    m == graph.edges@.len(),
                    r <= n,
                    ds.size() == n,
                    scan.size() == n,
                    best@.len() == n,
                    0 <= wit < n,
                    best@[wit] is Some,
                    forall|q: int|
                        0 <= q < n ==> is_cheapest(scan, edges, w, m as int, q, #[trigger] best@[q]),
                    forall|q: int|
                        0 <= q < n && (#[trigger] best@[q]) is Some ==> is_pick(
                            edges,
                            w,
                            best@[q]->0 as int,
                        ),
                    tracks(ds, edges, selection(as_ids(picked@))),
                    is_forest(edges, as_ids(picked@)),
                    forall|k: int|
                        0 <= k < picked@.len() ==> is_pick(edges, w, #[trigger] as_ids(picked@)[k]),
                    picked@.len() >= len0,
                    picked@.len() > len0 || (r <= wit && forall|x: int|
                        0 <= x < n ==> #[trigger] ds.root(x) == scan.root(x)),
                decreases n - r,
            {
                match best[r] {
                    Some(b) => {
                        proof {
                            assert(is_cheapest(scan, edges, w, m as int, r as int, best@[r as int]));
                        }
                        let edge = graph.edges[b];
                        let u: usize = edge.0;
                        let v: usize = edge.1;
                        let ghost ids = as_ids(picked@);
                        let ghost ds0 = ds;
                        proof {
                            assert(edges[b as int] == (u as int, v as int));
                            assert(ds.root(u as int) == ds.root(v as int) <==> connected(
                                edges,
                                selection(ids),
                                u as int,
                                v as int,
                            ));
                        }
                        match ds.union(u, v) {
                            Ok(merged) => {
                                if merged {
                                    picked.push(b);
                                    proof {
                                        let grown = as_ids(picked@);
                                        assert(grown =~= ids.push(b as int));
                                        lemma_selection_push(ids, b as int);
                                        lemma_tracks_union(ds0, ds, edges, selection(ids), b as int);
                                        lemma_forest_push(edges, ids, b as int);
                                        assert forall|k: int|
                                            0 <= k < grown.len() implies is_pick(
                                            edges,
                                            w,
                                            #[trigger] grown[k],
                                        ) by {
                                            if k < ids.len() {
                                                assert(is_pick(edges, w, ids[k]));
                                            }
                                        }
                                    }
                                } else {
                                    proof {
                                        lemma_tracks_same_roots(ds0, ds, edges, selection(ids));
                                        if picked@.len() == len0 {
                                            assert(ds0.root(u as int) == scan.root(u as int));
                                            assert(ds0.root(v as int) == scan.root(v as int));
                                            assert(leaves(scan, edges, b as int, r as int));
                                            assert(false);
                                        }
                                    }
                                }
                            },
                            Err(err) => {
                                return Err(err);
                            },
                        }
                    },
                    None => {},
                }
                r += 1;
            }
            proof {
                let ids = as_ids(picked@);
                assert forall|k: int| #![trigger ids[k]] 0 <= k < ids.len() implies 0
                    <= edges[ids[k]].0 < n && 0 <= edges[ids[k]].1 < n by {
                    assert(is_pick(edges, w, ids[k]));
                    assert(graph.edges@[ids[k]].0 < n);
                }
                lemma_forest_count(edges, ids, n as nat);
            }
        }
    }
    proof {
        lemma_picked_forest_is_minimum(graph, as_ids(picked@));
    }
    Ok(picked)
}

/// Builds a minimum spanning forest by Boruvka's algorithm and returns the
/// endpoints of its edges.
pub fn build_mst(graph: &Graph) -> (r: Result<Vec<(usize, usize)>, MsfError>)
    ensures
        match r {
            Ok(forest) => graph.well_formed() && graph.is_msf_result(forest@),
            Err(e) => graph.defect() == Some(e),
        },
{
    match select_edges(graph) {
        Ok(ids) => {
            proof {
                assert forall|k: int| 0 <= k < ids@.len() implies (#[trigger] ids@[k])
                    < graph.edges@.len() by {
                    assert(0 <= as_ids(ids@)[k] < graph.pairs().len());
                }
            }
            let forest = graph.endpoints_of(&ids);
            proof {
                assert(graph.is_msf(as_ids(ids@)));
            }
            Ok(forest)
        },
        Err(e) => Err(e),
    }
}

} // verus!

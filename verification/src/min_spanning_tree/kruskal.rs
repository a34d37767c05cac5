//! Kruskal's algorithm: scan the edges in ascending order and keep each one
//! that joins two trees.
use crate::connectivity::{
    all_edges, connected, is_forest, lemma_connected_insert, lemma_connected_insert_redundant,
    lemma_forest_push, lemma_selection_push, selection,
};
use crate::error::MsfError;
use crate::graph::{as_ids, Graph};
use crate::min_spanning_tree::forest::{
    ascending, edge_precedes, is_edge_order, is_pick, lemma_before_is_prefix, lemma_tracks_fresh,
    lemma_tracks_same_roots, lemma_tracks_union, orders_range, precedes, spans, tracks,
};
use crate::min_spanning_tree::optimality::lemma_picked_forest_is_minimum;
use crate::union_find::DisjointSet;
use vstd::prelude::*;

verus! {

/// Merges the ascending orders of two neighbouring ranges of positions.
fn merge_orders(
    graph: &Graph,
    left: &Vec<usize>,
    right: &Vec<usize>,
    Ghost(lo): Ghost<int>,
    Ghost(mid): Ghost<int>,
    Ghost(hi): Ghost<int>,
) -> (out: Vec<usize>)
    requires
        0 <= lo <= mid <= hi <= graph.edges@.len(),
        orders_range(graph.weights(), as_ids(left@), lo, mid),
        orders_range(graph.weights(), as_ids(right@), mid, hi),
    ensures
        orders_range(graph.weights(), as_ids(out@), lo, hi),
{
    let ghost w = graph.weights();
    let ghost l = as_ids(left@);
    let ghost r = as_ids(right@);
    let mut out: Vec<usize> = Vec::new();
    let mut i: usize = 0;
    let mut j: usize = 0;
    while i < left.len() || j < right.len()
        invariant
            w == graph.weights(),
            l == as_ids(left@),
            r == as_ids(right@),
            0 <= lo <= mid <= hi <= graph.edges@.len(),
            orders_range(w, l, lo, mid),
            orders_range(w, r, mid, hi),
            i <= left@.len(),
            j <= right@.len(),
            out@.len() == i + j,
            ascending(w, as_ids(out@)),
            forall|k: int| 0 <= k < out@.len() ==> lo <= #[trigger] out@[k] < hi,
            forall|k: int, a: int|
                0 <= k < out@.len() && i <= a < l.len() ==> precedes(
                    w,
                    #[trigger] out@[k] as int,
                    #[trigger] l[a],
                ),
            forall|k: int, b: int|
                0 <= k < out@.len() && j <= b < r.len() ==> precedes(
                    w,
                    #[trigger] out@[k] as int,
                    #[trigger] r[b],
                ),
            forall|a: int| 0 <= a < i ==> as_ids(out@).contains(#[trigger] l[a]),
            forall|b: int| 0 <= b < j ==> as_ids(out@).contains(#[trigger] r[b]),
        decreases left@.len() - i + right@.len() - j,
    {
        let take_left = if i < left.len() && j < right.len() {
            edge_precedes(graph, left[i], right[j])
        } else {
            i < left.len()
        };
        let ghost prev = as_ids(out@);
        let next: usize = if take_left {
            left[i]
        } else {
            right[j]
        };
        proof {
            if take_left {
                assert(next as int == l[i as int]);
            } else {
                assert(next as int == r[j as int]);
            }
            if i < left@.len() && j < right@.len() {
                // two different edges: one of them comes first
                assert(l[i as int] < mid <= r[j as int]);
            }
        }
        out.push(next);
        proof {
            let cur = as_ids(out@);
            assert(cur =~= prev.push(next as int));
            assert forall|a: int| 0 <= a < i + (if take_left {
                1int
            } else {
                0int
            }) implies cur.contains(#[trigger] l[a]) by {
                if a < i {
                    let k = choose|k: int| 0 <= k < prev.len() && prev[k] == l[a];
                    assert(cur[k] == l[a]);
                } else {
                    assert(cur[prev.len() as int] == l[a]);
                }
            }
            assert forall|b: int| 0 <= b < j + (if take_left {
                0int
            } else {
                1int
            }) implies cur.contains(#[trigger] r[b]) by {
                if b < j {
                    let k = choose|k: int| 0 <= k < prev.len() && prev[k] == r[b];
                    assert(cur[k] == r[b]);
                } else {
                    assert(cur[prev.len() as int] == r[b]);
                }
            }
            assert forall|k: int, a: int|
                0 <= k < cur.len() && i + (if take_left {
                    1int
                } else {
                    0int
                }) <= a < l.len() implies precedes(w, #[trigger] out@[k] as int, #[trigger] l[a]) by {
                if k == prev.len() {
                    if !take_left {
                        assert(precedes(w, r[j as int], l[i as int]));
                        assert(a == i || precedes(w, l[i as int], l[a]));
                    }
                }
            }
            assert forall|k: int, b: int|
                0 <= k < cur.len() && j + (if take_left {
                    0int
                } else {
                    1int
                }) <= b < r.len() implies precedes(w, #[trigger] out@[k] as int, #[trigger] r[b]) by {
                if k == prev.len() {
                    if take_left {
                        if j < r.len() {
                            assert(precedes(w, l[i as int], r[j as int]));
                            assert(b == j || precedes(w, r[j as int], r[b]));
                        }
                    }
                }
            }
            assert(ascending(w, cur)) by {
                assert forall|x: int, y: int| 0 <= x < y < cur.len() implies precedes(
                    w,
                    #[trigger] cur[x],
                    #[trigger] cur[y],
                ) by {
                    if y < prev.len() {
                        assert(precedes(w, prev[x], prev[y]));
                    } else {
                        assert(cur[x] == out@[x] as int);
                        if take_left {
                            assert(precedes(w, out@[x] as int, l[i as int]));
                        } else {
                            assert(precedes(w, out@[x] as int, r[j as int]));
                        }
                    }
                }
            }
        }
        if take_left {
            i += 1;
        } else {
            j += 1;
        }
    }
    proof {
        let cur = as_ids(out@);
        assert forall|x: int| lo <= x < hi implies cur.contains(x) by {
            if x < mid {
                assert(l.contains(x));
                let a = choose|a: int| 0 <= a < l.len() && l[a] == x;
                assert(cur.contains(l[a]));
            } else {
                assert(r.contains(x));
                let b = choose|b: int| 0 <= b < r.len() && r[b] == x;
                assert(cur.contains(r[b]));
            }
        }
        assert forall|k: int| 0 <= k < cur.len() implies lo <= #[trigger] cur[k] < hi by {
            assert(cur[k] == out@[k] as int);
        }
    }
    out
}

/// Puts the positions `lo .. hi` in ascending order of their edges, by
/// merging the orders of the two halves.
fn order_range(graph: &Graph, lo: usize, hi: usize) -> (out: Vec<usize>)
    requires
        lo <= hi <= graph.edges@.len(),
    ensures
        orders_range(graph.weights(), as_ids(out@), lo as int, hi as int),
    decreases hi - lo,
{
    if hi - lo == 0 {
        let out: Vec<usize> = Vec::new();
        out
    } else if hi - lo == 1 {
        let mut out: Vec<usize> = Vec::new();
        out.push(lo);
        proof {
            assert(as_ids(out@)[0] == lo as int);
        }
        out
    } else {
        let mid: usize = lo + (hi - lo) / 2;
        let left = order_range(graph, lo, mid);
        let right = order_range(graph, mid, hi);
        merge_orders(graph, &left, &right, Ghost(lo as int), Ghost(mid as int), Ghost(hi as int))
    }
}

/// The positions of all edges in ascending order: by weight, and among
/// equal weights by place in the list.
pub fn edge_order(graph: &Graph) -> (order: Vec<usize>)
    ensures
        is_edge_order(graph.weights(), as_ids(order@)),
{
    order_range(graph, 0, graph.edges.len())
}

/// The positions of the forest edges that Kruskal's scan selects.
pub fn select_edges(graph: &Graph) -> (r: Result<Vec<usize>, MsfError>)
    ensures
        match r {
            Ok(ids) => {
                &&& graph.well_formed()
                &&& graph.is_msf(as_ids(ids@))
                &&& graph.is_pick_forest(as_ids(ids@))
                &&& ascending(graph.weights(), as_ids(ids@))
            },
            Err(e) => graph.defect() == Some(e),
        },
{
    match graph.validate() {
        Err(e) => {
            return Err(e);
        },
        Ok(()) => {},
    }
    let order = edge_order(graph);
    let mut ds = DisjointSet::new();
    ds.make_set(graph.vertex_count);
    let mut picked: Vec<usize> = Vec::new();
    let ghost edges = graph.pairs();
    let ghost w = graph.weights();
    let ghost ord = as_ids(order@);
    let m = order.len();
    proof {
        lemma_tracks_fresh(ds, edges);
        assert(selection(as_ids(picked@)) =~= Set::<int>::empty());
        assert(selection(ord.take(0)) =~= Set::<int>::empty());
    }
    let mut p: usize = 0;
    while p < m
        invariant
            graph.well_formed(),
            edges == graph.pairs(),
            w == graph.weights(),
            ord == as_ids(order@),
            is_edge_order(w, ord),
            m == order@.len(),
            m == graph.edges@.len(),
            p <= m,
            ds.size() == graph.vertex_count,
            tracks(ds, edges, selection(as_ids(picked@))),
            is_forest(edges, as_ids(picked@)),
            ascending(w, as_ids(picked@)),
            forall|k: int|
                0 <= k < picked@.len() ==> is_pick(edges, w, #[trigger] as_ids(picked@)[k]),
            forall|q: int|
                0 <= q < p && is_pick(edges, w, #[trigger] ord[q]) ==> as_ids(picked@).contains(
                    ord[q],
                ),
            forall|k: int, q: int|
                0 <= k < picked@.len() && p <= q < m ==> precedes(
                    w,
                    #[trigger] as_ids(picked@)[k],
                    #[trigger] ord[q],
                ),
            forall|a: int, b: int|
                #![trigger connected(edges, selection(as_ids(picked@)), a, b)]
                #![trigger connected(edges, selection(ord.take(p as int)), a, b)]
                connected(edges, selection(as_ids(picked@)), a, b) <==> connected(
                    edges,
                    selection(ord.take(p as int)),
                    a,
                    b,
                ),
        decreases m - p,
    {
        let e: usize = order[p];
        proof {
            assert(0 <= ord[p as int] < w.len());
        }
        let edge = graph.edges[e];
        let u: usize = edge.0;
        let v: usize = edge.1;
        let ghost ids = as_ids(picked@);
        let ghost front = selection(ord.take(p as int));
        let ghost ds0 = ds;
        proof {
            assert(ord[p as int] == e as int);
            assert(edges[e as int] == (u as int, v as int));
            lemma_before_is_prefix(w, ord, p as int);
            assert(ord.take(p + 1) =~= ord.take(p as int).push(e as int));
            lemma_selection_push(ord.take(p as int), e as int);
            assert(ds.root(u as int) == ds.root(v as int) <==> connected(
                edges,
                selection(ids),
                u as int,
                v as int,
            ));
        }
        match ds.union(u, v) {
            Ok(merged) => {
                if merged {
                    picked.push(e);
                    proof {
                        let grown = as_ids(picked@);
                        assert(grown =~= ids.push(e as int));
                        lemma_selection_push(ids, e as int);
                        lemma_tracks_union(ds0, ds, edges, selection(ids), e as int);
                        lemma_forest_push(edges, ids, e as int);
                        assert(is_pick(edges, w, e as int));
                        assert forall|q: int|
                            0 <= q < p + 1 && is_pick(
                                edges,
                                w,
                                #[trigger] ord[q],
                            ) implies grown.contains(ord[q]) by {
                            if q < p {
                                let k = choose|k: int| 0 <= k < ids.len() && ids[k] == ord[q];
                                assert(grown[k] == ord[q]);
                            } else {
                                assert(grown[ids.len() as int] == ord[q]);
                            }
                        }
                        assert forall|a: int, b: int|
                            #![trigger connected(edges, selection(grown), a, b)]
                            #![trigger connected(edges, selection(ord.take(p + 1)), a, b)]
                            connected(edges, selection(grown), a, b) <==> connected(
                                edges,
                                selection(ord.take(p + 1)),
                                a,
                                b,
                            ) by {
                            lemma_connected_insert(edges, selection(ids), e as int, a, b);
                            lemma_connected_insert(edges, front, e as int, a, b);
                            assert(connected(edges, selection(ids), a, b) <==> connected(
                                edges,
                                front,
                                a,
                                b,
                            ));
                            assert(connected(edges, selection(ids), a, u as int) <==> connected(
                                edges,
                                front,
                                a,
                                u as int,
                            ));
                            assert(connected(edges, selection(ids), a, v as int) <==> connected(
                                edges,
                                front,
                                a,
                                v as int,
                            ));
                            assert(connected(edges, selection(ids), u as int, b) <==> connected(
                                edges,
                                front,
                                u as int,
                                b,
                            ));
                            assert(connected(edges, selection(ids), v as int, b) <==> connected(
                                edges,
                                front,
                                v as int,
                                b,
                            ));
                        }
                        assert(ascending(w, grown)) by {
                            assert forall|x: int, y: int|
                                0 <= x < y < grown.len() implies precedes(
                                w,
                                #[trigger] grown[x],
                                #[trigger] grown[y],
                            ) by {
                                if y < ids.len() {
                                    assert(precedes(w, ids[x], ids[y]));
                                } else {
                                    assert(precedes(w, ids[x], ord[p as int]));
                                }
                            }
                        }
                        assert forall|k: int, q: int|
                            0 <= k < grown.len() && p + 1 <= q < m implies precedes(
                            w,
                            #[trigger] grown[k],
                            #[trigger] ord[q],
                        ) by {
                            if k < ids.len() {
                                assert(precedes(w, ids[k], ord[q]));
                            } else {
                                assert(precedes(w, ord[p as int], ord[q]));
                            }
                        }
                        assert forall|k: int| 0 <= k < grown.len() implies is_pick(
                            edges,
                            w,
                            #[trigger] grown[k],
                        ) by {
                            if k < ids.len() {
                                assert(is_pick(edges, w, ids[k]));
                            }
                        }
                    }
                } else {
                    proof {
                        assert(ds.well_formed());
                        lemma_tracks_same_roots(ds0, ds, edges, selection(ids));
                        assert(!is_pick(edges, w, e as int));
                        assert forall|a: int, b: int|
                            #![trigger connected(edges, selection(ids), a, b)]
                            #![trigger connected(edges, selection(ord.take(p + 1)), a, b)]
                            connected(edges, selection(ids), a, b) <==> connected(
                                edges,
                                selection(ord.take(p + 1)),
                                a,
                                b,
                            ) by {
                            lemma_connected_insert_redundant(edges, front, e as int, a, b);
                            assert(connected(edges, selection(ids), a, b) <==> connected(
                                edges,
                                front,
                                a,
                                b,
                            ));
                        }
                    }
                }
            },
            Err(err) => {
                return Err(err);
            },
        }
        p += 1;
    }
    proof {
        let ids = as_ids(picked@);
        assert(ord.take(m as int) =~= ord);
        assert(selection(ord) =~= all_edges(edges)) by {
            assert forall|x: int| selection(ord).contains(x) <==> all_edges(edges).contains(x) by {
                if selection(ord).contains(x) {
                    let q = choose|q: int| 0 <= q < ord.len() && ord[q] == x;
                }
                if all_edges(edges).contains(x) {
                    assert(ord.contains(x));
                }
            }
        }
        assert(spans(edges, ids));
        assert forall|i: int| 0 <= i < edges.len() implies (ids.contains(i) <==> is_pick(
            edges,
            w,
            i,
        )) by {
            if ids.contains(i) {
                let k = choose|k: int| 0 <= k < ids.len() && ids[k] == i;
                assert(is_pick(edges, w, ids[k]));
            }
            if is_pick(edges, w, i) {
                assert(ord.contains(i));
                let q = choose|q: int| 0 <= q < ord.len() && ord[q] == i;
                assert(ids.contains(ord[q]));
            }
        }
        lemma_picked_forest_is_minimum(graph, ids);
    }
    Ok(picked)
}

/// Builds a minimum spanning forest by Kruskal's algorithm and returns the
/// endpoints of its edges, lightest edge first.
pub fn build_mst(graph: &Graph) -> (r: Result<Vec<(usize, usize)>, MsfError>)
    ensures
        match r {
            Ok(forest) => {
                &&& graph.well_formed()
                &&& graph.is_msf_result(forest@)
                &&& graph.is_ascending_result(forest@)
            },
            Err(e) => graph.defect() == Some(e),
        },
{
    match select_edges(graph) {
        Ok(ids) => {
            proof {
                assert forall|k: int| 0 <= k < ids@.len() implies (#[trigger] ids@[k])
                    < graph.edges@.len() by {
                    assert(0 <= as_ids(ids@)[k] < graph.weights().len());
                }
            }
            let forest = graph.endpoints_of(&ids);
            proof {
                assert(graph.is_msf(as_ids(ids@)));
                assert(graph.is_pick_forest(as_ids(ids@)));
            }
            Ok(forest)
        },
        Err(e) => Err(e),
    }
}

} // verus!

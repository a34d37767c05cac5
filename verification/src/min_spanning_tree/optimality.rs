//! Why the edges that a scan in ascending order picks form a forest of
//! least weight.
//!
//! The argument counts.  Among the first `j` edges in ascending order a
//! forest can hold at most as many edges as the vertices have classes to
//! lose, and the picked edges hold exactly that many.  So wherever another
//! forest has an edge, the picked edges have one at least as early, and
//! with it one at most as heavy.
use crate::connectivity::{
    all_edges, connected, count_classes, is_forest, lemma_connected_mono, lemma_count_empty,
    lemma_count_insert, lemma_count_insert_redundant, lemma_count_refines, lemma_count_same,
    lemma_forest_count, lemma_forest_distinct, lemma_forest_prefix, lemma_selection_push,
    selection,
};
use crate::graph::Graph;
use crate::min_spanning_tree::forest::{
    ascending, is_edge_order, is_min_spanning_forest, is_pick, is_pick_forest,
    is_spanning_forest, lemma_before_is_prefix, precedes, total_weight,
};
use vstd::prelude::*;

verus! {

/// Both endpoints of every edge are among the vertices `0 .. n`.
pub open spec fn within(edges: Seq<(int, int)>, n: nat) -> bool {
    forall|i: int|
        0 <= i < edges.len() ==> 0 <= (#[trigger] edges[i]).0 < n && 0 <= edges[i].1 < n
}

/// The edges that a scan in ascending order picks.
pub open spec fn picks(edges: Seq<(int, int)>, weights: Seq<int>) -> Set<int> {
    Set::new(|i: int| is_pick(edges, weights, i))
}

/// Taking any one edge of `t` away parts its endpoints.
pub open spec fn bridges_only(edges: Seq<(int, int)>, t: Set<int>) -> bool {
    forall|i: int|
        0 <= i < edges.len() && #[trigger] t.contains(i) ==> !connected(
            edges,
            t.remove(i),
            edges[i].0,
            edges[i].1,
        )
}

/// How many of the first `upto` edges of the order belong to `t`.
pub open spec fn count_upto(order: Seq<int>, t: Set<int>, upto: int) -> int
    decreases upto,
{
    if upto <= 0 {
        0
    } else {
        count_upto(order, t, upto - 1) + if t.contains(order[upto - 1]) {
            1int
        } else {
            0int
        }
    }
}

/// What those of the first `upto` edges of the order weigh that belong to
/// `t`.
pub open spec fn weight_upto(weights: Seq<int>, order: Seq<int>, t: Set<int>, upto: int) -> int
    decreases upto,
{
    if upto <= 0 {
        0
    } else {
        weight_upto(weights, order, t, upto - 1) + if t.contains(order[upto - 1]) {
            weights[order[upto - 1]]
        } else {
            0int
        }
    }
}

/// A sequence in ascending order stays so with one more edge put in its
/// place.
proof fn lemma_insert_ascending(weights: Seq<int>, s: Seq<int>, x: int) -> (out: Seq<int>)
    requires
        ascending(weights, s),
        0 <= x < weights.len(),
        !s.contains(x),
    ensures
        ascending(weights, out),
        out.len() == s.len() + 1,
        forall|y: int| out.contains(y) <==> (s.contains(y) || y == x),
    decreases s.len(),
{
    if s.len() == 0 {
        let out = seq![x];
        assert(out[0] == x);
        out
    } else {
        let last = s.last();
        assert(s.contains(last));
        if precedes(weights, last, x) {
            let out = s.push(x);
            assert forall|y: int| out.contains(y) <==> (s.contains(y) || y == x) by {
                if s.contains(y) {
                    let k = choose|k: int| 0 <= k < s.len() && s[k] == y;
                    assert(out[k] == y);
                }
                if y == x {
                    assert(out[s.len() as int] == y);
                }
            }
            assert forall|j: int, k: int| 0 <= j < k < out.len() implies precedes(
                weights,
                #[trigger] out[j],
                #[trigger] out[k],
            ) by {
                if k == s.len() && j < s.len() - 1 {
                    assert(precedes(weights, s[j], s[s.len() - 1]));
                }
            }
            out
        } else {
            let front = s.drop_last();
            assert forall|j: int, k: int| 0 <= j < k < front.len() implies precedes(
                weights,
                #[trigger] front[j],
                #[trigger] front[k],
            ) by {
                assert(front[j] == s[j] && front[k] == s[k]);
            }
            assert forall|k: int| 0 <= k < front.len() implies 0 <= #[trigger] front[k]
                < weights.len() by {
                assert(front[k] == s[k]);
            }
            if front.contains(x) {
                let k = choose|k: int| 0 <= k < front.len() && front[k] == x;
                assert(s[k] == x);
            }
            let inner = lemma_insert_ascending(weights, front, x);
            let out = inner.push(last);
            assert forall|y: int| out.contains(y) <==> (s.contains(y) || y == x) by {
                if out.contains(y) {
                    let k = choose|k: int| 0 <= k < out.len() && out[k] == y;
                    if k < inner.len() {
                        assert(inner.contains(y));
                        if front.contains(y) {
                            let q = choose|q: int| 0 <= q < front.len() && front[q] == y;
                            assert(s[q] == y);
                        }
                    }
                }
                if s.contains(y) {
                    let q = choose|q: int| 0 <= q < s.len() && s[q] == y;
                    if q < front.len() {
                        assert(front[q] == y);
                        assert(inner.contains(y));
                        let k = choose|k: int| 0 <= k < inner.len() && inner[k] == y;
                        assert(out[k] == y);
                    } else {
                        assert(out[inner.len() as int] == y);
                    }
                }
                if y == x {
                    assert(inner.contains(y));
                    let k = choose|k: int| 0 <= k < inner.len() && inner[k] == y;
                    assert(out[k] == y);
                }
            }
            assert forall|j: int, k: int| 0 <= j < k < out.len() implies precedes(
                weights,
                #[trigger] out[j],
                #[trigger] out[k],
            ) by {
                if k < inner.len() {
                    assert(precedes(weights, inner[j], inner[k]));
                } else {
                    assert(inner.contains(inner[j]));
                    if front.contains(inner[j]) {
                        let q = choose|q: int| 0 <= q < front.len() && front[q] == inner[j];
                        assert(precedes(weights, s[q], s[s.len() - 1]));
                    }
                }
            }
            assert forall|k: int| 0 <= k < out.len() implies 0 <= #[trigger] out[k]
                < weights.len() by {
                if k < inner.len() {
                    assert(out[k] == inner[k]);
                }
            }
            out
        }
    }
}

/// The positions `0 .. count` can be put in ascending order.
proof fn lemma_order_upto(weights: Seq<int>, count: int) -> (order: Seq<int>)
    requires
        0 <= count <= weights.len(),
    ensures
        order.len() == count,
        ascending(weights, order),
        forall|y: int| order.contains(y) <==> 0 <= y < count,
    decreases count,
{
    if count == 0 {
        Seq::<int>::empty()
    } else {
        let shorter = lemma_order_upto(weights, count - 1);
        lemma_insert_ascending(weights, shorter, count - 1)
    }
}

/// Every edge list can be put in ascending order.
pub proof fn lemma_edge_order_exists(weights: Seq<int>) -> (order: Seq<int>)
    ensures
        is_edge_order(weights, order),
{
    let order = lemma_order_upto(weights, weights.len() as int);
    assert forall|k: int| 0 <= k < order.len() implies 0 <= #[trigger] order[k]
        < weights.len() by {
        assert(order.contains(order[k]));
    }
    order
}

/// What stands in front of place `j + 1` is what stands in front of place
/// `j`, and the edge at place `j`.
proof fn lemma_front_grows(order: Seq<int>, j: int)
    requires
        0 <= j < order.len(),
    ensures
        selection(order.take(j + 1)) == selection(order.take(j)).insert(order[j]),
{
    assert(order.take(j + 1) =~= order.take(j).push(order[j]));
    lemma_selection_push(order.take(j), order[j]);
}

/// No edge stands in front of itself.
proof fn lemma_not_in_front(weights: Seq<int>, order: Seq<int>, j: int)
    requires
        is_edge_order(weights, order),
        0 <= j < order.len(),
    ensures
        !selection(order.take(j)).contains(order[j]),
{
    let front = order.take(j);
    if front.contains(order[j]) {
        let q = choose|q: int| 0 <= q < front.len() && front[q] == order[j];
        assert(precedes(weights, order[q], order[j]));
    }
}

/// Among the first `j` edges of the order, the picked ones are as many as
/// the vertices lose classes by those edges.
proof fn lemma_picks_rank(
    edges: Seq<(int, int)>,
    weights: Seq<int>,
    order: Seq<int>,
    n: nat,
    j: int,
)
    requires
        edges.len() == weights.len(),
        within(edges, n),
        is_edge_order(weights, order),
        0 <= j <= order.len(),
    ensures
        count_classes(edges, selection(order.take(j)), n) + count_upto(
            order,
            picks(edges, weights),
            j,
        ) == n,
    decreases j,
{
    if j == 0 {
        assert(selection(order.take(0)) =~= Set::<int>::empty());
        lemma_count_empty(edges, n);
    } else {
        let e = order[j - 1];
        lemma_picks_rank(edges, weights, order, n, j - 1);
        lemma_before_is_prefix(weights, order, j - 1);
        lemma_front_grows(order, j - 1);
        let front = selection(order.take(j - 1));
        assert(0 <= e < edges.len());
        if is_pick(edges, weights, e) {
            lemma_count_insert(edges, front, e, n);
        } else {
            lemma_count_insert_redundant(edges, front, e, n);
        }
    }
}

/// Among the first `j` edges of the order, those of a forest are as many
/// as the vertices lose classes by them.
proof fn lemma_forest_rank(
    edges: Seq<(int, int)>,
    weights: Seq<int>,
    order: Seq<int>,
    n: nat,
    t: Set<int>,
    j: int,
)
    requires
        edges.len() == weights.len(),
        within(edges, n),
        is_edge_order(weights, order),
        bridges_only(edges, t),
        0 <= j <= order.len(),
    ensures
        count_classes(edges, t.intersect(selection(order.take(j))), n) + count_upto(order, t, j)
            == n,
    decreases j,
{
    if j == 0 {
        assert(t.intersect(selection(order.take(0))) =~= Set::<int>::empty());
        lemma_count_empty(edges, n);
    } else {
        let e = order[j - 1];
        lemma_forest_rank(edges, weights, order, n, t, j - 1);
        lemma_front_grows(order, j - 1);
        lemma_not_in_front(weights, order, j - 1);
        let front = selection(order.take(j - 1));
        let part = t.intersect(front);
        assert(0 <= e < edges.len());
        if t.contains(e) {
            assert(t.intersect(selection(order.take(j))) =~= part.insert(e));
            assert(part.subset_of(t.remove(e)));
            if connected(edges, part, edges[e].0, edges[e].1) {
                lemma_connected_mono(edges, part, t.remove(e), edges[e].0, edges[e].1);
            }
            lemma_count_insert(edges, part, e, n);
        } else {
            assert(t.intersect(selection(order.take(j))) =~= part);
        }
    }
}

/// Among the first `j` edges of the order, a forest has no more edges than
/// were picked.
proof fn lemma_forest_below_picks(
    edges: Seq<(int, int)>,
    weights: Seq<int>,
    order: Seq<int>,
    n: nat,
    t: Set<int>,
    j: int,
)
    requires
        edges.len() == weights.len(),
        within(edges, n),
        is_edge_order(weights, order),
        bridges_only(edges, t),
        0 <= j <= order.len(),
    ensures
        count_upto(order, t, j) <= count_upto(order, picks(edges, weights), j),
{
    lemma_forest_rank(edges, weights, order, n, t, j);
    lemma_picks_rank(edges, weights, order, n, j);
    let front = selection(order.take(j));
    let part = t.intersect(front);
    assert(part.subset_of(front));
    assert forall|a: int, b: int| #[trigger] connected(edges, part, a, b) implies connected(
        edges,
        front,
        a,
        b,
    ) by {
        lemma_connected_mono(edges, part, front, a, b);
    }
    lemma_count_refines(edges, part, edges, front, n);
}

/// A forest stays one when an edge is taken out of it.
proof fn lemma_forest_remove(edges: Seq<(int, int)>, t: Seq<int>, k: int)
    requires
        is_forest(edges, t),
        0 <= k < t.len(),
    ensures
        is_forest(edges, t.remove(k)),
        selection(t.remove(k)) == selection(t).remove(t[k]),
{
    let r = t.remove(k);
    assert forall|x: int| selection(r).contains(x) <==> selection(t).remove(t[k]).contains(x) by {
        if selection(r).contains(x) {
            let q = choose|q: int| 0 <= q < r.len() && r[q] == x;
            if q < k {
                assert(t[q] == x);
                lemma_forest_distinct(edges, t, q, k);
            } else {
                assert(t[q + 1] == x);
                lemma_forest_distinct(edges, t, k, q + 1);
            }
        }
        if selection(t).remove(t[k]).contains(x) {
            let q = choose|q: int| 0 <= q < t.len() && t[q] == x;
            if q < k {
                assert(r[q] == x);
            } else {
                assert(r[q - 1] == x);
            }
        }
    }
    assert(selection(r) =~= selection(t).remove(t[k]));
    assert forall|q: int| #![trigger r[q]] 0 <= q < r.len() implies 0 <= r[q] < edges.len()
        && !connected(edges, selection(r.take(q)), edges[r[q]].0, edges[r[q]].1) by {
        if q < k {
            assert(r[q] == t[q]);
            assert(r.take(q) =~= t.take(q));
        } else {
            assert(r[q] == t[q + 1]);
            let shorter = selection(r.take(q));
            let longer = selection(t.take(q + 1));
            assert forall|x: int| shorter.contains(x) implies longer.contains(x) by {
                let p = choose|p: int| 0 <= p < r.take(q).len() && r.take(q)[p] == x;
                if p < k {
                    assert(t.take(q + 1)[p] == x);
                } else {
                    assert(t.take(q + 1)[p + 1] == x);
                }
            }
            assert(shorter.subset_of(longer));
            if connected(edges, shorter, edges[r[q]].0, edges[r[q]].1) {
                lemma_connected_mono(edges, shorter, longer, edges[r[q]].0, edges[r[q]].1);
            }
        }
    }
}

/// In a forest every edge is a bridge: without it, its endpoints are
/// apart.  So a forest has no cycle, in whatever order its edges are
/// listed.
pub proof fn lemma_forest_bridges(edges: Seq<(int, int)>, t: Seq<int>, n: nat)
    requires
        within(edges, n),
        is_forest(edges, t),
    ensures
        bridges_only(edges, selection(t)),
{
    assert forall|i: int| 0 <= i < edges.len() && #[trigger] selection(t).contains(i) implies !connected(
        edges,
        selection(t).remove(i),
        edges[i].0,
        edges[i].1,
    ) by {
        let k = choose|k: int| 0 <= k < t.len() && t[k] == i;
        let r = t.remove(k);
        lemma_forest_remove(edges, t, k);
        assert forall|q: int| #![trigger t[q]] 0 <= q < t.len() implies 0 <= edges[t[q]].0 < n && 0
            <= edges[t[q]].1 < n by {
            assert(0 <= t[q] < edges.len());
        }
        assert forall|q: int| #![trigger r[q]] 0 <= q < r.len() implies 0 <= edges[r[q]].0 < n && 0
            <= edges[r[q]].1 < n by {
            assert(0 <= r[q] < edges.len());
        }
        lemma_forest_count(edges, t, n);
        lemma_forest_count(edges, r, n);
        if connected(edges, selection(r), edges[i].0, edges[i].1) {
            assert(selection(t) =~= selection(r).insert(i));
            lemma_count_insert_redundant(edges, selection(r), i, n);
        }
    }
}

/// Of two sets of edges, where the first holds at least as many of the
/// first `j` edges of the order as the second, for every `j`, the first
/// weighs no more than the second by more than what it holds in excess,
/// each excess edge counted at the weight of the last edge looked at.
proof fn lemma_earlier_is_lighter(
    weights: Seq<int>,
    order: Seq<int>,
    first: Set<int>,
    second: Set<int>,
    upto: int,
)
    requires
        is_edge_order(weights, order),
        0 <= upto <= order.len(),
        forall|j: int|
            0 <= j <= upto ==> count_upto(order, second, j) <= #[trigger] count_upto(
                order,
                first,
                j,
            ),
    ensures
        upto == 0 ==> weight_upto(weights, order, first, upto) == weight_upto(
            weights,
            order,
            second,
            upto,
        ),
        upto > 0 ==> weight_upto(weights, order, first, upto) - weight_upto(
            weights,
            order,
            second,
            upto,
        ) <= (count_upto(order, first, upto) - count_upto(order, second, upto))
            * weights[order[upto - 1]],
    decreases upto,
{
    if upto > 0 {
        lemma_earlier_is_lighter(weights, order, first, second, upto - 1);
        let e = order[upto - 1];
        let heavy = weights[e];
        let d0 = count_upto(order, first, upto - 1) - count_upto(order, second, upto - 1);
        let d1 = count_upto(order, first, upto) - count_upto(order, second, upto);
        let gap0 = weight_upto(weights, order, first, upto - 1) - weight_upto(
            weights,
            order,
            second,
            upto - 1,
        );
        let gap1 = weight_upto(weights, order, first, upto) - weight_upto(
            weights,
            order,
            second,
            upto,
        );
        assert(count_upto(order, second, upto - 1) <= count_upto(order, first, upto - 1));
        assert(count_upto(order, second, upto) <= count_upto(order, first, upto));
        assert(gap1 == gap0 + (d1 - d0) * heavy) by {
            if first.contains(e) && !second.contains(e) {
                assert(d1 - d0 == 1);
                assert((d1 - d0) * heavy == heavy) by (nonlinear_arith)
                    requires
                        d1 - d0 == 1,
                ;
            } else if !first.contains(e) && second.contains(e) {
                assert(d1 - d0 == -1);
                assert((d1 - d0) * heavy == -heavy) by (nonlinear_arith)
                    requires
                        d1 - d0 == -1,
                ;
            } else {
                assert(d1 - d0 == 0);
                assert((d1 - d0) * heavy == 0) by (nonlinear_arith)
                    requires
                        d1 - d0 == 0,
                ;
            }
        }
        if upto == 1 {
            assert(d0 == 0 && gap0 == 0);
            assert(gap1 <= d1 * heavy) by (nonlinear_arith)
                requires
                    gap1 == gap0 + (d1 - d0) * heavy,
                    d0 == 0,
                    gap0 == 0,
            ;
        } else {
            let light = weights[order[upto - 2]];
            assert(precedes(weights, order[upto - 2], order[upto - 1]));
            assert(light <= heavy);
            assert(gap1 <= d1 * heavy) by (nonlinear_arith)
                requires
                    gap1 == gap0 + (d1 - d0) * heavy,
                    gap0 <= d0 * light,
                    d0 >= 0,
                    light <= heavy,
            ;
        }
    }
}

/// One more edge in a set adds its weight, once the order has reached it.
proof fn lemma_weight_insert(
    weights: Seq<int>,
    order: Seq<int>,
    t: Set<int>,
    x: int,
    upto: int,
)
    requires
        is_edge_order(weights, order),
        0 <= upto <= order.len(),
        !t.contains(x),
    ensures
        weight_upto(weights, order, t.insert(x), upto) == weight_upto(weights, order, t, upto)
            + if order.take(upto).contains(x) {
            weights[x]
        } else {
            0int
        },
    decreases upto,
{
    if upto > 0 {
        lemma_weight_insert(weights, order, t, x, upto - 1);
        let e = order[upto - 1];
        let shorter = order.take(upto - 1);
        let longer = order.take(upto);
        if e == x {
            lemma_not_in_front(weights, order, upto - 1);
            assert(longer[upto - 1] == x);
        } else {
            if shorter.contains(x) {
                let q = choose|q: int| 0 <= q < shorter.len() && shorter[q] == x;
                assert(longer[q] == x);
            }
            if longer.contains(x) {
                let q = choose|q: int| 0 <= q < longer.len() && longer[q] == x;
                assert(shorter[q] == x);
            }
        }
    } else {
        assert(order.take(0).len() == 0);
    }
}

/// The weight of a forest, summed in the order of the list or in ascending
/// order, is the same.
proof fn lemma_total_by_order(
    edges: Seq<(int, int)>,
    weights: Seq<int>,
    order: Seq<int>,
    t: Seq<int>,
)
    requires
        edges.len() == weights.len(),
        is_edge_order(weights, order),
        is_forest(edges, t),
    ensures
        total_weight(weights, t) == weight_upto(
            weights,
            order,
            selection(t),
            order.len() as int,
        ),
    decreases t.len(),
{
    let m = order.len() as int;
    if t.len() == 0 {
        lemma_weight_of_none(weights, order, selection(t), m);
    } else {
        let front = t.drop_last();
        let x = t.last();
        assert(front =~= t.take(t.len() - 1));
        lemma_forest_prefix(edges, t, t.len() - 1);
        lemma_total_by_order(edges, weights, order, front);
        assert(t =~= front.push(x));
        lemma_selection_push(front, x);
        if front.contains(x) {
            let q = choose|q: int| 0 <= q < front.len() && front[q] == x;
            assert(t[q] == x);
            lemma_forest_distinct(edges, t, q, t.len() - 1);
        }
        lemma_weight_insert(weights, order, selection(front), x, m);
        assert(0 <= t[t.len() - 1] < edges.len());
        assert(order.contains(x));
        assert(order.take(m) =~= order);
    }
}

/// A set without edges holds none of the first edges and weighs nothing.
proof fn lemma_weight_of_none(weights: Seq<int>, order: Seq<int>, t: Set<int>, upto: int)
    requires
        forall|x: int| !t.contains(x),
    ensures
        weight_upto(weights, order, t, upto) == 0,
        count_upto(order, t, upto) == 0,
    decreases upto,
{
    if upto > 0 {
        lemma_weight_of_none(weights, order, t, upto - 1);
    }
}

/// A part holds no more of the first edges than the whole.
proof fn lemma_subset_count(order: Seq<int>, small: Set<int>, large: Set<int>, upto: int)
    requires
        0 <= upto <= order.len(),
        forall|j: int|
            0 <= j < upto && small.contains(#[trigger] order[j]) ==> large.contains(order[j]),
    ensures
        count_upto(order, small, upto) <= count_upto(order, large, upto),
    decreases upto,
{
    if upto > 0 {
        lemma_subset_count(order, small, large, upto - 1);
    }
}

/// A part that is as numerous as the whole weighs as much.
proof fn lemma_subset_same_weight(
    weights: Seq<int>,
    order: Seq<int>,
    small: Set<int>,
    large: Set<int>,
    upto: int,
)
    requires
        0 <= upto <= order.len(),
        forall|j: int|
            0 <= j < upto && small.contains(#[trigger] order[j]) ==> large.contains(order[j]),
        count_upto(order, small, upto) == count_upto(order, large, upto),
    ensures
        weight_upto(weights, order, small, upto) == weight_upto(weights, order, large, upto),
    decreases upto,
{
    if upto > 0 {
        lemma_subset_count(order, small, large, upto - 1);
        assert(small.contains(order[upto - 1]) ==> large.contains(order[upto - 1]));
        lemma_subset_same_weight(weights, order, small, large, upto - 1);
    }
}

/// A part that is as numerous as the whole is the whole.
proof fn lemma_subset_same_members(
    order: Seq<int>,
    small: Set<int>,
    large: Set<int>,
    upto: int,
    j: int,
)
    requires
        0 <= j < upto <= order.len(),
        forall|q: int|
            0 <= q < upto && small.contains(#[trigger] order[q]) ==> large.contains(order[q]),
        count_upto(order, small, upto) == count_upto(order, large, upto),
    ensures
        small.contains(order[j]) == large.contains(order[j]),
    decreases upto,
{
    lemma_subset_count(order, small, large, upto - 1);
    assert(small.contains(order[upto - 1]) ==> large.contains(order[upto - 1]));
    if j < upto - 1 {
        lemma_subset_same_members(order, small, large, upto - 1, j);
    }
}

/// A spanning forest has as many edges as were picked.
proof fn lemma_spanning_count(
    edges: Seq<(int, int)>,
    weights: Seq<int>,
    order: Seq<int>,
    n: nat,
    t: Seq<int>,
)
    requires
        edges.len() == weights.len(),
        within(edges, n),
        is_edge_order(weights, order),
        is_spanning_forest(edges, t),
    ensures
        bridges_only(edges, selection(t)),
        count_upto(order, selection(t), order.len() as int) == count_upto(
            order,
            picks(edges, weights),
            order.len() as int,
        ),
{
    let m = order.len() as int;
    let whole = selection(order.take(m));
    lemma_forest_bridges(edges, t, n);
    lemma_forest_rank(edges, weights, order, n, selection(t), m);
    lemma_picks_rank(edges, weights, order, n, m);
    assert(order.take(m) =~= order);
    assert forall|x: int| selection(t).contains(x) implies whole.contains(x) by {
        let q = choose|q: int| 0 <= q < t.len() && t[q] == x;
        assert(0 <= t[q] < edges.len());
        assert(order.contains(x));
    }
    assert(selection(t).intersect(whole) =~= selection(t));
    assert(whole.subset_of(all_edges(edges))) by {
        assert forall|x: int| whole.contains(x) implies all_edges(edges).contains(x) by {
            let q = choose|q: int| 0 <= q < order.len() && order[q] == x;
        }
    }
    assert(selection(t).subset_of(whole));
    assert forall|a: int, b: int|
        #![trigger connected(edges, selection(t), a, b)]
        #![trigger connected(edges, whole, a, b)]
        connected(edges, selection(t), a, b) <==> connected(edges, whole, a, b) by {
        if connected(edges, selection(t), a, b) {
            lemma_connected_mono(edges, selection(t), whole, a, b);
        }
        if connected(edges, whole, a, b) {
            lemma_connected_mono(edges, whole, all_edges(edges), a, b);
            assert(connected(edges, all_edges(edges), a, b));
        }
    }
    lemma_count_same(edges, selection(t), edges, whole, n);
}

/// **The picked edges weigh least.**  A spanning forest that consists of
/// picked edges alone weighs no more than any spanning forest of the same
/// graph.
pub proof fn lemma_picks_are_minimum(
    edges: Seq<(int, int)>,
    weights: Seq<int>,
    n: nat,
    ids: Seq<int>,
)
    requires
        edges.len() == weights.len(),
        within(edges, n),
        is_spanning_forest(edges, ids),
        forall|k: int| 0 <= k < ids.len() ==> is_pick(edges, weights, #[trigger] ids[k]),
    ensures
        is_min_spanning_forest(edges, weights, ids),
{
    let order = lemma_edge_order_exists(weights);
    let m = order.len() as int;
    let best = picks(edges, weights);
    let mine = selection(ids);
    lemma_spanning_count(edges, weights, order, n, ids);
    lemma_total_by_order(edges, weights, order, ids);
    assert forall|j: int| 0 <= j < m && mine.contains(#[trigger] order[j]) implies best.contains(
        order[j],
    ) by {
        let k = choose|k: int| 0 <= k < ids.len() && ids[k] == order[j];
        assert(is_pick(edges, weights, ids[k]));
    }
    lemma_subset_same_weight(weights, order, mine, best, m);
    assert forall|other: Seq<int>| #[trigger] is_spanning_forest(edges, other) implies total_weight(
        weights,
        ids,
    ) <= total_weight(weights, other) by {
        let theirs = selection(other);
        lemma_spanning_count(edges, weights, order, n, other);
        lemma_total_by_order(edges, weights, order, other);
        assert forall|j: int| 0 <= j <= m implies count_upto(order, theirs, j)
            <= #[trigger] count_upto(order, best, j) by {
            lemma_forest_below_picks(edges, weights, order, n, theirs, j);
        }
        lemma_earlier_is_lighter(weights, order, best, theirs, m);
        if m > 0 {
            let heavy = weights[order[m - 1]];
            let excess = count_upto(order, best, m) - count_upto(order, theirs, m);
            assert(excess * heavy == 0) by (nonlinear_arith)
                requires
                    excess == 0,
            ;
        }
    }
}

/// **The picked edges are a forest's only choice.**  A spanning forest
/// that consists of picked edges alone holds every picked edge.
pub proof fn lemma_picks_all_taken(
    edges: Seq<(int, int)>,
    weights: Seq<int>,
    n: nat,
    ids: Seq<int>,
)
    requires
        edges.len() == weights.len(),
        within(edges, n),
        is_spanning_forest(edges, ids),
        forall|k: int| 0 <= k < ids.len() ==> is_pick(edges, weights, #[trigger] ids[k]),
    ensures
        is_pick_forest(edges, weights, ids),
{
    let order = lemma_edge_order_exists(weights);
    let m = order.len() as int;
    let best = picks(edges, weights);
    let mine = selection(ids);
    lemma_spanning_count(edges, weights, order, n, ids);
    assert forall|j: int| 0 <= j < m && mine.contains(#[trigger] order[j]) implies best.contains(
        order[j],
    ) by {
        let k = choose|k: int| 0 <= k < ids.len() && ids[k] == order[j];
        assert(is_pick(edges, weights, ids[k]));
    }
    assert forall|i: int| 0 <= i < edges.len() implies (ids.contains(i) <==> is_pick(
        edges,
        weights,
        i,
    )) by {
        assert(order.contains(i));
        let j = choose|j: int| 0 <= j < order.len() && order[j] == i;
        lemma_subset_same_members(order, mine, best, m, j);
    }
}

/// On a graph whose edges end in its vertices, a spanning forest of picked
/// edges holds all picked edges and is a minimum spanning forest.
pub proof fn lemma_picked_forest_is_minimum(graph: &Graph, ids: Seq<int>)
    requires
        graph.indices_ok(),
        graph.is_spanning_forest(ids),
        forall|k: int|
            0 <= k < ids.len() ==> is_pick(graph.pairs(), graph.weights(), #[trigger] ids[k]),
    ensures
        graph.is_msf(ids),
        graph.is_pick_forest(ids),
{
    let edges = graph.pairs();
    assert forall|i: int| 0 <= i < edges.len() implies 0 <= (#[trigger] edges[i]).0
        < graph.vertex_count && 0 <= edges[i].1 < graph.vertex_count by {
        assert(graph.edges@[i].0 < graph.vertex_count);
    }
    lemma_picks_are_minimum(edges, graph.weights(), graph.vertex_count as nat, ids);
    lemma_picks_all_taken(edges, graph.weights(), graph.vertex_count as nat, ids);
}

} // verus!

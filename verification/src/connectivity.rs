//! Connectivity in an undirected multigraph, stated without paths.
//!
//! A graph is an edge list `edges`, each edge a pair of endpoints, together
//! with a selection `sel` of edge positions that are switched on.  A vertex
//! set is *closed* when no selected edge leaves it, and two vertices are
//! *connected* when every closed set that holds the first also holds the
//! second.  This is the least equivalence relation that joins the endpoints
//! of every selected edge; the first lemmas below establish exactly that.
//! The others count the classes of the relation, and say what a forest is.
use vstd::prelude::*;

verus! {

/// No selected edge has exactly one endpoint in `s`.
pub open spec fn closed(edges: Seq<(int, int)>, sel: Set<int>, s: Set<int>) -> bool {
    forall|i: int|
        0 <= i < edges.len() && #[trigger] sel.contains(i) ==> (s.contains(edges[i].0)
            <==> s.contains(edges[i].1))
}

/// `b` lies in every closed vertex set that holds `a`.
pub open spec fn connected(edges: Seq<(int, int)>, sel: Set<int>, a: int, b: int) -> bool {
    forall|s: Set<int>| #[trigger] closed(edges, sel, s) && s.contains(a) ==> s.contains(b)
}

/// Every position of the edge list.
pub open spec fn all_edges(edges: Seq<(int, int)>) -> Set<int> {
    Set::new(|i: int| 0 <= i < edges.len())
}

/// The positions that occur in `ids`.
pub open spec fn selection(ids: Seq<int>) -> Set<int> {
    Set::new(|i: int| ids.contains(i))
}

/// The vertices connected to `a`.
pub open spec fn class_of(edges: Seq<(int, int)>, sel: Set<int>, a: int) -> Set<int> {
    Set::new(|x: int| connected(edges, sel, a, x))
}

/// Every vertex is connected to itself.
pub proof fn lemma_connected_refl(edges: Seq<(int, int)>, sel: Set<int>, a: int)
    ensures
        connected(edges, sel, a, a),
{
}

/// What is connected to a vertex is connected to whatever that vertex is
/// connected to.
pub proof fn lemma_connected_trans(edges: Seq<(int, int)>, sel: Set<int>, a: int, b: int, c: int)
    requires
        connected(edges, sel, a, b),
        connected(edges, sel, b, c),
    ensures
        connected(edges, sel, a, c),
{
    assert forall|s: Set<int>| #[trigger] closed(edges, sel, s) && s.contains(a) implies s.contains(
        c,
    ) by {
        assert(s.contains(b));
    }
}

/// Connection goes both ways.
pub proof fn lemma_connected_sym(edges: Seq<(int, int)>, sel: Set<int>, a: int, b: int)
    requires
        connected(edges, sel, a, b),
    ensures
        connected(edges, sel, b, a),
{
    assert forall|s: Set<int>| #[trigger] closed(edges, sel, s) && s.contains(b) implies s.contains(
        a,
    ) by {
        let c = Set::new(|x: int| !s.contains(x));
        assert(closed(edges, sel, c));
        if !s.contains(a) {
            assert(c.contains(a));
            assert(c.contains(b));
        }
    }
}

/// A selected edge connects its endpoints.
pub proof fn lemma_edge_connects(edges: Seq<(int, int)>, sel: Set<int>, i: int)
    requires
        0 <= i < edges.len(),
        sel.contains(i),
    ensures
        connected(edges, sel, edges[i].0, edges[i].1),
        connected(edges, sel, edges[i].1, edges[i].0),
{
}

/// A closed set holds the whole class of each of its members.
pub proof fn lemma_closed_holds_class(
    edges: Seq<(int, int)>,
    sel: Set<int>,
    s: Set<int>,
    a: int,
    b: int,
)
    requires
        closed(edges, sel, s),
        connected(edges, sel, a, b),
    ensures
        s.contains(a) <==> s.contains(b),
{
    lemma_connected_sym(edges, sel, a, b);
}

/// Switching more edges on keeps what was connected.
pub proof fn lemma_connected_mono(
    edges: Seq<(int, int)>,
    sel1: Set<int>,
    sel2: Set<int>,
    a: int,
    b: int,
)
    requires
        sel1.subset_of(sel2),
        connected(edges, sel1, a, b),
    ensures
        connected(edges, sel2, a, b),
{
    assert forall|s: Set<int>| #[trigger]
        closed(edges, sel2, s) && s.contains(a) implies s.contains(b) by {
        assert(closed(edges, sel1, s));
    }
}

/// Connection is the least equivalence that joins the endpoints of every
/// selected edge: any other such equivalence relates whatever is
/// connected.
pub proof fn lemma_connected_is_least(
    edges: Seq<(int, int)>,
    sel: Set<int>,
    related: spec_fn(int, int) -> bool,
    a: int,
    b: int,
)
    requires
        forall|x: int| #[trigger] related(x, x),
        forall|x: int, y: int| #[trigger] related(x, y) ==> related(y, x),
        forall|x: int, y: int, z: int|
            #[trigger] related(x, y) && #[trigger] related(y, z) ==> related(x, z),
        forall|i: int|
            0 <= i < edges.len() && #[trigger] sel.contains(i) ==> related(edges[i].0, edges[i].1),
        connected(edges, sel, a, b),
    ensures
        related(a, b),
{
    let s = Set::new(|x: int| related(a, x));
    assert forall|i: int| 0 <= i < edges.len() && #[trigger] sel.contains(i) implies (s.contains(
        edges[i].0,
    ) <==> s.contains(edges[i].1)) by {
        let u = edges[i].0;
        let v = edges[i].1;
        assert(related(u, v));
        assert(related(v, u));
        if related(a, u) {
            assert(related(a, v));
        }
        if related(a, v) {
            assert(related(a, u));
        }
    }
    assert(closed(edges, sel, s));
    assert(related(a, a));
    assert(s.contains(a));
    assert(s.contains(b));
}

/// With nothing selected, a vertex is connected to itself alone.
pub proof fn lemma_connected_empty(edges: Seq<(int, int)>, a: int, b: int)
    requires
        connected(edges, Set::<int>::empty(), a, b),
    ensures
        a == b,
{
    let s = Set::new(|x: int| x == a);
    assert(closed(edges, Set::<int>::empty(), s));
    assert(s.contains(a));
    assert(s.contains(b));
}

/// What one more edge connects: what was connected before, and what the new
/// edge bridges.
pub proof fn lemma_connected_insert(
    edges: Seq<(int, int)>,
    sel: Set<int>,
    i: int,
    a: int,
    b: int,
)
    requires
        0 <= i < edges.len(),
    ensures
        connected(edges, sel.insert(i), a, b) <==> (connected(edges, sel, a, b) || (connected(
            edges,
            sel,
            a,
            edges[i].0,
        ) && connected(edges, sel, edges[i].1, b)) || (connected(edges, sel, a, edges[i].1)
            && connected(edges, sel, edges[i].0, b))),
{
    let u = edges[i].0;
    let v = edges[i].1;
    let more = sel.insert(i);
    assert(sel.subset_of(more));
    assert(more.contains(i));
    lemma_edge_connects(edges, more, i);
    if connected(edges, sel, a, b) {
        lemma_connected_mono(edges, sel, more, a, b);
    }
    if connected(edges, sel, a, u) && connected(edges, sel, v, b) {
        lemma_connected_mono(edges, sel, more, a, u);
        lemma_connected_mono(edges, sel, more, v, b);
        lemma_connected_trans(edges, more, a, u, v);
        lemma_connected_trans(edges, more, a, v, b);
    }
    if connected(edges, sel, a, v) && connected(edges, sel, u, b) {
        lemma_connected_mono(edges, sel, more, a, v);
        lemma_connected_mono(edges, sel, more, u, b);
        lemma_connected_trans(edges, more, a, v, u);
        lemma_connected_trans(edges, more, a, u, b);
    }
    if connected(edges, more, a, b) {
        let touches = connected(edges, sel, a, u) || connected(edges, sel, a, v);
        let s = Set::new(
            |x: int|
                connected(edges, sel, a, x) || (touches && (connected(edges, sel, u, x)
                    || connected(edges, sel, v, x))),
        );
        assert forall|j: int| 0 <= j < edges.len() && #[trigger] more.contains(j) implies (
        s.contains(edges[j].0) <==> s.contains(edges[j].1)) by {
            if j == i && !sel.contains(j) {
                lemma_connected_refl(edges, sel, u);
                lemma_connected_refl(edges, sel, v);
            } else {
                assert(sel.contains(j));
                let x = edges[j].0;
                let y = edges[j].1;
                lemma_edge_connects(edges, sel, j);
                if connected(edges, sel, a, x) {
                    lemma_connected_trans(edges, sel, a, x, y);
                }
                if connected(edges, sel, u, x) {
                    lemma_connected_trans(edges, sel, u, x, y);
                }
                if connected(edges, sel, v, x) {
                    lemma_connected_trans(edges, sel, v, x, y);
                }
                if connected(edges, sel, a, y) {
                    lemma_connected_trans(edges, sel, a, y, x);
                }
                if connected(edges, sel, u, y) {
                    lemma_connected_trans(edges, sel, u, y, x);
                }
                if connected(edges, sel, v, y) {
                    lemma_connected_trans(edges, sel, v, y, x);
                }
            }
        }
        assert(closed(edges, more, s));
        lemma_connected_refl(edges, sel, a);
        assert(s.contains(a));
        assert(s.contains(b));
        if !connected(edges, sel, a, b) {
            if connected(edges, sel, u, b) {
                if connected(edges, sel, a, u) {
                    lemma_connected_trans(edges, sel, a, u, b);
                }
            } else {
                if connected(edges, sel, a, v) {
                    lemma_connected_trans(edges, sel, a, v, b);
                }
            }
        }
    }
}

/// An edge between connected vertices connects nothing new.
pub proof fn lemma_connected_insert_redundant(
    edges: Seq<(int, int)>,
    sel: Set<int>,
    i: int,
    a: int,
    b: int,
)
    requires
        0 <= i < edges.len(),
        connected(edges, sel, edges[i].0, edges[i].1),
    ensures
        connected(edges, sel.insert(i), a, b) <==> connected(edges, sel, a, b),
{
    let u = edges[i].0;
    let v = edges[i].1;
    lemma_connected_insert(edges, sel, i, a, b);
    lemma_connected_sym(edges, sel, u, v);
    if connected(edges, sel, a, u) && connected(edges, sel, v, b) {
        lemma_connected_trans(edges, sel, a, u, v);
        lemma_connected_trans(edges, sel, a, v, b);
    }
    if connected(edges, sel, a, v) && connected(edges, sel, u, b) {
        lemma_connected_trans(edges, sel, a, v, u);
        lemma_connected_trans(edges, sel, a, u, b);
    }
}

/// Where every edge of the list joins vertices that `sel` already connects,
/// `sel` connects all that the whole list connects.
pub proof fn lemma_spans_when_every_edge_joined(
    edges: Seq<(int, int)>,
    sel: Set<int>,
    a: int,
    b: int,
)
    requires
        forall|i: int|
            0 <= i < edges.len() ==> connected(edges, sel, (#[trigger] edges[i]).0, edges[i].1),
        connected(edges, all_edges(edges), a, b),
    ensures
        connected(edges, sel, a, b),
{
    let c = class_of(edges, sel, a);
    assert forall|i: int|
        0 <= i < edges.len() && #[trigger] all_edges(edges).contains(i) implies (c.contains(
        edges[i].0,
    ) <==> c.contains(edges[i].1)) by {
        let x = edges[i].0;
        let y = edges[i].1;
        assert(connected(edges, sel, x, y));
        lemma_connected_sym(edges, sel, x, y);
        if connected(edges, sel, a, x) {
            lemma_connected_trans(edges, sel, a, x, y);
        }
        if connected(edges, sel, a, y) {
            lemma_connected_trans(edges, sel, a, y, x);
        }
    }
    assert(closed(edges, all_edges(edges), c));
    lemma_connected_refl(edges, sel, a);
    assert(c.contains(a));
    assert(c.contains(b));
}

/// `x` is the least vertex of its class.
pub open spec fn is_least(edges: Seq<(int, int)>, sel: Set<int>, x: int) -> bool {
    forall|y: int| 0 <= y < x ==> !#[trigger] connected(edges, sel, x, y)
}

/// How many classes the vertices `0 .. n` fall into: the number of those
/// vertices that are the least of their class.
pub open spec fn count_classes(edges: Seq<(int, int)>, sel: Set<int>, n: nat) -> nat
    decreases n,
{
    if n == 0 {
        0
    } else {
        count_classes(edges, sel, (n - 1) as nat) + if is_least(edges, sel, n - 1) {
            1nat
        } else {
            0nat
        }
    }
}

/// Every vertex has a least vertex connected to it.
pub proof fn lemma_least_member(edges: Seq<(int, int)>, sel: Set<int>, x: int) -> (r: int)
    requires
        0 <= x,
    ensures
        0 <= r <= x,
        connected(edges, sel, x, r),
        connected(edges, sel, r, x),
        is_least(edges, sel, r),
    decreases x,
{
    if is_least(edges, sel, x) {
        lemma_connected_refl(edges, sel, x);
        x
    } else {
        let y = choose|y: int| 0 <= y < x && connected(edges, sel, x, y);
        let r = lemma_least_member(edges, sel, y);
        lemma_connected_trans(edges, sel, x, y, r);
        lemma_connected_sym(edges, sel, x, r);
        r
    }
}

/// A relation that connects less has at least as many classes.
pub proof fn lemma_count_refines(
    edges1: Seq<(int, int)>,
    sel1: Set<int>,
    edges2: Seq<(int, int)>,
    sel2: Set<int>,
    n: nat,
)
    requires
        forall|a: int, b: int| #[trigger]
            connected(edges1, sel1, a, b) ==> connected(edges2, sel2, a, b),
    ensures
        count_classes(edges1, sel1, n) >= count_classes(edges2, sel2, n),
    decreases n,
{
    if n > 0 {
        lemma_count_refines(edges1, sel1, edges2, sel2, (n - 1) as nat);
        if is_least(edges2, sel2, n - 1) {
            assert forall|y: int| 0 <= y < n - 1 implies !#[trigger] connected(
                edges1,
                sel1,
                n - 1,
                y,
            ) by {
                if connected(edges1, sel1, n - 1, y) {
                    assert(connected(edges2, sel2, n - 1, y));
                }
            }
        }
    }
}

/// Relations that connect the same vertices have the same number of classes.
pub proof fn lemma_count_same(
    edges1: Seq<(int, int)>,
    sel1: Set<int>,
    edges2: Seq<(int, int)>,
    sel2: Set<int>,
    n: nat,
)
    requires
        forall|a: int, b: int|
            #![trigger connected(edges1, sel1, a, b)]
            #![trigger connected(edges2, sel2, a, b)]
            connected(edges1, sel1, a, b) <==> connected(edges2, sel2, a, b),
    ensures
        count_classes(edges1, sel1, n) == count_classes(edges2, sel2, n),
{
    lemma_count_refines(edges1, sel1, edges2, sel2, n);
    lemma_count_refines(edges2, sel2, edges1, sel1, n);
}

/// With nothing selected every vertex is a class of its own.
pub proof fn lemma_count_empty(edges: Seq<(int, int)>, n: nat)
    ensures
        count_classes(edges, Set::<int>::empty(), n) == n,
    decreases n,
{
    if n > 0 {
        lemma_count_empty(edges, (n - 1) as nat);
        assert forall|y: int| 0 <= y < n - 1 implies !#[trigger] connected(
            edges,
            Set::<int>::empty(),
            n - 1,
            y,
        ) by {
            if connected(edges, Set::<int>::empty(), n - 1, y) {
                lemma_connected_empty(edges, n - 1, y);
            }
        }
    }
}

/// After an edge has joined the classes led by `hi` and `lo`, with
/// `lo < hi`, the vertex `hi` leads no class any more and every other
/// vertex leads one exactly if it did before.
proof fn lemma_leaders_after_insert(
    edges: Seq<(int, int)>,
    sel: Set<int>,
    i: int,
    lo: int,
    hi: int,
    x: int,
)
    requires
        0 <= i < edges.len(),
        0 <= lo < hi,
        is_least(edges, sel, lo),
        is_least(edges, sel, hi),
        (connected(edges, sel, lo, edges[i].0) && connected(edges, sel, hi, edges[i].1)) || (
        connected(edges, sel, lo, edges[i].1) && connected(edges, sel, hi, edges[i].0)),
        0 <= x,
    ensures
        x != hi ==> (is_least(edges, sel.insert(i), x) <==> is_least(edges, sel, x)),
        x == hi ==> !is_least(edges, sel.insert(i), x),
{
    let u = edges[i].0;
    let v = edges[i].1;
    let more = sel.insert(i);
    if x == hi {
        lemma_connected_insert(edges, sel, i, hi, lo);
        if connected(edges, sel, lo, u) {
            lemma_connected_sym(edges, sel, lo, u);
        }
        if connected(edges, sel, lo, v) {
            lemma_connected_sym(edges, sel, lo, v);
        }
        assert(connected(edges, more, hi, lo));
    } else {
        if is_least(edges, more, x) {
            assert forall|y: int| 0 <= y < x implies !#[trigger] connected(edges, sel, x, y) by {
                lemma_connected_insert(edges, sel, i, x, y);
                assert(!connected(edges, more, x, y));
            }
        }
        if is_least(edges, sel, x) {
            assert forall|y: int| 0 <= y < x implies !#[trigger] connected(edges, more, x, y) by {
                lemma_connected_insert(edges, sel, i, x, y);
                if connected(edges, more, x, y) {
                    // x and y lie in the two classes that the edge joined
                    assert(!connected(edges, sel, x, y));
                    if connected(edges, sel, x, u) && connected(edges, sel, v, y) {
                        lemma_same_leader(edges, sel, x, lo, hi, u, v, y);
                    } else {
                        lemma_same_leader(edges, sel, x, lo, hi, v, u, y);
                    }
                }
            }
        }
    }
}

/// A class leader `x` that reaches `p`, where the edge from `p` to `q`
/// leads on to a smaller vertex `y`, can only be the larger of the two
/// leaders concerned.
proof fn lemma_same_leader(
    edges: Seq<(int, int)>,
    sel: Set<int>,
    x: int,
    lo: int,
    hi: int,
    p: int,
    q: int,
    y: int,
)
    requires
        0 <= lo < hi,
        0 <= y < x,
        is_least(edges, sel, lo),
        is_least(edges, sel, hi),
        is_least(edges, sel, x),
        connected(edges, sel, x, p),
        connected(edges, sel, q, y),
        (connected(edges, sel, lo, p) && connected(edges, sel, hi, q)) || (connected(
            edges,
            sel,
            lo,
            q,
        ) && connected(edges, sel, hi, p)),
    ensures
        x == hi,
{
    // the leader of p's class is x, and y lies in q's class
    if connected(edges, sel, lo, p) {
        lemma_connected_sym(edges, sel, lo, p);
        lemma_connected_trans(edges, sel, x, p, lo);
        lemma_connected_sym(edges, sel, x, lo);
        // x and lo lead the same class
        assert(x == lo) by {
            if x < lo {
                assert(!connected(edges, sel, lo, x));
            }
            if lo < x {
                assert(!connected(edges, sel, x, lo));
            }
        }
        lemma_connected_trans(edges, sel, hi, q, y);
        // y is in hi's class, so y >= hi > lo == x, against y < x
        assert(!connected(edges, sel, hi, y) || y >= hi);
    } else {
        lemma_connected_sym(edges, sel, hi, p);
        lemma_connected_trans(edges, sel, x, p, hi);
        lemma_connected_sym(edges, sel, x, hi);
        assert(x == hi) by {
            if x < hi {
                assert(!connected(edges, sel, hi, x));
            }
            if hi < x {
                assert(!connected(edges, sel, x, hi));
            }
        }
    }
}

/// An edge that joins the classes led by `lo` and `hi` takes `hi` from the
/// leaders among the vertices `0 .. k`, and no other.
proof fn lemma_count_insert_upto(
    edges: Seq<(int, int)>,
    sel: Set<int>,
    i: int,
    lo: int,
    hi: int,
    k: nat,
)
    requires
        0 <= i < edges.len(),
        0 <= lo < hi,
        is_least(edges, sel, lo),
        is_least(edges, sel, hi),
        (connected(edges, sel, lo, edges[i].0) && connected(edges, sel, hi, edges[i].1)) || (
        connected(edges, sel, lo, edges[i].1) && connected(edges, sel, hi, edges[i].0)),
    ensures
        count_classes(edges, sel.insert(i), k) + (if hi < k {
            1nat
        } else {
            0nat
        }) == count_classes(edges, sel, k),
    decreases k,
{
    if k > 0 {
        lemma_count_insert_upto(edges, sel, i, lo, hi, (k - 1) as nat);
        lemma_leaders_after_insert(edges, sel, i, lo, hi, k - 1);
    }
}

/// An edge between two classes leaves one class fewer.
pub proof fn lemma_count_insert(edges: Seq<(int, int)>, sel: Set<int>, i: int, n: nat)
    requires
        0 <= i < edges.len(),
        0 <= edges[i].0 < n,
        0 <= edges[i].1 < n,
        !connected(edges, sel, edges[i].0, edges[i].1),
    ensures
        count_classes(edges, sel.insert(i), n) + 1 == count_classes(edges, sel, n),
{
    let u = edges[i].0;
    let v = edges[i].1;
    let ru = lemma_least_member(edges, sel, u);
    let rv = lemma_least_member(edges, sel, v);
    if ru == rv {
        lemma_connected_trans(edges, sel, u, ru, v);
    }
    if ru < rv {
        lemma_count_insert_upto(edges, sel, i, ru, rv, n);
    } else {
        lemma_count_insert_upto(edges, sel, i, rv, ru, n);
    }
}

/// An edge inside one class leaves the number of classes as it was.
pub proof fn lemma_count_insert_redundant(edges: Seq<(int, int)>, sel: Set<int>, i: int, n: nat)
    requires
        0 <= i < edges.len(),
        connected(edges, sel, edges[i].0, edges[i].1),
    ensures
        count_classes(edges, sel.insert(i), n) == count_classes(edges, sel, n),
{
    let more = sel.insert(i);
    assert forall|a: int, b: int|
        #![trigger connected(edges, more, a, b)]
        #![trigger connected(edges, sel, a, b)]
        connected(edges, more, a, b) <==> connected(edges, sel, a, b) by {
        lemma_connected_insert_redundant(edges, sel, i, a, b);
    }
    lemma_count_same(edges, more, edges, sel, n);
}

/// The edges at the positions `ids`, taken in that order, never close a
/// cycle: each joins two vertices that the earlier ones left apart.
pub open spec fn is_forest(edges: Seq<(int, int)>, ids: Seq<int>) -> bool {
    forall|k: int|
        #![trigger ids[k]]
        0 <= k < ids.len() ==> 0 <= ids[k] < edges.len() && !connected(
            edges,
            selection(ids.take(k)),
            edges[ids[k]].0,
            edges[ids[k]].1,
        )
}

/// One more position in the list is one more position in the selection.
pub proof fn lemma_selection_push(ids: Seq<int>, e: int)
    ensures
        selection(ids.push(e)) == selection(ids).insert(e),
{
    let longer = ids.push(e);
    assert forall|x: int| selection(longer).contains(x) <==> selection(ids).insert(e).contains(
        x,
    ) by {
        if ids.contains(x) {
            let k = choose|k: int| 0 <= k < ids.len() && ids[k] == x;
            assert(longer[k] == x);
        }
        if x == e {
            assert(longer[ids.len() as int] == x);
        }
        if longer.contains(x) {
            let k = choose|k: int| 0 <= k < longer.len() && longer[k] == x;
            if k < ids.len() {
                assert(ids[k] == x);
            }
        }
    }
    assert(selection(longer) =~= selection(ids).insert(e));
}

/// A forest stays one when its last edge is dropped.
pub proof fn lemma_forest_prefix(edges: Seq<(int, int)>, ids: Seq<int>, len: int)
    requires
        is_forest(edges, ids),
        0 <= len <= ids.len(),
    ensures
        is_forest(edges, ids.take(len)),
{
    let p = ids.take(len);
    assert forall|k: int| #![trigger p[k]] 0 <= k < p.len() implies 0 <= p[k] < edges.len()
        && !connected(edges, selection(p.take(k)), edges[p[k]].0, edges[p[k]].1) by {
        assert(p[k] == ids[k]);
        assert(p.take(k) =~= ids.take(k));
    }
}

/// A forest grows by an edge whose endpoints it has not connected.
pub proof fn lemma_forest_push(edges: Seq<(int, int)>, ids: Seq<int>, e: int)
    requires
        is_forest(edges, ids),
        0 <= e < edges.len(),
        !connected(edges, selection(ids), edges[e].0, edges[e].1),
    ensures
        is_forest(edges, ids.push(e)),
{
    let p = ids.push(e);
    assert forall|k: int| #![trigger p[k]] 0 <= k < p.len() implies 0 <= p[k] < edges.len()
        && !connected(edges, selection(p.take(k)), edges[p[k]].0, edges[p[k]].1) by {
        if k < ids.len() {
            assert(p[k] == ids[k]);
            assert(p.take(k) =~= ids.take(k));
        } else {
            assert(p.take(k) =~= ids);
        }
    }
}

/// No edge occurs twice in a forest.
pub proof fn lemma_forest_distinct(edges: Seq<(int, int)>, ids: Seq<int>, j: int, k: int)
    requires
        is_forest(edges, ids),
        0 <= j < k < ids.len(),
    ensures
        ids[j] != ids[k],
{
    if ids[j] == ids[k] {
        let before = ids.take(k);
        assert(before[j] == ids[k]);
        assert(selection(before).contains(ids[k]));
        lemma_edge_connects(edges, selection(before), ids[k]);
    }
}

/// A forest of `len` edges on the vertices `0 .. n` has `n - len` classes.
pub proof fn lemma_forest_count(edges: Seq<(int, int)>, ids: Seq<int>, n: nat)
    requires
        is_forest(edges, ids),
        forall|k: int|
            #![trigger ids[k]]
            0 <= k < ids.len() ==> 0 <= edges[ids[k]].0 < n && 0 <= edges[ids[k]].1 < n,
    ensures
        count_classes(edges, selection(ids), n) + ids.len() == n,
    decreases ids.len(),
{
    if ids.len() == 0 {
        assert(selection(ids) =~= Set::<int>::empty());
        lemma_count_empty(edges, n);
    } else {
        let last = ids.len() - 1;
        let p = ids.take(last);
        let e = ids[last];
        lemma_forest_prefix(edges, ids, last);
        assert forall|k: int| #![trigger p[k]] 0 <= k < p.len() implies 0 <= edges[p[k]].0 < n && 0
            <= edges[p[k]].1 < n by {
            assert(p[k] == ids[k]);
        }
        lemma_forest_count(edges, p, n);
        assert(ids =~= p.push(e));
        lemma_selection_push(p, e);
        lemma_count_insert(edges, selection(p), e, n);
    }
}

} // verus!

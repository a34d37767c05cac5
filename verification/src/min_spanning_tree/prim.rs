//! Prim's algorithm: grow a tree from a seed by the cheapest edge that
//! leaves it, and start again from a new seed when no edge leaves it.
use crate::connectivity::{
    all_edges, closed, connected, is_forest, lemma_closed_holds_class, lemma_connected_mono,
    lemma_connected_refl, lemma_connected_sym, lemma_connected_trans, lemma_edge_connects,
    lemma_forest_count, lemma_forest_push, lemma_selection_push,
    lemma_spans_when_every_edge_joined, selection,
};
use crate::error::MsfError;
use crate::graph::{as_ids, entry_ok, is_adjacency, Graph, Neighbor};
use crate::min_spanning_tree::forest::{
    edge_precedes, is_pick, lemma_first_across_is_pick, precedes, spans,
};
use crate::min_spanning_tree::optimality::lemma_picked_forest_is_minimum;
use vstd::prelude::*;

verus! {

/// Exactly one endpoint of edge `j` has been visited.
pub open spec fn on_frontier(visited: Seq<bool>, edges: Seq<(int, int)>, j: int) -> bool {
    visited[edges[j].0] != visited[edges[j].1]
}

/// `found` is the first, in ascending order, of the edges on the frontier;
/// it is `None` if the frontier is empty.
pub open spec fn is_lightest_on_frontier(
    visited: Seq<bool>,
    edges: Seq<(int, int)>,
    weights: Seq<int>,
    found: Option<usize>,
) -> bool {
    match found {
        Some(b) => {
            &&& b < edges.len()
            &&& on_frontier(visited, edges, b as int)
            &&& forall|j: int|
                0 <= j < edges.len() && #[trigger] on_frontier(visited, edges, j) ==> j == b
                    || precedes(weights, b as int, j)
        },
        None => forall|j: int| 0 <= j < edges.len() ==> !#[trigger] on_frontier(visited, edges, j),
    }
}

/// Among the entries of the lists of visited vertices that stand before
/// place `k` of list `u`, and lead to a vertex not yet visited, `best`
/// names the first edge in ascending order.
spec fn best_so_far(
    graph: &Graph,
    adj: Seq<Vec<Neighbor>>,
    visited: Seq<bool>,
    u: int,
    k: int,
    best: Option<usize>,
) -> bool {
    &&& match best {
        Some(b) => b < graph.edges@.len() && on_frontier(visited, graph.pairs(), b as int),
        None => true,
    }
    &&& forall|x: int, pos: int|
        0 <= x < adj.len() && 0 <= pos < adj[x]@.len() && (x < u || (x == u && pos < k))
            && visited[x] && !visited[(#[trigger] adj[x]@[pos]).vertex as int] ==> best is Some
            && (adj[x]@[pos].edge == best->0 || precedes(
            graph.weights(),
            best->0 as int,
            adj[x]@[pos].edge as int,
        ))
}

/// Scans the neighbour lists of the visited vertices for the cheapest edge
/// to a vertex not yet visited.
pub fn lightest_frontier_edge(graph: &Graph, adj: &Vec<Vec<Neighbor>>, visited: &Vec<bool>) -> (found:
    Option<usize>)
    requires
        graph.indices_ok(),
        is_adjacency(graph, adj@),
        visited@.len() == graph.vertex_count,
    ensures
        is_lightest_on_frontier(visited@, graph.pairs(), graph.weights(), found),
{
    let n = graph.vertex_count;
    let ghost edges = graph.pairs();
    let ghost w = graph.weights();
    let mut best: Option<usize> = None;
    let mut u: usize = 0;
    while u < n
        invariant
            n == graph.vertex_count,
            edges == graph.pairs(),
            w == graph.weights(),
            graph.indices_ok(),
            is_adjacency(graph, adj@),
            visited@.len() == n,
            u <= n,
            best_so_far(graph, adj@, visited@, u as int, 0, best),
        decreases n - u,
    {
        if visited[u] {
            let list = &adj[u];
            let mut k: usize = 0;
            while k < list.len()
                invariant
                    n == graph.vertex_count,
                    edges == graph.pairs(),
                    w == graph.weights(),
                    graph.indices_ok(),
                    is_adjacency(graph, adj@),
                    visited@.len() == n,
                    u < n,
                    visited@[u as int],
                    *list == adj@[u as int],
                    k <= list@.len(),
                    best_so_far(graph, adj@, visited@, u as int, k as int, best),
                decreases list@.len() - k,
            {
                let entry = list[k];
                proof {
                    assert(entry == adj@[u as int]@[k as int]);
                    assert(entry_ok(graph, u as int, entry));
                    assert(graph.edges@[entry.edge as int].0 < n);
                    assert(graph.edges@[entry.edge as int].1 < n);
                }
                if !visited[entry.vertex] {
                    let better = match best {
                        Some(b) => edge_precedes(graph, entry.edge, b),
                        None => true,
                    };
                    let ghost best0 = best;
                    if better {
                        best = Some(entry.edge);
                    }
                    proof {
                        assert(on_frontier(visited@, edges, entry.edge as int));
                        assert forall|x: int, pos: int|
                            0 <= x < adj@.len() && 0 <= pos < adj@[x]@.len() && (x < u || (x == u
                                && pos < k + 1)) && visited@[x] && !visited@[(
                            #[trigger] adj@[x]@[pos]).vertex as int] implies best is Some && (
                        adj@[x]@[pos].edge == best->0 || precedes(
                            w,
                            best->0 as int,
                            adj@[x]@[pos].edge as int,
                        )) by {
                            if x == u && pos == k {
                            } else {
                                assert(best0 is Some && (adj@[x]@[pos].edge == best0->0
                                    || precedes(w, best0->0 as int, adj@[x]@[pos].edge as int)));
                                assert(entry_ok(graph, x, adj@[x]@[pos]));
                            }
                        }
                    }
                }
                k += 1;
            }
        }
        u += 1;
    }
    proof {
        match best {
            Some(b) => {
                assert forall|j: int|
                    0 <= j < edges.len() && #[trigger] on_frontier(visited@, edges, j) implies j
                    == b || precedes(w, b as int, j) by {
                    lemma_edge_is_listed(graph, adj@, visited@, j, best);
                }
            },
            None => {
                assert forall|j: int| 0 <= j < edges.len() implies !#[trigger] on_frontier(
                    visited@,
                    edges,
                    j,
                ) by {
                    if on_frontier(visited@, edges, j) {
                        lemma_edge_is_listed(graph, adj@, visited@, j, best);
                    }
                }
            },
        }
    }
    best
}

/// An edge on the frontier is listed at its visited endpoint, so the scan
/// of all lists has weighed it.
proof fn lemma_edge_is_listed(
    graph: &Graph,
    adj: Seq<Vec<Neighbor>>,
    visited: Seq<bool>,
    j: int,
    best: Option<usize>,
)
    requires
        graph.indices_ok(),
        is_adjacency(graph, adj),
        visited.len() == graph.vertex_count,
        0 <= j < graph.edges@.len(),
        on_frontier(visited, graph.pairs(), j),
        best_so_far(graph, adj, visited, graph.vertex_count as int, 0, best),
    ensures
        best is Some,
        j == best->0 || precedes(graph.weights(), best->0 as int, j),
{
    let edge = graph.edges@[j];
    assert(graph.pairs()[j] == (edge.0 as int, edge.1 as int));
    if visited[edge.0 as int] {
        let entry = Neighbor { vertex: edge.1, weight: edge.2, edge: j as usize };
        assert(adj[edge.0 as int]@.contains(entry));
        let pos = choose|pos: int|
            0 <= pos < adj[edge.0 as int]@.len() && adj[edge.0 as int]@[pos] == entry;
        assert(!visited[adj[edge.0 as int]@[pos].vertex as int]);
    } else {
        let entry = Neighbor { vertex: edge.0, weight: edge.2, edge: j as usize };
        assert(adj[edge.1 as int]@.contains(entry));
        let pos = choose|pos: int|
            0 <= pos < adj[edge.1 as int]@.len() && adj[edge.1 as int]@[pos] == entry;
        assert(!visited[adj[edge.1 as int]@[pos].vertex as int]);
    }
}

/// The vertices marked as visited.
pub open spec fn visited_set(visited: Seq<bool>) -> Set<int> {
    Set::new(|x: int| 0 <= x < visited.len() && visited[x])
}

/// One mark per vertex, none set.
fn none_visited(n: usize) -> (visited: Vec<bool>)
    ensures
        visited@.len() == n,
        forall|x: int| 0 <= x < n ==> !#[trigger] visited@[x],
{
    let mut visited: Vec<bool> = Vec::new();
    let mut k: usize = 0;
    while k < n
        invariant
            k <= n,
            visited@.len() == k,
            forall|x: int| 0 <= x < k ==> !#[trigger] visited@[x],
        decreases n - k,
    {
        visited.push(false);
        k += 1;
    }
    visited
}

/// Every edge of the forest lies between visited vertices.
spec fn forest_visited(graph: &Graph, ids: Seq<int>, visited: Seq<bool>) -> bool {
    forall|k: int|
        0 <= k < ids.len() ==> 0 <= (#[trigger] ids[k]) < graph.edges@.len()
            && visited[graph.edges@[ids[k]].0 as int] && visited[graph.edges@[ids[k]].1 as int]
}

/// The forest connects the endpoints of every edge that lies between
/// vertices marked in `marked`.
spec fn joins_marked(graph: &Graph, ids: Seq<int>, marked: Seq<bool>) -> bool {
    forall|j: int|
        0 <= j < graph.edges@.len() && marked[(#[trigger] graph.edges@[j]).0 as int]
            && marked[graph.edges@[j].1 as int] ==> connected(
            graph.pairs(),
            selection(ids),
            graph.edges@[j].0 as int,
            graph.edges@[j].1 as int,
        )
}

/// No edge has exactly one endpoint marked.
spec fn no_edge_leaves(graph: &Graph, marked: Seq<bool>) -> bool {
    forall|j: int|
        0 <= j < graph.edges@.len() ==> marked[(#[trigger] graph.edges@[j]).0 as int]
            == marked[graph.edges@[j].1 as int]
}

/// What the forest connected, it still connects after it has grown.
proof fn lemma_grown_connects(edges: Seq<(int, int)>, ids: Seq<int>, e: int, a: int, b: int)
    requires
        connected(edges, selection(ids), a, b),
    ensures
        connected(edges, selection(ids.push(e)), a, b),
{
    lemma_selection_push(ids, e);
    assert(selection(ids).subset_of(selection(ids).insert(e)));
    lemma_connected_mono(edges, selection(ids), selection(ids.push(e)), a, b);
}

/// The positions of the forest edges that Prim's algorithm selects.
pub fn select_edges(graph: &Graph) -> (r: Result<Vec<usize>, MsfError>)
    ensures
        match r {
            Ok(ids) => {
                &&& graph.well_formed()
                &&& graph.is_msf(as_ids(ids@))
                &&& graph.is_pick_forest(as_ids(ids@))
            },
            Err(e) => graph.defect() == Some(e),
        },
{
    match graph.validate() {
        Err(e) => {
            return Err(e);
        },
        Ok(()) => {},
    }
    let n = graph.vertex_count;
    let m = graph.edges.len();
    let adj = graph.adjacency();
    let mut visited = none_visited(n);
    let mut picked: Vec<usize> = Vec::new();
    let ghost edges = graph.pairs();
    let ghost w = graph.weights();
    let mut seed: usize = 0;
    while seed < n
        invariant
            graph.well_formed(),
            is_adjacency(graph, adj@),
            edges == graph.pairs(),
            w == graph.weights(),
            n == graph.vertex_count,
            m == graph.edges@.len(),
            seed <= n,
            visited@.len() == n,
            picked@.len() <= n,
            is_forest(edges, as_ids(picked@)),
            forall|k: int|
                0 <= k < picked@.len() ==> is_pick(edges, w, #[trigger] as_ids(picked@)[k]),
            forest_visited(graph, as_ids(picked@), visited@),
            forall|x: int| 0 <= x < seed ==> #[trigger] visited@[x],
            no_edge_leaves(graph, visited@),
            joins_marked(graph, as_ids(picked@), visited@),
        decreases n - seed,
    {
        if !visited[seed] {
            let ghost done = visited@;
            visited.set(seed, true);
            let mut growing = true;
            proof {
                lemma_connected_refl(edges, selection(as_ids(picked@)), seed as int);
            }
            while growing
                invariant
                    graph.well_formed(),
                    is_adjacency(graph, adj@),
                    edges == graph.pairs(),
                    w == graph.weights(),
                    n == graph.vertex_count,
                    m == graph.edges@.len(),
                    seed < n,
                    visited@.len() == n,
                    done.len() == n,
                    picked@.len() <= n,
                    is_forest(edges, as_ids(picked@)),
                    forall|k: int|
                        0 <= k < picked@.len() ==> is_pick(edges, w, #[trigger] as_ids(picked@)[k]),
                    forest_visited(graph, as_ids(picked@), visited@),
                    visited@[seed as int],
                    !done[seed as int],
                    forall|x: int| 0 <= x < n && done[x] ==> #[trigger] visited@[x],
                    forall|x: int|
                        0 <= x < n && #[trigger] visited@[x] && !done[x] ==> connected(
                            edges,
                            selection(as_ids(picked@)),
                            seed as int,
                            x,
                        ),
                    no_edge_leaves(graph, done),
                    joins_marked(graph, as_ids(picked@), done),
                    !growing ==> no_edge_leaves(graph, visited@),
                decreases n - picked@.len() + (if growing {
                    1int
                } else {
                    0int
                }),
            {
                match lightest_frontier_edge(graph, &adj, &visited) {
                    Some(b) => {
                        let edge = graph.edges[b];
                        let to: usize = if visited[edge.0] {
                            edge.1
                        } else {
                            edge.0
                        };
                        let ghost from: int = if visited@[edge.0 as int] {
                            edge.0 as int
                        } else {
                            edge.1 as int
                        };
                        let ghost ids = as_ids(picked@);
                        let ghost seen = visited@;
                        proof {
                            assert(edges[b as int] == (edge.0 as int, edge.1 as int));
                            assert(on_frontier(seen, edges, b as int));
                            assert(seen[from] && !seen[to as int]);
                            let part = visited_set(seen);
                            // the forest lies inside the visited part
                            assert forall|i: int|
                                0 <= i < edges.len() && #[trigger] selection(ids).contains(
                                    i,
                                ) implies (part.contains(edges[i].0) <==> part.contains(
                                edges[i].1,
                            )) by {
                                let k = choose|k: int| 0 <= k < ids.len() && ids[k] == i;
                                assert(seen[graph.edges@[ids[k]].0 as int]);
                            }
                            assert(closed(edges, selection(ids), part));
                            if connected(edges, selection(ids), edge.0 as int, edge.1 as int) {
                                lemma_closed_holds_class(
                                    edges,
                                    selection(ids),
                                    part,
                                    edge.0 as int,
                                    edge.1 as int,
                                );
                            }
                            lemma_forest_push(edges, ids, b as int);
                            // and the edge is the first to leave that part
                            assert forall|j: int|
                                0 <= j < edges.len() && part.contains((#[trigger] edges[j]).0)
                                    != part.contains(edges[j].1) implies j == b || precedes(
                                w,
                                b as int,
                                j,
                            ) by {
                                assert(graph.edges@[j].0 < n && graph.edges@[j].1 < n);
                                assert(on_frontier(seen, edges, j));
                            }
                            lemma_first_across_is_pick(edges, w, b as int, part);
                        }
                        visited.set(to, true);
                        picked.push(b);
                        proof {
                            let grown = as_ids(picked@);
                            assert(grown =~= ids.push(b as int));
                            lemma_selection_push(ids, b as int);
                            assert forall|k: int| 0 <= k < grown.len() implies is_pick(
                                edges,
                                w,
                                #[trigger] grown[k],
                            ) by {
                                if k < ids.len() {
                                    assert(is_pick(edges, w, ids[k]));
                                }
                            }
                            assert(forest_visited(graph, grown, visited@)) by {
                                assert forall|k: int| 0 <= k < grown.len() implies 0 <= (
                                #[trigger] grown[k]) < graph.edges@.len()
                                    && visited@[graph.edges@[grown[k]].0 as int]
                                    && visited@[graph.edges@[grown[k]].1 as int] by {
                                    if k < ids.len() {
                                        assert(grown[k] == ids[k]);
                                        assert(seen[graph.edges@[ids[k]].0 as int]);
                                    }
                                }
                            }
                            // the new vertex hangs on the tree of the seed
                            assert(graph.edges@[b as int].0 < n && graph.edges@[b as int].1 < n);
                            assert(done[edge.0 as int] == done[edge.1 as int]);
                            assert(!done[from]);
                            assert(connected(edges, selection(ids), seed as int, from));
                            lemma_grown_connects(edges, ids, b as int, seed as int, from);
                            assert(selection(grown).contains(b as int));
                            lemma_edge_connects(edges, selection(grown), b as int);
                            lemma_connected_trans(
                                edges,
                                selection(grown),
                                seed as int,
                                from,
                                to as int,
                            );
                            assert forall|x: int|
                                0 <= x < n && #[trigger] visited@[x] && !done[x] implies connected(
                                edges,
                                selection(grown),
                                seed as int,
                                x,
                            ) by {
                                if x != to {
                                    assert(seen[x]);
                                    lemma_grown_connects(edges, ids, b as int, seed as int, x);
                                }
                            }
                            assert(joins_marked(graph, grown, done)) by {
                                assert forall|j: int|
                                    0 <= j < graph.edges@.len() && done[(
                                    #[trigger] graph.edges@[j]).0 as int]
                                        && done[graph.edges@[j].1 as int] implies connected(
                                    graph.pairs(),
                                    selection(grown),
                                    graph.edges@[j].0 as int,
                                    graph.edges@[j].1 as int,
                                ) by {
                                    lemma_grown_connects(
                                        edges,
                                        ids,
                                        b as int,
                                        graph.edges@[j].0 as int,
                                        graph.edges@[j].1 as int,
                                    );
                                }
                            }
                            assert forall|k: int| #![trigger grown[k]] 0 <= k < grown.len() implies 0
                                <= edges[grown[k]].0 < n && 0 <= edges[grown[k]].1 < n by {
                                assert(graph.edges@[grown[k]].0 < n);
                            }
                            lemma_forest_count(edges, grown, n as nat);
                        }
                    },
                    None => {
                        proof {
                            assert forall|j: int| 0 <= j < graph.edges@.len() implies visited@[(
                            #[trigger] graph.edges@[j]).0 as int]
                                == visited@[graph.edges@[j].1 as int] by {
                                assert(!on_frontier(visited@, edges, j));
                            }
                        }
                        growing = false;
                    },
                }
            }
            proof {
                // the tree of the seed is complete
                let ids = as_ids(picked@);
                assert forall|j: int|
                    0 <= j < graph.edges@.len() && visited@[(#[trigger] graph.edges@[j]).0 as int]
                        && visited@[graph.edges@[j].1 as int] implies connected(
                    graph.pairs(),
                    selection(ids),
                    graph.edges@[j].0 as int,
                    graph.edges@[j].1 as int,
                ) by {
                    let x = graph.edges@[j].0 as int;
                    let y = graph.edges@[j].1 as int;
                    assert(done[x] == done[y]);
                    if !done[x] {
                        assert(connected(edges, selection(ids), seed as int, x));
                        assert(connected(edges, selection(ids), seed as int, y));
                        lemma_connected_sym(edges, selection(ids), seed as int, x);
                        lemma_connected_trans(edges, selection(ids), x, seed as int, y);
                    }
                }
            }
        }
        seed += 1;
    }
    proof {
        let ids = as_ids(picked@);
        assert forall|j: int| 0 <= j < edges.len() implies connected(
            edges,
            selection(ids),
            (#[trigger] edges[j]).0,
            edges[j].1,
        ) by {
            assert(graph.edges@[j].0 < n && graph.edges@[j].1 < n);
            assert(visited@[graph.edges@[j].0 as int]);
            assert(visited@[graph.edges@[j].1 as int]);
        }
        assert forall|a: int, b: int| #[trigger]
            connected(edges, all_edges(edges), a, b) implies connected(
            edges,
            selection(ids),
            a,
            b,
        ) by {
            lemma_spans_when_every_edge_joined(edges, selection(ids), a, b);
        }
        assert(spans(edges, ids));
    }
    proof {
        lemma_picked_forest_is_minimum(graph, as_ids(picked@));
    }
    Ok(picked)
}

/// Builds a minimum spanning forest by Prim's algorithm and returns the
/// endpoints of its edges, tree by tree in the order in which they grew.
pub fn build_mst(graph: &Graph) -> (r: Result<Vec<(usize, usize)>, MsfError>)
    ensures
        match r {
            Ok(forest) => graph.well_formed() && graph.is_msf_result(forest@),
            Err(e) => graph.defect() == Some(e),
        },
{
    match select_edges(graph) {
        Ok(ids) => {
            proof {
                assert forall|k: int| 0 <= k < ids@.len() implies (#[trigger] ids@[k])
                    < graph.edges@.len() by {
                    assert(0 <= as_ids(ids@)[k] < graph.pairs().len());
                }
            }
            let forest = graph.endpoints_of(&ids);
            proof {
                assert(graph.is_msf(as_ids(ids@)));
            }
            Ok(forest)
        },
        Err(e) => Err(e),
    }
}

} // verus!

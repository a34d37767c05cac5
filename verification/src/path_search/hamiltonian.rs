//! Hamiltonian paths: the paths that visit every vertex of a graph once.
//!
//! The graph maps every vertex to the list of its neighbours.  An
//! undirected graph lists each edge at both of its ends.
use std::collections::HashMap;
use vstd::prelude::*;
use vstd::set_lib::lemma_len_subset;
use vstd::std_specs::hash::{axiom_spec_keys_iter, group_hash_axioms};
use vstd::std_specs::iter::IteratorSpec;

verus! {

/// Every neighbour that the graph lists is a vertex of the graph.
pub open spec fn lists_vertices_only(graph: Map<usize, Vec<usize>>) -> bool {
    forall|u: usize, k: int|
        graph.contains_key(u) && 0 <= k < graph[u]@.len() ==> graph.contains_key(
            #[trigger] graph[u]@[k],
        )
}

/// No list of neighbours holds a vertex twice.
pub open spec fn lists_once(graph: Map<usize, Vec<usize>>) -> bool {
    forall|u: usize| graph.contains_key(u) ==> (#[trigger] graph[u])@.no_duplicates()
}

/// No path is listed twice from place `from` on.
pub open spec fn distinct_from(paths: Seq<Vec<usize>>, from: int) -> bool {
    forall|a: int, b: int|
        from <= a < b < paths.len() ==> (#[trigger] paths[a])@ != (#[trigger] paths[b])@
}

/// `p` walks through the graph: from vertex to listed neighbour, without
/// coming to a vertex twice.
pub open spec fn is_path(graph: Map<usize, Vec<usize>>, p: Seq<usize>) -> bool {
    &&& p.len() > 0
    &&& p.no_duplicates()
    &&& forall|k: int| 0 <= k < p.len() ==> graph.contains_key(#[trigger] p[k])
    &&& forall|k: int| 0 <= k < p.len() - 1 ==> graph[p[k]]@.contains(#[trigger] p[k + 1])
}

/// `p` is a path that visits every vertex of the graph.
pub open spec fn is_hamiltonian(graph: Map<usize, Vec<usize>>, p: Seq<usize>) -> bool {
    is_path(graph, p) && p.len() == graph.dom().len()
}

/// `h` begins with `p`.
pub open spec fn begins_with(h: Seq<usize>, p: Seq<usize>) -> bool {
    p.len() <= h.len() && h.take(p.len() as int) == p
}

/// `h` is among the paths.
pub open spec fn lists_path(paths: Seq<Vec<usize>>, h: Seq<usize>) -> bool {
    exists|k: int| 0 <= k < paths.len() && (#[trigger] paths[k])@ == h
}

/// A path is no longer than the graph has vertices.
pub proof fn lemma_path_fits(graph: Map<usize, Vec<usize>>, p: Seq<usize>)
    requires
        graph.dom().finite(),
        p.no_duplicates(),
        forall|k: int| 0 <= k < p.len() ==> graph.contains_key(#[trigger] p[k]),
    ensures
        p.len() <= graph.dom().len(),
{
    p.unique_seq_to_set();
    assert forall|x: usize| p.to_set().contains(x) implies graph.dom().contains(x) by {
        let k = choose|k: int| 0 <= k < p.len() && p[k] == x;
        assert(graph.contains_key(p[k]));
    }
    assert(p.to_set().subset_of(graph.dom()));
    lemma_len_subset(p.to_set(), graph.dom());
}

/// A path goes on by a listed neighbour of its last vertex that it has
/// not visited.
pub proof fn lemma_path_grows(graph: Map<usize, Vec<usize>>, p: Seq<usize>, v: usize)
    requires
        lists_vertices_only(graph),
        is_path(graph, p),
        graph[p[p.len() - 1]]@.contains(v),
        !p.contains(v),
    ensures
        is_path(graph, p.push(v)),
{
    let q = p.push(v);
    let last = p[p.len() - 1];
    assert(graph.contains_key(last));
    let at = choose|k: int| 0 <= k < graph[last]@.len() && graph[last]@[k] == v;
    assert(graph.contains_key(graph[last]@[at]));
    assert forall|i: int, j: int| 0 <= i < q.len() && 0 <= j < q.len() && i != j implies q[i]
        != q[j] by {
        if i < p.len() && j < p.len() {
            assert(p[i] != p[j]);
        } else if i < p.len() {
            assert(p.contains(p[i]));
        } else {
            assert(p.contains(p[j]));
        }
    }
    assert forall|k: int| 0 <= k < q.len() implies graph.contains_key(#[trigger] q[k]) by {
        if k < p.len() {
            assert(graph.contains_key(p[k]));
        }
    }
    assert forall|k: int| 0 <= k < q.len() - 1 implies graph[q[k]]@.contains(
        #[trigger] q[k + 1],
    ) by {
        if k < p.len() - 1 {
            assert(graph[p[k]]@.contains(p[k + 1]));
        }
    }
}

/// Tells whether the path has visited the vertex.
pub fn visited(path: &Vec<usize>, v: usize) -> (r: bool)
    ensures
        r == path@.contains(v),
{
    let mut k: usize = 0;
    while k < path.len()
        invariant
            k <= path@.len(),
            forall|j: int| 0 <= j < k ==> path@[j] != v,
        decreases path@.len() - k,
    {
        if path[k] == v {
            return true;
        }
        k += 1;
    }
    false
}

/// A copy of the path.
fn copy_of(path: &Vec<usize>) -> (copy: Vec<usize>)
    ensures
        copy@ == path@,
{
    let mut copy: Vec<usize> = Vec::new();
    let mut k: usize = 0;
    while k < path.len()
        invariant
            k <= path@.len(),
            copy@ == path@.take(k as int),
        decreases path@.len() - k,
    {
        copy.push(path[k]);
        k += 1;
        proof {
            assert(copy@ =~= path@.take(k as int));
        }
    }
    proof {
        assert(path@.take(path@.len() as int) =~= path@);
    }
    copy
}

/// What a search from `path` has added to `before`: Hamiltonian paths that
/// begin with `path`, and all of them; each of them once, if no list of
/// neighbours holds a vertex twice.
pub open spec fn adds_all_from(
    graph: Map<usize, Vec<usize>>,
    path: Seq<usize>,
    before: Seq<Vec<usize>>,
    after: Seq<Vec<usize>>,
) -> bool {
    &&& before.len() <= after.len()
    &&& forall|k: int| 0 <= k < before.len() ==> #[trigger] after[k] == before[k]
    &&& forall|k: int|
        before.len() <= k < after.len() ==> is_hamiltonian(graph, (#[trigger] after[k])@)
            && begins_with(after[k]@, path)
    &&& forall|h: Seq<usize>|
        is_hamiltonian(graph, h) && #[trigger] begins_with(h, path) ==> lists_path(after, h)
    &&& lists_once(graph) ==> distinct_from(after, before.len() as int)
}

/// Adds to `paths` every Hamiltonian path that begins with `path`, by
/// trying each neighbour of the last vertex in turn.  `path` is left as it
/// was.
pub fn backtrack(graph: &HashMap<usize, Vec<usize>>, path: &mut Vec<usize>, paths: &mut Vec<Vec<usize>>)
    requires
        lists_vertices_only(graph@),
        is_path(graph@, old(path)@),
    ensures
        final(path)@ == old(path)@,
        adds_all_from(graph@, old(path)@, old(paths)@, final(paths)@),
    decreases graph@.dom().len() - old(path)@.len(),
{
    broadcast use group_hash_axioms;

    let ghost start = path@;
    let ghost before = paths@;
    proof {
        lemma_path_fits(graph@, start);
    }
    if path.len() == graph.len() {
        let whole = copy_of(path);
        paths.push(whole);
        proof {
            let after = paths@;
            assert(after[before.len() as int]@ == start);
            assert(start.take(start.len() as int) =~= start);
            assert forall|h: Seq<usize>|
                is_hamiltonian(graph@, h) && #[trigger] begins_with(h, start) implies lists_path(
                after,
                h,
            ) by {
                assert(h.take(h.len() as int) =~= h);
            }
        }
        return ;
    }
    let current = path[path.len() - 1];
    match graph.get(&current) {
        Some(list) => {
            proof {
                assert(graph@.contains_key(start[start.len() - 1]));
                assert(*list == graph@[current]);
            }
            let mut k: usize = 0;
            while k < list.len()
                invariant
                    lists_vertices_only(graph@),
                    is_path(graph@, start),
                    start == old(path)@,
                    start.len() < graph@.dom().len(),
                    current == start[start.len() - 1],
                    graph@.contains_key(current),
                    *list == graph@[current],
                    k <= list@.len(),
                    path@ == start,
                    before.len() <= paths@.len(),
                    forall|j: int| 0 <= j < before.len() ==> #[trigger] paths@[j] == before[j],
                    forall|j: int|
                        before.len() <= j < paths@.len() ==> is_hamiltonian(
                            graph@,
                            (#[trigger] paths@[j])@,
                        ) && begins_with(paths@[j]@, start),
                    forall|h: Seq<usize>|
                        is_hamiltonian(graph@, h) && #[trigger] begins_with(h, start) && (exists|
                            j: int,
                        |
                            0 <= j < k && list@[j] == h[start.len() as int]) ==> lists_path(
                            paths@,
                            h,
                        ),
                    lists_once(graph@) ==> distinct_from(paths@, before.len() as int),
                    forall|idx: int|
                        before.len() <= idx < paths@.len() ==> exists|j: int|
                            0 <= j < k && list@[j] == (#[trigger] paths@[idx])@[start.len() as int],
                decreases list@.len() - k,
            {
                let v = list[k];
                let ghost earlier = paths@;
                if !visited(path, v) {
                    proof {
                        assert(list@.contains(v));
                        lemma_path_grows(graph@, start, v);
                    }
                    path.push(v);
                    backtrack(graph, path, paths);
                    path.pop();
                    proof {
                        assert(path@ =~= start);
                        let longer = start.push(v);
                        assert forall|idx: int|
                            before.len() <= idx < paths@.len() implies exists|j: int|
                            0 <= j < k + 1 && list@[j] == (#[trigger] paths@[idx])@[start.len() as int] by {
                            if idx < earlier.len() {
                                assert(paths@[idx] == earlier[idx]);
                                let j = choose|j: int|
                                    0 <= j < k && list@[j] == earlier[idx]@[start.len() as int];
                                assert(0 <= j < k + 1 && list@[j] == paths@[idx]@[start.len() as int]);
                            } else {
                                assert(begins_with(paths@[idx]@, longer));
                                assert(paths@[idx]@.take(longer.len() as int)[start.len() as int]
                                    == longer[start.len() as int]);
                                assert(list@[k as int] == paths@[idx]@[start.len() as int]);
                            }
                        }
                        if lists_once(graph@) {
                            assert(list@.no_duplicates());
                            assert forall|a: int, b: int|
                                before.len() <= a < b < paths@.len() implies (
                            #[trigger] paths@[a])@ != (#[trigger] paths@[b])@ by {
                                if b < earlier.len() {
                                    assert(paths@[a] == earlier[a]);
                                    assert(paths@[b] == earlier[b]);
                                } else if a >= earlier.len() {
                                } else {
                                    assert(paths@[a] == earlier[a]);
                                    let j = choose|j: int|
                                        0 <= j < k && list@[j] == earlier[a]@[start.len() as int];
                                    assert(list@[j] != list@[k as int]);
                                    assert(list@[k as int] == paths@[b]@[start.len() as int]);
                                }
                            }
                        }
                        assert forall|j: int| before.len() <= j < paths@.len() implies is_hamiltonian(
                            graph@,
                            (#[trigger] paths@[j])@,
                        ) && begins_with(paths@[j]@, start) by {
                            if j < earlier.len() {
                                assert(paths@[j] == earlier[j]);
                            } else {
                                assert(begins_with(paths@[j]@, longer));
                                assert(paths@[j]@.take(start.len() as int) =~= longer.take(
                                    start.len() as int,
                                ));
                                assert(longer.take(start.len() as int) =~= start);
                            }
                        }
                    }
                }
                proof {
                    let longer = start.push(v);
                    if paths@ == earlier {
                        assert forall|idx: int|
                            before.len() <= idx < paths@.len() implies exists|j: int|
                            0 <= j < k + 1 && list@[j] == (#[trigger] paths@[idx])@[start.len() as int] by {
                            let j = choose|j: int|
                                0 <= j < k && list@[j] == earlier[idx]@[start.len() as int];
                            assert(0 <= j < k + 1 && list@[j] == paths@[idx]@[start.len() as int]);
                        }
                    }
                    assert forall|h: Seq<usize>|
                        is_hamiltonian(graph@, h) && #[trigger] begins_with(h, start) && (exists|
                            j: int,
                        |
                            0 <= j < k + 1 && list@[j] == h[start.len() as int]) implies lists_path(
                        paths@,
                        h,
                    ) by {
                        let j = choose|j: int| 0 <= j < k + 1 && list@[j] == h[start.len() as int];
                        if j < k {
                            assert(lists_path(earlier, h));
                            let at = choose|at: int|
                                0 <= at < earlier.len() && (#[trigger] earlier[at])@ == h;
                            assert(paths@[at] == earlier[at]);
                        } else {
                            // the path goes on with `v`
                            if start.contains(v) {
                                let i = choose|i: int| 0 <= i < start.len() && start[i] == v;
                                assert(h.take(start.len() as int)[i] == h[i]);
                                assert(h[i] == h[start.len() as int]);
                            }
                            assert(h.take(longer.len() as int) =~= longer) by {
                                assert forall|i: int| 0 <= i < longer.len() implies h.take(
                                    longer.len() as int,
                                )[i] == longer[i] by {
                                    if i < start.len() {
                                        assert(h.take(start.len() as int)[i] == start[i]);
                                    }
                                }
                            }
                            assert(begins_with(h, longer));
                        }
                    }
                }
                k += 1;
            }
            proof {
                assert forall|h: Seq<usize>|
                    is_hamiltonian(graph@, h) && #[trigger] begins_with(h, start) implies lists_path(
                    paths@,
                    h,
                ) by {
                    let next = h[start.len() as int];
                    assert(h.take(start.len() as int)[start.len() - 1] == h[start.len() - 1]);
                    assert(graph@[h[start.len() - 1]]@.contains(h[start.len() - 1 + 1]));
                    assert(list@.contains(next));
                    let j = choose|j: int| 0 <= j < list@.len() && list@[j] == next;
                    assert(0 <= j < k && list@[j] == h[start.len() as int]);
                }
            }
        },
        None => {
            proof {
                assert(graph@.contains_key(start[start.len() - 1]));
            }
        },
    }
}

/// Returns every Hamiltonian path of the graph.  Each path is listed from
/// each of its ends, and the order of the paths is none in particular.
pub fn find_hamiltonians(graph: &HashMap<usize, Vec<usize>>) -> (paths: Vec<Vec<usize>>)
    requires
        lists_vertices_only(graph@),
    ensures
        forall|k: int| 0 <= k < paths@.len() ==> is_hamiltonian(graph@, (#[trigger] paths@[k])@),
        forall|h: Seq<usize>| #[trigger] is_hamiltonian(graph@, h) ==> lists_path(paths@, h),
        lists_once(graph@) ==> distinct_from(paths@, 0),
{
    broadcast use group_hash_axioms;
    broadcast use axiom_spec_keys_iter;

    let mut paths: Vec<Vec<usize>> = Vec::new();
    let ghost keys: Seq<usize> = graph.keys().remaining().unref();
    let ghost mut done: int = 0;
    for start in it: graph.keys()
        invariant
            lists_vertices_only(graph@),
            it.seq().unref() == keys,
            keys.to_set() == graph@.dom(),
            done == it.index(),
            0 <= done <= keys.len(),
            forall|k: int|
                0 <= k < paths@.len() ==> is_hamiltonian(graph@, (#[trigger] paths@[k])@),
            forall|h: Seq<usize>|
                #[trigger] is_hamiltonian(graph@, h) && (exists|j: int|
                    0 <= j < done && keys[j] == h[0]) ==> lists_path(paths@, h),
            keys.no_duplicates(),
            lists_once(graph@) ==> distinct_from(paths@, 0),
            forall|idx: int|
                0 <= idx < paths@.len() ==> exists|j: int|
                    0 <= j < done && keys[j] == (#[trigger] paths@[idx])@[0],
    {
        let mut path: Vec<usize> = Vec::new();
        path.push(*start);
        let ghost earlier = paths@;
        let ghost first = path@;
        proof {
            assert(keys[done] == *start);
            assert(keys.to_set().contains(*start));
            assert(graph@.contains_key(*start));
            assert(is_path(graph@, first));
        }
        backtrack(graph, &mut path, &mut paths);
        proof {
            assert forall|idx: int| 0 <= idx < paths@.len() implies exists|j: int|
                0 <= j < done + 1 && keys[j] == (#[trigger] paths@[idx])@[0] by {
                if idx < earlier.len() {
                    assert(paths@[idx] == earlier[idx]);
                    let j = choose|j: int| 0 <= j < done && keys[j] == earlier[idx]@[0];
                    assert(0 <= j < done + 1 && keys[j] == paths@[idx]@[0]);
                } else {
                    assert(begins_with(paths@[idx]@, first));
                    assert(paths@[idx]@.take(1)[0] == first[0]);
                    assert(keys[done] == paths@[idx]@[0]);
                }
            }
            if lists_once(graph@) {
                assert forall|a: int, b: int| 0 <= a < b < paths@.len() implies (
                #[trigger] paths@[a])@ != (#[trigger] paths@[b])@ by {
                    if b < earlier.len() {
                        assert(paths@[a] == earlier[a]);
                        assert(paths@[b] == earlier[b]);
                    } else if a >= earlier.len() {
                    } else {
                        assert(paths@[a] == earlier[a]);
                        let j = choose|j: int| 0 <= j < done && keys[j] == earlier[a]@[0];
                        assert(keys[j] != keys[done]);
                        assert(begins_with(paths@[b]@, first));
                        assert(paths@[b]@.take(1)[0] == first[0]);
                    }
                }
            }
            assert forall|k: int| 0 <= k < paths@.len() implies is_hamiltonian(
                graph@,
                (#[trigger] paths@[k])@,
            ) by {
                if k < earlier.len() {
                    assert(paths@[k] == earlier[k]);
                }
            }
            assert forall|h: Seq<usize>|
                #[trigger] is_hamiltonian(graph@, h) && (exists|j: int|
                    0 <= j < done + 1 && keys[j] == h[0]) implies lists_path(paths@, h) by {
                let j = choose|j: int| 0 <= j < done + 1 && keys[j] == h[0];
                if j < done {
                    assert(lists_path(earlier, h));
                    let at = choose|at: int|
                        0 <= at < earlier.len() && (#[trigger] earlier[at])@ == h;
                    assert(paths@[at] == earlier[at]);
                } else {
                    assert(h.take(1) =~= first);
                    assert(begins_with(h, first));
                }
            }
            done = done + 1;
        }
    }
    proof {
        assert(done == keys.len());
        assert forall|h: Seq<usize>| #[trigger] is_hamiltonian(graph@, h) implies lists_path(
            paths@,
            h,
        ) by {
            assert(graph@.contains_key(h[0]));
            assert(keys.to_set().contains(h[0]));
            let j = choose|j: int| 0 <= j < keys.len() && keys[j] == h[0];
            assert(0 <= j < done && keys[j] == h[0]);
        }
    }
    paths
}

} // verus!

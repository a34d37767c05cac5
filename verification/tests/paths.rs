use spanning_forest::path_search::hamiltonian::{backtrack, find_hamiltonians, visited};
use std::collections::HashMap;

fn build_graph(edges: &[(usize, usize)], directed: bool) -> HashMap<usize, Vec<usize>> {
    let mut graph: HashMap<usize, Vec<usize>> = HashMap::new();
    for (u, v) in edges {
        graph.entry(*u).or_insert(vec![]).push(*v);
        if !directed {
            // also get the reverse direction (we're undirected)
            graph.entry(*v).or_insert(vec![]).push(*u);
        }
    }
    graph
}

#[test]
fn find_paths_sm() {
    // this graph is connected but not complete
    let edges = vec![(1, 2), (2, 3), (2, 4), (3, 4)];
    let graph = build_graph(&edges, false);
    let mut output = find_hamiltonians(&graph);
    output.sort_unstable_by(|a, b| a.cmp(&b));
    let expected = [[1, 2, 3, 4], [1, 2, 4, 3], [3, 4, 2, 1], [4, 3, 2, 1]];
    assert_eq!(output, expected);
}

#[test]
fn find_paths() {
    // this graph is complete
    let edges = vec![(1, 2), (1, 3), (1, 4), (2, 3), (2, 4), (3, 4)];
    let graph = build_graph(&edges, false);
    let mut output = find_hamiltonians(&graph);
    output.sort_unstable_by(|a, b| a.cmp(&b));
    let expected = [
        [1, 2, 3, 4],
        [1, 2, 4, 3],
        [1, 3, 2, 4],
        [1, 3, 4, 2],
        [1, 4, 2, 3],
        [1, 4, 3, 2],
        [2, 1, 3, 4],
        [2, 1, 4, 3],
        [2, 3, 1, 4],
        [2, 3, 4, 1],
        [2, 4, 1, 3],
        [2, 4, 3, 1],
        [3, 1, 2, 4],
        [3, 1, 4, 2],
        [3, 2, 1, 4],
        [3, 2, 4, 1],
        [3, 4, 1, 2],
        [3, 4, 2, 1],
        [4, 1, 2, 3],
        [4, 1, 3, 2],
        [4, 2, 1, 3],
        [4, 2, 3, 1],
        [4, 3, 1, 2],
        [4, 3, 2, 1],
    ];
    assert_eq!(output, expected);
}

#[test]
fn graph_without_vertices_has_no_path() {
    let graph: HashMap<usize, Vec<usize>> = HashMap::new();
    assert!(find_hamiltonians(&graph).is_empty());
}

#[test]
fn single_vertex_is_its_own_path() {
    let mut graph: HashMap<usize, Vec<usize>> = HashMap::new();
    graph.insert(7, vec![]);
    assert_eq!(find_hamiltonians(&graph), vec![vec![7]]);
}

#[test]
fn graph_in_two_parts_has_no_path() {
    let graph = build_graph(&[(1, 2), (3, 4)], false);
    assert!(find_hamiltonians(&graph).is_empty());
}

#[test]
fn directed_chain_has_one_path() {
    let mut graph = build_graph(&[(1, 2), (2, 3)], true);
    graph.insert(3, vec![]);
    assert_eq!(find_hamiltonians(&graph), vec![vec![1, 2, 3]]);
}

#[test]
fn backtrack_extends_the_given_path() {
    let graph = build_graph(&[(1, 2), (2, 3), (2, 4), (3, 4)], false);
    let mut path = vec![1, 2];
    let mut paths = vec![vec![9]];
    backtrack(&graph, &mut path, &mut paths);
    assert_eq!(path, vec![1, 2]);
    assert_eq!(paths, vec![vec![9], vec![1, 2, 3, 4], vec![1, 2, 4, 3]]);
}

#[test]
fn visited_tells_what_the_path_holds() {
    let path = vec![3, 1, 2];
    assert!(visited(&path, 1));
    assert!(visited(&path, 3));
    assert!(!visited(&path, 4));
    assert!(!visited(&vec![], 0));
}

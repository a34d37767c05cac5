use spanning_forest::error::MsfError;
use spanning_forest::graph::{Graph, Neighbor};
use spanning_forest::min_spanning_tree::{boruvka, build_mst, kruskal, prim, Strategy};
use spanning_forest::union_find::DisjointSet;
use spanning_forest::weight::{weight_is_finite, weight_less};

fn w(x: f32) -> u32 {
    x.to_bits()
}

fn classic_edges(shift: usize) -> Vec<(usize, usize, u32)> {
    vec![
        (shift, shift + 1, w(7.)),
        (shift, shift + 3, w(5.)),
        (shift + 1, shift + 2, w(8.)),
        (shift + 1, shift + 3, w(9.)),
        (shift + 1, shift + 4, w(7.)),
        (shift + 2, shift + 4, w(5.)),
        (shift + 3, shift + 4, w(15.)),
        (shift + 3, shift + 5, w(6.)),
        (shift + 4, shift + 5, w(8.)),
        (shift + 4, shift + 6, w(9.)),
        (shift + 5, shift + 6, w(11.)),
    ]
}

fn classic_graph() -> Graph {
    Graph::new(7, classic_edges(0))
}

fn two_component_graph() -> Graph {
    let mut edges = classic_edges(0);
    edges.extend(classic_edges(7));
    Graph::new(14, edges)
}

fn classic_forest() -> Vec<(usize, usize)> {
    vec![(0, 1), (0, 3), (1, 4), (2, 4), (3, 5), (4, 6)]
}

fn two_component_forest() -> Vec<(usize, usize)> {
    vec![
        (0, 1),
        (0, 3),
        (1, 4),
        (2, 4),
        (3, 5),
        (4, 6),
        (7, 8),
        (7, 10),
        (8, 11),
        (9, 11),
        (10, 12),
        (11, 13),
    ]
}

fn sorted(mut forest: Vec<(usize, usize)>) -> Vec<(usize, usize)> {
    forest.sort_by_key(|e| (e.0, e.1));
    forest
}

/// The weight of a forest, looked up edge by edge in a graph without
/// parallel edges.
fn weight_of(graph: &Graph, forest: &[(usize, usize)]) -> f32 {
    let mut total = 0f32;
    for pair in forest {
        let edge = graph
            .edges
            .iter()
            .find(|e| (e.0, e.1) == *pair)
            .expect("a forest edge is an edge of the graph");
        total += f32::from_bits(edge.2);
    }
    total
}

/// How many components the graph has, and whether the forest is free of
/// cycles, both found with a fresh disjoint-set structure.
fn components_and_acyclic(graph: &Graph, forest: &[(usize, usize)]) -> (usize, bool) {
    let mut all = DisjointSet::new();
    all.make_set(graph.vertex_count);
    let mut components = graph.vertex_count;
    for edge in &graph.edges {
        if all.union(edge.0, edge.1).unwrap() {
            components -= 1;
        }
    }
    let mut trees = DisjointSet::new();
    trees.make_set(graph.vertex_count);
    let mut acyclic = true;
    for pair in forest {
        if !trees.union(pair.0, pair.1).unwrap() {
            acyclic = false;
        }
    }
    (components, acyclic)
}

#[test]
fn boruvkas() {
    let graph = classic_graph();
    let mst = sorted(boruvka::build_mst(&graph).unwrap());
    let expected_mst = [(0, 1), (0, 3), (1, 4), (2, 4), (3, 5), (4, 6)];
    assert_eq!(mst, expected_mst);
}

#[test]
fn boruvkas_disconnected() {
    let graph = two_component_graph();
    let mst = sorted(boruvka::build_mst(&graph).unwrap());
    assert_eq!(mst, two_component_forest());
}

#[test]
fn adjacency_list_kruskals() {
    let graph = classic_graph();
    let mst = sorted(kruskal::build_mst(&graph).unwrap());
    let expected_mst = [(0, 1), (0, 3), (1, 4), (2, 4), (3, 5), (4, 6)];
    assert_eq!(mst, expected_mst);
}

#[test]
fn edge_list_iterative_kruskals() {
    let graph = classic_graph();
    let mst = sorted(build_mst(&graph, Strategy::Kruskal).unwrap());
    let expected_mst = [(0, 1), (0, 3), (1, 4), (2, 4), (3, 5), (4, 6)];
    assert_eq!(mst, expected_mst);
}

#[test]
fn linked_nodes_kruskals() {
    let graph = classic_graph();
    let ids = kruskal::select_edges(&graph).unwrap();
    let mst = sorted(graph.endpoints_of(&ids));
    let expected_mst = [(0, 1), (0, 3), (1, 4), (2, 4), (3, 5), (4, 6)];
    assert_eq!(mst, expected_mst);
}

#[test]
fn revisit_elist_recurse_kruskals() {
    let graph = classic_graph();
    let mst = sorted(kruskal::build_mst(&graph).unwrap());
    let expected_mst = [(0, 1), (0, 3), (1, 4), (2, 4), (3, 5), (4, 6)];
    assert_eq!(mst, expected_mst);
}

#[test]
fn revisit_elist_recurse_kruskals_disconnected() {
    let graph = two_component_graph();
    let mst = sorted(kruskal::build_mst(&graph).unwrap());
    assert_eq!(mst, two_component_forest());
}

#[test]
fn first_kruskals() {
    let graph = classic_graph();
    let mst = sorted(kruskal::build_mst(&graph).unwrap());
    let expected_mst = [(0, 1), (0, 3), (1, 4), (2, 4), (3, 5), (4, 6)];
    assert_eq!(mst, expected_mst);
}

#[test]
fn first_kruskals_disconnected() {
    let graph = two_component_graph();
    let mst = sorted(kruskal::build_mst(&graph).unwrap());
    assert_eq!(mst, two_component_forest());
}

#[test]
fn second_kruskals() {
    let graph = classic_graph();
    let mst = sorted(kruskal::build_mst(&graph).unwrap());
    let expected_mst = [(0, 1), (0, 3), (1, 4), (2, 4), (3, 5), (4, 6)];
    assert_eq!(mst, expected_mst);
}

#[test]
fn second_kruskals_disconnected() {
    let graph = two_component_graph();
    let mst = sorted(kruskal::build_mst(&graph).unwrap());
    assert_eq!(mst, two_component_forest());
}

#[test]
fn kruskal_returns_edges_lightest_first() {
    let graph = classic_graph();
    let mst = kruskal::build_mst(&graph).unwrap();
    // 5 5 6 7 7 9, equal weights in the order of the edge list
    assert_eq!(mst, vec![(0, 3), (2, 4), (3, 5), (0, 1), (1, 4), (4, 6)]);
    assert_eq!(kruskal::select_edges(&graph).unwrap(), vec![1, 5, 7, 0, 4, 9]);
}

#[test]
fn kruskal_edge_order_is_stable() {
    let graph = classic_graph();
    assert_eq!(kruskal::edge_order(&graph), vec![1, 5, 7, 0, 4, 2, 8, 3, 9, 10, 6]);
}

#[test]
fn kruskal_runs_agree() {
    let graph = two_component_graph();
    assert_eq!(kruskal::build_mst(&graph).unwrap(), kruskal::build_mst(&graph).unwrap());
}

#[test]
fn prim_classic_forest_weighs_39() {
    let graph = classic_graph();
    let forest = prim::build_mst(&graph).unwrap();
    // grown from vertex 0, cheapest frontier edge first
    assert_eq!(forest, vec![(0, 3), (3, 5), (0, 1), (1, 4), (2, 4), (4, 6)]);
    assert_eq!(weight_of(&graph, &forest), 39.);
    assert_eq!(sorted(forest), classic_forest());
}

#[test]
fn prim_disconnected() {
    let graph = two_component_graph();
    let forest = sorted(prim::build_mst(&graph).unwrap());
    assert_eq!(forest, two_component_forest());
}

#[test]
fn classic_forest_weights() {
    let graph = classic_graph();
    for strategy in [Strategy::Kruskal, Strategy::Prim, Strategy::Boruvka] {
        let forest = build_mst(&graph, strategy).unwrap();
        assert_eq!(weight_of(&graph, &forest), 39.);
    }
}

#[test]
fn disconnected_forest_has_no_crossing_edge() {
    let graph = two_component_graph();
    for strategy in [Strategy::Kruskal, Strategy::Prim, Strategy::Boruvka] {
        let forest = build_mst(&graph, strategy).unwrap();
        assert_eq!(forest.len(), 12);
        assert_eq!(forest.iter().filter(|e| e.0 < 7 && e.1 < 7).count(), 6);
        assert_eq!(forest.iter().filter(|e| e.0 >= 7 && e.1 >= 7).count(), 6);
    }
}

fn tangled_graph() -> Graph {
    // ties, parallel edges, a loop, negative weights and an isolated vertex
    Graph::new(
        9,
        vec![
            (0, 1, w(2.)),
            (1, 0, w(1.5)),
            (1, 2, w(2.)),
            (2, 0, w(2.)),
            (2, 2, w(-7.)),
            (3, 4, w(-1.)),
            (4, 5, w(-1.)),
            (5, 3, w(-1.)),
            (5, 6, w(0.)),
            (6, 7, w(-0.)),
            (7, 5, w(0.25)),
            (3, 6, w(1e-40)),
        ],
    )
}

fn weight_by_ids(graph: &Graph, ids: &[usize]) -> f32 {
    ids.iter().map(|&i| f32::from_bits(graph.edges[i].2)).sum()
}

#[test]
fn builders_agree_on_weight() {
    let graph = tangled_graph();
    let by_kruskal = kruskal::select_edges(&graph).unwrap();
    let by_prim = prim::select_edges(&graph).unwrap();
    let by_boruvka = boruvka::select_edges(&graph).unwrap();
    // 1.5 + 2 in the first component, -1 - 1 + 0 - 0 in the second; the loop
    // and the heavier of two parallel edges stay out
    assert_eq!(weight_by_ids(&graph, &by_kruskal), 1.5);
    assert_eq!(weight_by_ids(&graph, &by_prim), 1.5);
    assert_eq!(weight_by_ids(&graph, &by_boruvka), 1.5);
    assert_eq!(by_kruskal, vec![5, 6, 8, 9, 1, 2]);
}

#[test]
fn edge_count_is_vertices_less_components() {
    for graph in [classic_graph(), two_component_graph(), tangled_graph()] {
        for strategy in [Strategy::Kruskal, Strategy::Prim, Strategy::Boruvka] {
            let forest = build_mst(&graph, strategy).unwrap();
            let (components, _) = components_and_acyclic(&graph, &forest);
            assert_eq!(forest.len(), graph.vertex_count - components);
        }
    }
    let (components, _) = components_and_acyclic(&tangled_graph(), &[]);
    assert_eq!(components, 3);
}

#[test]
fn forests_have_no_cycle() {
    for graph in [classic_graph(), two_component_graph(), tangled_graph()] {
        for strategy in [Strategy::Kruskal, Strategy::Prim, Strategy::Boruvka] {
            let forest = build_mst(&graph, strategy).unwrap();
            let (_, acyclic) = components_and_acyclic(&graph, &forest);
            assert!(acyclic);
        }
    }
}

#[test]
fn forests_reach_every_vertex_with_company() {
    let graph = tangled_graph();
    for strategy in [Strategy::Kruskal, Strategy::Prim, Strategy::Boruvka] {
        let forest = build_mst(&graph, strategy).unwrap();
        for v in 0..8 {
            assert!(forest.iter().any(|e| e.0 == v || e.1 == v));
        }
        // vertex 8 is alone
        assert!(!forest.iter().any(|e| e.0 == 8 || e.1 == 8));
    }
}

#[test]
fn single_vertex_gives_empty_forest() {
    let graph = Graph::new(1, vec![]);
    for strategy in [Strategy::Kruskal, Strategy::Prim, Strategy::Boruvka] {
        assert_eq!(build_mst(&graph, strategy), Ok(vec![]));
    }
}

#[test]
fn no_vertex_gives_empty_forest() {
    let graph = Graph::new(0, vec![]);
    for strategy in [Strategy::Kruskal, Strategy::Prim, Strategy::Boruvka] {
        assert_eq!(build_mst(&graph, strategy), Ok(vec![]));
    }
}

#[test]
fn no_edge_gives_empty_forest() {
    let graph = Graph::new(5, vec![]);
    for strategy in [Strategy::Kruskal, Strategy::Prim, Strategy::Boruvka] {
        assert_eq!(build_mst(&graph, strategy), Ok(vec![]));
    }
}

#[test]
fn endpoint_out_of_range_is_rejected() {
    let graph = Graph::new(3, vec![(0, 1, w(1.)), (1, 3, w(1.))]);
    assert_eq!(graph.validate(), Err(MsfError::InvalidIndex));
    for strategy in [Strategy::Kruskal, Strategy::Prim, Strategy::Boruvka] {
        assert_eq!(build_mst(&graph, strategy), Err(MsfError::InvalidIndex));
    }
    let no_vertex = Graph::new(0, vec![(0, 0, w(1.))]);
    assert_eq!(kruskal::select_edges(&no_vertex), Err(MsfError::InvalidIndex));
}

#[test]
fn weight_that_is_no_number_is_rejected() {
    for bad in [f32::NAN, f32::INFINITY, f32::NEG_INFINITY] {
        let graph = Graph::new(3, vec![(0, 1, w(1.)), (1, 2, w(bad))]);
        assert_eq!(graph.validate(), Err(MsfError::InvalidWeight));
        for strategy in [Strategy::Kruskal, Strategy::Prim, Strategy::Boruvka] {
            assert_eq!(build_mst(&graph, strategy), Err(MsfError::InvalidWeight));
        }
    }
}

#[test]
fn index_error_comes_before_weight_error() {
    let graph = Graph::new(2, vec![(0, 1, w(f32::NAN)), (0, 2, w(1.))]);
    assert_eq!(graph.validate(), Err(MsfError::InvalidIndex));
    assert_eq!(prim::build_mst(&graph), Err(MsfError::InvalidIndex));
}

#[test]
fn valid_graph_passes_validation() {
    assert_eq!(classic_graph().validate(), Ok(()));
    assert_eq!(tangled_graph().validate(), Ok(()));
}

#[test]
fn error_messages() {
    assert_eq!(MsfError::InvalidIndex.message(), "vertex index out of range");
    assert_eq!(MsfError::InvalidWeight.message(), "weight is not finite");
}

#[test]
fn adjacency_lists_every_edge_twice() {
    let graph = Graph::new(3, vec![(0, 1, w(1.)), (2, 1, w(2.))]);
    let adj = graph.adjacency();
    assert_eq!(adj.len(), 3);
    assert_eq!(adj[0], vec![Neighbor { vertex: 1, weight: w(1.), edge: 0 }]);
    assert_eq!(
        adj[1],
        vec![
            Neighbor { vertex: 0, weight: w(1.), edge: 0 },
            Neighbor { vertex: 2, weight: w(2.), edge: 1 },
        ]
    );
    assert_eq!(adj[2], vec![Neighbor { vertex: 1, weight: w(2.), edge: 1 }]);
}

#[test]
fn frontier_search_finds_lightest_edge() {
    let graph = classic_graph();
    let adj = graph.adjacency();
    let mut visited = vec![false; 7];
    assert_eq!(prim::lightest_frontier_edge(&graph, &adj, &visited), None);
    visited[0] = true;
    assert_eq!(prim::lightest_frontier_edge(&graph, &adj, &visited), Some(1));
    visited[3] = true;
    assert_eq!(prim::lightest_frontier_edge(&graph, &adj, &visited), Some(7));
    let all = vec![true; 7];
    assert_eq!(prim::lightest_frontier_edge(&graph, &adj, &all), None);
}

#[test]
fn weights_compare_as_numbers() {
    assert!(weight_less(w(1.), w(2.)));
    assert!(!weight_less(w(2.), w(1.)));
    assert!(!weight_less(w(2.), w(2.)));
    assert!(weight_less(w(-2.), w(-1.)));
    assert!(weight_less(w(-1.), w(0.)));
    assert!(weight_less(w(-1e-45), w(1e-45)));
    assert!(!weight_less(w(-0.), w(0.)));
    assert!(!weight_less(w(0.), w(-0.)));
    assert!(weight_less(w(1e-45), w(f32::MIN_POSITIVE)));
    assert!(weight_less(w(f32::MIN), w(f32::MAX)));
    assert!(weight_less(w(16777216.), w(16777218.)));
}

#[test]
fn finite_weights_are_told_apart() {
    assert!(weight_is_finite(w(0.)));
    assert!(weight_is_finite(w(-3.5)));
    assert!(weight_is_finite(w(f32::MAX)));
    assert!(weight_is_finite(w(1e-45)));
    assert!(!weight_is_finite(w(f32::INFINITY)));
    assert!(!weight_is_finite(w(f32::NEG_INFINITY)));
    assert!(!weight_is_finite(w(f32::NAN)));
    assert!(!weight_is_finite(0x7f80_0001));
}

#[test]
fn disjoint_set_starts_with_singletons() {
    let mut ds = DisjointSet::new();
    assert_eq!(ds.len(), 0);
    assert_eq!(ds.find(0), Err(MsfError::InvalidIndex));
    ds.make_set(4);
    assert_eq!(ds.len(), 4);
    for v in 0..4 {
        assert_eq!(ds.find(v), Ok(v));
    }
    assert_eq!(ds.find(4), Err(MsfError::InvalidIndex));
}

#[test]
fn disjoint_set_get_idx() {
    let mut ds = DisjointSet::new();
    ds.make_set(3);
    assert_eq!(ds.get_idx(0), Some(0));
    assert_eq!(ds.get_idx(2), Some(2));
    assert_eq!(ds.get_idx(3), None);
}

#[test]
fn disjoint_set_union_by_rank() {
    let mut ds = DisjointSet::new();
    ds.make_set(6);
    // equal ranks: the root of the second goes below the root of the first
    assert_eq!(ds.union(0, 1), Ok(true));
    assert_eq!(ds.find(1), Ok(0));
    assert_eq!(ds.union(2, 3), Ok(true));
    assert_eq!(ds.find(3), Ok(2));
    // a set of rank 0 goes below a set of rank 1, whichever comes first
    assert_eq!(ds.union(4, 1), Ok(true));
    assert_eq!(ds.find(4), Ok(0));
    assert_eq!(ds.union(3, 1), Ok(true));
    assert_eq!(ds.find(0), Ok(2));
    assert_eq!(ds.find(4), Ok(2));
    // already one set
    assert_eq!(ds.union(0, 3), Ok(false));
    assert_eq!(ds.union(5, 5), Ok(false));
    assert_eq!(ds.find(5), Ok(5));
}

#[test]
fn disjoint_set_rejects_unknown_vertex() {
    let mut ds = DisjointSet::new();
    ds.make_set(2);
    assert_eq!(ds.union(0, 2), Err(MsfError::InvalidIndex));
    assert_eq!(ds.union(2, 0), Err(MsfError::InvalidIndex));
    assert_eq!(ds.union(0, 1), Ok(true));
}

#[test]
fn disjoint_set_make_set_starts_over() {
    let mut ds = DisjointSet::new();
    ds.make_set(3);
    assert_eq!(ds.union(0, 2), Ok(true));
    ds.make_set(2);
    assert_eq!(ds.len(), 2);
    assert_eq!(ds.find(0), Ok(0));
    assert_eq!(ds.find(1), Ok(1));
    assert_eq!(ds.find(2), Err(MsfError::InvalidIndex));
}

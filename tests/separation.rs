use degree_separation::analysis::analyze_by_degrees_of_separation;
use degree_separation::graph::{build_weighted_graph, create_adjacency_list, AdjacencyList, WeightedGraph};
use degree_separation::search::bounded_search;
use degree_separation::selection::{choose_important, find_detailed_important_nodes_by_degree};
use degree_separation::stats::{compare_average, stat_for_degree, DegreeStat};

fn average(s: &DegreeStat) -> f64 {
    if s.reachable_count == 0 {
        0.0
    } else {
        s.total_distance as f64 / s.reachable_count as f64
    }
}

fn as_pairs(table: &Vec<Vec<DegreeStat>>) -> Vec<Vec<(usize, f64)>> {
    table.iter().map(|row| row.iter().map(|s| (s.reachable_count, average(s))).collect()).collect()
}

fn from_pairs(table: &Vec<Vec<(usize, f64)>>) -> Vec<Vec<DegreeStat>> {
    table
        .iter()
        .map(|row| {
            row.iter()
                .map(|&(c, a)| DegreeStat { reachable_count: c, total_distance: (c as f64 * a) as u128 })
                .collect()
        })
        .collect()
}

fn profiles_as_pairs(out: &Vec<Option<(usize, Vec<DegreeStat>)>>) -> Vec<Option<(usize, Vec<(usize, f64)>)>> {
    out.iter()
        .map(|o| o.as_ref().map(|(i, p)| (*i, p.iter().map(|s| (s.reachable_count, average(s))).collect())))
        .collect()
}

fn stat(c: usize, t: u128) -> DegreeStat {
    DegreeStat { reachable_count: c, total_distance: t }
}

fn star_plus_chain() -> AdjacencyList {
    let mut adjacency_list: AdjacencyList = vec![Vec::new(); 7];
    adjacency_list[0] = vec![(1, 1), (2, 1), (3, 1), (4, 1), (5, 1), (6, 1)];
    adjacency_list[1] = vec![(2, 5)];
    adjacency_list[2] = vec![(3, 5), (4, 5)];
    adjacency_list[3] = vec![(4, 5), (5, 5)];
    adjacency_list[4] = vec![(5, 5), (6, 5)];
    adjacency_list[5] = vec![(6, 5)];
    for i in 0..adjacency_list.len() {
        let current_edges = adjacency_list[i].clone();
        for &(j, w) in &current_edges {
            adjacency_list[j].push((i, w));
        }
    }
    adjacency_list
}

fn star_plus_chain_table() -> Vec<Vec<(usize, f64)>> {
    vec![
        vec![(6, 1.0), (1, 1.0), (1, 1.0), (1, 1.0), (1, 1.0), (1, 1.0), (1, 1.0)],
        vec![(0, 0.0), (5, 2.0), (5, 2.0), (5, 2.0), (5, 2.0), (5, 2.0), (5, 2.0)],
        vec![(0, 0.0), (0, 0.0), (0, 0.0), (0, 0.0), (0, 0.0), (0, 0.0), (0, 0.0)],
        vec![(0, 0.0), (0, 0.0), (0, 0.0), (0, 0.0), (0, 0.0), (0, 0.0), (0, 0.0)],
        vec![(0, 0.0), (0, 0.0), (0, 0.0), (0, 0.0), (0, 0.0), (0, 0.0), (0, 0.0)],
        vec![(0, 0.0), (0, 0.0), (0, 0.0), (0, 0.0), (0, 0.0), (0, 0.0), (0, 0.0)],
    ]
}

#[test]
fn test_analyze_by_degrees_of_separation() {
    let adjacency_list = star_plus_chain();
    let results = analyze_by_degrees_of_separation(&adjacency_list, 6);
    let expected_results = star_plus_chain_table();
    assert_eq!(as_pairs(&results), expected_results);
}

#[test]
fn test_find_detailed_important_nodes_by_degree() {
    let mock_results = from_pairs(&star_plus_chain_table());
    let expected = vec![
        Some((0, vec![(6, 1.0), (0, 0.0), (0, 0.0), (0, 0.0), (0, 0.0), (0, 0.0)])),
        Some((1, vec![(1, 1.0), (5, 2.0), (0, 0.0), (0, 0.0), (0, 0.0), (0, 0.0)])),
        None,
        None,
        None,
        None,
    ];
    let important_nodes = find_detailed_important_nodes_by_degree(&mock_results);
    assert_eq!(profiles_as_pairs(&important_nodes), expected);
}

#[test]
fn star_plus_chain_from_edge_list() {
    let undirected = vec![
        (0, 1, 1), (0, 2, 1), (0, 3, 1), (0, 4, 1), (0, 5, 1), (0, 6, 1),
        (1, 2, 5), (2, 3, 5), (2, 4, 5), (3, 4, 5), (3, 5, 5), (4, 5, 5), (4, 6, 5), (5, 6, 5),
    ];
    let graph = build_weighted_graph(&undirected);
    assert_eq!(graph.n, 7);
    let adjacency_list = create_adjacency_list(&graph);
    let results = analyze_by_degrees_of_separation(&adjacency_list, 6);
    assert_eq!(as_pairs(&results), star_plus_chain_table());
    let important = find_detailed_important_nodes_by_degree(&results);
    assert_eq!(important[0].as_ref().map(|p| p.0), Some(0));
    assert_eq!(important[1].as_ref().map(|p| p.0), Some(1));
    assert!(important[2..].iter().all(|p| p.is_none()));
}

#[test]
fn repeated_runs_give_identical_results() {
    let adjacency_list = star_plus_chain();
    let first = analyze_by_degrees_of_separation(&adjacency_list, 6);
    let second = analyze_by_degrees_of_separation(&adjacency_list, 6);
    assert_eq!(first, second);
    assert_eq!(
        find_detailed_important_nodes_by_degree(&first),
        find_detailed_important_nodes_by_degree(&second)
    );
}

#[test]
fn counts_bounded_and_empty_entries_sum_to_zero() {
    let undirected = vec![(0, 1, 3), (1, 2, 4), (2, 3, 1), (3, 0, 9), (1, 3, 2), (4, 5, 7)];
    let graph = build_weighted_graph(&undirected);
    let adjacency_list = create_adjacency_list(&graph);
    let results = analyze_by_degrees_of_separation(&adjacency_list, 4);
    assert_eq!(results.len(), 4);
    for row in &results {
        assert_eq!(row.len(), graph.n);
        for s in row {
            assert!(s.reachable_count <= graph.n - 1);
            if s.reachable_count == 0 {
                assert_eq!(s.total_distance, 0);
            }
        }
    }
    for p in find_detailed_important_nodes_by_degree(&results).iter().enumerate() {
        if let (k, Some((_, profile))) = p {
            assert!(profile[k].reachable_count > 0);
        }
    }
}

#[test]
fn hop_count_follows_shortest_distance() {
    // 0-1 directly costs 10, through 2 it costs 2 in two hops.
    let graph = build_weighted_graph(&vec![(0, 1, 10), (0, 2, 1), (2, 1, 1)]);
    let adjacency_list = create_adjacency_list(&graph);
    let (dist, hops) = bounded_search(&adjacency_list, 0, 2);
    assert_eq!(dist, vec![Some(0), Some(2), Some(1)]);
    assert_eq!(hops, vec![Some(0), Some(2), Some(1)]);
    let (dist, hops) = bounded_search(&adjacency_list, 0, 1);
    assert_eq!(dist, vec![Some(0), Some(10), Some(1)]);
    assert_eq!(hops, vec![Some(0), Some(1), Some(1)]);
}

#[test]
fn unreachable_vertices_stay_unrecorded() {
    let graph = build_weighted_graph(&vec![(0, 1, 2), (2, 3, 2)]);
    let adjacency_list = create_adjacency_list(&graph);
    let (dist, hops) = bounded_search(&adjacency_list, 0, 3);
    assert_eq!(dist, vec![Some(0), Some(2), None, None]);
    assert_eq!(hops, vec![Some(0), Some(1), None, None]);
    let (dist, hops) = bounded_search(&adjacency_list, 0, 0);
    assert_eq!(dist, vec![Some(0), None, None, None]);
    assert_eq!(hops, vec![Some(0), None, None, None]);
}

#[test]
fn zero_max_degree_gives_empty_results() {
    let adjacency_list = star_plus_chain();
    let results = analyze_by_degrees_of_separation(&adjacency_list, 0);
    assert!(results.is_empty());
    assert!(find_detailed_important_nodes_by_degree(&results).is_empty());
}

#[test]
fn empty_graph_gives_empty_rows_and_no_important_node() {
    let adjacency_list: AdjacencyList = Vec::new();
    let results = analyze_by_degrees_of_separation(&adjacency_list, 3);
    assert_eq!(results, vec![Vec::<DegreeStat>::new(); 3]);
    assert_eq!(find_detailed_important_nodes_by_degree(&results), vec![None, None, None]);
    assert_eq!(choose_important(&Vec::new()), None);
}

#[test]
fn single_vertex_graph_has_no_important_node() {
    let graph = build_weighted_graph(&Vec::new());
    assert_eq!(graph.n, 1);
    assert!(graph.edges.is_empty());
    let adjacency_list = create_adjacency_list(&graph);
    let results = analyze_by_degrees_of_separation(&adjacency_list, 2);
    assert_eq!(results, vec![vec![stat(0, 0)], vec![stat(0, 0)]]);
    assert_eq!(find_detailed_important_nodes_by_degree(&results), vec![None, None]);
}

#[test]
fn selector_prefers_shorter_average_within_the_top_tenth() {
    // Eleven entries: the top two by reach are (5, avg 10) and (4, avg 1);
    // the second wins on average distance.
    let mut row = vec![stat(5, 50), stat(4, 4)];
    for _ in 0..9 {
        row.push(stat(1, 100));
    }
    assert_eq!(choose_important(&row), Some(1));
    // With ten entries only the best-ranked one is a candidate.
    row.pop();
    assert_eq!(choose_important(&row), Some(0));
}

#[test]
fn selector_reports_first_of_equal_entries() {
    let row = vec![stat(1, 7), stat(3, 6), stat(3, 6), stat(2, 1)];
    assert_eq!(choose_important(&row), Some(1));
    let out = find_detailed_important_nodes_by_degree(&vec![row.clone(), vec![stat(0, 0); 4]]);
    assert_eq!(out[0], Some((1, vec![stat(3, 6), stat(0, 0)])));
    assert_eq!(out[1], None);
}

#[test]
fn selector_breaks_equal_average_by_reach() {
    // Both candidates average 2; the one that reaches more is chosen.
    let row = vec![stat(2, 4), stat(3, 6)];
    assert_eq!(choose_important(&row), Some(1));
}

#[test]
fn compare_average_is_exact() {
    assert!(compare_average(&stat(3, 10), &stat(2, 7)) < 0);
    assert!(compare_average(&stat(2, 7), &stat(3, 10)) > 0);
    assert_eq!(compare_average(&stat(2, 4), &stat(3, 6)), 0);
    assert_eq!(compare_average(&stat(0, 0), &stat(0, 0)), 0);
    assert!(compare_average(&stat(0, 0), &stat(1, 1)) < 0);
    let big = u128::MAX;
    assert!(compare_average(&stat(usize::MAX, big - 1), &stat(usize::MAX, big)) < 0);
}

#[test]
fn stat_for_degree_counts_and_sums() {
    let dist = vec![Some(0), Some(3), Some(4), None, Some(9)];
    let hops = vec![Some(0), Some(1), Some(2), None, Some(1)];
    assert_eq!(stat_for_degree(&dist, &hops, 1), stat(2, 12));
    assert_eq!(stat_for_degree(&dist, &hops, 2), stat(1, 4));
    assert_eq!(stat_for_degree(&dist, &hops, 3), stat(0, 0));
}

#[test]
fn adjacency_keeps_order_and_duplicates() {
    let graph = WeightedGraph { edges: vec![(1, 0, 4), (0, 2, 1), (1, 0, 4), (1, 2, 3)], n: 3 };
    let adjacency_list = create_adjacency_list(&graph);
    assert_eq!(adjacency_list, vec![vec![(2, 1)], vec![(0, 4), (0, 4), (2, 3)], vec![]]);
}

#[test]
fn build_graph_stores_both_directions() {
    let graph = build_weighted_graph(&vec![(2, 5, 7), (1, 0, 3)]);
    assert_eq!(graph.edges, vec![(2, 5, 7), (5, 2, 7), (1, 0, 3), (0, 1, 3)]);
    assert_eq!(graph.n, 6);
}

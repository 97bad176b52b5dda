use flight_network::flight::Flight;
use flight_network::graph::{build_graph, calc_degree_distribution, get_airport_hubs};
use flight_network::utils::{analyze_power_law, calculate_average_path_length, distribution_rows};
use petgraph::graph::{DiGraph, NodeIndex};
use std::collections::HashMap;

fn flight(origin: &str, destination: &str) -> Flight {
    Flight { origin: origin.to_string(), destination: destination.to_string() }
}

fn triangle() -> DiGraph<String, i32> {
    build_graph(vec![flight("A", "B"), flight("B", "C"), flight("A", "C")])
}

fn histogram(buckets: &[(usize, usize)]) -> HashMap<usize, usize> {
    let mut map = HashMap::new();
    for (degree, count) in buckets {
        map.insert(*degree, *count);
    }
    map
}

#[test]
fn test_build_graph() {
    let flights = vec![
        Flight { origin: "A".to_string(), destination: "B".to_string() },
        Flight { origin: "B".to_string(), destination: "C".to_string() },
        Flight { origin: "A".to_string(), destination: "C".to_string() },
    ];

    let graph = build_graph(flights);
    assert_eq!(graph.node_count(), 3);
    assert_eq!(graph.edge_count(), 3);
}

#[test]
fn test_calculate_degree_distribution() {
    let flights = vec![
        Flight { origin: "A".to_string(), destination: "B".to_string() },
        Flight { origin: "B".to_string(), destination: "C".to_string() },
        Flight { origin: "A".to_string(), destination: "C".to_string() },
    ];

    let graph = build_graph(flights);
    let degree_distribution = calc_degree_distribution(&graph);

    assert_eq!(degree_distribution.get(&2), Some(&1));
    assert_eq!(degree_distribution.get(&1), Some(&1));
    assert_eq!(degree_distribution.get(&0), Some(&1));
}

#[test]
fn test_analyze_power_law() {
    let mut degree_distribution = HashMap::new();

    degree_distribution.insert(1, 2);
    degree_distribution.insert(2, 3);
    degree_distribution.insert(3, 1);

    let result = analyze_power_law(&degree_distribution);
    assert!(!result);
}

#[test]
fn test_calculate_average_path_length() {
    let flights = vec![
        Flight { origin: "A".to_string(), destination: "B".to_string() },
        Flight { origin: "B".to_string(), destination: "C".to_string() },
    ];

    let graph = build_graph(flights);

    let average = calculate_average_path_length(&graph);
    let average_path_length =
        if average.pairs == 0 { 0.0 } else { average.total_hops as f64 / average.pairs as f64 };

    assert!(average_path_length >= 0.0);
}

#[test]
fn nodes_are_numbered_in_first_seen_order() {
    let graph = build_graph(vec![flight("B", "A"), flight("C", "B"), flight("A", "D")]);
    assert_eq!(graph.node_count(), 4);
    assert_eq!(graph[NodeIndex::new(0)], "B");
    assert_eq!(graph[NodeIndex::new(1)], "A");
    assert_eq!(graph[NodeIndex::new(2)], "C");
    assert_eq!(graph[NodeIndex::new(3)], "D");
}

#[test]
fn each_flight_becomes_one_edge_of_weight_one() {
    let graph = build_graph(vec![flight("A", "B"), flight("B", "C"), flight("A", "C")]);
    let edges: Vec<(usize, usize, i32)> = graph
        .edge_indices()
        .map(|e| {
            let (a, b) = graph.edge_endpoints(e).unwrap();
            (a.index(), b.index(), graph[e])
        })
        .collect();
    assert_eq!(edges, vec![(0, 1, 1), (1, 2, 1), (0, 2, 1)]);
}

#[test]
fn a_flight_given_twice_gives_two_edges() {
    let graph = build_graph(vec![flight("A", "B"), flight("A", "B")]);
    assert_eq!(graph.node_count(), 2);
    assert_eq!(graph.edge_count(), 2);
}

#[test]
fn no_flights_give_an_empty_graph() {
    let graph = build_graph(Vec::new());
    assert_eq!(graph.node_count(), 0);
    assert_eq!(graph.edge_count(), 0);
    assert!(calc_degree_distribution(&graph).is_empty());
    assert!(get_airport_hubs(&graph, 10).is_empty());
    let average = calculate_average_path_length(&graph);
    assert_eq!((average.total_hops, average.pairs), (0, 0));
}

#[test]
fn self_loops_do_not_count_towards_the_degree() {
    let graph = build_graph(vec![flight("A", "A"), flight("A", "B"), flight("B", "B")]);
    let distribution = calc_degree_distribution(&graph);
    assert_eq!(distribution.len(), 2);
    assert_eq!(distribution.get(&1), Some(&1));
    assert_eq!(distribution.get(&0), Some(&1));
}

#[test]
fn bucket_counts_sum_to_the_node_count() {
    let graph = build_graph(vec![
        flight("A", "B"),
        flight("A", "C"),
        flight("A", "D"),
        flight("B", "C"),
        flight("D", "D"),
        flight("E", "A"),
    ]);
    let distribution = calc_degree_distribution(&graph);
    let total: usize = distribution.values().sum();
    assert_eq!(total, graph.node_count());
    assert_eq!(distribution.get(&3), Some(&1));
    assert_eq!(distribution.get(&1), Some(&2));
    assert_eq!(distribution.get(&0), Some(&2));
}

#[test]
fn degrees_weighted_by_count_sum_to_the_edge_count() {
    let graph = build_graph(vec![
        flight("A", "B"),
        flight("A", "C"),
        flight("B", "C"),
        flight("C", "A"),
        flight("D", "A"),
    ]);
    let distribution = calc_degree_distribution(&graph);
    let weighted: usize = distribution.iter().map(|(degree, count)| degree * count).sum();
    assert_eq!(weighted, graph.edge_count());
    assert_eq!(weighted, 5);
}

#[test]
fn hubs_are_ranked_by_outgoing_edges() {
    let graph = build_graph(vec![
        flight("A", "B"),
        flight("B", "C"),
        flight("B", "A"),
        flight("B", "D"),
        flight("C", "A"),
        flight("C", "D"),
    ]);
    let hubs = get_airport_hubs(&graph, 10);
    assert_eq!(
        hubs,
        vec![
            ("B".to_string(), 3),
            ("C".to_string(), 2),
            ("A".to_string(), 1),
            ("D".to_string(), 0),
        ]
    );
}

#[test]
fn hubs_of_equal_degree_keep_first_seen_order() {
    let graph = build_graph(vec![
        flight("X", "Y"),
        flight("Y", "X"),
        flight("Z", "X"),
        flight("W", "Z"),
        flight("W", "X"),
    ]);
    let hubs = get_airport_hubs(&graph, 4);
    assert_eq!(
        hubs,
        vec![
            ("W".to_string(), 2),
            ("X".to_string(), 1),
            ("Y".to_string(), 1),
            ("Z".to_string(), 1),
        ]
    );
}

#[test]
fn hubs_are_cut_to_the_number_asked_for() {
    let hubs = get_airport_hubs(&triangle(), 2);
    assert_eq!(hubs, vec![("A".to_string(), 2), ("B".to_string(), 1)]);
    assert!(get_airport_hubs(&triangle(), 0).is_empty());
    assert_eq!(get_airport_hubs(&triangle(), 3).len(), 3);
    assert_eq!(get_airport_hubs(&triangle(), 100).len(), 3);
}

#[test]
fn hubs_count_self_loops() {
    let graph = build_graph(vec![flight("A", "B"), flight("B", "B"), flight("B", "A")]);
    let hubs = get_airport_hubs(&graph, 10);
    assert_eq!(hubs, vec![("B".to_string(), 2), ("A".to_string(), 1)]);
    let distribution = calc_degree_distribution(&graph);
    assert_eq!(distribution.get(&1), Some(&2));
}

#[test]
fn power_law_needs_many_low_and_few_high_degrees() {
    assert!(analyze_power_law(&histogram(&[(1, 97), (50, 3)])));
    assert!(!analyze_power_law(&histogram(&[(1, 95), (50, 5)])));
    assert!(!analyze_power_law(&histogram(&[(3, 97), (50, 3)])));
}

#[test]
fn power_law_of_an_empty_histogram_is_false() {
    assert!(!analyze_power_law(&HashMap::new()));
    assert!(!analyze_power_law(&histogram(&[(0, 0), (7, 0)])));
}

#[test]
fn power_law_compares_exact_percentages() {
    // 30 of 31 nodes have a low degree; the one node at the top is 3.2% of them.
    assert!(analyze_power_law(&histogram(&[(1, 30), (10, 1)])));
    // Exactly 60% low-degree nodes are not more than 60%.
    assert!(!analyze_power_law(&histogram(&[(2, 60), (3, 39), (100, 1)])));
    assert!(analyze_power_law(&histogram(&[(2, 61), (3, 38), (100, 1)])));
    // Exactly 5% high-degree nodes are not fewer than 5%.
    assert!(!analyze_power_law(&histogram(&[(1, 19), (9, 1)])));
    assert!(analyze_power_law(&histogram(&[(1, 20), (9, 1)])));
}

#[test]
fn power_law_threshold_is_four_fifths_rounded_down() {
    // Largest degree 9: the threshold is 7, so the bucket of degree 7 counts as high.
    assert!(!analyze_power_law(&histogram(&[(1, 100), (7, 5), (9, 1)])));
    // Largest degree 10: the threshold is 8, so the bucket of degree 7 does not.
    assert!(analyze_power_law(&histogram(&[(1, 100), (7, 5), (10, 1)])));
}

#[test]
fn power_law_takes_counts_of_any_size() {
    assert!(analyze_power_law(&histogram(&[(1, usize::MAX), (2, usize::MAX), (1000, 1)])));
    assert!(!analyze_power_law(&histogram(&[(0, usize::MAX), (1, usize::MAX)])));
    assert!(!analyze_power_law(&histogram(&[(usize::MAX, usize::MAX)])));
}

#[test]
fn rows_list_every_bucket_once() {
    let distribution = histogram(&[(1, 2), (2, 3), (3, 1)]);
    let mut rows = distribution_rows(&distribution);
    rows.sort();
    assert_eq!(rows, vec![(1, 2), (2, 3), (3, 1)]);
    assert!(distribution_rows(&HashMap::new()).is_empty());
}

#[test]
fn triangle_has_average_path_length_one() {
    let graph = triangle();
    let distribution = calc_degree_distribution(&graph);
    assert_eq!(distribution.len(), 3);
    let average = calculate_average_path_length(&graph);
    assert_eq!(average.total_hops, 3);
    assert_eq!(average.pairs, 3);
}

#[test]
fn chain_of_two_routes_averages_four_thirds() {
    let graph = build_graph(vec![flight("A", "B"), flight("B", "C")]);
    let average = calculate_average_path_length(&graph);
    assert_eq!(average.total_hops, 4);
    assert_eq!(average.pairs, 3);
    let value = average.total_hops as f64 / average.pairs as f64;
    assert!((value - 1.3333333333333333).abs() < 1e-12);
}

#[test]
fn isolated_node_adds_no_pair() {
    let mut graph: DiGraph<String, i32> = DiGraph::new();
    let a = graph.add_node("A".to_string());
    let b = graph.add_node("B".to_string());
    graph.add_node("C".to_string());
    graph.add_edge(a, b, 1);
    let average = calculate_average_path_length(&graph);
    assert_eq!(average.total_hops, 1);
    assert_eq!(average.pairs, 1);
}

#[test]
fn graph_without_reachable_pairs_has_the_empty_ratio() {
    let mut graph: DiGraph<String, i32> = DiGraph::new();
    graph.add_node("A".to_string());
    let average = calculate_average_path_length(&graph);
    assert_eq!((average.total_hops, average.pairs), (0, 0));
    let b = graph.add_node("B".to_string());
    graph.add_edge(b, b, 1);
    let average = calculate_average_path_length(&graph);
    assert_eq!((average.total_hops, average.pairs), (0, 0));
}

#[test]
fn cycle_reaches_every_pair() {
    let graph = build_graph(vec![flight("A", "B"), flight("B", "C"), flight("C", "A")]);
    let average = calculate_average_path_length(&graph);
    assert_eq!(average.pairs, 6);
    assert_eq!(average.total_hops, 9);
}

#[test]
fn every_edge_counts_one_hop_whatever_its_weight() {
    let mut graph: DiGraph<String, i32> = DiGraph::new();
    let a = graph.add_node("A".to_string());
    let b = graph.add_node("B".to_string());
    let c = graph.add_node("C".to_string());
    graph.add_edge(a, b, 7);
    graph.add_edge(b, c, -3);
    let average = calculate_average_path_length(&graph);
    assert_eq!(average.total_hops, 4);
    assert_eq!(average.pairs, 3);
}

use flight_network::digraph::hop_cost;
use flight_network::flight::{flights_from_records, Flight};
use flight_network::graph::{build_graph, GraphFlight};
use flight_network::paths::{shortest_hop_counts, PathError};
use flight_network::utils::{average_over, AveragePathLength};
use petgraph::graph::DiGraph;

fn route(origin: &str, destination: &str) -> Flight {
    Flight { origin: origin.to_string(), destination: destination.to_string() }
}

fn record(origin: &str, destination: &str) -> (String, String) {
    (origin.to_string(), destination.to_string())
}

#[test]
fn direct_edge_has_distance_one() {
    let graph = build_graph(vec![route("X", "Y")]);
    let matrix = shortest_hop_counts(&graph).unwrap();
    assert_eq!(matrix.node_count(), 2);
    assert_eq!(matrix.distance(0, 1), Some(1));
    assert_eq!(matrix.distance(1, 0), None);
}

#[test]
fn two_edges_in_a_row_have_distance_two() {
    let graph = build_graph(vec![route("A", "B"), route("B", "C")]);
    let matrix = shortest_hop_counts(&graph).unwrap();
    assert_eq!(matrix.distance(0, 1), Some(1));
    assert_eq!(matrix.distance(1, 2), Some(1));
    assert_eq!(matrix.distance(0, 2), Some(2));
    assert_eq!(matrix.distance(2, 0), None);
    assert_eq!(matrix.distance(2, 1), None);
}

#[test]
fn a_direct_edge_beats_the_detour() {
    let graph = build_graph(vec![route("A", "B"), route("B", "C"), route("A", "C")]);
    let matrix = shortest_hop_counts(&graph).unwrap();
    assert_eq!(matrix.distance(0, 2), Some(1));
}

#[test]
fn a_node_has_no_distance_to_itself() {
    let graph = build_graph(vec![route("A", "B"), route("B", "A"), route("A", "A")]);
    let matrix = shortest_hop_counts(&graph).unwrap();
    assert_eq!(matrix.distance(0, 0), None);
    assert_eq!(matrix.distance(1, 1), None);
    assert_eq!(matrix.distance(0, 1), Some(1));
    assert_eq!(matrix.distance(1, 0), Some(1));
}

#[test]
fn what_is_no_node_has_no_distance() {
    let graph = build_graph(vec![route("A", "B")]);
    let matrix = shortest_hop_counts(&graph).unwrap();
    assert_eq!(matrix.distance(0, 2), None);
    assert_eq!(matrix.distance(5, 1), None);
    assert_eq!(matrix.distance(usize::MAX, usize::MAX), None);
}

#[test]
fn long_chain_distances_grow_by_one() {
    let labels = ["A", "B", "C", "D", "E", "F"];
    let flights = (0..5).map(|k| route(labels[k], labels[k + 1])).collect();
    let graph = build_graph(flights);
    let matrix = shortest_hop_counts(&graph).unwrap();
    for from in 0..6 {
        for to in 0..6 {
            let expected = if from < to { Some((to - from) as u32) } else { None };
            assert_eq!(matrix.distance(from, to), expected);
        }
    }
    assert_eq!(average_over(&matrix), AveragePathLength { total_hops: 35, pairs: 15 });
}

#[test]
fn parallel_edges_are_one_hop() {
    let mut graph: DiGraph<String, i32> = DiGraph::new();
    let a = graph.add_node("A".to_string());
    let b = graph.add_node("B".to_string());
    graph.add_edge(a, b, 4);
    graph.add_edge(a, b, 9);
    let matrix = shortest_hop_counts(&graph).unwrap();
    assert_eq!(matrix.distance(0, 1), Some(1));
}

#[test]
fn small_graphs_are_never_too_large() {
    let graph = build_graph(vec![route("A", "B")]);
    assert!(!matches!(shortest_hop_counts(&graph), Err(PathError::TooManyNodes)));
    assert_ne!(PathError::TooManyNodes, PathError::NegativeCycle);
}

#[test]
fn every_hop_costs_one() {
    assert_eq!(hop_cost(1), 1);
    assert_eq!(hop_cost(0), 1);
    assert_eq!(hop_cost(-40), 1);
    assert_eq!(hop_cost(i32::MAX), 1);
}

#[test]
fn records_become_flights_in_their_order() {
    let flights = flights_from_records(&vec![record("A", "B"), record("B", "C"), record("A", "C")]);
    assert_eq!(flights.len(), 3);
    assert_eq!(flights[0].origin, "A");
    assert_eq!(flights[0].destination, "B");
    assert_eq!(flights[2].origin, "A");
    assert_eq!(flights[2].destination, "C");
}

#[test]
fn records_without_an_endpoint_are_skipped() {
    let flights = flights_from_records(&vec![
        record("", "B"),
        record("A", ""),
        record("", ""),
        record("A", "B"),
    ]);
    assert_eq!(flights.len(), 1);
    assert_eq!(flights[0].origin, "A");
    assert_eq!(flights[0].destination, "B");
}

#[test]
fn repeated_records_are_kept_once() {
    let flights = flights_from_records(&vec![
        record("A", "B"),
        record("B", "A"),
        record("A", "B"),
        record("A", "A"),
        record("B", "A"),
        record("A", "A"),
        record("AB", ""),
        record("A", "BA"),
    ]);
    let pairs: Vec<(String, String)> =
        flights.into_iter().map(|f| (f.origin, f.destination)).collect();
    assert_eq!(
        pairs,
        vec![record("A", "B"), record("B", "A"), record("A", "A"), record("A", "BA")]
    );
}

#[test]
fn selected_records_build_a_graph_without_parallel_edges() {
    let flights = flights_from_records(&vec![
        record("A", "B"),
        record("A", "B"),
        record("B", "C"),
        record("", "C"),
    ]);
    let graph = build_graph(flights);
    assert_eq!(graph.node_count(), 3);
    assert_eq!(graph.edge_count(), 2);
}

#[test]
fn graph_flight_holds_two_labels() {
    let flight = GraphFlight { origin: "A".to_string(), destination: "B".to_string() };
    assert_eq!(flight.origin, "A");
    assert_eq!(flight.destination, "B");
}

use flight_network::flight::Flight;
use flight_network::graph::{build_graph, calc_degree_distribution, get_airport_hubs};
use flight_network::paths::shortest_hop_counts;
use flight_network::utils::calculate_average_path_length;
use std::collections::{HashMap, HashSet, VecDeque};

/// A small linear congruential generator, so that the graphs are the same on every run.
fn next(state: &mut u64) -> u64 {
    *state = state.wrapping_mul(6364136223846793005).wrapping_add(1442695040888963407);
    *state >> 33
}

/// Routes among `nodes` labels, each ordered pair at most once, every label used.
fn routes(seed: u64, nodes: u64, wanted: usize) -> Vec<(usize, usize)> {
    let mut state = seed;
    let mut seen = HashSet::new();
    let mut pairs = Vec::new();
    for node in 0..nodes as usize {
        let pair = (node, (node + 1) % nodes as usize);
        if next(&mut state) % 3 != 0 && seen.insert(pair) {
            pairs.push(pair);
        }
    }
    let wanted = wanted.min((nodes * nodes) as usize);
    while pairs.len() < wanted {
        let pair = ((next(&mut state) % nodes) as usize, (next(&mut state) % nodes) as usize);
        if seen.insert(pair) {
            pairs.push(pair);
        }
    }
    pairs
}

fn label(node: usize) -> String {
    format!("N{}", node)
}

fn flights(pairs: &[(usize, usize)]) -> Vec<Flight> {
    pairs.iter().map(|(a, b)| Flight { origin: label(*a), destination: label(*b) }).collect()
}

/// Node identifiers in first-seen order: the place of each label among the nodes.
fn identifiers(pairs: &[(usize, usize)]) -> Vec<usize> {
    let mut order = Vec::new();
    for (a, b) in pairs {
        for node in [*a, *b] {
            if !order.contains(&node) {
                order.push(node);
            }
        }
    }
    order
}

fn breadth_first(pairs: &[(usize, usize)], from: usize, to: usize) -> Option<u32> {
    let mut distance: HashMap<usize, u32> = HashMap::new();
    let mut queue = VecDeque::new();
    distance.insert(from, 0);
    queue.push_back(from);
    while let Some(node) = queue.pop_front() {
        let hops = distance[&node];
        for (a, b) in pairs {
            if *a == node && !distance.contains_key(b) {
                distance.insert(*b, hops + 1);
                queue.push_back(*b);
            }
        }
    }
    distance.get(&to).copied()
}

#[test]
fn distances_agree_with_breadth_first_search() {
    for seed in 1..=12u64 {
        let pairs = routes(seed, 3 + seed % 7, (4 + seed * 2) as usize % 20 + 2);
        let order = identifiers(&pairs);
        let graph = build_graph(flights(&pairs));
        assert_eq!(graph.node_count(), order.len());
        let matrix = shortest_hop_counts(&graph).unwrap();
        let mut total: u128 = 0;
        let mut count: u64 = 0;
        for (i, from) in order.iter().enumerate() {
            for (j, to) in order.iter().enumerate() {
                let expected = if i == j { None } else { breadth_first(&pairs, *from, *to) };
                assert_eq!(matrix.distance(i, j), expected, "seed {} pair {} {}", seed, i, j);
                if let Some(hops) = expected {
                    total += hops as u128;
                    count += 1;
                }
            }
        }
        let average = calculate_average_path_length(&graph);
        assert_eq!((average.total_hops, average.pairs), (total, count));
    }
}

#[test]
fn histogram_agrees_with_counting_by_hand() {
    for seed in 20..=30u64 {
        let pairs = routes(seed, 2 + seed % 9, (seed as usize * 3) % 25 + 1);
        let order = identifiers(&pairs);
        let graph = build_graph(flights(&pairs));
        let mut expected: HashMap<usize, usize> = HashMap::new();
        for node in &order {
            let degree = pairs.iter().filter(|(a, b)| a == node && b != node).count();
            *expected.entry(degree).or_insert(0) += 1;
        }
        assert_eq!(calc_degree_distribution(&graph), expected);
    }
}

#[test]
fn hubs_agree_with_a_stable_sort() {
    for seed in 40..=52u64 {
        let pairs = routes(seed, 2 + seed % 9, (seed as usize * 5) % 30 + 1);
        let order = identifiers(&pairs);
        let graph = build_graph(flights(&pairs));
        let mut expected: Vec<(String, usize)> = order
            .iter()
            .map(|node| (label(*node), pairs.iter().filter(|(a, _)| a == node).count()))
            .collect();
        expected.sort_by(|a, b| b.1.cmp(&a.1));
        for top_n in [0usize, 1, 3, 10, 100] {
            let wanted: Vec<(String, usize)> = expected.iter().take(top_n).cloned().collect();
            assert_eq!(get_airport_hubs(&graph, top_n), wanted, "seed {} top {}", seed, top_n);
        }
    }
}

//! Building the route graph, and the degree statistics read off it.

use crate::degree::is_degree_histogram;
use crate::degree::lemma_nodes_of_degree_bound;
use crate::degree::lemma_others_by_multiset;
use crate::degree::lemma_targets_counted;
use crate::degree::others;
use crate::degree::out_count;
use crate::degree::out_degree;
use crate::degree::targets_from;
use crate::digraph::add_edge;
use crate::digraph::add_node;
use crate::digraph::graph_edges;
use crate::digraph::graph_labels;
use crate::digraph::graph_weights;
use crate::digraph::new_graph;
use crate::digraph::node_count;
use crate::digraph::node_label;
use crate::digraph::out_targets;
use crate::flight::routes_of;
use crate::ranking::hub_rank;
use crate::ranking::lemma_every_place_is_taken;
use crate::ranking::lemma_rank_in_range;
use crate::ranking::lemma_ranks_differ;
use crate::flight::Flight;
use petgraph::graph::DiGraph;
use std::collections::HashMap;
use vstd::hash_map::StringHashMap;
use vstd::prelude::*;

verus! {

/// The two airport labels of one route.
pub struct GraphFlight {
    pub origin: String,
    pub destination: String,
}

/// `seen` with `label` appended, unless it is among them already.
pub open spec fn noted(seen: Seq<Seq<char>>, label: Seq<char>) -> Seq<Seq<char>> {
    if seen.contains(label) {
        seen
    } else {
        seen.push(label)
    }
}

/// The labels of a route list, each once, in the order in which they are
/// first seen: route by route, the origin before the destination.
pub open spec fn airports(routes: Seq<(Seq<char>, Seq<char>)>) -> Seq<Seq<char>>
    decreases routes.len(),
{
    if routes.len() == 0 {
        Seq::empty()
    } else {
        noted(noted(airports(routes.drop_last()), routes.last().0), routes.last().1)
    }
}

/// The set of all labels that occur in a route list.
pub open spec fn label_set(routes: Seq<(Seq<char>, Seq<char>)>) -> Set<Seq<char>> {
    Set::new(
        |label: Seq<char>|
            exists|k: int|
                0 <= k < routes.len() && ((#[trigger] routes[k]).0 == label || routes[k].1
                    == label),
    )
}

/// Whether `edge` leads from the node labelled with the route's origin to the
/// node labelled with its destination.
pub open spec fn joins(
    labels: Seq<Seq<char>>,
    edge: (usize, usize),
    route: (Seq<char>, Seq<char>),
) -> bool {
    &&& edge.0 < labels.len()
    &&& edge.1 < labels.len()
    &&& labels[edge.0 as int] == route.0
    &&& labels[edge.1 as int] == route.1
}

/// Whether nodes and edges are the network of a route list: the nodes are its
/// labels in first-seen order, and edge `k` stands for route `k`.
pub open spec fn is_network_of(
    labels: Seq<Seq<char>>,
    edges: Seq<(usize, usize)>,
    routes: Seq<(Seq<char>, Seq<char>)>,
) -> bool {
    &&& labels == airports(routes)
    &&& edges.len() == routes.len()
    &&& forall|k: int| 0 <= k < routes.len() ==> joins(labels, #[trigger] edges[k], routes[k])
}

/// Whether `index` maps each label to its position among `labels`, and
/// nothing else.
spec fn indexes(index: Map<Seq<char>, usize>, labels: Seq<Seq<char>>) -> bool {
    &&& forall|label: Seq<char>| index.contains_key(label) ==> labels.contains(label)
    &&& forall|k: int|
        0 <= k < labels.len() ==> index.contains_key(#[trigger] labels[k]) && index[labels[k]] == k
}

/// Noting a label keeps what was there and never shrinks the list.
proof fn lemma_noted_extends(seen: Seq<Seq<char>>, label: Seq<char>)
    ensures
        seen.len() <= noted(seen, label).len() <= seen.len() + 1,
        noted(seen, label).contains(label),
        forall|k: int| 0 <= k < seen.len() ==> noted(seen, label)[k] == seen[k],
{
    if !seen.contains(label) {
        assert(seen.push(label)[seen.len() as int] == label);
    }
}

/// The airports of the first `upto` routes are no more than those of all.
proof fn lemma_airports_grow(routes: Seq<(Seq<char>, Seq<char>)>, upto: int)
    requires
        0 <= upto <= routes.len(),
    ensures
        airports(routes.take(upto)).len() <= airports(routes).len(),
    decreases routes.len(),
{
    if upto == routes.len() {
        assert(routes.take(upto) == routes);
    } else {
        assert(routes.drop_last().take(upto) == routes.take(upto));
        lemma_airports_grow(routes.drop_last(), upto);
        let earlier = airports(routes.drop_last());
    }
}

/// The airports of a route list are its labels, each of them once.
pub proof fn lemma_airports_are_the_labels(routes: Seq<(Seq<char>, Seq<char>)>)
    ensures
        airports(routes).no_duplicates(),
        airports(routes).to_set() == label_set(routes),
    decreases routes.len(),
{
    if routes.len() == 0 {
    } else {
        let earlier = routes.drop_last();
        lemma_airports_are_the_labels(earlier);
        let origin = routes.last().0;
        let destination = routes.last().1;
        let first = noted(airports(earlier), origin);
        let both = airports(routes);
        lemma_noted_extends(airports(earlier), origin);
        lemma_noted_extends(first, destination);
        assert forall|label: Seq<char>| both.to_set().contains(label) == label_set(
            routes,
        ).contains(label) by {
            if both.contains(label) && label != origin && label != destination {
                assert(airports(earlier).contains(label));
                assert(label_set(earlier).contains(label));
                let j = choose|j: int|
                    0 <= j < earlier.len() && ((#[trigger] earlier[j]).0 == label
                        || earlier[j].1 == label);
                assert(routes[j] == earlier[j]);
            }
            if label_set(routes).contains(label) {
                let j = choose|j: int|
                    0 <= j < routes.len() && ((#[trigger] routes[j]).0 == label || routes[j].1
                        == label);
                if j < earlier.len() {
                    assert(earlier[j] == routes[j]);
                    assert(label_set(earlier).contains(label));
                    assert(airports(earlier).contains(label));
                }
                assert(both.contains(label));
            }
        }
    }
}

/// A network of routes of which none is given twice has one node for each
/// distinct label and one edge for each distinct route.
pub proof fn lemma_network_size(
    labels: Seq<Seq<char>>,
    edges: Seq<(usize, usize)>,
    routes: Seq<(Seq<char>, Seq<char>)>,
)
    requires
        is_network_of(labels, edges, routes),
        routes.no_duplicates(),
    ensures
        labels.len() == label_set(routes).len(),
        edges.len() == routes.to_set().len(),
{
    lemma_airports_are_the_labels(routes);
    airports(routes).unique_seq_to_set();
    routes.unique_seq_to_set();
}

/// A route list has at most two airports for each route.
pub proof fn lemma_airports_bound(routes: Seq<(Seq<char>, Seq<char>)>)
    ensures
        airports(routes).len() <= 2 * routes.len(),
    decreases routes.len(),
{
    if routes.len() > 0 {
        lemma_airports_bound(routes.drop_last());
    }
}

/// Looks `label` up in the index and gives the node that carries it; where
/// there is none yet, a node is added to the graph and to the index.
fn node_for(
    graph: &mut DiGraph<String, i32>,
    index: &mut StringHashMap<usize>,
    label: &String,
) -> (id: usize)
    requires
        indexes(old(index)@, graph_labels(*old(graph))),
        noted(graph_labels(*old(graph)), label@).len() <= u32::MAX,
    ensures
        graph_labels(*final(graph)) == noted(graph_labels(*old(graph)), label@),
        graph_edges(*final(graph)) == graph_edges(*old(graph)),
        graph_weights(*final(graph)) == graph_weights(*old(graph)),
        indexes(final(index)@, graph_labels(*final(graph))),
        id < graph_labels(*final(graph)).len(),
        graph_labels(*final(graph))[id as int] == label@,
{
    let found: Option<usize> = match index.get(label.as_str()) {
        Some(id) => Some(*id),
        None => None,
    };
    match found {
        Some(id) => {
            assert(graph_labels(*graph).contains(label@));
            id
        },
        None => {
            let ghost before = graph_labels(*graph);
            assert(!before.contains(label@)) by {
                if before.contains(label@) {
                    let k = choose|k: int| 0 <= k < before.len() && before[k] == label@;
                    assert(index@.contains_key(before[k]));
                }
            }
            let id = add_node(graph, label.clone());
            index.insert(label.clone(), id);
            proof {
                let after = graph_labels(*graph);
                assert forall|other: Seq<char>| index@.contains_key(other) implies after.contains(
                    other,
                ) by {
                    if other == label@ {
                        assert(after[id as int] == other);
                    } else {
                        assert(before.contains(other));
                        let k = choose|k: int| 0 <= k < before.len() && before[k] == other;
                        assert(after[k] == other);
                    }
                }
                assert forall|k: int| 0 <= k < after.len() implies index@.contains_key(
                    #[trigger] after[k],
                ) && index@[after[k]] == k by {}
            }
            id
        },
    }
}

/// Builds the route graph: one node per label, numbered in first-seen order,
/// and one edge of weight 1 per flight, in the order of the flights.
///
/// Nothing is deduplicated here: a flight given twice gives two edges. The
/// bounds are those of the graph's `u32` indices.
pub fn build_graph(flights: Vec<Flight>) -> (graph: DiGraph<String, i32>)
    requires
        flights.len() <= u32::MAX,
        airports(routes_of(flights@)).len() <= u32::MAX,
    ensures
        is_network_of(graph_labels(graph), graph_edges(graph), routes_of(flights@)),
        graph_labels(graph).no_duplicates(),
        graph_weights(graph).len() == flights.len(),
        forall|k: int| 0 <= k < flights.len() ==> #[trigger] graph_weights(graph)[k] == 1,
{
    let ghost routes = routes_of(flights@);
    let mut graph = new_graph();
    let mut airport_map: StringHashMap<usize> = StringHashMap::new();
    let mut i: usize = 0;
    while i < flights.len()
        invariant
            i <= flights.len() <= u32::MAX,
            routes == routes_of(flights@),
            airports(routes).len() <= u32::MAX,
            indexes(airport_map@, graph_labels(graph)),
            is_network_of(graph_labels(graph), graph_edges(graph), routes.take(i as int)),
            graph_weights(graph).len() == i,
            forall|k: int| 0 <= k < i ==> #[trigger] graph_weights(graph)[k] == 1,
        decreases flights.len() - i,
    {
        proof {
            assert(routes.take(i + 1).drop_last() == routes.take(i as int));
            lemma_airports_grow(routes, i + 1);
        }
        let origin_node = node_for(&mut graph, &mut airport_map, &flights[i].origin);
        let dest_node = node_for(&mut graph, &mut airport_map, &flights[i].destination);
        add_edge(&mut graph, origin_node, dest_node, 1);
        proof {
            let labels = graph_labels(graph);
            let edges = graph_edges(graph);
            let next = routes.take(i + 1);
            assert forall|k: int| 0 <= k < next.len() implies joins(
                labels,
                #[trigger] edges[k],
                next[k],
            ) by {}
        }
        i = i + 1;
    }
    proof {
        assert(routes.take(i as int) == routes);
    }
    graph
}

/// Counts the entries of `targets` that are not `node`.
fn count_others(targets: &Vec<usize>, node: usize) -> (count: usize)
    ensures
        count == others(targets@, node as int),
{
    let mut count: usize = 0;
    let mut k: usize = 0;
    while k < targets.len()
        invariant
            k <= targets.len(),
            count <= k,
            count == others(targets@.take(k as int), node as int),
        decreases targets.len() - k,
    {
        proof {
            assert(targets@.take(k + 1).drop_last() == targets@.take(k as int));
        }
        if targets[k] != node {
            count = count + 1;
        }
        k = k + 1;
    }
    proof {
        assert(targets@.take(k as int) == targets@);
    }
    count
}

/// The out-degree of one node and the number of its outgoing edges, which
/// differ by its self-loops.
fn degrees_of(graph: &DiGraph<String, i32>, node: usize) -> (degrees: (usize, usize))
    requires
        node < graph_labels(*graph).len(),
    ensures
        degrees.0 == out_degree(graph_edges(*graph), node as int),
        degrees.1 == out_count(graph_edges(*graph), node as int),
{
    let targets = out_targets(graph, node);
    proof {
        let listed = targets_from(graph_edges(*graph), node as int);
        lemma_targets_counted(graph_edges(*graph), node as int);
        lemma_others_by_multiset(targets@, node);
        lemma_others_by_multiset(listed, node);
        targets@.to_multiset_ensures();
        listed.to_multiset_ensures();
    }
    (count_others(&targets, node), targets.len())
}

/// Computes the degree histogram of a graph: for each out-degree that some
/// node has, the number of nodes that have it. Self-loops do not count
/// towards a node's out-degree.
pub fn calc_degree_distribution(graph: &DiGraph<String, i32>) -> (distribution: HashMap<
    usize,
    usize,
>)
    ensures
        is_degree_histogram(distribution@, graph_edges(*graph), graph_labels(*graph).len()),
{
    broadcast use vstd::std_specs::hash::group_hash_axioms;

    let ghost edges = graph_edges(*graph);
    let nodes = node_count(graph);
    let mut distribution: HashMap<usize, usize> = HashMap::new();
    let mut node: usize = 0;
    while node < nodes
        invariant
            node <= nodes,
            nodes == graph_labels(*graph).len(),
            edges == graph_edges(*graph),
            is_degree_histogram(distribution@, edges, node as nat),
        decreases nodes - node,
    {
        let degree = degrees_of(graph, node).0;
        let seen: usize = match distribution.get(&degree) {
            Some(count) => *count,
            None => 0,
        };
        proof {
            lemma_nodes_of_degree_bound(edges, node as nat, degree as int);
        }
        distribution.insert(degree, seen + 1);
        assert(is_degree_histogram(distribution@, edges, (node + 1) as nat));
        node = node + 1;
    }
    distribution
}

/// Whether `hub` is the entry at `place` of the hub ranking: the label of
/// the node that has this place, with the number of its outgoing edges.
pub open spec fn is_hub_at(
    labels: Seq<Seq<char>>,
    edges: Seq<(usize, usize)>,
    place: int,
    hub: (String, usize),
) -> bool {
    exists|node: int|
        {
            &&& 0 <= node < labels.len()
            &&& #[trigger] hub_rank(edges, labels.len(), node) == place
            &&& hub.0@ == labels[node]
            &&& hub.1 == out_count(edges, node)
        }
}

/// The place of `node` in the hub ranking, from the numbers of outgoing
/// edges of all nodes.
fn place_of(counts: &Vec<usize>, node: usize, Ghost(edges): Ghost<Seq<(usize, usize)>>) -> (place:
    usize)
    requires
        node < counts.len(),
        forall|k: int| 0 <= k < counts.len() ==> #[trigger] counts[k] == out_count(edges, k),
    ensures
        place == hub_rank(edges, counts.len() as nat, node as int),
{
    let mut place: usize = 0;
    let mut other: usize = 0;
    while other < counts.len()
        invariant
            other <= counts.len(),
            node < counts.len(),
            place <= other,
            place == hub_rank(edges, other as nat, node as int),
            forall|k: int| 0 <= k < counts.len() ==> #[trigger] counts[k] == out_count(edges, k),
        decreases counts.len() - other,
    {
        if counts[other] > counts[node] || (counts[other] == counts[node] && other < node) {
            place = place + 1;
        }
        other = other + 1;
    }
    place
}

/// Ranks the nodes by the number of their outgoing edges, self-loops
/// included, and returns the first `top_n` of the ranking, each as its label
/// with that number; all of them where there are fewer.
///
/// The ranking is by descending number of outgoing edges. Nodes with the
/// same number keep the order of their identifiers, which is the order in
/// which their labels were first seen.
pub fn get_airport_hubs(graph: &DiGraph<String, i32>, top_n: usize) -> (hubs: Vec<(String, usize)>)
    ensures
        hubs.len() == if top_n < graph_labels(*graph).len() {
            top_n as nat
        } else {
            graph_labels(*graph).len()
        },
        forall|place: int|
            0 <= place < hubs.len() ==> is_hub_at(
                graph_labels(*graph),
                graph_edges(*graph),
                place,
                #[trigger] hubs[place],
            ),
{
    let ghost labels = graph_labels(*graph);
    let ghost edges = graph_edges(*graph);
    let nodes = node_count(graph);

    let mut counts: Vec<usize> = Vec::new();
    let mut order: Vec<usize> = Vec::new();
    let mut node: usize = 0;
    while node < nodes
        invariant
            node <= nodes,
            nodes == labels.len(),
            labels == graph_labels(*graph),
            edges == graph_edges(*graph),
            counts.len() == node,
            order.len() == node,
            forall|k: int| 0 <= k < node ==> #[trigger] counts[k] == out_count(edges, k),
            forall|k: int| 0 <= k < node ==> #[trigger] order[k] == 0,
        decreases nodes - node,
    {
        counts.push(degrees_of(graph, node).1);
        order.push(0);
        node = node + 1;
    }

    node = 0;
    while node < nodes
        invariant
            node <= nodes,
            nodes == labels.len(),
            counts.len() == nodes,
            order.len() == nodes,
            forall|k: int| 0 <= k < nodes ==> #[trigger] counts[k] == out_count(edges, k),
            forall|k: int| 0 <= k < nodes ==> #[trigger] order[k] < nodes,
            forall|ranked: int|
                0 <= ranked < node ==> #[trigger] hub_rank(edges, nodes as nat, ranked) < nodes
                    && order[hub_rank(edges, nodes as nat, ranked) as int] == ranked,
        decreases nodes - node,
    {
        let place = place_of(&counts, node, Ghost(edges));
        proof {
            lemma_rank_in_range(edges, nodes as nat, node as int);
            assert forall|ranked: int| 0 <= ranked < node implies #[trigger] hub_rank(
                edges,
                nodes as nat,
                ranked,
            ) != place by {
                lemma_ranks_differ(edges, nodes as nat, ranked, node as int);
            }
        }
        order.set(place, node);
        node = node + 1;
    }

    let wanted = if top_n < nodes {
        top_n
    } else {
        nodes
    };
    let mut hubs: Vec<(String, usize)> = Vec::new();
    let mut place: usize = 0;
    while place < wanted
        invariant
            place <= wanted <= nodes,
            nodes == labels.len(),
            labels == graph_labels(*graph),
            edges == graph_edges(*graph),
            counts.len() == nodes,
            order.len() == nodes,
            hubs.len() == place,
            forall|k: int| 0 <= k < nodes ==> #[trigger] counts[k] == out_count(edges, k),
            forall|k: int| 0 <= k < nodes ==> #[trigger] order[k] < nodes,
            forall|ranked: int|
                0 <= ranked < nodes ==> #[trigger] hub_rank(edges, nodes as nat, ranked) < nodes
                    && order[hub_rank(edges, nodes as nat, ranked) as int] == ranked,
            forall|k: int| 0 <= k < place ==> is_hub_at(labels, edges, k, #[trigger] hubs[k]),
        decreases wanted - place,
    {
        let ranked = order[place];
        assert(hub_rank(edges, nodes as nat, ranked as int) == place) by {
            lemma_every_place_is_taken(edges, nodes as nat, place as int);
        }
        let hub = (node_label(graph, ranked), counts[ranked]);
        hubs.push(hub);
        place = place + 1;
    }
    hubs
}

} // verus!

//! What this library assumes of `petgraph`.
//!
//! The network is held as `petgraph::graph::DiGraph<String, i32>`. Verus
//! cannot look inside it, so its contents are given names, [`graph_labels`],
//! [`graph_edges`] and [`graph_weights`], and every petgraph call the library
//! makes goes through one of the wrappers below. Their contracts are believed,
//! not proved; each one says which petgraph function it stands for.

use crate::degree::targets_from;
use crate::paths::is_hop_measure;
use petgraph::algo::floyd_warshall;
use petgraph::algo::NegativeCycle;
use petgraph::graph::DiGraph;
use petgraph::graph::NodeIndex;
use petgraph::visit::EdgeRef;
use std::collections::HashMap;
use vstd::prelude::*;

verus! {

#[verifier::external_type_specification]
#[verifier::external_body]
#[verifier::reject_recursive_types(N)]
#[verifier::reject_recursive_types(E)]
#[verifier::reject_recursive_types(Ty)]
#[verifier::reject_recursive_types(Ix)]
pub struct ExGraph<N, E, Ty, Ix>(petgraph::graph::Graph<N, E, Ty, Ix>);

#[verifier::external_type_specification]
#[verifier::external_body]
pub struct ExDirected(petgraph::Directed);

#[verifier::external_type_specification]
#[verifier::external_body]
#[verifier::reject_recursive_types(Ix)]
pub struct ExNodeIndex<Ix>(petgraph::graph::NodeIndex<Ix>);

#[verifier::external_type_specification]
#[verifier::external_body]
pub struct ExNegativeCycle(petgraph::algo::NegativeCycle);

/// The table that `floyd_warshall` hands back: a distance for pairs of nodes.
pub type HopTable = HashMap<(NodeIndex, NodeIndex), i32>;

/// The node labels of a graph in node-identifier order: `graph_labels(g)[i]`
/// is the weight that petgraph stores for the node with index `i`.
pub uninterp spec fn graph_labels(g: DiGraph<String, i32>) -> Seq<Seq<char>>;

/// The edges of a graph as `(source, target)` node identifiers, in edge-index
/// order, which is the order of insertion for a graph that only grew.
pub uninterp spec fn graph_edges(g: DiGraph<String, i32>) -> Seq<(usize, usize)>;

/// The weights of the edges of a graph, in the order of [`graph_edges`].
pub uninterp spec fn graph_weights(g: DiGraph<String, i32>) -> Seq<i32>;

/// What a table holds for the ordered pair of the nodes with indices `from`
/// and `to`: the stored distance, or `None` where the pair has no entry.
pub uninterp spec fn table_entry(table: HopTable, from: usize, to: usize) -> Option<i32>;

/// The cost of one edge in the shortest-path computation: every route is one
/// hop, whatever weight its edge carries.
pub fn hop_cost(weight: i32) -> (cost: i32)
    ensures
        cost == 1,
{
    let _ = weight;
    1
}

/// `DiGraph::new`: a graph without nodes or edges.
#[verifier::external_body]
pub(crate) fn new_graph() -> (g: DiGraph<String, i32>)
    ensures
        graph_labels(g) == Seq::<Seq<char>>::empty(),
        graph_edges(g) == Seq::<(usize, usize)>::empty(),
        graph_weights(g) == Seq::<i32>::empty(),
{
    DiGraph::new()
}

/// `Graph::node_count`: the number of nodes.
#[verifier::external_body]
pub(crate) fn node_count(g: &DiGraph<String, i32>) -> (n: usize)
    ensures
        n == graph_labels(*g).len(),
{
    g.node_count()
}

/// `Graph::add_node`: appends one node that carries `label` and returns its
/// index, which is the number of nodes there were before. The edges stay as
/// they are. petgraph panics when the new index would be `u32::MAX`, which
/// `requires` leaves out.
#[verifier::external_body]
pub(crate) fn add_node(g: &mut DiGraph<String, i32>, label: String) -> (id: usize)
    requires
        graph_labels(*old(g)).len() < u32::MAX,
    ensures
        id == graph_labels(*old(g)).len(),
        graph_labels(*final(g)) == graph_labels(*old(g)).push(label@),
        graph_edges(*final(g)) == graph_edges(*old(g)),
        graph_weights(*final(g)) == graph_weights(*old(g)),
{
    g.add_node(label).index()
}

/// `Graph::add_edge`: appends one edge from `source` to `target` that
/// carries `weight`; parallel edges and self-loops are taken as they come.
/// The nodes stay as they are. petgraph panics when an endpoint does not
/// exist or when the new edge index would be `u32::MAX`, which `requires`
/// leaves out.
#[verifier::external_body]
pub(crate) fn add_edge(g: &mut DiGraph<String, i32>, source: usize, target: usize, weight: i32)
    requires
        source < graph_labels(*old(g)).len(),
        target < graph_labels(*old(g)).len(),
        graph_edges(*old(g)).len() < u32::MAX,
    ensures
        graph_labels(*final(g)) == graph_labels(*old(g)),
        graph_edges(*final(g)) == graph_edges(*old(g)).push((source, target)),
        graph_weights(*final(g)) == graph_weights(*old(g)).push(weight),
{
    g.add_edge(NodeIndex::new(source), NodeIndex::new(target), weight);
}

/// Indexing a graph by a node index: the label of that node, cloned.
/// petgraph panics when the node does not exist.
#[verifier::external_body]
pub(crate) fn node_label(g: &DiGraph<String, i32>, node: usize) -> (label: String)
    requires
        node < graph_labels(*g).len(),
    ensures
        label@ == graph_labels(*g)[node as int],
{
    g[NodeIndex::new(node)].clone()
}

/// `Graph::edges`: the outgoing edges of `node`, each given by its target.
/// petgraph documents no order for them, so the contract speaks of the
/// targets as a multiset: one per edge whose source is `node`.
#[verifier::external_body]
pub(crate) fn out_targets(g: &DiGraph<String, i32>, node: usize) -> (targets: Vec<usize>)
    requires
        node < graph_labels(*g).len(),
    ensures
        targets@.to_multiset() == targets_from(graph_edges(*g), node as int).to_multiset(),
{
    g.edges(NodeIndex::new(node)).map(|e| e.target().index()).collect()
}

/// `petgraph::algo::floyd_warshall` with [`hop_cost`] as the cost of every
/// edge. With costs of one there is no negative cycle, so petgraph returns
/// `Ok`, and its table has an entry for every ordered pair of nodes: 0 for a
/// node and itself, the least number of edges on a walk from the first to the
/// second where there is one, and `i32::MAX` where there is none. Distances
/// are `i32`, so the contract is for graphs of at most `i32::MAX` nodes.
#[verifier::external_body]
pub(crate) fn all_pairs_hops(g: &DiGraph<String, i32>) -> (r: Result<HopTable, NegativeCycle>)
    requires
        graph_labels(*g).len() <= i32::MAX,
    ensures
        r matches Ok(table) && forall|from: usize, to: usize|
            from < graph_labels(*g).len() && to < graph_labels(*g).len() ==> (
            #[trigger] table_entry(table, from, to) matches Some(d) && is_hop_measure(
                graph_edges(*g),
                from as int,
                to as int,
                d as int,
            )),
{
    floyd_warshall(g, |e| hop_cost(*e.weight()))
}

/// `HashMap::get` on a table of `floyd_warshall`, with the two node indices
/// made from `from` and `to`; the distance found is copied out.
#[verifier::external_body]
pub(crate) fn table_get(table: &HopTable, from: usize, to: usize) -> (d: Option<i32>)
    requires
        from <= u32::MAX,
        to <= u32::MAX,
    ensures
        d == table_entry(*table, from, to),
{
    table.get(&(NodeIndex::new(from), NodeIndex::new(to))).copied()
}

} // verus!

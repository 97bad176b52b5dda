//! Hop counts between the nodes of a directed edge list.

use crate::digraph::all_pairs_hops;
use crate::digraph::graph_edges;
use crate::digraph::graph_labels;
use crate::digraph::node_count;
use crate::digraph::table_entry;
use crate::digraph::table_get;
use crate::digraph::HopTable;
use petgraph::graph::DiGraph;
use vstd::prelude::*;

verus! {

/// Whether some edge leads from `from` to `to`.
pub open spec fn has_edge(edges: Seq<(usize, usize)>, from: int, to: int) -> bool {
    exists|k: int| 0 <= k < edges.len() && (#[trigger] edges[k]).0 == from && edges[k].1 == to
}

/// Whether `to` is reached from `from` by traversing exactly `hops` edges.
pub open spec fn reaches_in(edges: Seq<(usize, usize)>, from: int, to: int, hops: nat) -> bool
    decreases hops,
{
    if hops == 0 {
        from == to
    } else {
        exists|mid: int|
            reaches_in(edges, from, mid, (hops - 1) as nat) && #[trigger] has_edge(edges, mid, to)
    }
}

/// Whether `to` can be reached from `from` at all.
pub open spec fn reachable(edges: Seq<(usize, usize)>, from: int, to: int) -> bool {
    exists|hops: nat| reaches_in(edges, from, to, hops)
}

/// Whether `hops` is the least number of edges that lead from `from` to `to`.
pub open spec fn is_hop_distance(
    edges: Seq<(usize, usize)>,
    from: int,
    to: int,
    hops: nat,
) -> bool {
    &&& reaches_in(edges, from, to, hops)
    &&& forall|fewer: nat| fewer < hops ==> !reaches_in(edges, from, to, fewer)
}

/// The least number of edges that lead from `from` to `to`; meaningful where
/// `to` is reachable from `from`.
pub open spec fn hop_distance(edges: Seq<(usize, usize)>, from: int, to: int) -> nat {
    choose|hops: nat| is_hop_distance(edges, from, to, hops)
}

/// The number that stands for the pair in an all-pairs table of `i32`
/// distances: the hop distance where there is one, `i32::MAX` where `to`
/// cannot be reached.
pub open spec fn is_hop_measure(edges: Seq<(usize, usize)>, from: int, to: int, d: int) -> bool {
    if reachable(edges, from, to) {
        0 <= d < i32::MAX && is_hop_distance(edges, from, to, d as nat)
    } else {
        d == i32::MAX
    }
}

/// The least number of hops is unique.
pub proof fn lemma_hop_distance_is(edges: Seq<(usize, usize)>, from: int, to: int, hops: nat)
    requires
        is_hop_distance(edges, from, to, hops),
    ensures
        reachable(edges, from, to),
        hop_distance(edges, from, to) == hops,
{
    let chosen = hop_distance(edges, from, to);
    assert(is_hop_distance(edges, from, to, chosen));
    if chosen < hops {
        assert(!reaches_in(edges, from, to, chosen));
    }
    if hops < chosen {
        assert(!reaches_in(edges, from, to, hops));
    }
}

/// An edge from one node to another puts the second at distance 1.
pub proof fn lemma_direct_edge_distance(edges: Seq<(usize, usize)>, from: int, to: int)
    requires
        has_edge(edges, from, to),
        from != to,
    ensures
        reachable(edges, from, to),
        hop_distance(edges, from, to) == 1,
{
    assert(reaches_in(edges, from, from, 0));
    assert(reaches_in(edges, from, to, 1));
    assert forall|fewer: nat| fewer < 1 implies !reaches_in(edges, from, to, fewer) by {
        assert(fewer == 0);
    }
    lemma_hop_distance_is(edges, from, to, 1);
}

/// Two edges in a row, with no edge that spans both, put the far end at
/// distance 2.
pub proof fn lemma_two_hop_distance(edges: Seq<(usize, usize)>, from: int, via: int, to: int)
    requires
        has_edge(edges, from, via),
        has_edge(edges, via, to),
        !has_edge(edges, from, to),
        from != to,
    ensures
        reachable(edges, from, to),
        hop_distance(edges, from, to) == 2,
{
    assert(reaches_in(edges, from, from, 0));
    assert(reaches_in(edges, from, via, 1));
    assert(reaches_in(edges, from, to, 2));
    assert forall|fewer: nat| fewer < 2 implies !reaches_in(edges, from, to, fewer) by {
        if fewer == 1 {
            if reaches_in(edges, from, to, 1) {
                let mid = choose|mid: int|
                    reaches_in(edges, from, mid, 0) && #[trigger] has_edge(edges, mid, to);
                assert(mid == from);
            }
        }
    }
    lemma_hop_distance_is(edges, from, to, 2);
}

/// The distance matrix of a graph of `nodes` nodes: it maps each ordered pair
/// of distinct nodes of which the second is reachable from the first to the
/// hop distance between them, and holds no other pair.
pub open spec fn hop_matrix(nodes: nat, edges: Seq<(usize, usize)>) -> Map<(int, int), nat> {
    Map::new(
        |pair: (int, int)|
            0 <= pair.0 < nodes && 0 <= pair.1 < nodes && pair.0 != pair.1 && reachable(
                edges,
                pair.0,
                pair.1,
            ),
        |pair: (int, int)| hop_distance(edges, pair.0, pair.1),
    )
}

/// A distance matrix holds nothing for a node and itself, nor for a pair of
/// which the second cannot be reached from the first: such pairs add neither
/// to the sum of distances nor to the number of entries.
pub proof fn lemma_matrix_leaves_out(nodes: nat, edges: Seq<(usize, usize)>, from: int, to: int)
    requires
        from == to || !reachable(edges, from, to),
    ensures
        !hop_matrix(nodes, edges).contains_key((from, to)),
        entry_hops(hop_matrix(nodes, edges), from, to) == 0,
        entry_count(hop_matrix(nodes, edges), from, to) == 0,
{
}

/// What the pair `(from, to)` adds to the sum of a matrix's distances.
pub open spec fn entry_hops(matrix: Map<(int, int), nat>, from: int, to: int) -> nat {
    if matrix.contains_key((from, to)) {
        matrix[(from, to)]
    } else {
        0
    }
}

/// What the pair `(from, to)` adds to the number of a matrix's entries.
pub open spec fn entry_count(matrix: Map<(int, int), nat>, from: int, to: int) -> nat {
    if matrix.contains_key((from, to)) {
        1
    } else {
        0
    }
}

/// The sum of the distances from `from` to the nodes below `width`.
pub open spec fn row_hops(matrix: Map<(int, int), nat>, from: int, width: nat) -> nat
    decreases width,
{
    if width == 0 {
        0
    } else {
        row_hops(matrix, from, (width - 1) as nat) + entry_hops(matrix, from, width - 1)
    }
}

/// The number of entries from `from` to the nodes below `width`.
pub open spec fn row_entries(matrix: Map<(int, int), nat>, from: int, width: nat) -> nat
    decreases width,
{
    if width == 0 {
        0
    } else {
        row_entries(matrix, from, (width - 1) as nat) + entry_count(matrix, from, width - 1)
    }
}

/// The sum of all distances in the first `rows` rows of a matrix over nodes
/// below `width`.
pub open spec fn matrix_hops(matrix: Map<(int, int), nat>, rows: nat, width: nat) -> nat
    decreases rows,
{
    if rows == 0 {
        0
    } else {
        matrix_hops(matrix, (rows - 1) as nat, width) + row_hops(matrix, rows - 1, width)
    }
}

/// The number of entries in the first `rows` rows of a matrix over nodes below
/// `width`.
pub open spec fn matrix_entries(matrix: Map<(int, int), nat>, rows: nat, width: nat) -> nat
    decreases rows,
{
    if rows == 0 {
        0
    } else {
        matrix_entries(matrix, (rows - 1) as nat, width) + row_entries(matrix, rows - 1, width)
    }
}

/// Why a graph has no distance matrix.
#[derive(Debug, Clone, Copy, PartialEq, Eq, Structural)]
pub enum PathError {
    /// The graph has more than `i32::MAX` nodes, so that a hop count may not
    /// fit the `i32` in which distances are measured.
    TooManyNodes,
    /// The shortest-path computation reported a cycle of negative cost.
    NegativeCycle,
}

/// The shortest hop counts between all ordered pairs of nodes of one graph.
///
/// Its view is the mathematical matrix: reachable pairs of distinct nodes
/// only, each with its hop distance.
pub struct DistanceMatrix {
    table: HopTable,
    nodes: usize,
    edges: Ghost<Seq<(usize, usize)>>,
}

impl View for DistanceMatrix {
    type V = Map<(int, int), nat>;

    closed spec fn view(&self) -> Map<(int, int), nat> {
        hop_matrix(self.nodes as nat, self.edges@)
    }
}

impl DistanceMatrix {
    /// The table holds the measure of every ordered pair of nodes.
    #[verifier::type_invariant]
    spec fn holds_all_measures(&self) -> bool {
        &&& self.nodes <= i32::MAX
        &&& forall|from: usize, to: usize|
            from < self.nodes && to < self.nodes ==> (#[trigger] table_entry(
                self.table,
                from,
                to,
            ) matches Some(d) && is_hop_measure(self.edges@, from as int, to as int, d as int))
    }

    /// The number of nodes of the graph that the matrix was computed for.
    pub closed spec fn node_total(&self) -> nat {
        self.nodes as nat
    }

    /// The number of nodes of the graph that the matrix was computed for.
    pub fn node_count(&self) -> (n: usize)
        ensures
            n == self.node_total(),
            n <= i32::MAX,
    {
        proof {
            use_type_invariant(self);
        }
        self.nodes
    }

    /// The hop distance from `from` to `to`: `None` for a node and itself,
    /// for a pair of which the second cannot be reached from the first, and
    /// for what is no node of the graph.
    pub fn distance(&self, from: usize, to: usize) -> (d: Option<u32>)
        ensures
            match d {
                Some(hops) => self@.contains_key((from as int, to as int)) && self@[(
                    from as int,
                    to as int,
                )] == hops,
                None => !self@.contains_key((from as int, to as int)),
            },
    {
        proof {
            use_type_invariant(self);
        }
        if from == to || from >= self.nodes || to >= self.nodes {
            return None;
        }
        match table_get(&self.table, from, to) {
            Some(measure) => {
                if measure == i32::MAX {
                    None
                } else {
                    proof {
                        lemma_hop_distance_is(self.edges@, from as int, to as int, measure as nat);
                    }
                    Some(measure as u32)
                }
            },
            None => None,
        }
    }
}

/// Computes the distance matrix of a graph, every edge counting as one hop.
///
/// Succeeds on every graph of at most `i32::MAX` nodes.
pub fn shortest_hop_counts(graph: &DiGraph<String, i32>) -> (r: Result<DistanceMatrix, PathError>)
    ensures
        match r {
            Ok(matrix) => {
                &&& graph_labels(*graph).len() <= i32::MAX
                &&& matrix.node_total() == graph_labels(*graph).len()
                &&& matrix@ == hop_matrix(graph_labels(*graph).len(), graph_edges(*graph))
            },
            Err(e) => e == PathError::TooManyNodes && graph_labels(*graph).len() > i32::MAX,
        },
{
    let nodes = node_count(graph);
    if nodes > i32::MAX as usize {
        return Err(PathError::TooManyNodes);
    }
    match all_pairs_hops(graph) {
        Ok(table) => Ok(DistanceMatrix { table, nodes, edges: Ghost(graph_edges(*graph)) }),
        Err(_) => Err(PathError::NegativeCycle),
    }
}

} // verus!

//! The hub ranking: nodes by the number of their outgoing edges.

use crate::degree::out_count;
use vstd::prelude::*;
use vstd::relations::injective_on;
use vstd::set_lib::lemma_int_range;
use vstd::set_lib::lemma_map_size;
use vstd::set_lib::lemma_subset_equality;
use vstd::set_lib::set_int_range;

verus! {

/// Whether node `first` stands before node `second` in the hub ranking: it
/// has more outgoing edges, or as many and the smaller identifier.
pub open spec fn outranks(edges: Seq<(usize, usize)>, first: int, second: int) -> bool {
    out_count(edges, first) > out_count(edges, second) || (out_count(edges, first) == out_count(
        edges,
        second,
    ) && first < second)
}

/// The number of nodes below `nodes` that stand before `node` in the hub
/// ranking. With `nodes` the number of all nodes, this is the place of
/// `node` in the ranking, counted from 0.
pub open spec fn hub_rank(edges: Seq<(usize, usize)>, nodes: nat, node: int) -> nat
    decreases nodes,
{
    if nodes == 0 {
        0
    } else {
        hub_rank(edges, (nodes - 1) as nat, node) + if outranks(edges, nodes - 1, node) {
            1nat
        } else {
            0nat
        }
    }
}

/// A node's place is below the number of nodes.
pub proof fn lemma_rank_in_range(edges: Seq<(usize, usize)>, nodes: nat, node: int)
    ensures
        hub_rank(edges, nodes, node) <= nodes,
        0 <= node < nodes ==> hub_rank(edges, nodes, node) < nodes,
    decreases nodes,
{
    if nodes > 0 {
        lemma_rank_in_range(edges, (nodes - 1) as nat, node);
    }
}

/// Of two nodes, the one that stands before the other has the smaller place.
pub proof fn lemma_rank_follows_order(
    edges: Seq<(usize, usize)>,
    nodes: nat,
    first: int,
    second: int,
)
    requires
        outranks(edges, first, second),
    ensures
        hub_rank(edges, nodes, first) <= hub_rank(edges, nodes, second),
        0 <= first < nodes ==> hub_rank(edges, nodes, first) < hub_rank(edges, nodes, second),
    decreases nodes,
{
    if nodes > 0 {
        lemma_rank_follows_order(edges, (nodes - 1) as nat, first, second);
    }
}

/// No two nodes share a place.
pub proof fn lemma_ranks_differ(edges: Seq<(usize, usize)>, nodes: nat, first: int, second: int)
    requires
        0 <= first < nodes,
        0 <= second < nodes,
        first != second,
    ensures
        hub_rank(edges, nodes, first) != hub_rank(edges, nodes, second),
{
    if outranks(edges, first, second) {
        lemma_rank_follows_order(edges, nodes, first, second);
    } else {
        lemma_rank_follows_order(edges, nodes, second, first);
    }
}

/// Every place below the number of nodes is the place of some node: the
/// ranking is one list of all nodes.
pub proof fn lemma_every_place_is_taken(edges: Seq<(usize, usize)>, nodes: nat, place: int)
    requires
        0 <= place < nodes,
    ensures
        exists|node: int| 0 <= node < nodes && #[trigger] hub_rank(edges, nodes, node) == place,
{
    let all = set_int_range(0, nodes as int);
    let place_of = |node: int| hub_rank(edges, nodes, node) as int;
    let places = all.map(place_of);
    lemma_int_range(0, nodes as int);
    assert(injective_on(place_of, all)) by {
        assert forall|a: int, b: int|
            all.contains(a) && all.contains(b) && #[trigger] place_of(a) == #[trigger] place_of(
                b,
            ) implies a == b by {
            if a != b {
                lemma_ranks_differ(edges, nodes, a, b);
            }
        }
    }
    lemma_map_size(all, places, place_of);
    assert(places.subset_of(all)) by {
        assert forall|p: int| places.contains(p) implies all.contains(p) by {
            let node = choose|node: int| all.contains(node) && p == place_of(node);
            lemma_rank_in_range(edges, nodes, node);
        }
    }
    lemma_subset_equality(places, all);
    assert(all.contains(place));
    assert(places.contains(place));
    let node = choose|node: int| all.contains(node) && place == place_of(node);
    assert(hub_rank(edges, nodes, node) == place);
}

} // verus!

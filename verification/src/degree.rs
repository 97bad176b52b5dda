//! Out-degrees of a directed edge list and the histogram made of them.

use vstd::prelude::*;

verus! {

/// The targets of the edges that leave `node`, one per edge, in edge order.
pub open spec fn targets_from(edges: Seq<(usize, usize)>, node: int) -> Seq<usize>
    decreases edges.len(),
{
    if edges.len() == 0 {
        Seq::empty()
    } else {
        let earlier = targets_from(edges.drop_last(), node);
        if edges.last().0 == node {
            earlier.push(edges.last().1)
        } else {
            earlier
        }
    }
}

/// The number of edges that leave `node`, self-loops included.
pub open spec fn out_count(edges: Seq<(usize, usize)>, node: int) -> nat
    decreases edges.len(),
{
    if edges.len() == 0 {
        0
    } else {
        out_count(edges.drop_last(), node) + if edges.last().0 == node {
            1nat
        } else {
            0nat
        }
    }
}

/// The out-degree of `node`: the number of edges that leave it for another
/// node. Self-loops do not count.
pub open spec fn out_degree(edges: Seq<(usize, usize)>, node: int) -> nat
    decreases edges.len(),
{
    if edges.len() == 0 {
        0
    } else {
        out_degree(edges.drop_last(), node) + if edges.last().0 == node && edges.last().1 != node {
            1nat
        } else {
            0nat
        }
    }
}

/// The number of entries of `targets` that are not `node`.
pub open spec fn others(targets: Seq<usize>, node: int) -> nat
    decreases targets.len(),
{
    if targets.len() == 0 {
        0
    } else {
        others(targets.drop_last(), node) + if targets.last() != node {
            1nat
        } else {
            0nat
        }
    }
}

/// The number of nodes below `nodes` whose out-degree is `degree`.
pub open spec fn nodes_of_degree(edges: Seq<(usize, usize)>, nodes: nat, degree: int) -> nat
    decreases nodes,
{
    if nodes == 0 {
        0
    } else {
        nodes_of_degree(edges, (nodes - 1) as nat, degree) + if out_degree(edges, nodes - 1)
            == degree {
            1nat
        } else {
            0nat
        }
    }
}

/// Whether `histogram` is the degree histogram of a graph of `nodes` nodes:
/// it has a bucket for each out-degree that some node has, and the bucket
/// counts the nodes of that out-degree.
pub open spec fn is_degree_histogram(
    histogram: Map<usize, usize>,
    edges: Seq<(usize, usize)>,
    nodes: nat,
) -> bool {
    forall|degree: usize|
        {
            &&& #[trigger] histogram.contains_key(degree) <==> nodes_of_degree(
                edges,
                nodes,
                degree as int,
            ) > 0
            &&& histogram.contains_key(degree) ==> histogram[degree] == nodes_of_degree(
                edges,
                nodes,
                degree as int,
            )
        }
}

/// The targets of a node are as many as its outgoing edges, and those among
/// them that are another node are as many as its out-degree.
pub proof fn lemma_targets_counted(edges: Seq<(usize, usize)>, node: int)
    ensures
        targets_from(edges, node).len() == out_count(edges, node),
        others(targets_from(edges, node), node) == out_degree(edges, node),
    decreases edges.len(),
{
    if edges.len() > 0 {
        lemma_targets_counted(edges.drop_last(), node);
        let earlier = targets_from(edges.drop_last(), node);
        if edges.last().0 == node {
            assert(earlier.push(edges.last().1).drop_last() == earlier);
        }
    }
}

/// The entries other than `node` are all entries but the occurrences of
/// `node`, so their number depends on the multiset of entries alone.
pub proof fn lemma_others_by_multiset(targets: Seq<usize>, node: usize)
    ensures
        others(targets, node as int) + targets.to_multiset().count(node) == targets.len(),
    decreases targets.len(),
{
    if targets.len() == 0 {
        targets.to_multiset_ensures();
        assert(!targets.contains(node));
    } else {
        lemma_others_by_multiset(targets.drop_last(), node);
        vstd::seq_lib::to_multiset_build(targets.drop_last(), targets.last());
        assert(targets.drop_last().push(targets.last()) == targets);
    }
}

/// No more nodes have a given out-degree than there are nodes.
pub proof fn lemma_nodes_of_degree_bound(edges: Seq<(usize, usize)>, nodes: nat, degree: int)
    ensures
        nodes_of_degree(edges, nodes, degree) <= nodes,
    decreases nodes,
{
    if nodes > 0 {
        lemma_nodes_of_degree_bound(edges, (nodes - 1) as nat, degree);
    }
}

/// The count that a histogram holds for `degree`: 0 where it has no such
/// bucket.
pub open spec fn bucket(histogram: Map<usize, usize>, degree: int) -> nat {
    if 0 <= degree <= usize::MAX && histogram.contains_key(degree as usize) {
        histogram[degree as usize] as nat
    } else {
        0
    }
}

/// The sum of the counts of the buckets whose degree is at least `low` and
/// below `high`.
pub open spec fn bucket_sum(histogram: Map<usize, usize>, low: int, high: int) -> nat
    decreases high - low,
{
    if high <= low {
        0
    } else {
        bucket_sum(histogram, low, high - 1) + bucket(histogram, high - 1)
    }
}

/// The sum of all bucket counts of a histogram.
pub open spec fn total_count(histogram: Map<usize, usize>) -> nat {
    bucket_sum(histogram, 0, usize::MAX + 1)
}

/// Whether `degree` is the largest degree that has a bucket.
pub open spec fn is_largest_degree(histogram: Map<usize, usize>, degree: usize) -> bool {
    &&& histogram.contains_key(degree)
    &&& forall|other: usize| histogram.contains_key(other) ==> other <= degree
}

/// The largest degree that has a bucket, and 0 for a histogram without
/// buckets.
pub open spec fn max_degree(histogram: Map<usize, usize>) -> usize {
    if exists|degree: usize| is_largest_degree(histogram, degree) {
        choose|degree: usize| is_largest_degree(histogram, degree)
    } else {
        0
    }
}

/// The degree from which on a node counts as highly connected: four fifths
/// of the largest degree, rounded down.
pub open spec fn high_degree_threshold(histogram: Map<usize, usize>) -> int {
    max_degree(histogram) * 4 / 5
}

/// The verdict of the power-law heuristic: more than 60% of the nodes have a
/// degree of at most 2, and fewer than 5% have a degree of at least the
/// high-degree threshold.
pub open spec fn power_law_verdict(histogram: Map<usize, usize>) -> bool {
    let total = total_count(histogram);
    let low = bucket_sum(histogram, 0, 3);
    let high = bucket_sum(histogram, high_degree_threshold(histogram), usize::MAX + 1);
    low * 100 > total * 60 && high * 100 < total * 5
}

/// A bucket in range adds its count to a sum of buckets, and one out of range
/// adds nothing.
pub proof fn lemma_bucket_sum_insert(
    histogram: Map<usize, usize>,
    degree: usize,
    count: usize,
    low: int,
    high: int,
)
    requires
        !histogram.contains_key(degree),
    ensures
        bucket_sum(histogram.insert(degree, count), low, high) == bucket_sum(histogram, low, high)
            + if low <= degree < high {
            count as nat
        } else {
            0nat
        },
    decreases high - low,
{
    if high > low {
        lemma_bucket_sum_insert(histogram, degree, count, low, high - 1);
    }
}

/// A histogram without buckets sums to 0.
pub proof fn lemma_bucket_sum_empty(low: int, high: int)
    ensures
        bucket_sum(Map::<usize, usize>::empty(), low, high) == 0,
    decreases high - low,
{
    if high > low {
        lemma_bucket_sum_empty(low, high - 1);
    }
}

/// The largest degree of a histogram is the one that is largest.
pub proof fn lemma_max_degree_is(histogram: Map<usize, usize>, degree: usize)
    requires
        is_largest_degree(histogram, degree),
    ensures
        max_degree(histogram) == degree,
{
    let chosen = max_degree(histogram);
    assert(is_largest_degree(histogram, chosen));
}

/// The heuristic never takes a histogram without nodes for a power law, be it
/// without buckets or with buckets that count nothing.
pub proof fn lemma_empty_histogram_is_no_power_law(histogram: Map<usize, usize>)
    ensures
        total_count(histogram) == 0 ==> !power_law_verdict(histogram),
        !power_law_verdict(Map::<usize, usize>::empty()),
{
    lemma_bucket_sum_empty(0, usize::MAX + 1);
}

/// The number of nodes below `nodes` whose out-degree is below `bound`.
pub open spec fn nodes_below_degree(edges: Seq<(usize, usize)>, nodes: nat, bound: int) -> nat
    decreases nodes,
{
    if nodes == 0 {
        0
    } else {
        nodes_below_degree(edges, (nodes - 1) as nat, bound) + if out_degree(edges, nodes - 1)
            < bound {
            1nat
        } else {
            0nat
        }
    }
}

/// The sum of the out-degrees of the nodes below `nodes` whose out-degree is
/// below `bound`.
pub open spec fn degrees_below(edges: Seq<(usize, usize)>, nodes: nat, bound: int) -> nat
    decreases nodes,
{
    if nodes == 0 {
        0
    } else {
        degrees_below(edges, (nodes - 1) as nat, bound) + if out_degree(edges, nodes - 1)
            < bound {
            out_degree(edges, nodes - 1)
        } else {
            0nat
        }
    }
}

/// The sum of `degree * count` over the buckets whose degree is at least
/// `low` and below `high`.
pub open spec fn weighted_sum(histogram: Map<usize, usize>, low: int, high: int) -> int
    decreases high - low,
{
    if high <= low {
        0
    } else {
        weighted_sum(histogram, low, high - 1) + (high - 1) * bucket(histogram, high - 1)
    }
}

/// Whether every edge leaves one of the nodes below `nodes` for another
/// node: the sources exist and there is no self-loop.
pub open spec fn leaves_for_others(edges: Seq<(usize, usize)>, nodes: nat) -> bool {
    forall|k: int|
        0 <= k < edges.len() ==> (#[trigger] edges[k]).0 < nodes && edges[k].0 != edges[k].1
}

/// No node has more outgoing edges than there are edges.
proof fn lemma_out_degree_bound(edges: Seq<(usize, usize)>, node: int)
    ensures
        out_degree(edges, node) <= edges.len(),
    decreases edges.len(),
{
    if edges.len() > 0 {
        lemma_out_degree_bound(edges.drop_last(), node);
    }
}

/// Raising the bound by one takes in the nodes whose out-degree is the old
/// bound.
proof fn lemma_raise_bound(edges: Seq<(usize, usize)>, nodes: nat, bound: int)
    ensures
        nodes_below_degree(edges, nodes, bound + 1) == nodes_below_degree(edges, nodes, bound)
            + nodes_of_degree(edges, nodes, bound),
        degrees_below(edges, nodes, bound + 1) == degrees_below(edges, nodes, bound) + bound
            * nodes_of_degree(edges, nodes, bound),
    decreases nodes,
{
    if nodes > 0 {
        lemma_raise_bound(edges, (nodes - 1) as nat, bound);
        let before = nodes_of_degree(edges, (nodes - 1) as nat, bound);
        assert(bound * (before + 1) == bound * before + bound) by (nonlinear_arith);
    } else {
        assert(nodes_of_degree(edges, nodes, bound) == 0);
    }
}

/// A bound above the number of edges takes in every node.
proof fn lemma_bound_above_all(edges: Seq<(usize, usize)>, nodes: nat, bound: int)
    requires
        bound > edges.len(),
    ensures
        nodes_below_degree(edges, nodes, bound) == nodes,
    decreases nodes,
{
    if nodes > 0 {
        lemma_bound_above_all(edges, (nodes - 1) as nat, bound);
        lemma_out_degree_bound(edges, nodes - 1);
    }
}

/// The buckets below a bound count, and weigh, the nodes whose out-degree is
/// below it.
proof fn lemma_buckets_below(
    histogram: Map<usize, usize>,
    edges: Seq<(usize, usize)>,
    nodes: nat,
    bound: int,
)
    requires
        is_degree_histogram(histogram, edges, nodes),
        0 <= bound <= usize::MAX + 1,
    ensures
        bucket_sum(histogram, 0, bound) == nodes_below_degree(edges, nodes, bound),
        weighted_sum(histogram, 0, bound) == degrees_below(edges, nodes, bound),
    decreases bound,
{
    if bound == 0 {
        lemma_none_below_zero(edges, nodes);
    } else {
        lemma_buckets_below(histogram, edges, nodes, bound - 1);
        lemma_raise_bound(edges, nodes, bound - 1);
        let degree = (bound - 1) as usize;
        assert(histogram.contains_key(degree) <==> nodes_of_degree(edges, nodes, degree as int)
            > 0);
    }
}

/// No node has an out-degree below 0.
proof fn lemma_none_below_zero(edges: Seq<(usize, usize)>, nodes: nat)
    ensures
        nodes_below_degree(edges, nodes, 0) == 0,
        degrees_below(edges, nodes, 0) == 0,
    decreases nodes,
{
    if nodes > 0 {
        lemma_none_below_zero(edges, (nodes - 1) as nat);
    }
}

/// The bucket counts of a degree histogram sum to the number of nodes.
pub proof fn lemma_histogram_counts_every_node(
    histogram: Map<usize, usize>,
    edges: Seq<(usize, usize)>,
    nodes: nat,
)
    requires
        is_degree_histogram(histogram, edges, nodes),
        edges.len() <= usize::MAX,
    ensures
        total_count(histogram) == nodes,
{
    lemma_buckets_below(histogram, edges, nodes, usize::MAX + 1);
    lemma_bound_above_all(edges, nodes, usize::MAX + 1);
}

/// The sum of the out-degrees of the nodes below `nodes`.
pub open spec fn degree_sum(edges: Seq<(usize, usize)>, nodes: nat) -> nat
    decreases nodes,
{
    if nodes == 0 {
        0
    } else {
        degree_sum(edges, (nodes - 1) as nat) + out_degree(edges, nodes - 1)
    }
}

/// A bound above the number of edges takes in every out-degree.
proof fn lemma_degrees_below_all(edges: Seq<(usize, usize)>, nodes: nat, bound: int)
    requires
        bound > edges.len(),
    ensures
        degrees_below(edges, nodes, bound) == degree_sum(edges, nodes),
    decreases nodes,
{
    if nodes > 0 {
        lemma_degrees_below_all(edges, (nodes - 1) as nat, bound);
        lemma_out_degree_bound(edges, nodes - 1);
    }
}

/// One more edge adds one to the sum of out-degrees where it leaves one of
/// the nodes for another, and nothing otherwise.
proof fn lemma_degree_sum_push(edges: Seq<(usize, usize)>, edge: (usize, usize), nodes: nat)
    ensures
        degree_sum(edges.push(edge), nodes) == degree_sum(edges, nodes) + if edge.0 < nodes
            && edge.0 != edge.1 {
            1nat
        } else {
            0nat
        },
    decreases nodes,
{
    if nodes > 0 {
        lemma_degree_sum_push(edges, edge, (nodes - 1) as nat);
        assert(edges.push(edge).drop_last() == edges);
    }
}

/// Where every edge leaves a node for another, the out-degrees sum to the
/// number of edges.
pub proof fn lemma_degree_sum_counts_edges(edges: Seq<(usize, usize)>, nodes: nat)
    requires
        leaves_for_others(edges, nodes),
    ensures
        degree_sum(edges, nodes) == edges.len(),
    decreases edges.len(),
{
    if edges.len() == 0 {
        lemma_degree_sum_empty(edges, nodes);
    } else {
        let earlier = edges.drop_last();
        assert forall|k: int| 0 <= k < earlier.len() implies (#[trigger] earlier[k]).0 < nodes
            && earlier[k].0 != earlier[k].1 by {
            assert(earlier[k] == edges[k]);
        }
        lemma_degree_sum_counts_edges(earlier, nodes);
        lemma_degree_sum_push(earlier, edges.last(), nodes);
        assert(earlier.push(edges.last()) == edges);
        assert(edges[edges.len() - 1] == edges.last());
    }
}

/// Without edges every out-degree is 0.
proof fn lemma_degree_sum_empty(edges: Seq<(usize, usize)>, nodes: nat)
    requires
        edges.len() == 0,
    ensures
        degree_sum(edges, nodes) == 0,
    decreases nodes,
{
    if nodes > 0 {
        lemma_degree_sum_empty(edges, (nodes - 1) as nat);
    }
}

/// In a graph without self-loops, `degree * count` summed over the buckets
/// of its degree histogram is the number of edges.
pub proof fn lemma_histogram_weighs_every_edge(
    histogram: Map<usize, usize>,
    edges: Seq<(usize, usize)>,
    nodes: nat,
)
    requires
        is_degree_histogram(histogram, edges, nodes),
        leaves_for_others(edges, nodes),
        edges.len() <= usize::MAX,
    ensures
        weighted_sum(histogram, 0, usize::MAX + 1) == edges.len(),
{
    lemma_buckets_below(histogram, edges, nodes, usize::MAX + 1);
    lemma_degrees_below_all(edges, nodes, usize::MAX + 1);
    lemma_degree_sum_counts_edges(edges, nodes);
}

} // verus!

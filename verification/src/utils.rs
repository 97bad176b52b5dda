//! Analyses that read a finished graph or its degree histogram.

use crate::degree::bucket_sum;
use crate::degree::is_largest_degree;
use crate::degree::lemma_bucket_sum_empty;
use crate::degree::lemma_bucket_sum_insert;
use crate::degree::lemma_max_degree_is;
use crate::degree::max_degree;
use crate::degree::power_law_verdict;
use crate::digraph::graph_edges;
use crate::digraph::graph_labels;
use crate::paths::hop_matrix;
use crate::paths::matrix_entries;
use crate::paths::matrix_hops;
use crate::paths::row_entries;
use crate::paths::row_hops;
use crate::paths::shortest_hop_counts;
use crate::paths::DistanceMatrix;
use petgraph::graph::DiGraph;
use std::collections::HashMap;
use vstd::prelude::*;
use vstd::std_specs::iter::IteratorSpec;

verus! {

/// An average path length, kept exact as a ratio: the sum of the hop
/// distances of all entries of a distance matrix over the number of entries.
/// The average is `total_hops / pairs`, and 0 where `pairs` is 0.
#[derive(Debug, Clone, Copy, PartialEq, Eq, Structural)]
pub struct AveragePathLength {
    /// Sum of the hop distances of all reachable ordered pairs of distinct nodes.
    pub total_hops: u128,
    /// Number of reachable ordered pairs of distinct nodes.
    pub pairs: u64,
}

/// Sums and counts the entries of a distance matrix.
pub fn average_over(matrix: &DistanceMatrix) -> (average: AveragePathLength)
    ensures
        average.total_hops == matrix_hops(matrix@, matrix.node_total(), matrix.node_total()),
        average.pairs == matrix_entries(matrix@, matrix.node_total(), matrix.node_total()),
{
    let nodes = matrix.node_count();
    let mut total_hops: u128 = 0;
    let mut pairs: u64 = 0;
    let mut from: usize = 0;
    while from < nodes
        invariant
            from <= nodes <= i32::MAX,
            nodes == matrix.node_total(),
            total_hops == matrix_hops(matrix@, from as nat, nodes as nat),
            pairs == matrix_entries(matrix@, from as nat, nodes as nat),
            total_hops <= from * 0x1_0000_0000_0000_0000,
            pairs <= from * 0x1_0000_0000,
        decreases nodes - from,
    {
        let mut row_total: u64 = 0;
        let mut row_pairs: u32 = 0;
        let mut to: usize = 0;
        while to < nodes
            invariant
                to <= nodes <= i32::MAX,
                from < nodes,
                nodes == matrix.node_total(),
                row_total == row_hops(matrix@, from as int, to as nat),
                row_pairs == row_entries(matrix@, from as int, to as nat),
                row_total <= to * 0x1_0000_0000,
                row_pairs <= to,
            decreases nodes - to,
        {
            match matrix.distance(from, to) {
                Some(hops) => {
                    row_total = row_total + hops as u64;
                    row_pairs = row_pairs + 1;
                },
                None => {},
            }
            to = to + 1;
        }
        total_hops = total_hops + row_total as u128;
        pairs = pairs + row_pairs as u64;
        from = from + 1;
    }
    AveragePathLength { total_hops, pairs }
}

/// The average shortest-path length of a graph over its reachable ordered
/// pairs of distinct nodes, every edge counting as one hop.
///
/// Unreachable pairs and a node paired with itself are left out. Where the
/// distances cannot be computed the result is the empty ratio, whose average
/// is 0; that is so for a graph of more than `i32::MAX` nodes and for no other.
pub fn calculate_average_path_length(graph: &DiGraph<String, i32>) -> (average: AveragePathLength)
    ensures
        graph_labels(*graph).len() <= i32::MAX ==> {
            let nodes = graph_labels(*graph).len();
            let matrix = hop_matrix(nodes, graph_edges(*graph));
            &&& average.total_hops == matrix_hops(matrix, nodes, nodes)
            &&& average.pairs == matrix_entries(matrix, nodes, nodes)
        },
        graph_labels(*graph).len() > i32::MAX ==> average.total_hops == 0 && average.pairs == 0,
{
    match shortest_hop_counts(graph) {
        Ok(matrix) => average_over(&matrix),
        Err(_) => AveragePathLength { total_hops: 0, pairs: 0 },
    }
}

/// Whether `rows` lists the buckets of `distribution`: each row is a bucket
/// with its count, each bucket has its row, and no degree has two rows.
pub open spec fn lists_buckets(rows: Seq<(usize, usize)>, distribution: Map<usize, usize>) -> bool {
    &&& rows.len() == distribution.dom().len()
    &&& forall|k: int|
        0 <= k < rows.len() ==> distribution.contains_key((#[trigger] rows[k]).0)
            && distribution[rows[k].0] == rows[k].1
    &&& forall|i: int, j: int|
        0 <= i < j < rows.len() ==> (#[trigger] rows[i]).0 != (#[trigger] rows[j]).0
    &&& forall|degree: usize| #[trigger]
        distribution.contains_key(degree) ==> exists|k: int|
            0 <= k < rows.len() && #[trigger] rows[k] == (degree, distribution[degree])
}

/// Lists the buckets of a degree histogram as `(degree, count)` rows, one per
/// bucket, in the order in which the map hands them out.
pub fn distribution_rows(distribution: &HashMap<usize, usize>) -> (rows: Vec<(usize, usize)>)
    ensures
        lists_buckets(rows@, distribution@),
{
    broadcast use vstd::std_specs::hash::group_hash_axioms;

    let mut rows: Vec<(usize, usize)> = Vec::new();
    for entry in it: distribution.iter()
        invariant
            rows@.len() == it.index(),
            it.seq() == distribution.iter().remaining(),
            it.seq().no_duplicates(),
            forall|k: int|
                0 <= k < rows@.len() ==> (#[trigger] rows@[k]).0 == *it.seq()[k].0 && rows@[k].1
                    == *it.seq()[k].1,
    {
        rows.push((*entry.0, *entry.1));
    }
    proof {
        let entries = distribution.iter().remaining();
        assert(rows@.len() == entries.len());
        assert forall|i: int, j: int| 0 <= i < j < rows@.len() implies (#[trigger] rows@[i]).0 != (
        #[trigger] rows@[j]).0 by {
            assert(distribution@.contains_key(*entries[i].0));
            assert(distribution@.contains_key(*entries[j].0));
            if rows@[i].0 == rows@[j].0 {
                assert(entries[i] == entries[j]);
            }
        }
        assert forall|degree: usize| #[trigger] distribution@.contains_key(degree) implies exists|
            k: int,
        |
            0 <= k < rows@.len() && #[trigger] rows@[k] == (degree, distribution@[degree]) by {
            assert(entries.contains((&degree, &distribution@[degree])));
            let k = choose|k: int|
                0 <= k < entries.len() && entries[k] == (&degree, &distribution@[degree]);
            assert(rows@[k] == (degree, distribution@[degree]));
        }
    }
    rows
}

/// The buckets that the first `upto` rows list.
spec fn listed(rows: Seq<(usize, usize)>, upto: int) -> Map<usize, usize>
    decreases upto,
{
    if upto <= 0 {
        Map::empty()
    } else {
        listed(rows, upto - 1).insert(rows[upto - 1].0, rows[upto - 1].1)
    }
}

/// Rows that list a histogram's buckets give the histogram back.
proof fn lemma_listed(rows: Seq<(usize, usize)>, distribution: Map<usize, usize>, upto: int)
    requires
        lists_buckets(rows, distribution),
        0 <= upto <= rows.len(),
    ensures
        forall|degree: usize| #[trigger]
            listed(rows, upto).contains_key(degree) <==> exists|k: int|
                0 <= k < upto && (#[trigger] rows[k]).0 == degree,
        forall|k: int|
            0 <= k < upto ==> listed(rows, upto).contains_key((#[trigger] rows[k]).0) && listed(
                rows,
                upto,
            )[rows[k].0] == rows[k].1,
        upto == rows.len() ==> listed(rows, upto) == distribution,
    decreases upto,
{
    if upto > 0 {
        lemma_listed(rows, distribution, upto - 1);
        let before = listed(rows, upto - 1);
        let now = listed(rows, upto);
        assert forall|degree: usize| #[trigger] now.contains_key(degree) implies exists|k: int|
            0 <= k < upto && (#[trigger] rows[k]).0 == degree by {
            if degree == rows[upto - 1].0 {
            } else {
                assert(before.contains_key(degree));
                let k = choose|k: int| 0 <= k < upto - 1 && (#[trigger] rows[k]).0 == degree;
                assert(rows[k].0 == degree);
            }
        }
        assert forall|k: int| 0 <= k < upto implies now.contains_key((#[trigger] rows[k]).0)
            && now[rows[k].0] == rows[k].1 by {
            if k < upto - 1 {
                assert(before.contains_key(rows[k].0));
            }
        }
    }
    if upto == rows.len() {
        let all = listed(rows, upto);
        assert forall|degree: usize| all.contains_key(degree) == distribution.contains_key(
            degree,
        ) by {
            if distribution.contains_key(degree) {
                let k = choose|k: int|
                    0 <= k < rows.len() && #[trigger] rows[k] == (degree, distribution[degree]);
                assert(rows[k].0 == degree);
            }
            if all.contains_key(degree) {
                let k = choose|k: int| 0 <= k < upto && (#[trigger] rows[k]).0 == degree;
                assert(distribution.contains_key(rows[k].0));
            }
        }
        assert forall|degree: usize| all.contains_key(degree) implies all[degree]
            == distribution[degree] by {
            let k = choose|k: int| 0 <= k < upto && (#[trigger] rows[k]).0 == degree;
            assert(all[rows[k].0] == rows[k].1);
            assert(distribution[rows[k].0] == rows[k].1);
        }
        assert(all =~= distribution);
    }
}

/// Sums the counts of the rows whose degree is at least `low` and at most
/// `high`.
fn sum_between(
    rows: &Vec<(usize, usize)>,
    low: usize,
    high: usize,
    Ghost(distribution): Ghost<Map<usize, usize>>,
) -> (sum: u128)
    requires
        lists_buckets(rows@, distribution),
    ensures
        sum == bucket_sum(distribution, low as int, high + 1),
{
    let mut sum: u128 = 0;
    let mut k: usize = 0;
    proof {
        lemma_bucket_sum_empty(low as int, high + 1);
    }
    while k < rows.len()
        invariant
            k <= rows.len(),
            lists_buckets(rows@, distribution),
            sum == bucket_sum(listed(rows@, k as int), low as int, high + 1),
            sum <= k * usize::MAX,
        decreases rows.len() - k,
    {
        proof {
            lemma_listed(rows@, distribution, k as int);
            let before = listed(rows@, k as int);
            if before.contains_key(rows@[k as int].0) {
                let j = choose|j: int|
                    0 <= j < k && (#[trigger] rows@[j]).0 == rows@[k as int].0;
                assert(rows@[j].0 != rows@[k as int].0);
            }
            lemma_bucket_sum_insert(
                before,
                rows@[k as int].0,
                rows@[k as int].1,
                low as int,
                high + 1,
            );
            assert(k * usize::MAX + usize::MAX == (k + 1) * usize::MAX) by (nonlinear_arith);
            assert((k + 1) * usize::MAX <= usize::MAX * usize::MAX) by (nonlinear_arith)
                requires
                    k + 1 <= usize::MAX,
            ;
        }
        if low <= rows[k].0 && rows[k].0 <= high {
            sum = sum + rows[k].1 as u128;
        }
        k = k + 1;
    }
    proof {
        lemma_listed(rows@, distribution, k as int);
    }
    sum
}

/// The largest degree among the rows, and 0 where there are none.
fn largest_degree(
    rows: &Vec<(usize, usize)>,
    Ghost(distribution): Ghost<Map<usize, usize>>,
) -> (largest: usize)
    requires
        lists_buckets(rows@, distribution),
    ensures
        largest == max_degree(distribution),
{
    let mut largest: usize = 0;
    let mut k: usize = 0;
    while k < rows.len()
        invariant
            k <= rows.len(),
            forall|j: int| 0 <= j < k ==> (#[trigger] rows@[j]).0 <= largest,
            k == 0 ==> largest == 0,
            k > 0 ==> exists|j: int| 0 <= j < k && (#[trigger] rows@[j]).0 == largest,
        decreases rows.len() - k,
    {
        if rows[k].0 > largest {
            largest = rows[k].0;
        }
        proof {
            if rows@[k as int].0 != largest {
                let j = choose|j: int| 0 <= j < k && (#[trigger] rows@[j]).0 == largest;
                assert(rows@[j].0 == largest);
            } else {
                assert(rows@[k as int].0 == largest);
            }
        }
        k = k + 1;
    }
    proof {
        if k > 0 {
            let j = choose|j: int| 0 <= j < k && (#[trigger] rows@[j]).0 == largest;
            assert(distribution.contains_key(rows@[j].0));
            assert forall|other: usize| distribution.contains_key(other) implies other
                <= largest by {
                let i = choose|i: int|
                    0 <= i < rows@.len() && #[trigger] rows@[i] == (other, distribution[other]);
                assert(rows@[i].0 <= largest);
            }
            lemma_max_degree_is(distribution, largest);
        } else {
            assert forall|degree: usize| !is_largest_degree(distribution, degree) by {
                if distribution.contains_key(degree) {
                    let i = choose|i: int|
                        0 <= i < rows@.len() && #[trigger] rows@[i] == (
                            degree,
                            distribution[degree],
                        );
                }
            }
        }
    }
    largest
}

/// The largest degree that has a bucket, and 0 for a histogram without
/// buckets.
pub fn maximum_degree(distribution: &HashMap<usize, usize>) -> (largest: usize)
    ensures
        largest == max_degree(distribution@),
{
    let rows = distribution_rows(distribution);
    largest_degree(&rows, Ghost(distribution@))
}

/// Whether `part` is more than 60% of `whole`, without overflow.
fn exceeds_sixty_percent(part: u128, whole: u128) -> (more: bool)
    ensures
        more == (part * 100 > whole * 60),
{
    part > 3 * (whole / 5) + (3 * (whole % 5)) / 5
}

/// Whether `part` is less than 5% of `whole`, without overflow.
fn below_five_percent(part: u128, whole: u128) -> (less: bool)
    ensures
        less == (part * 100 < whole * 5),
{
    whole > 0 && part <= (whole - 1) / 20
}

/// The power-law heuristic on a degree histogram: whether more than 60% of
/// the nodes have a degree of at most 2 while fewer than 5% have a degree of
/// at least four fifths of the largest degree.
///
/// The verdict depends on the histogram alone, and a histogram without nodes
/// is no power law.
pub fn analyze_power_law(degree_distribution: &HashMap<usize, usize>) -> (verdict: bool)
    ensures
        verdict == power_law_verdict(degree_distribution@),
{
    let ghost histogram = degree_distribution@;
    let rows = distribution_rows(degree_distribution);
    let total_nodes = sum_between(&rows, 0, usize::MAX, Ghost(histogram));
    let max_degree = largest_degree(&rows, Ghost(histogram));
    let low_degree_nodes = sum_between(&rows, 0, 2, Ghost(histogram));
    let threshold: u128 = max_degree as u128 * 4 / 5;
    let high_degree_nodes = sum_between(&rows, threshold as usize, usize::MAX, Ghost(histogram));
    exceeds_sixty_percent(low_degree_nodes, total_nodes) && below_five_percent(
        high_degree_nodes,
        total_nodes,
    )
}

} // verus!

//! The three statistics of a transaction graph.

use std::collections::HashMap;
use vstd::prelude::*;

use crate::graph::{adjacency, children};
use crate::paths::{
    depth_levels, distance, lemma_distance_is, lemma_root_distance, level, reachable,
    reachable_nodes, walk, Adjacency, ROOT,
};
use crate::record::{count_transactions_at_depth, timestamp_count, TransactionNode};
use crate::sums::{
    lemma_seq_sum_split, lemma_seq_sum_update, lemma_seq_sum_zeros, lemma_set_sum_agree,
    lemma_set_sum_empty, lemma_set_sum_insert, lemma_set_sum_remove, seq_sum, set_sum,
};
use crate::traversal::{
    breadth_first, is_traversal, lemma_no_visits, lemma_traversal_levels, lemma_traversal_nodes,
    nodes_of, visits_at, visits_depth, Visit,
};

verus! {

/// An average as an exact quotient. Where there is nothing to average
/// the quotient is 0 over 1, so the denominator is never 0. The numerator
/// is wide enough for a sum of as many machine words as a machine word
/// can count.
#[derive(Clone, Copy, Debug, PartialEq, Eq, Structural)]
pub struct Ratio {
    pub numerator: u128,
    pub denominator: usize,
}

impl Ratio {
    /// The quotient can be taken: the denominator is not 0.
    pub open spec fn well_formed(self) -> bool {
        self.denominator > 0
    }

    /// The quotient `total / count`, and 0 over 1 where `count` is 0.
    pub open spec fn is_mean(self, total: nat, count: nat) -> bool {
        if count == 0 {
            self.numerator == 0 && self.denominator == 1
        } else {
            self.numerator == total && self.denominator == count
        }
    }
}

/// Sum of the distances from the root of all reachable nodes.
pub open spec fn total_depth(g: Adjacency) -> nat {
    set_sum(reachable_nodes(g), |node: usize| distance(g, node))
}

/// Mean breadth-first depth of the nodes that can be reached from the
/// root. The root itself is always among them, at depth 0, so there is
/// always something to average.
pub fn calculate_average_depth(graph: &HashMap<usize, Vec<usize>>) -> (average: Ratio)
    ensures
        reachable_nodes(adjacency(*graph)).finite(),
        reachable_nodes(adjacency(*graph)).len() > 0,
        forall|node: usize|
            reachable(adjacency(*graph), node) ==> distance(adjacency(*graph), node)
                < reachable_nodes(adjacency(*graph)).len(),
        average.is_mean(total_depth(adjacency(*graph)), reachable_nodes(adjacency(*graph)).len()),
        average.well_formed(),
{
    let ghost g = adjacency(*graph);
    let ghost depth_of = |node: usize| distance(g, node);
    let order = breadth_first(graph);
    let mut total_depth: u128 = 0;
    let mut num_nodes: usize = 0;
    proof {
        lemma_traversal_nodes(g, order@, 0);
        lemma_set_sum_empty(depth_of);
        assert(nodes_of(order@.take(0)) =~= Set::empty());
    }
    while num_nodes < order.len()
        invariant
            g == adjacency(*graph),
            depth_of == (|node: usize| distance(g, node)),
            is_traversal(g, order@),
            num_nodes <= order.len(),
            total_depth <= num_nodes * 0xffff_ffff_ffff_ffff,
            total_depth == set_sum(nodes_of(order@.take(num_nodes as int)), depth_of),
        decreases order.len() - num_nodes,
    {
        proof {
            lemma_traversal_nodes(g, order@, num_nodes as int);
            lemma_set_sum_insert(
                nodes_of(order@.take(num_nodes as int)),
                depth_of,
                order@[num_nodes as int].node,
            );
            lemma_distance_is(g, order@[num_nodes as int].node, order@[num_nodes as int].depth as nat);
        }
        total_depth = total_depth + order[num_nodes].depth as u128;
        num_nodes = num_nodes + 1;
    }
    proof {
        lemma_traversal_nodes(g, order@, num_nodes as int);
        assert(order@.take(num_nodes as int) =~= order@);
        lemma_root_distance(g);
        assert(walk(g, ROOT, 0));
        assert(reachable_nodes(g).contains(ROOT));
        assert forall|node: usize| reachable(g, node) implies distance(g, node) < order@.len() by {
            let i = choose|i: int| 0 <= i < order@.len() && (#[trigger] order@[i]).node == node;
            lemma_distance_is(g, node, order@[i].depth as nat);
        }
    }
    Ratio { numerator: total_depth, denominator: num_nodes }
}

/// What the nodes at depth `depth` add up to: each of them adds the
/// number of records whose timestamp is `depth`.
pub open spec fn depth_total(records: Seq<TransactionNode>, g: Adjacency, depth: usize) -> nat {
    level(g, depth as nat).len() * timestamp_count(records, depth)
}

/// Sum of the per-depth totals over every depth but 0.
pub open spec fn deeper_total(records: Seq<TransactionNode>, g: Adjacency) -> nat {
    set_sum(depth_levels(g).remove(0), |depth: usize| depth_total(records, g, depth))
}

/// The totals held by `totals`, as a function of the depth.
spec fn held(totals: Map<usize, u128>) -> spec_fn(usize) -> nat {
    |depth: usize| totals[depth] as nat
}

/// Adding `amount` under one key adds it to the sum of all totals.
proof fn lemma_accumulate(totals: Map<usize, u128>, depth: usize, sum: u128, amount: nat)
    requires
        totals.dom().finite(),
        sum == amount + (if totals.contains_key(depth) {
            totals[depth] as nat
        } else {
            0
        }),
    ensures
        set_sum(totals.insert(depth, sum).dom(), held(totals.insert(depth, sum))) == set_sum(
            totals.dom(),
            held(totals),
        ) + amount,
{
    let after = totals.insert(depth, sum);
    let others = totals.dom().remove(depth);
    lemma_set_sum_agree(others, held(totals), held(after));
    lemma_set_sum_insert(others, held(after), depth);
    assert(others.insert(depth) =~= after.dom());
    if totals.contains_key(depth) {
        lemma_set_sum_remove(totals.dom(), held(totals), depth);
    } else {
        assert(others =~= totals.dom());
    }
}

/// Once a traversal has been accumulated depth by depth, the totals
/// are those of the levels of the graph.
proof fn lemma_totals_of_levels(
    records: Seq<TransactionNode>,
    g: Adjacency,
    order: Seq<Visit>,
    totals: Map<usize, u128>,
)
    requires
        is_traversal(g, order),
        totals.dom().finite(),
        forall|depth: usize| totals.contains_key(depth) <==> visits_depth(order, depth),
        forall|depth: usize| #[trigger]
            totals.contains_key(depth) ==> totals[depth] == visits_at(order, depth) * timestamp_count(
                records,
                depth,
            ),
    ensures
        totals.dom() == depth_levels(g),
        totals.contains_key(0),
        set_sum(totals.dom(), held(totals)) == deeper_total(records, g) + totals[0],
{
    assert forall|depth: usize| totals.contains_key(depth) <==> depth_levels(g).contains(depth) by {
        lemma_traversal_levels(g, order, depth);
    }
    assert(totals.dom() =~= depth_levels(g));
    lemma_root_distance(g);
    assert(depth_levels(g).contains(0));
    lemma_set_sum_remove(totals.dom(), held(totals), 0);
    assert forall|depth: usize| totals.dom().remove(0).contains(depth) implies held(totals)(depth)
        == depth_total(records, g, depth) by {
        lemma_traversal_levels(g, order, depth);
    }
    lemma_set_sum_agree(
        totals.dom().remove(0),
        held(totals),
        |depth: usize| depth_total(records, g, depth),
    );
}

/// Mean of the per-depth totals over the depths below the root's. Every
/// node met at depth `d` adds to the total of `d` the number of records
/// whose timestamp is `d`. The result is 0 where there is no record or
/// no depth but the root's.
pub fn calculate_average_txs_per_depth(
    nodes: &[TransactionNode],
    graph: &HashMap<usize, Vec<usize>>,
) -> (average: Ratio)
    ensures
        nodes@.len() > 0 ==> depth_levels(adjacency(*graph)).finite() && depth_levels(
            adjacency(*graph),
        ).contains(0),
        average.is_mean(
            deeper_total(nodes@, adjacency(*graph)),
            if nodes@.len() == 0 {
                0
            } else {
                (depth_levels(adjacency(*graph)).len() - 1) as nat
            },
        ),
        average.well_formed(),
{
    broadcast use vstd::std_specs::hash::group_hash_axioms;

    if nodes.len() == 0 {
        return Ratio { numerator: 0, denominator: 1 };
    }
    let ghost g = adjacency(*graph);
    let order = breadth_first(graph);
    let mut depth_txs: HashMap<usize, u128> = HashMap::new();
    let mut total_txs: u128 = 0;
    let mut i: usize = 0;
    proof {
        lemma_set_sum_empty(held(depth_txs@));
        assert(depth_txs@.dom() =~= Set::empty());
    }
    while i < order.len()
        invariant
            i <= order.len(),
            depth_txs@.dom().finite(),
            forall|depth: usize|
                depth_txs@.contains_key(depth) <==> visits_depth(order@.take(i as int), depth),
            forall|depth: usize| #[trigger]
                depth_txs@.contains_key(depth) ==> depth_txs@[depth] == visits_at(
                    order@.take(i as int),
                    depth,
                ) * timestamp_count(nodes@, depth),
            forall|depth: usize| #[trigger] depth_txs@.contains_key(depth) ==> depth_txs@[depth] <= total_txs,
            total_txs == set_sum(depth_txs@.dom(), held(depth_txs@)),
            total_txs <= i * 0xffff_ffff_ffff_ffff,
        decreases order.len() - i,
    {
        let depth = order[i].depth;
        let tx_count = count_transactions_at_depth(nodes, depth) as u128;
        let ghost before = depth_txs@;
        let ghost prefix = order@.take(i as int);
        let ghost longer = order@.take(i + 1);
        let slot = depth_txs.entry(depth).or_insert(0);
        *slot = *slot + tx_count;
        total_txs = total_txs + tx_count;
        proof {
            lemma_accumulate(before, depth, depth_txs@[depth], tx_count as nat);
            assert(longer.drop_last() =~= prefix);
            assert(longer.last() == order@[i as int]);
            assert forall|d: usize| depth_txs@.contains_key(d) <==> visits_depth(longer, d) by {
                if visits_depth(prefix, d) {
                    let k = choose|k: int| 0 <= k < prefix.len() && (#[trigger] prefix[k]).depth == d;
                    assert(longer[k].depth == d);
                }
                if d == depth {
                    assert(longer[i as int].depth == d);
                }
                if visits_depth(longer, d) && d != depth {
                    let k = choose|k: int| 0 <= k < longer.len() && (#[trigger] longer[k]).depth == d;
                    assert(prefix[k].depth == d);
                }
            }
            assert forall|d: usize| #[trigger] depth_txs@.contains_key(d) implies depth_txs@[d]
                == visits_at(longer, d) * timestamp_count(nodes@, d) by {
                reveal(Seq::filter);
                if d == depth {
                    let count = timestamp_count(nodes@, d);
                    let met = visits_at(prefix, d);
                    assert((met + 1) * count == met * count + count) by (nonlinear_arith);
                    if !before.contains_key(d) {
                        lemma_no_visits(prefix, d);
                        assert(met * count == 0) by (nonlinear_arith)
                            requires
                                met == 0,
                        ;
                    }
                }
            }
        }
        i = i + 1;
    }
    let num_depths = depth_txs.len();
    proof {
        assert(order@.take(i as int) =~= order@);
        lemma_totals_of_levels(nodes@, g, order@, depth_txs@);
    }
    if num_depths > 1 {
        let at_root = match depth_txs.get(&0) {
            Some(total) => *total,
            None => 0,
        };
        Ratio { numerator: total_txs - at_root, denominator: num_depths - 1 }
    } else {
        Ratio { numerator: 0, denominator: 1 }
    }
}

/// `child` is the id of one of `count` records.
pub open spec fn is_record_id(child: usize, count: nat) -> bool {
    1 <= child <= count
}

/// Number of references that `parent` holds to the `count` records: the
/// children listed for it that are ids of records.
pub open spec fn references_from(g: Adjacency, parent: usize, count: nat) -> nat {
    children(g, parent).filter(|child: usize| is_record_id(child, count)).len()
}

/// Number of references that the first `parents` of `count` records hold
/// to these records.
pub open spec fn reference_total(g: Adjacency, count: nat, parents: nat) -> nat
    decreases parents,
{
    if parents == 0 {
        0
    } else {
        reference_total(g, count, (parents - 1) as nat) + references_from(g, parents as usize, count)
    }
}

/// Mean number of references that a record receives from the records:
/// every record is a parent and holds one reference to each child listed
/// for it. Where there is no record the mean is 0.
pub fn calculate_average_in_references(
    nodes: &[TransactionNode],
    graph: &HashMap<usize, Vec<usize>>,
) -> (average: Ratio)
    ensures
        average.is_mean(
            reference_total(adjacency(*graph), nodes@.len(), nodes@.len()),
            nodes@.len(),
        ),
        average.well_formed(),
{
    broadcast use vstd::std_specs::hash::group_hash_axioms;

    let count = nodes.len();
    if count == 0 {
        return Ratio { numerator: 0, denominator: 1 };
    }
    let ghost g = adjacency(*graph);
    let mut in_reference_counts: Vec<u128> = vec![0u128; count];
    let mut node_index: usize = 0;
    proof {
        lemma_seq_sum_zeros(in_reference_counts@);
    }
    while node_index < count
        invariant
            g == adjacency(*graph),
            count == nodes@.len(),
            node_index <= count,
            in_reference_counts@.len() == count,
            seq_sum(in_reference_counts@) == reference_total(g, count as nat, node_index as nat),
            seq_sum(in_reference_counts@) <= node_index * 0xffff_ffff_ffff_ffff,
        decreases count - node_index,
    {
        let parent = node_index + 1;
        match graph.get(&parent) {
            Some(referenced_by) => {
                let ghost listed = referenced_by@;
                let ghost wanted = |child: usize| is_record_id(child, count as nat);
                let mut k: usize = 0;
                proof {
                    assert(listed.take(0) =~= Seq::empty());
                    reveal(Seq::filter);
                }
                while k < referenced_by.len()
                    invariant
                        count == nodes@.len(),
                        node_index < count,
                        k <= referenced_by.len(),
                        listed == referenced_by@,
                        wanted == (|child: usize| is_record_id(child, count as nat)),
                        in_reference_counts@.len() == count,
                        seq_sum(in_reference_counts@) == reference_total(
                            g,
                            count as nat,
                            node_index as nat,
                        ) + listed.take(k as int).filter(wanted).len(),
                        listed.take(k as int).filter(wanted).len() <= k,
                        reference_total(g, count as nat, node_index as nat) <= node_index
                            * 0xffff_ffff_ffff_ffff,
                    decreases referenced_by.len() - k,
                {
                    let referencing_node = referenced_by[k];
                    proof {
                        reveal(Seq::filter);
                        assert(listed.take(k + 1).drop_last() =~= listed.take(k as int));
                    }
                    if 1 <= referencing_node && referencing_node <= count {
                        proof {
                            lemma_seq_sum_update(
                                in_reference_counts@,
                                referencing_node - 1,
                                (in_reference_counts@[referencing_node - 1] + 1) as u128,
                            );
                        }
                        let seen = in_reference_counts[referencing_node - 1];
                        in_reference_counts.set(referencing_node - 1, seen + 1);
                    }
                    k = k + 1;
                }
                proof {
                    assert(listed.take(k as int) =~= listed);
                }
            },
            None => {
                proof {
                    reveal(Seq::filter);
                }
            },
        }
        node_index = node_index + 1;
    }
    let mut total_in_references: u128 = 0;
    let mut i: usize = 0;
    proof {
        assert(in_reference_counts@.take(0) =~= Seq::empty());
        assert(in_reference_counts@.skip(0) =~= in_reference_counts@);
    }
    while i < count
        invariant
            i <= count,
            in_reference_counts@.len() == count,
            total_in_references == seq_sum(in_reference_counts@.take(i as int)),
            seq_sum(in_reference_counts@) <= u128::MAX,
            total_in_references + seq_sum(in_reference_counts@.skip(i as int)) == seq_sum(
                in_reference_counts@,
            ),
        decreases count - i,
    {
        proof {
            assert(in_reference_counts@.take(i + 1).drop_last() =~= in_reference_counts@.take(i as int));
            lemma_seq_sum_split(in_reference_counts@, i as int);
            lemma_seq_sum_split(in_reference_counts@, i + 1);
        }
        total_in_references = total_in_references + in_reference_counts[i];
        i = i + 1;
    }
    proof {
        assert(in_reference_counts@.take(i as int) =~= in_reference_counts@);
    }
    Ratio { numerator: total_in_references, denominator: count }
}

} // verus!

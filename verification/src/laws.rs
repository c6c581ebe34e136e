//! Laws that relate the functions of the library to each other.

use std::collections::HashMap;
use vstd::prelude::*;

use crate::graph::{adjacency, adjacency_of, children, with_edge};
use crate::metrics::{depth_total, is_record_id, reference_total, total_depth};
use crate::paths::{
    distance, has_edge, is_distance, lemma_distance_is, lemma_distance_of_reachable,
    lemma_distance_unique, lemma_root_distance, level, reachable, reachable_nodes, walk, Adjacency,
    ROOT,
};
use crate::record::{timestamp_count, TransactionNode};
use crate::sums::{lemma_set_sum_agree, lemma_set_sum_empty, lemma_set_sum_insert};

verus! {

/// The record with the 1-based position `id` names `parent` as one of its
/// parents.
pub open spec fn names_parent(records: Seq<TransactionNode>, id: usize, parent: usize) -> bool {
    &&& 1 <= id <= records.len()
    &&& parent > 0
    &&& (records[id - 1].left == parent || records[id - 1].right == parent)
}

/// The edges of the adjacency mapping of a record sequence are the
/// references of the records to their parents.
pub proof fn lemma_edges_are_references(records: Seq<TransactionNode>, parent: usize, child: usize)
    requires
        records.len() <= usize::MAX,
    ensures
        has_edge(adjacency_of(records), parent, child) <==> names_parent(records, child, parent),
    decreases records.len(),
{
    if records.len() > 0 {
        let front = records.drop_last();
        let last = records.last();
        let id = records.len() as usize;
        let before = adjacency_of(front);
        let middle = with_edge(before, last.left, id);
        let after = with_edge(middle, last.right, id);
        lemma_edges_are_references(front, parent, child);
        assert(has_edge(middle, parent, child) <==> (has_edge(before, parent, child) || (parent
            == last.left && parent > 0 && child == id))) by {
            lemma_edge_added(before, last.left, id, parent, child);
        }
        assert(has_edge(after, parent, child) <==> (has_edge(middle, parent, child) || (parent
            == last.right && parent > 0 && child == id))) by {
            lemma_edge_added(middle, last.right, id, parent, child);
        }
        if child < id && child >= 1 {
            assert(front[child - 1] == records[child - 1]);
        }
    }
}

/// `with_edge` adds one edge and keeps the others.
proof fn lemma_edge_added(g: Adjacency, from: usize, to: usize, parent: usize, child: usize)
    ensures
        has_edge(with_edge(g, from, to), parent, child) <==> (has_edge(g, parent, child) || (parent
            == from && from > 0 && child == to)),
{
    let after = with_edge(g, from, to);
    if from > 0 {
        let old_list = children(g, from);
        let new_list = old_list.push(to);
        if has_edge(g, parent, child) {
            let j = choose|j: int| 0 <= j < g[parent].len() && g[parent][j] == child;
            if parent == from {
                assert(new_list[j] == child);
            }
        }
        if parent == from && child == to {
            assert(new_list[old_list.len() as int] == to);
        }
        if has_edge(after, parent, child) && parent == from && child != to {
            let j = choose|j: int| 0 <= j < new_list.len() && new_list[j] == child;
            assert(old_list[j] == child);
        }
    }
}

/// Building a graph is a function of the records: two graphs that hold
/// the adjacency mapping of the same records have the same parents and
/// list the same children for each, in the same order.
pub proof fn lemma_build_graph_deterministic(
    records: Seq<TransactionNode>,
    first: HashMap<usize, Vec<usize>>,
    second: HashMap<usize, Vec<usize>>,
)
    requires
        adjacency(first) == adjacency_of(records),
        adjacency(second) == adjacency_of(records),
    ensures
        forall|parent: usize| first@.contains_key(parent) <==> second@.contains_key(parent),
        forall|parent: usize| #[trigger]
            first@.contains_key(parent) ==> first@[parent]@ == second@[parent]@,
{
    assert forall|parent: usize| first@.contains_key(parent) <==> second@.contains_key(parent) by {
        assert(adjacency(first).contains_key(parent) <==> first@.contains_key(parent));
        assert(adjacency(second).contains_key(parent) <==> second@.contains_key(parent));
    }
    assert forall|parent: usize| #[trigger] first@.contains_key(parent) implies first@[parent]@
        == second@[parent]@ by {
        assert(adjacency(first)[parent] == first@[parent]@);
        assert(adjacency(second).contains_key(parent));
        assert(adjacency(second)[parent] == second@[parent]@);
    }
}

/// Where nothing is listed for the root, every walk stays at the root.
proof fn lemma_walks_of_root_alone(g: Adjacency, node: usize, steps: nat)
    requires
        children(g, ROOT).len() == 0,
        walk(g, node, steps),
    ensures
        node == ROOT,
        steps == 0,
    decreases steps,
{
    if steps > 0 {
        let via = choose|via: usize|
            walk(g, via, (steps - 1) as nat) && #[trigger] has_edge(g, via, node);
        lemma_walks_of_root_alone(g, via, (steps - 1) as nat);
        assert(children(g, ROOT).contains(node));
    }
}

/// Where nothing is listed for the root, the root is the only node that
/// can be reached, and the total depth is 0.
pub proof fn lemma_root_alone(g: Adjacency)
    requires
        children(g, ROOT).len() == 0,
    ensures
        reachable_nodes(g) == Set::<usize>::empty().insert(ROOT),
        reachable_nodes(g).len() == 1,
        total_depth(g) == 0,
{
    let only = Set::<usize>::empty().insert(ROOT);
    assert forall|node: usize| reachable_nodes(g).contains(node) <==> only.contains(node) by {
        if reachable(g, node) {
            let steps = choose|steps: nat| walk(g, node, steps);
            lemma_walks_of_root_alone(g, node, steps);
        }
        if node == ROOT {
            assert(walk(g, ROOT, 0));
        }
    }
    assert(reachable_nodes(g) =~= only);
    lemma_root_distance(g);
    lemma_distance_is(g, ROOT, 0);
    lemma_set_sum_empty(|node: usize| distance(g, node));
    lemma_set_sum_insert(Set::<usize>::empty(), |node: usize| distance(g, node), ROOT);
}

/// Walks only see the children of reachable nodes: where two adjacency
/// mappings list the same children for every node that is reachable in
/// the first, they have the same walks.
pub proof fn lemma_same_walks(g: Adjacency, h: Adjacency, node: usize, steps: nat)
    requires
        forall|v: usize| reachable(g, v) ==> children(g, v) == children(h, v),
    ensures
        walk(g, node, steps) <==> walk(h, node, steps),
    decreases steps,
{
    if steps > 0 {
        let fewer = (steps - 1) as nat;
        if walk(g, node, steps) {
            let via = choose|via: usize| walk(g, via, fewer) && #[trigger] has_edge(g, via, node);
            lemma_same_walks(g, h, via, fewer);
            assert(reachable(g, via));
            assert(children(h, via).contains(node));
            assert(has_edge(h, via, node));
        }
        if walk(h, node, steps) {
            let via = choose|via: usize| walk(h, via, fewer) && #[trigger] has_edge(h, via, node);
            lemma_same_walks(g, h, via, fewer);
            assert(reachable(g, via));
            assert(children(g, via).contains(node));
            assert(has_edge(g, via, node));
        }
    }
}

/// The average depth leaves out what cannot be reached: whatever two
/// adjacency mappings list for the nodes that are not reachable, where
/// they agree on the reachable ones they have the same reachable nodes,
/// at the same distances, and so the same total depth.
pub proof fn lemma_unreachable_excluded(g: Adjacency, h: Adjacency)
    requires
        reachable_nodes(g).finite(),
        forall|v: usize| reachable(g, v) ==> children(g, v) == children(h, v),
    ensures
        reachable_nodes(h) == reachable_nodes(g),
        forall|v: usize| reachable(g, v) ==> distance(h, v) == distance(g, v),
        total_depth(h) == total_depth(g),
{
    assert forall|v: usize, steps: nat| walk(g, v, steps) <==> walk(h, v, steps) by {
        lemma_same_walks(g, h, v, steps);
    }
    assert forall|v: usize| reachable(g, v) <==> reachable(h, v) by {
        if reachable(g, v) {
            let steps = choose|steps: nat| walk(g, v, steps);
            assert(walk(h, v, steps));
        }
        if reachable(h, v) {
            let steps = choose|steps: nat| walk(h, v, steps);
            assert(walk(g, v, steps));
        }
    }
    assert(reachable_nodes(h) =~= reachable_nodes(g));
    assert forall|v: usize| reachable(g, v) implies distance(h, v) == distance(g, v) by {
        lemma_distance_of_reachable(g, v);
        assert(is_distance(h, v, distance(g, v)));
        lemma_distance_is(h, v, distance(g, v));
    }
    lemma_set_sum_agree(
        reachable_nodes(g),
        |node: usize| distance(g, node),
        |node: usize| distance(h, node),
    );
}

/// The ids up to `bound` are finitely many.
proof fn lemma_ids_finite(bound: usize)
    ensures
        Set::new(|id: usize| id <= bound).finite(),
    decreases bound,
{
    let ids = Set::new(|id: usize| id <= bound);
    if bound == 0 {
        assert(ids =~= Set::empty().insert(0usize));
    } else {
        let fewer = (bound - 1) as usize;
        lemma_ids_finite(fewer);
        assert(ids =~= Set::new(|id: usize| id <= fewer).insert(bound));
    }
}

/// In the graph of a record sequence only the root and ids of records
/// can be reached, so the reachable nodes are finitely many.
pub proof fn lemma_reachable_are_records(records: Seq<TransactionNode>)
    requires
        records.len() <= usize::MAX,
    ensures
        forall|node: usize|
            reachable(adjacency_of(records), node) ==> node == ROOT || 1 <= node <= records.len(),
        reachable_nodes(adjacency_of(records)).finite(),
{
    let g = adjacency_of(records);
    assert forall|node: usize| reachable(g, node) implies node == ROOT || 1 <= node
        <= records.len() by {
        let steps = choose|steps: nat| walk(g, node, steps);
        if steps > 0 {
            let via = choose|via: usize|
                walk(g, via, (steps - 1) as nat) && #[trigger] has_edge(g, via, node);
            lemma_edges_are_references(records, via, node);
        }
    }
    let bound = if records.len() == 0 {
        1usize
    } else {
        records.len() as usize
    };
    lemma_ids_finite(bound);
    assert(reachable_nodes(g).subset_of(Set::new(|id: usize| id <= bound)));
    vstd::set_lib::lemma_set_subset_finite(Set::new(|id: usize| id <= bound), reachable_nodes(g));
}

/// A record without parents that is not the root is an orphan: it cannot
/// be reached, and the total depth and the reachable nodes are those of
/// the graph without the orphan's entry.
pub proof fn lemma_orphan_excluded(records: Seq<TransactionNode>, orphan: usize)
    requires
        records.len() <= usize::MAX,
        1 <= orphan <= records.len(),
        orphan != ROOT,
        records[orphan - 1].left == 0,
        records[orphan - 1].right == 0,
    ensures
        !reachable(adjacency_of(records), orphan),
        reachable_nodes(adjacency_of(records).remove(orphan)) == reachable_nodes(
            adjacency_of(records),
        ),
        total_depth(adjacency_of(records).remove(orphan)) == total_depth(adjacency_of(records)),
{
    let g = adjacency_of(records);
    if reachable(g, orphan) {
        let steps = choose|steps: nat| walk(g, orphan, steps);
        let via = choose|via: usize|
            walk(g, via, (steps - 1) as nat) && #[trigger] has_edge(g, via, orphan);
        lemma_edges_are_references(records, via, orphan);
    }
    lemma_reachable_are_records(records);
    lemma_unreachable_excluded(g, g.remove(orphan));
}

/// A record without parents at the end of the sequence leaves the
/// adjacency mapping as it is without that record.
pub proof fn lemma_trailing_orphan(records: Seq<TransactionNode>, timestamp: usize)
    ensures
        adjacency_of(records.push(TransactionNode { left: 0, right: 0, timestamp })) == adjacency_of(
            records,
        ),
{
    let orphan = TransactionNode { left: 0, right: 0, timestamp };
    assert(records.push(orphan).drop_last() =~= records);
}

/// Number of children listed for the first `parents` ids: the edges
/// whose source is among them.
pub open spec fn listed_total(g: Adjacency, parents: nat) -> nat
    decreases parents,
{
    if parents == 0 {
        0
    } else {
        listed_total(g, (parents - 1) as nat) + children(g, parents as usize).len()
    }
}

/// Filtering keeps a sequence whose elements all pass.
proof fn lemma_filter_keeps_all(items: Seq<usize>, wanted: spec_fn(usize) -> bool)
    requires
        forall|i: int| 0 <= i < items.len() ==> wanted(#[trigger] items[i]),
    ensures
        items.filter(wanted) == items,
    decreases items.len(),
{
    reveal(Seq::filter);
    if items.len() > 0 {
        lemma_filter_keeps_all(items.drop_last(), wanted);
        assert(items.drop_last().push(items.last()) =~= items);
    }
}

/// In the graph of a record sequence every child is the id of a record,
/// so the references that the first `parents` records hold are the edges
/// whose source is among them.
pub proof fn lemma_references_are_edges(records: Seq<TransactionNode>, parents: nat)
    requires
        records.len() <= usize::MAX,
    ensures
        reference_total(adjacency_of(records), records.len(), parents) == listed_total(
            adjacency_of(records),
            parents,
        ),
    decreases parents,
{
    if parents > 0 {
        let g = adjacency_of(records);
        let parent = parents as usize;
        let listed = children(g, parent);
        lemma_references_are_edges(records, (parents - 1) as nat);
        assert forall|i: int| 0 <= i < listed.len() implies is_record_id(
            #[trigger] listed[i],
            records.len(),
        ) by {
            assert(has_edge(g, parent, listed[i]));
            lemma_edges_are_references(records, parent, listed[i]);
        }
        lemma_filter_keeps_all(listed, |child: usize| is_record_id(child, records.len()));
    }
}

/// Every record but the first names the record before it as its only
/// parent.
pub open spec fn is_chain(records: Seq<TransactionNode>) -> bool {
    forall|i: int|
        0 <= i < records.len() ==> (#[trigger] records[i]).left == i && records[i].right == 0
}

/// In the graph of a chain every record but the last has the next record
/// as its only child.
proof fn lemma_chain_children(records: Seq<TransactionNode>, parent: usize)
    requires
        records.len() <= usize::MAX,
        is_chain(records),
    ensures
        children(adjacency_of(records), parent) == if 1 <= parent < records.len() {
            seq![(parent + 1) as usize]
        } else {
            Seq::empty()
        },
    decreases records.len(),
{
    if records.len() > 0 {
        let front = records.drop_last();
        assert(is_chain(front)) by {
            assert forall|i: int| 0 <= i < front.len() implies (#[trigger] front[i]).left == i
                && front[i].right == 0 by {
                assert(front[i] == records[i]);
            }
        }
        lemma_chain_children(front, parent);
        lemma_chain_children(front, (records.len() - 1) as usize);
        assert(records[records.len() - 1].left == records.len() - 1);
        if parent == records.len() - 1 && parent > 0 {
            assert(Seq::<usize>::empty().push((parent + 1) as usize) =~= seq![(parent + 1) as usize]);
        }
    }
}

/// In a chain of records the first `parents` records hold one reference
/// each, but for the last record, which holds none.
proof fn lemma_chain_prefix(records: Seq<TransactionNode>, parents: nat)
    requires
        0 < records.len() <= usize::MAX,
        is_chain(records),
        parents <= records.len(),
    ensures
        reference_total(adjacency_of(records), records.len(), parents) == if parents
            == records.len() {
            parents - 1
        } else {
            parents as int
        },
    decreases parents,
{
    if parents > 0 {
        let parent = parents as usize;
        let wanted = |child: usize| is_record_id(child, records.len());
        lemma_chain_prefix(records, (parents - 1) as nat);
        lemma_chain_children(records, parent);
        if parents < records.len() {
            let only = seq![(parent + 1) as usize];
            assert(wanted(only[0]));
            lemma_filter_keeps_all(only, wanted);
        } else {
            reveal(Seq::filter);
        }
    }
}

/// In a chain of `n` records, where each record but the first refers to
/// the record before it, the records receive `n - 1` references.
pub proof fn lemma_chain_references(records: Seq<TransactionNode>)
    requires
        0 < records.len() <= usize::MAX,
        is_chain(records),
    ensures
        reference_total(adjacency_of(records), records.len(), records.len()) == records.len() - 1,
{
    lemma_chain_prefix(records, records.len());
}

/// The ids of the first `upto` records whose timestamp is `depth`.
spec fn stamped(records: Seq<TransactionNode>, depth: usize, upto: int) -> Set<usize> {
    Set::new(|id: usize| 1 <= id <= upto && records[id - 1].timestamp == depth)
}

proof fn lemma_stamped(records: Seq<TransactionNode>, depth: usize, upto: int)
    requires
        0 <= upto <= records.len() <= usize::MAX,
    ensures
        stamped(records, depth, upto).finite(),
        stamped(records, depth, upto).len() == timestamp_count(records.take(upto), depth),
    decreases upto,
{
    reveal(Seq::filter);
    if upto == 0 {
        assert(stamped(records, depth, upto) =~= Set::empty());
    } else {
        lemma_stamped(records, depth, upto - 1);
        assert(records.take(upto).drop_last() =~= records.take(upto - 1));
        if records[upto - 1].timestamp == depth {
            assert(stamped(records, depth, upto) =~= stamped(records, depth, upto - 1).insert(
                upto as usize,
            ));
        } else {
            assert(stamped(records, depth, upto) =~= stamped(records, depth, upto - 1));
        }
    }
}

/// Where every record can be reached and its timestamp is its distance
/// from the root, as many records bear the timestamp `depth` as there
/// are nodes at that depth, so that the total of the depth is the square
/// of that number.
pub proof fn lemma_timestamps_as_depths(records: Seq<TransactionNode>, depth: usize)
    requires
        0 < records.len() <= usize::MAX,
        forall|id: usize|
            1 <= id <= records.len() ==> is_distance(
                adjacency_of(records),
                id,
                (#[trigger] records[id - 1]).timestamp as nat,
            ),
    ensures
        timestamp_count(records, depth) == level(adjacency_of(records), depth as nat).len(),
        depth_total(records, adjacency_of(records), depth) == level(
            adjacency_of(records),
            depth as nat,
        ).len() * level(adjacency_of(records), depth as nat).len(),
{
    let g = adjacency_of(records);
    let count = records.len() as int;
    lemma_stamped(records, depth, count);
    assert(records.take(count) =~= records);
    lemma_reachable_are_records(records);
    assert forall|id: usize|
        stamped(records, depth, count).contains(id) <==> level(g, depth as nat).contains(id) by {
        if stamped(records, depth, count).contains(id) {
            assert(is_distance(g, id, records[id - 1].timestamp as nat));
        }
        if is_distance(g, id, depth as nat) {
            assert(walk(g, id, depth as nat));
            assert(reachable(g, id));
            assert(is_distance(g, id, records[id - 1].timestamp as nat));
            lemma_distance_unique(g, id, depth as nat, records[id - 1].timestamp as nat);
        }
    }
    assert(stamped(records, depth, count) =~= level(g, depth as nat));
}

} // verus!

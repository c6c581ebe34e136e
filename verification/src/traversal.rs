//! Breadth-first traversal from the root.
//!
//! The traversal keeps a first-in-first-out frontier of (node, depth)
//! entries. A node may be scheduled more than once; only its first
//! arrival is processed. The proof shows that this first arrival carries
//! the length of a shortest walk from the root.

use std::collections::{HashMap, HashSet, VecDeque};
use vstd::prelude::*;

use crate::graph::adjacency;
use crate::paths::{
    depth_levels, has_edge, is_distance, lemma_distance_unique, lemma_parent_level,
    lemma_shortest_walk, lemma_walk_step, level, reachable, reachable_nodes, walk, Adjacency, ROOT,
};

verus! {

broadcast use vstd::std_specs::hash::group_hash_axioms;

/// A node together with the depth at which the traversal met it.
#[derive(Clone, Copy, Debug, PartialEq, Eq, Structural)]
pub struct Visit {
    pub node: usize,
    pub depth: usize,
}

/// `node` occurs in `order`.
pub open spec fn listed(order: Seq<Visit>, node: usize) -> bool {
    exists|i: int| 0 <= i < order.len() && (#[trigger] order[i]).node == node
}

/// `order` lists every node reachable from the root exactly once, each
/// with its distance from the root, the nearest first.
pub open spec fn is_traversal(g: Adjacency, order: Seq<Visit>) -> bool {
    &&& forall|i: int|
        0 <= i < order.len() ==> is_distance(g, (#[trigger] order[i]).node, order[i].depth as nat)
    &&& forall|i: int, j: int|
        0 <= i < j < order.len() ==> (#[trigger] order[i]).node != (#[trigger] order[j]).node
    &&& forall|i: int, j: int|
        0 <= i < j < order.len() ==> (#[trigger] order[i]).depth <= (#[trigger] order[j]).depth
    &&& forall|i: int| 0 <= i < order.len() ==> (#[trigger] order[i]).depth < order.len()
    &&& forall|node: usize| reachable(g, node) ==> listed(order, node)
}

/// The nodes that occur in `order`.
pub open spec fn nodes_of(order: Seq<Visit>) -> Set<usize> {
    Set::new(|node: usize| listed(order, node))
}

/// An entry for `node` at `depth` waits in the frontier.
spec fn queued(queue: Seq<Visit>, node: usize, depth: nat) -> bool {
    exists|k: int| 0 <= k < queue.len() && (#[trigger] queue[k]).node == node && queue[k].depth == depth
}

/// `node` has been processed, or waits in the frontier at `depth`.
spec fn covered(order: Seq<Visit>, queue: Seq<Visit>, node: usize, depth: nat) -> bool {
    listed(order, node) || queued(queue, node, depth)
}

/// Number of children recorded for `node`.
spec fn child_count(g: Adjacency, node: usize) -> int {
    if g.contains_key(node) {
        g[node].len() as int
    } else {
        0
    }
}

/// Number of children recorded for the node processed last.
spec fn last_child_count(g: Adjacency, order: Seq<Visit>) -> int {
    if order.len() > 0 {
        child_count(g, order.last().node)
    } else {
        0
    }
}

/// The first `upto` children of the `i`-th processed node are covered.
spec fn children_covered(g: Adjacency, order: Seq<Visit>, queue: Seq<Visit>, i: int, upto: int) -> bool {
    forall|j: int|
        0 <= j < upto && j < child_count(g, order[i].node) ==> covered(
            order,
            queue,
            #[trigger] g[order[i].node][j],
            (order[i].depth + 1) as nat,
        )
}

/// What holds of the processed nodes `order` and the frontier `queue`
/// while the traversal runs. `level` is the depth of the entry taken
/// last; of the node processed last, the first `done` children have been
/// looked at.
spec fn frontier_inv(g: Adjacency, order: Seq<Visit>, queue: Seq<Visit>, level: nat, done: int) -> bool {
    &&& forall|i: int|
        0 <= i < order.len() ==> is_distance(g, (#[trigger] order[i]).node, order[i].depth as nat)
    &&& forall|i: int, j: int|
        0 <= i < j < order.len() ==> (#[trigger] order[i]).node != (#[trigger] order[j]).node
    &&& forall|i: int, j: int|
        0 <= i < j < order.len() ==> (#[trigger] order[i]).depth <= (#[trigger] order[j]).depth
    &&& forall|i: int| 0 <= i < order.len() ==> (#[trigger] order[i]).depth <= level
    &&& forall|i: int| 0 <= i < order.len() ==> (#[trigger] order[i]).depth < order.len()
    &&& forall|k: int|
        0 <= k < queue.len() ==> walk(g, (#[trigger] queue[k]).node, queue[k].depth as nat)
    &&& forall|k: int| 0 <= k < queue.len() ==> level <= (#[trigger] queue[k]).depth <= level + 1
    &&& forall|a: int, b: int|
        0 <= a <= b < queue.len() ==> (#[trigger] queue[a]).depth <= (#[trigger] queue[b]).depth
    &&& forall|k: int| 0 <= k < queue.len() ==> (#[trigger] queue[k]).depth <= order.len()
    &&& covered(order, queue, ROOT, 0)
    &&& forall|i: int|
        0 <= i < order.len() - 1 ==> #[trigger] children_covered(
            g,
            order,
            queue,
            i,
            child_count(g, order[i].node),
        )
    &&& order.len() > 0 ==> children_covered(g, order, queue, order.len() - 1, done)
    &&& forall|node: usize, depth: nat|
        depth < level && #[trigger] is_distance(g, node, depth) ==> listed(order, node)
}

pub proof fn lemma_listed_push(order: Seq<Visit>, next: Visit, node: usize)
    ensures
        listed(order.push(next), node) <==> (listed(order, node) || node == next.node),
{
    let longer = order.push(next);
    if listed(order, node) {
        let i = choose|i: int| 0 <= i < order.len() && (#[trigger] order[i]).node == node;
        assert(longer[i].node == node);
    }
    if node == next.node {
        assert(longer[order.len() as int].node == node);
    }
    if listed(longer, node) {
        let i = choose|i: int| 0 <= i < longer.len() && (#[trigger] longer[i]).node == node;
        if i < order.len() {
            assert(order[i].node == node);
        }
    }
}

/// The nodes of a traversal are the reachable nodes, and each prefix of
/// it holds as many nodes as it is long.
pub proof fn lemma_traversal_nodes(g: Adjacency, order: Seq<Visit>, len: int)
    requires
        is_traversal(g, order),
        0 <= len <= order.len(),
    ensures
        nodes_of(order.take(len)).finite(),
        nodes_of(order.take(len)).len() == len,
        len < order.len() ==> !nodes_of(order.take(len)).contains(order[len].node),
        len < order.len() ==> nodes_of(order.take(len + 1)) == nodes_of(order.take(len)).insert(
            order[len].node,
        ),
        nodes_of(order) == reachable_nodes(g),
    decreases len,
{
    let prefix = order.take(len);
    if len == 0 {
        assert(nodes_of(prefix) =~= Set::empty());
    } else {
        lemma_traversal_nodes(g, order, len - 1);
    }
    if len < order.len() {
        if listed(prefix, order[len].node) {
            let i = choose|i: int| 0 <= i < prefix.len() && (#[trigger] prefix[i]).node == order[len].node;
            assert(prefix[i] == order[i]);
        }
        assert(order.take(len + 1) =~= prefix.push(order[len]));
        assert forall|node: usize|
            nodes_of(order.take(len + 1)).contains(node) <==> nodes_of(prefix).insert(
                order[len].node,
            ).contains(node) by {
            lemma_listed_push(prefix, order[len], node);
        }
        assert(nodes_of(order.take(len + 1)) =~= nodes_of(prefix).insert(order[len].node));
    }
    assert forall|node: usize| nodes_of(order).contains(node) <==> reachable_nodes(g).contains(
        node,
    ) by {
        if listed(order, node) {
            let i = choose|i: int| 0 <= i < order.len() && (#[trigger] order[i]).node == node;
            assert(walk(g, node, order[i].depth as nat));
        }
    }
    assert(nodes_of(order) =~= reachable_nodes(g));
}

/// Number of entries of `order` at depth `depth`.
pub open spec fn visits_at(order: Seq<Visit>, depth: usize) -> nat {
    order.filter(|visit: Visit| visit.depth == depth).len()
}

/// Some entry of `order` is at depth `depth`.
pub open spec fn visits_depth(order: Seq<Visit>, depth: usize) -> bool {
    exists|i: int| 0 <= i < order.len() && (#[trigger] order[i]).depth == depth
}

/// A depth that no entry has is the depth of zero entries.
pub proof fn lemma_no_visits(order: Seq<Visit>, depth: usize)
    requires
        !visits_depth(order, depth),
    ensures
        visits_at(order, depth) == 0,
    decreases order.len(),
{
    reveal(Seq::filter);
    if order.len() > 0 {
        let front = order.drop_last();
        assert(order[order.len() - 1].depth != depth);
        if visits_depth(front, depth) {
            let i = choose|i: int| 0 <= i < front.len() && (#[trigger] front[i]).depth == depth;
            assert(order[i].depth == depth);
        }
        lemma_no_visits(front, depth);
    }
}

/// The nodes that `order` lists at depth `depth`.
spec fn nodes_at(order: Seq<Visit>, depth: usize) -> Set<usize> {
    Set::new(
        |node: usize|
            exists|i: int|
                0 <= i < order.len() && (#[trigger] order[i]).node == node && order[i].depth == depth,
    )
}

proof fn lemma_nodes_at(order: Seq<Visit>, depth: usize)
    requires
        forall|i: int, j: int|
            0 <= i < j < order.len() ==> (#[trigger] order[i]).node != (#[trigger] order[j]).node,
    ensures
        nodes_at(order, depth).finite(),
        nodes_at(order, depth).len() == visits_at(order, depth),
    decreases order.len(),
{
    reveal(Seq::filter);
    if order.len() == 0 {
        assert(nodes_at(order, depth) =~= Set::empty());
    } else {
        let front = order.drop_last();
        let last = order.last();
        assert forall|i: int| 0 <= i < front.len() implies front[i] == order[i] by {}
        lemma_nodes_at(front, depth);
        if last.depth == depth {
            assert forall|node: usize|
                nodes_at(order, depth).contains(node) <==> nodes_at(front, depth).insert(
                    last.node,
                ).contains(node) by {
                if nodes_at(front, depth).contains(node) {
                    let i = choose|i: int|
                        0 <= i < front.len() && (#[trigger] front[i]).node == node && front[i].depth
                            == depth;
                    assert(order[i].node == node);
                }
                if node == last.node {
                    assert(order[order.len() - 1].node == node);
                }
                if nodes_at(order, depth).contains(node) && node != last.node {
                    let i = choose|i: int|
                        0 <= i < order.len() && (#[trigger] order[i]).node == node && order[i].depth
                            == depth;
                    assert(front[i].node == node);
                }
            }
            assert(nodes_at(order, depth) =~= nodes_at(front, depth).insert(last.node));
            if nodes_at(front, depth).contains(last.node) {
                let i = choose|i: int|
                    0 <= i < front.len() && (#[trigger] front[i]).node == last.node && front[i].depth
                        == depth;
                assert(order[i].node == order[order.len() - 1].node);
            }
        } else {
            assert forall|node: usize|
                nodes_at(order, depth).contains(node) <==> nodes_at(front, depth).contains(node) by {
                if nodes_at(front, depth).contains(node) {
                    let i = choose|i: int|
                        0 <= i < front.len() && (#[trigger] front[i]).node == node && front[i].depth
                            == depth;
                    assert(order[i].node == node);
                }
                if nodes_at(order, depth).contains(node) {
                    let i = choose|i: int|
                        0 <= i < order.len() && (#[trigger] order[i]).node == node && order[i].depth
                            == depth;
                    assert(front[i].node == node);
                }
            }
            assert(nodes_at(order, depth) =~= nodes_at(front, depth));
        }
    }
}

/// A traversal holds, at each depth, as many entries as there are nodes
/// at that distance from the root, and it meets exactly the depths at
/// which some node lies.
pub proof fn lemma_traversal_levels(g: Adjacency, order: Seq<Visit>, depth: usize)
    requires
        is_traversal(g, order),
    ensures
        level(g, depth as nat).finite(),
        level(g, depth as nat).len() == visits_at(order, depth),
        depth_levels(g).contains(depth) <==> visits_depth(order, depth),
{
    lemma_nodes_at(order, depth);
    assert forall|node: usize|
        level(g, depth as nat).contains(node) <==> nodes_at(order, depth).contains(node) by {
        if is_distance(g, node, depth as nat) {
            assert(walk(g, node, depth as nat));
            assert(reachable(g, node));
            let i = choose|i: int| 0 <= i < order.len() && (#[trigger] order[i]).node == node;
            lemma_distance_unique(g, node, depth as nat, order[i].depth as nat);
        }
    }
    assert(level(g, depth as nat) =~= nodes_at(order, depth));
    if depth_levels(g).contains(depth) {
        let node = choose|node: usize| is_distance(g, node, depth as nat);
        assert(level(g, depth as nat).contains(node));
        let i = choose|i: int|
            0 <= i < order.len() && (#[trigger] order[i]).node == node && order[i].depth == depth;
    }
    if visits_depth(order, depth) {
        let i = choose|i: int| 0 <= i < order.len() && (#[trigger] order[i]).depth == depth;
        assert(is_distance(g, order[i].node, depth as nat));
    }
}

proof fn lemma_queued_push(queue: Seq<Visit>, entry: Visit, node: usize, depth: nat)
    ensures
        queued(queue, node, depth) ==> queued(queue.push(entry), node, depth),
        node == entry.node && depth == entry.depth ==> queued(queue.push(entry), node, depth),
{
    let longer = queue.push(entry);
    if queued(queue, node, depth) {
        let k = choose|k: int|
            0 <= k < queue.len() && (#[trigger] queue[k]).node == node && queue[k].depth == depth;
        assert(longer[k].node == node && longer[k].depth == depth);
    }
    if node == entry.node && depth == entry.depth {
        assert(longer[queue.len() as int].node == node);
    }
}

proof fn lemma_queued_pop(queue: Seq<Visit>, node: usize, depth: nat)
    requires
        queued(queue, node, depth),
    ensures
        queued(queue.subrange(1, queue.len() as int), node, depth) || (queue[0].node == node
            && queue[0].depth == depth),
{
    let rest = queue.subrange(1, queue.len() as int);
    let k = choose|k: int|
        0 <= k < queue.len() && (#[trigger] queue[k]).node == node && queue[k].depth == depth;
    if k > 0 {
        assert(rest[k - 1].node == node && rest[k - 1].depth == depth);
    }
}

/// Every node closer to the root than the head of the frontier has been
/// processed.
proof fn lemma_level_complete(
    g: Adjacency,
    order: Seq<Visit>,
    queue: Seq<Visit>,
    level: nat,
    node: usize,
    depth: nat,
)
    requires
        frontier_inv(g, order, queue, level, last_child_count(g, order)),
        forall|k: int| 0 <= k < queue.len() ==> (#[trigger] queue[k]).depth > depth,
        depth <= level,
        is_distance(g, node, depth),
    ensures
        listed(order, node),
{
    if depth < level {
    } else if depth == 0 {
        assert(node == ROOT);
        assert(!queued(queue, ROOT, 0));
    } else {
        let via = lemma_parent_level(g, node, depth);
        assert(listed(order, via));
        let i = choose|i: int| 0 <= i < order.len() && (#[trigger] order[i]).node == via;
        lemma_distance_unique(g, via, (depth - 1) as nat, order[i].depth as nat);
        let j = choose|j: int| 0 <= j < g[via].len() && g[via][j] == node;
        assert(children_covered(g, order, queue, i, child_count(g, order[i].node)));
        assert(covered(order, queue, g[order[i].node][j], (order[i].depth + 1) as nat));
        assert(!queued(queue, node, depth));
    }
}

/// Taking the head of the frontier: the entry is dropped where its node
/// has been processed before, and appended to the processed nodes
/// otherwise.
proof fn lemma_take_head(g: Adjacency, order: Seq<Visit>, queue: Seq<Visit>, level: nat)
    requires
        frontier_inv(g, order, queue, level, last_child_count(g, order)),
        queue.len() > 0,
    ensures
        listed(order, queue[0].node) ==> frontier_inv(
            g,
            order,
            queue.subrange(1, queue.len() as int),
            queue[0].depth as nat,
            last_child_count(g, order),
        ),
        !listed(order, queue[0].node) ==> frontier_inv(
            g,
            order.push(queue[0]),
            queue.subrange(1, queue.len() as int),
            queue[0].depth as nat,
            0,
        ),
{
    let head = queue[0];
    let rest = queue.subrange(1, queue.len() as int);
    let next_level = head.depth as nat;
    let seen = listed(order, head.node);
    let after = if seen {
        order
    } else {
        order.push(head)
    };
    assert forall|k: int| 0 <= k < rest.len() implies rest[k] == queue[k + 1] by {}
    assert forall|node: usize| listed(order, node) implies listed(after, node) by {
        lemma_listed_push(order, head, node);
    }
    assert(listed(after, head.node)) by {
        lemma_listed_push(order, head, head.node);
    }
    assert forall|node: usize, depth: nat| covered(order, queue, node, depth) implies covered(
        after,
        rest,
        node,
        depth,
    ) by {
        if !listed(order, node) {
            lemma_queued_pop(queue, node, depth);
        }
    }
    assert forall|node: usize, depth: nat|
        depth < next_level && #[trigger] is_distance(g, node, depth) implies listed(after, node) by {
        assert forall|k: int| 0 <= k < queue.len() implies (#[trigger] queue[k]).depth > depth by {
            assert(queue[0].depth <= queue[k].depth);
        }
        lemma_level_complete(g, order, queue, level, node, depth);
    }
    assert forall|i: int| 0 <= i < order.len() implies children_covered(
        g,
        after,
        rest,
        i,
        child_count(g, after[i].node),
    ) by {
        assert(after[i] == order[i]);
        assert(children_covered(g, order, queue, i, child_count(g, order[i].node)));
    }
    assert forall|k: int| 0 <= k < rest.len() implies next_level <= (#[trigger] rest[k]).depth
        <= next_level + 1 by {
        assert(queue[0].depth <= queue[k + 1].depth);
    }
    assert forall|a: int, b: int| 0 <= a <= b < rest.len() implies (#[trigger] rest[a]).depth <= (
    #[trigger] rest[b]).depth by {
        assert(queue[a + 1].depth <= queue[b + 1].depth);
    }
    if !seen {
        assert forall|steps: nat| steps < next_level implies !walk(g, head.node, steps) by {
            if walk(g, head.node, steps) {
                let depth = lemma_shortest_walk(g, head.node, steps);
                assert(listed(after, head.node));
                assert forall|k: int| 0 <= k < queue.len() implies (#[trigger] queue[k]).depth
                    > depth by {
                    assert(queue[0].depth <= queue[k].depth);
                }
                lemma_level_complete(g, order, queue, level, head.node, depth);
            }
        }
        assert(is_distance(g, head.node, next_level));
        assert forall|i: int| 0 <= i < after.len() implies is_distance(
            g,
            (#[trigger] after[i]).node,
            after[i].depth as nat,
        ) by {
            if i < order.len() {
                assert(after[i] == order[i]);
            }
        }
        assert forall|i: int, j: int| 0 <= i < j < after.len() implies (#[trigger] after[i]).node != (
        #[trigger] after[j]).node && after[i].depth <= after[j].depth by {
            assert(after[i] == order[i]);
            if j < order.len() {
                assert(after[j] == order[j]);
            }
        }
        assert forall|i: int| 0 <= i < after.len() implies (#[trigger] after[i]).depth <= next_level
            && after[i].depth < after.len() by {
            if i < order.len() {
                assert(after[i] == order[i]);
            }
        }
        assert(children_covered(g, after, rest, after.len() - 1, 0));
        assert(frontier_inv(g, after, rest, next_level, 0));
    } else {
        assert(frontier_inv(g, after, rest, next_level, last_child_count(g, order)));
    }
}

/// Looking at the next child of the node processed last: it is scheduled
/// one level deeper unless it has been processed already.
proof fn lemma_look_at_child(
    g: Adjacency,
    order: Seq<Visit>,
    queue: Seq<Visit>,
    level: nat,
    done: int,
)
    requires
        frontier_inv(g, order, queue, level, done),
        0 < order.len() <= usize::MAX,
        order.last().depth == level,
        0 <= done < child_count(g, order.last().node),
    ensures
        order.last().depth + 1 <= order.len(),
        listed(order, g[order.last().node][done]) ==> frontier_inv(g, order, queue, level, done + 1),
        !listed(order, g[order.last().node][done]) ==> frontier_inv(
            g,
            order,
            queue.push(Visit { node: g[order.last().node][done], depth: (order.last().depth + 1) as usize }),
            level,
            done + 1,
        ),
{
    let last = order.len() - 1;
    let parent = order[last];
    let child = g[parent.node][done];
    let entry = Visit { node: child, depth: (parent.depth + 1) as usize };
    let seen = listed(order, child);
    let after = if seen {
        queue
    } else {
        queue.push(entry)
    };
    assert(parent.depth < order.len());
    assert forall|node: usize, depth: nat| covered(order, queue, node, depth) implies covered(
        order,
        after,
        node,
        depth,
    ) by {
        lemma_queued_push(queue, entry, node, depth);
    }
    assert(covered(order, after, child, (parent.depth + 1) as nat)) by {
        lemma_queued_push(queue, entry, child, (parent.depth + 1) as nat);
    }
    assert forall|i: int| 0 <= i < order.len() - 1 implies #[trigger] children_covered(
        g,
        order,
        after,
        i,
        child_count(g, order[i].node),
    ) by {
        assert(children_covered(g, order, queue, i, child_count(g, order[i].node)));
    }
    assert(children_covered(g, order, after, last, done + 1)) by {
        assert(children_covered(g, order, queue, last, done));
    }
    if !seen {
        assert(g[parent.node].contains(child));
        assert(has_edge(g, parent.node, child));
        lemma_walk_step(g, parent.node, child, parent.depth as nat);
        assert forall|k: int| 0 <= k < after.len() implies walk(
            g,
            (#[trigger] after[k]).node,
            after[k].depth as nat,
        ) && level <= after[k].depth <= level + 1 && after[k].depth <= order.len() by {
            if k < queue.len() {
                assert(after[k] == queue[k]);
            }
        }
        assert forall|a: int, b: int| 0 <= a <= b < after.len() implies (#[trigger] after[a]).depth <= (
        #[trigger] after[b]).depth by {
            if b < queue.len() {
                assert(after[a] == queue[a] && after[b] == queue[b]);
            } else if a < queue.len() {
                assert(after[a] == queue[a]);
            }
        }
    }
}

/// With an empty frontier every node at a distance from the root has been
/// processed.
proof fn lemma_all_listed(g: Adjacency, order: Seq<Visit>, level: nat, node: usize, depth: nat)
    requires
        frontier_inv(g, order, Seq::empty(), level, last_child_count(g, order)),
        is_distance(g, node, depth),
    ensures
        listed(order, node),
    decreases depth,
{
    let queue = Seq::<Visit>::empty();
    if depth == 0 {
        assert(node == ROOT);
        assert(!queued(queue, ROOT, 0));
    } else {
        let via = lemma_parent_level(g, node, depth);
        lemma_all_listed(g, order, level, via, (depth - 1) as nat);
        let i = choose|i: int| 0 <= i < order.len() && (#[trigger] order[i]).node == via;
        let j = choose|j: int| 0 <= j < g[via].len() && g[via][j] == node;
        assert(children_covered(g, order, queue, i, child_count(g, order[i].node)));
        assert(covered(order, queue, g[order[i].node][j], (order[i].depth + 1) as nat));
        assert(!queued(queue, node, (order[i].depth + 1) as nat));
    }
}

/// Visits the nodes that can be reached from the root, nearest first, and
/// returns each with its depth.
pub(crate) fn breadth_first(graph: &HashMap<usize, Vec<usize>>) -> (order: Vec<Visit>)
    ensures
        is_traversal(adjacency(*graph), order@),
{
    let ghost g = adjacency(*graph);
    let mut order: Vec<Visit> = Vec::new();
    let mut visited: HashSet<usize> = HashSet::new();
    let mut queue: VecDeque<Visit> = VecDeque::new();
    let ghost mut level: nat = 0;
    queue.push_back(Visit { node: ROOT, depth: 0 });
    proof {
        assert(queue@[0].node == ROOT);
        assert(queued(queue@, ROOT, 0));
        assert(frontier_inv(g, order@, queue@, level, last_child_count(g, order@)));
    }
    while queue.len() > 0
        invariant
            g == adjacency(*graph),
            frontier_inv(g, order@, queue@, level, last_child_count(g, order@)),
            forall|node: usize| visited@.contains(node) <==> listed(order@, node),
        decreases usize::MAX - order.len(), queue.len(),
    {
        proof {
            lemma_take_head(g, order@, queue@, level);
        }
        let next = queue.pop_front().unwrap();
        proof {
            level = next.depth as nat;
        }
        if !visited.contains(&next.node) {
            proof {
                assert forall|node: usize|
                    visited@.insert(next.node).contains(node) <==> listed(
                        order@.push(next),
                        node,
                    ) by {
                    lemma_listed_push(order@, next, node);
                }
            }
            visited.insert(next.node);
            order.push(next);
            match graph.get(&next.node) {
                Some(neighbors) => {
                    let mut k: usize = 0;
                    while k < neighbors.len()
                        invariant
                            g == adjacency(*graph),
                            k <= neighbors.len(),
                            order@.len() > 0,
                            order@.last() == next,
                            next.depth == level,
                            g.contains_key(next.node),
                            g[next.node] == neighbors@,
                            frontier_inv(g, order@, queue@, level, k as int),
                            forall|node: usize| visited@.contains(node) <==> listed(order@, node),
                        decreases neighbors.len() - k,
                    {
                        proof {
                            assert(order@.len() == order.len());
                            lemma_look_at_child(g, order@, queue@, level, k as int);
                        }
                        let neighbor = neighbors[k];
                        if !visited.contains(&neighbor) {
                            queue.push_back(Visit { node: neighbor, depth: next.depth + 1 });
                        }
                        k = k + 1;
                    }
                },
                None => {},
            }
        }
    }
    proof {
        assert(queue@ =~= Seq::empty());
        assert forall|node: usize| reachable(g, node) implies listed(order@, node) by {
            let steps = choose|steps: nat| walk(g, node, steps);
            let depth = lemma_shortest_walk(g, node, steps);
            lemma_all_listed(g, order@, level, node, depth);
        }
    }
    order
}

} // verus!

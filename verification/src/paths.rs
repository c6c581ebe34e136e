//! Walks from the root and shortest distances, over the mathematical
//! model of an adjacency mapping.

use vstd::prelude::*;

verus! {

/// Id of the root transaction, the origin of every traversal.
pub const ROOT: usize = 1;

/// The mathematical model of an adjacency mapping: each parent id is
/// mapped to the ordered list of its child ids.
pub type Adjacency = Map<usize, Seq<usize>>;

/// `to` is listed as a child of `from`.
pub open spec fn has_edge(g: Adjacency, from: usize, to: usize) -> bool {
    g.contains_key(from) && g[from].contains(to)
}

/// There is a walk of exactly `steps` edges from the root to `to`.
pub open spec fn walk(g: Adjacency, to: usize, steps: nat) -> bool
    decreases steps,
{
    if steps == 0 {
        to == ROOT
    } else {
        exists|via: usize| walk(g, via, (steps - 1) as nat) && #[trigger] has_edge(g, via, to)
    }
}

/// `node` can be reached from the root.
pub open spec fn reachable(g: Adjacency, node: usize) -> bool {
    exists|steps: nat| walk(g, node, steps)
}

/// `depth` is the length of a shortest walk from the root to `node`.
pub open spec fn is_distance(g: Adjacency, node: usize, depth: nat) -> bool {
    &&& walk(g, node, depth)
    &&& forall|steps: nat| steps < depth ==> !walk(g, node, steps)
}

/// Breadth-first depth of `node`: the length of a shortest walk from the
/// root. Meaningful for reachable nodes only.
pub open spec fn distance(g: Adjacency, node: usize) -> nat {
    choose|depth: nat| is_distance(g, node, depth)
}

/// The nodes that can be reached from the root.
pub open spec fn reachable_nodes(g: Adjacency) -> Set<usize> {
    Set::new(|node: usize| reachable(g, node))
}

/// The nodes at distance `depth` from the root.
pub open spec fn level(g: Adjacency, depth: nat) -> Set<usize> {
    Set::new(|node: usize| is_distance(g, node, depth))
}

/// The depths at which some node lies. Depths are machine words: in a
/// graph that the machine holds no node lies deeper than there are nodes.
pub open spec fn depth_levels(g: Adjacency) -> Set<usize> {
    Set::new(|depth: usize| exists|node: usize| is_distance(g, node, depth as nat))
}

/// A walk can be extended along an edge.
pub proof fn lemma_walk_step(g: Adjacency, via: usize, to: usize, steps: nat)
    requires
        walk(g, via, steps),
        has_edge(g, via, to),
    ensures
        walk(g, to, steps + 1),
{
}

/// Among the walks to a node there is a shortest one, no longer than any
/// given walk.
pub proof fn lemma_shortest_walk(g: Adjacency, node: usize, steps: nat) -> (depth: nat)
    requires
        walk(g, node, steps),
    ensures
        depth <= steps,
        is_distance(g, node, depth),
    decreases steps,
{
    if exists|s: nat| s < steps && walk(g, node, s) {
        let s = choose|s: nat| s < steps && walk(g, node, s);
        lemma_shortest_walk(g, node, s)
    } else {
        steps
    }
}

/// A node has at most one distance.
pub proof fn lemma_distance_unique(g: Adjacency, node: usize, a: nat, b: nat)
    requires
        is_distance(g, node, a),
        is_distance(g, node, b),
    ensures
        a == b,
{
}

/// For a reachable node `distance` is its shortest-walk length.
pub proof fn lemma_distance_of_reachable(g: Adjacency, node: usize)
    requires
        reachable(g, node),
    ensures
        is_distance(g, node, distance(g, node)),
{
    let steps = choose|steps: nat| walk(g, node, steps);
    let depth = lemma_shortest_walk(g, node, steps);
}

/// A known shortest-walk length is the distance.
pub proof fn lemma_distance_is(g: Adjacency, node: usize, depth: nat)
    requires
        is_distance(g, node, depth),
    ensures
        reachable(g, node),
        distance(g, node) == depth,
{
    lemma_distance_of_reachable(g, node);
    lemma_distance_unique(g, node, depth, distance(g, node));
}

/// The root is at distance 0, and it is the only such node.
pub proof fn lemma_root_distance(g: Adjacency)
    ensures
        is_distance(g, ROOT, 0),
        forall|node: usize| is_distance(g, node, 0) ==> node == ROOT,
{
}

/// A node at positive distance has a parent one level closer to the root.
pub proof fn lemma_parent_level(g: Adjacency, node: usize, depth: nat) -> (via: usize)
    requires
        is_distance(g, node, depth),
        depth > 0,
    ensures
        has_edge(g, via, node),
        is_distance(g, via, (depth - 1) as nat),
{
    let via = choose|via: usize| walk(g, via, (depth - 1) as nat) && #[trigger] has_edge(g, via, node);
    let d = lemma_shortest_walk(g, via, (depth - 1) as nat);
    if d < depth - 1 {
        lemma_walk_step(g, via, node, d);
        assert(false);
    }
    via
}

} // verus!

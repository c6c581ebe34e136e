//! The adjacency mapping from parents to children and its construction.

use std::collections::HashMap;
use vstd::prelude::*;

use crate::paths::Adjacency;
use crate::record::TransactionNode;

verus! {

broadcast use vstd::std_specs::hash::group_hash_axioms;

/// What `graph` holds, as a mathematical mapping from a parent id to the
/// ordered list of its child ids.
pub open spec fn adjacency(graph: HashMap<usize, Vec<usize>>) -> Adjacency {
    graph@.map_values(|list: Vec<usize>| list@)
}

/// The children listed for `parent`; none where it has no entry.
pub open spec fn children(g: Adjacency, parent: usize) -> Seq<usize> {
    if g.contains_key(parent) {
        g[parent]
    } else {
        Seq::empty()
    }
}

/// `g` with `child` appended to the children of `parent`. The parent id 0
/// stands for "no parent" and adds nothing.
pub open spec fn with_edge(g: Adjacency, parent: usize, child: usize) -> Adjacency {
    if parent > 0 {
        g.insert(parent, children(g, parent).push(child))
    } else {
        g
    }
}

/// The adjacency mapping of a record sequence: the records are taken in
/// their order, and the record at the 1-based position `id` is appended
/// to the children of its left parent, then to those of its right parent.
pub open spec fn adjacency_of(records: Seq<TransactionNode>) -> Adjacency
    decreases records.len(),
{
    if records.len() == 0 {
        Map::empty()
    } else {
        let id = records.len() as usize;
        let last = records.last();
        with_edge(with_edge(adjacency_of(records.drop_last()), last.left, id), last.right, id)
    }
}

/// Appends `child` to the children of `parent`.
fn append_child(graph: &mut HashMap<usize, Vec<usize>>, parent: usize, child: usize)
    requires
        parent > 0,
    ensures
        adjacency(*final(graph)) == with_edge(adjacency(*old(graph)), parent, child),
{
    let siblings = graph.entry(parent).or_insert(Vec::new());
    siblings.push(child);
    proof {
        assert(adjacency(*final(graph)) =~= with_edge(adjacency(*old(graph)), parent, child));
    }
}

/// Builds the adjacency mapping of `nodes`: every record is listed as a
/// child of each parent that it names.
pub fn build_graph(nodes: &[TransactionNode]) -> (graph: HashMap<usize, Vec<usize>>)
    ensures
        adjacency(graph) == adjacency_of(nodes@),
{
    let mut graph: HashMap<usize, Vec<usize>> = HashMap::new();
    let mut node_index: usize = 0;
    proof {
        assert(adjacency(graph) =~= Map::empty());
    }
    while node_index < nodes.len()
        invariant
            node_index <= nodes.len(),
            adjacency(graph) == adjacency_of(nodes@.take(node_index as int)),
        decreases nodes.len() - node_index,
    {
        let left_parent = nodes[node_index].left;
        let right_parent = nodes[node_index].right;
        let current_node = node_index + 1;
        proof {
            assert(nodes@.take(node_index + 1).drop_last() =~= nodes@.take(node_index as int));
        }
        if left_parent > 0 {
            append_child(&mut graph, left_parent, current_node);
        }
        if right_parent > 0 {
            append_child(&mut graph, right_parent, current_node);
        }
        node_index = node_index + 1;
    }
    proof {
        assert(nodes@.take(node_index as int) =~= nodes@);
    }
    graph
}

} // verus!

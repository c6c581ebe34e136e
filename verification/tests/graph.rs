use dag_stats::{build_graph, TransactionNode};
use std::collections::HashMap;

fn node(left: usize, right: usize, timestamp: usize) -> TransactionNode {
    TransactionNode { left, right, timestamp }
}

#[test]
fn no_records_no_entries() {
    let graph = build_graph(&[]);
    assert!(graph.is_empty());
}

#[test]
fn records_without_parents_give_no_entries() {
    let graph = build_graph(&[node(0, 0, 0), node(0, 0, 3)]);
    assert!(graph.is_empty());
}

#[test]
fn children_are_listed_in_input_order() {
    let nodes = vec![node(0, 0, 0), node(1, 0, 1), node(1, 0, 1), node(2, 3, 2), node(3, 2, 2)];
    let graph = build_graph(&nodes);
    let mut expected: HashMap<usize, Vec<usize>> = HashMap::new();
    expected.insert(1, vec![2, 3]);
    expected.insert(2, vec![4, 5]);
    expected.insert(3, vec![4, 5]);
    assert_eq!(graph, expected);
}

#[test]
fn left_edge_comes_before_right_edge() {
    let graph = build_graph(&[node(0, 0, 0), node(1, 1, 1)]);
    let mut expected: HashMap<usize, Vec<usize>> = HashMap::new();
    expected.insert(1, vec![2, 2]);
    assert_eq!(graph, expected);
}

#[test]
fn dangling_parent_gets_an_entry() {
    let graph = build_graph(&[node(0, 0, 0), node(9, 0, 1)]);
    let mut expected: HashMap<usize, Vec<usize>> = HashMap::new();
    expected.insert(9, vec![2]);
    assert_eq!(graph, expected);
}

#[test]
fn record_may_name_itself_or_a_later_record() {
    let graph = build_graph(&[node(1, 2, 0), node(0, 0, 1)]);
    let mut expected: HashMap<usize, Vec<usize>> = HashMap::new();
    expected.insert(1, vec![1]);
    expected.insert(2, vec![1]);
    assert_eq!(graph, expected);
}

#[test]
fn same_records_same_graph() {
    let nodes = vec![node(0, 0, 0), node(1, 0, 1), node(2, 1, 2), node(2, 3, 3), node(1, 4, 3)];
    let first = build_graph(&nodes);
    let second = build_graph(&nodes.clone());
    assert_eq!(first, second);
    assert_eq!(first.get(&1), Some(&vec![2, 3, 5]));
    assert_eq!(first.get(&2), Some(&vec![3, 4]));
    assert_eq!(first.get(&3), Some(&vec![4]));
    assert_eq!(first.get(&4), Some(&vec![5]));
    assert_eq!(first.len(), 4);
}

#[test]
fn trailing_orphan_changes_nothing() {
    let nodes = vec![node(0, 0, 0), node(1, 0, 1)];
    let mut longer = nodes.clone();
    longer.push(node(0, 0, 8));
    assert_eq!(build_graph(&nodes), build_graph(&longer));
}

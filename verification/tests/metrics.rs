use dag_stats::{
    build_graph, calculate_average_depth, calculate_average_in_references,
    calculate_average_txs_per_depth, count_transactions_at_depth, parse_database, Ratio,
    TransactionNode,
};
use std::collections::HashMap;

fn node(left: usize, right: usize, timestamp: usize) -> TransactionNode {
    TransactionNode { left, right, timestamp }
}

fn ratio(numerator: u128, denominator: usize) -> Ratio {
    Ratio { numerator, denominator }
}

fn value(ratio: Ratio) -> f64 {
    ratio.numerator as f64 / ratio.denominator as f64
}

fn chain(length: usize) -> Vec<TransactionNode> {
    let mut nodes = Vec::new();
    let mut id = 1;
    while id <= length {
        nodes.push(node(id - 1, 0, id - 1));
        id += 1;
    }
    nodes
}

/// The root with two children, each of them with one child.
fn small_dag() -> Vec<TransactionNode> {
    vec![node(0, 0, 0), node(1, 0, 1), node(1, 0, 1), node(2, 0, 2), node(3, 0, 2)]
}

#[test]
fn census_by_timestamp() {
    let nodes = small_dag();
    assert_eq!(count_transactions_at_depth(&nodes, 0), 1);
    assert_eq!(count_transactions_at_depth(&nodes, 1), 2);
    assert_eq!(count_transactions_at_depth(&nodes, 2), 2);
    assert_eq!(count_transactions_at_depth(&nodes, 3), 0);
    assert_eq!(count_transactions_at_depth(&[], 0), 0);
}

#[test]
fn depth_of_the_root_alone() {
    let nodes = vec![node(0, 0, 0)];
    let graph = build_graph(&nodes);
    let depth = calculate_average_depth(&graph);
    assert_eq!(depth, ratio(0, 1));
    assert_eq!(value(depth), 0.0);
}

#[test]
fn depth_in_the_empty_graph() {
    let graph: HashMap<usize, Vec<usize>> = HashMap::new();
    let depth = calculate_average_depth(&graph);
    assert_eq!(depth, ratio(0, 1));
    assert_eq!(value(depth), 0.0);
}

#[test]
fn depth_of_a_small_dag() {
    let graph = build_graph(&small_dag());
    let depth = calculate_average_depth(&graph);
    assert_eq!(depth, ratio(6, 5));
    assert_eq!(value(depth), 1.2);
}

#[test]
fn depth_of_a_chain() {
    let graph = build_graph(&chain(10));
    assert_eq!(calculate_average_depth(&graph), ratio(45, 10));
    assert_eq!(value(calculate_average_depth(&graph)), 4.5);
}

#[test]
fn depth_is_the_shortest_distance() {
    // 1 -> 2 -> 3 -> 4, and 4 is a child of 1 as well.
    let nodes = vec![node(0, 0, 0), node(1, 0, 1), node(2, 0, 2), node(3, 1, 3)];
    let graph = build_graph(&nodes);
    assert_eq!(calculate_average_depth(&graph), ratio(0 + 1 + 2 + 1, 4));
}

#[test]
fn node_with_two_parents_counts_once() {
    // 4 is a child of 2 and of 3, both at depth 1.
    let nodes = vec![node(0, 0, 0), node(1, 0, 1), node(1, 0, 1), node(2, 3, 2)];
    let graph = build_graph(&nodes);
    assert_eq!(calculate_average_depth(&graph), ratio(0 + 1 + 1 + 2, 4));
}

#[test]
fn orphan_is_left_out_of_the_depth() {
    let with_orphan = vec![node(0, 0, 0), node(1, 0, 1), node(0, 0, 5), node(2, 0, 2)];
    let without = vec![node(0, 0, 0), node(1, 0, 1), node(2, 0, 2)];
    let expected = ratio(3, 3);
    assert_eq!(calculate_average_depth(&build_graph(&with_orphan)), expected);
    assert_eq!(calculate_average_depth(&build_graph(&without)), expected);
}

#[test]
fn children_of_an_orphan_are_left_out() {
    // 3 is an orphan, 4 is its child: neither can be reached.
    let nodes = vec![node(0, 0, 0), node(1, 0, 1), node(0, 0, 0), node(3, 0, 1)];
    let graph = build_graph(&nodes);
    assert_eq!(calculate_average_depth(&graph), ratio(1, 2));
    let mut pruned = graph.clone();
    pruned.remove(&3);
    assert_eq!(calculate_average_depth(&pruned), ratio(1, 2));
}

#[test]
fn cycle_is_walked_once() {
    let mut graph: HashMap<usize, Vec<usize>> = HashMap::new();
    graph.insert(1, vec![2]);
    graph.insert(2, vec![3]);
    graph.insert(3, vec![1, 2, 4]);
    assert_eq!(calculate_average_depth(&graph), ratio(0 + 1 + 2 + 3, 4));
}

#[test]
fn root_that_names_itself() {
    let nodes = vec![node(1, 0, 0), node(1, 0, 1)];
    let graph = build_graph(&nodes);
    assert_eq!(calculate_average_depth(&graph), ratio(1, 2));
}

#[test]
fn repeated_child_counts_once() {
    let mut graph: HashMap<usize, Vec<usize>> = HashMap::new();
    graph.insert(1, vec![2, 2, 3, 2]);
    graph.insert(2, vec![3, 3]);
    assert_eq!(calculate_average_depth(&graph), ratio(2, 3));
}

#[test]
fn node_zero_can_be_reached_in_a_graph_made_by_hand() {
    let mut graph: HashMap<usize, Vec<usize>> = HashMap::new();
    graph.insert(1, vec![0]);
    graph.insert(0, vec![7]);
    assert_eq!(calculate_average_depth(&graph), ratio(0 + 1 + 2, 3));
}

#[test]
fn transactions_per_depth_of_a_small_dag() {
    let nodes = small_dag();
    let graph = build_graph(&nodes);
    let txs = calculate_average_txs_per_depth(&nodes, &graph);
    // Depth 1: two nodes, two records with timestamp 1. Depth 2 likewise.
    assert_eq!(txs, ratio(2 * 2 + 2 * 2, 2));
    assert_eq!(value(txs), 4.0);
}

#[test]
fn transactions_per_depth_go_by_the_timestamp() {
    // Depths are 0, 1, 1, 2; the timestamps say 1, 1, 1, 0.
    let nodes = vec![node(0, 0, 1), node(1, 0, 1), node(1, 0, 1), node(2, 0, 0)];
    let graph = build_graph(&nodes);
    let txs = calculate_average_txs_per_depth(&nodes, &graph);
    // Depth 1: two nodes, three records with timestamp 1. Depth 2: one node, none.
    assert_eq!(txs, ratio(2 * 3 + 0, 2));
    assert_eq!(value(txs), 3.0);
}

#[test]
fn transactions_per_depth_of_a_chain() {
    let nodes = chain(6);
    let graph = build_graph(&nodes);
    assert_eq!(calculate_average_txs_per_depth(&nodes, &graph), ratio(5, 5));
}

#[test]
fn transactions_per_depth_leave_out_what_cannot_be_reached() {
    // 3 is an orphan with timestamp 1: it counts as a record, not as a node.
    let nodes = vec![node(0, 0, 0), node(1, 0, 1), node(0, 0, 1)];
    let graph = build_graph(&nodes);
    assert_eq!(calculate_average_txs_per_depth(&nodes, &graph), ratio(2, 1));
}

#[test]
fn transactions_per_depth_with_the_root_alone() {
    let nodes = vec![node(0, 0, 0), node(0, 0, 1)];
    let graph = build_graph(&nodes);
    let txs = calculate_average_txs_per_depth(&nodes, &graph);
    assert_eq!(txs, ratio(0, 1));
    assert_eq!(value(txs), 0.0);
}

#[test]
fn transactions_per_depth_without_records() {
    let graph = build_graph(&[]);
    let txs = calculate_average_txs_per_depth(&[], &graph);
    assert_eq!(txs, ratio(0, 1));
    assert_eq!(value(txs), 0.0);
    let mut graph: HashMap<usize, Vec<usize>> = HashMap::new();
    graph.insert(1, vec![2]);
    assert_eq!(calculate_average_txs_per_depth(&[], &graph), ratio(0, 1));
}

#[test]
fn in_references_of_a_small_dag() {
    let nodes = small_dag();
    let graph = build_graph(&nodes);
    let refs = calculate_average_in_references(&nodes, &graph);
    assert_eq!(refs, ratio(4, 5));
    assert_eq!(value(refs), 0.8);
}

#[test]
fn in_references_of_a_chain() {
    let mut length = 1;
    while length <= 12 {
        let nodes = chain(length);
        let graph = build_graph(&nodes);
        let refs = calculate_average_in_references(&nodes, &graph);
        assert_eq!(refs, ratio(length as u128 - 1, length));
        assert_eq!(value(refs), (length - 1) as f64 / length as f64);
        length += 1;
    }
}

#[test]
fn in_references_count_both_parents() {
    let nodes = vec![node(0, 0, 0), node(1, 1, 1), node(1, 2, 2)];
    let graph = build_graph(&nodes);
    assert_eq!(calculate_average_in_references(&nodes, &graph), ratio(4, 3));
}

#[test]
fn in_references_count_orphans_and_their_children() {
    let nodes = vec![node(0, 0, 0), node(0, 0, 0), node(2, 0, 1)];
    let graph = build_graph(&nodes);
    assert_eq!(calculate_average_in_references(&nodes, &graph), ratio(1, 3));
}

#[test]
fn in_references_leave_out_dangling_parents() {
    // Record 2 names a parent that is no record.
    let nodes = vec![node(0, 0, 0), node(7, 1, 1)];
    let graph = build_graph(&nodes);
    assert_eq!(calculate_average_in_references(&nodes, &graph), ratio(1, 2));
}

#[test]
fn in_references_leave_out_children_that_are_no_records() {
    let nodes = vec![node(0, 0, 0), node(1, 0, 1)];
    let mut graph: HashMap<usize, Vec<usize>> = HashMap::new();
    graph.insert(1, vec![2, 0, 3, 2]);
    graph.insert(3, vec![1]);
    assert_eq!(calculate_average_in_references(&nodes, &graph), ratio(2, 2));
}

#[test]
fn in_references_without_records() {
    let graph = build_graph(&[]);
    let refs = calculate_average_in_references(&[], &graph);
    assert_eq!(refs, ratio(0, 1));
    assert!(!value(refs).is_nan());
    assert_eq!(value(refs), 0.0);
}

#[test]
fn header_alone_gives_zero_everywhere() {
    let nodes = parse_database("0\n").unwrap();
    let graph = build_graph(&nodes);
    assert_eq!(value(calculate_average_depth(&graph)), 0.0);
    assert_eq!(value(calculate_average_txs_per_depth(&nodes, &graph)), 0.0);
    assert_eq!(value(calculate_average_in_references(&nodes, &graph)), 0.0);
}

#[test]
fn from_text_to_averages() {
    let nodes = parse_database("5\n0 0 0\n1 0 1\n1 0 1\n2 0 2\n3 0 2\n").unwrap();
    let graph = build_graph(&nodes);
    assert_eq!(value(calculate_average_depth(&graph)), 1.2);
    assert_eq!(value(calculate_average_txs_per_depth(&nodes, &graph)), 4.0);
    assert_eq!(value(calculate_average_in_references(&nodes, &graph)), 0.8);
}

#[test]
fn wide_graph() {
    let mut nodes = vec![node(0, 0, 0)];
    let mut id = 2;
    while id <= 1000 {
        nodes.push(node(1, 0, 1));
        id += 1;
    }
    let graph = build_graph(&nodes);
    assert_eq!(calculate_average_depth(&graph), ratio(999, 1000));
    assert_eq!(calculate_average_txs_per_depth(&nodes, &graph), ratio(999 * 999, 1));
    assert_eq!(calculate_average_in_references(&nodes, &graph), ratio(999, 1000));
}

use std::cell::RefCell;

use arena_graph::graph::{Graph, Node};
use arena_graph::model::NodeRef;

fn data(nodes: Vec<&Node<i32>>) -> Vec<i32> {
    nodes.iter().map(|n| n.datum).collect()
}

fn calls(graph: &Graph<i32>) -> Vec<i32> {
    let seen = RefCell::new(Vec::new());
    graph.traverse(|datum: &i32| seen.borrow_mut().push(*datum));
    seen.into_inner()
}

/// root(0) with children (a = 1, b = 2); a and b both point at c = 3.
fn diamond() -> Graph<i32> {
    let mut graph = Graph::new();
    let root = graph.create_node(0);
    graph.set_root(root);
    let a = graph.create_node(1);
    let b = graph.create_node(2);
    let c = graph.create_node(3);
    graph.add_edge(root, a);
    graph.add_edge(root, b);
    graph.add_edge(a, c);
    graph.add_edge(b, c);
    graph
}

#[test]
fn traverse_visits_each_value_of_a_diamond_once() {
    let graph = diamond();
    assert_eq!(calls(&graph), vec![0, 1, 3, 2]);
    assert_eq!(data(graph.traverse_order()), vec![0, 1, 3, 2]);
}

#[test]
fn traverse_ends_on_a_two_cycle() {
    let mut graph = Graph::new();
    let a = graph.create_node(1);
    let b = graph.create_node(2);
    graph.set_root(a);
    graph.add_edge(a, b);
    graph.add_edge(b, a);
    assert_eq!(calls(&graph), vec![1, 2]);
    assert_eq!(data(graph.traverse_order()), vec![1, 2]);
}

#[test]
fn traverse_ends_on_a_self_loop() {
    let mut graph = Graph::new();
    let a = graph.create_node(1);
    graph.set_root(a);
    graph.add_edge(a, a);
    assert_eq!(calls(&graph), vec![1]);
}

#[test]
fn traverse_follows_edge_order() {
    let mut graph = Graph::new();
    let n1 = graph.create_node(1);
    graph.set_root(n1);
    let n2 = graph.create_node(2);
    graph.add_edge(n1, n2);
    let n3 = graph.create_node(3);
    graph.add_edge(n1, n3);
    let n4 = graph.create_node(4);
    graph.add_edge(n2, n4);
    let n5 = graph.create_node(5);
    graph.add_edge(n2, n5);
    assert_eq!(calls(&graph), vec![1, 2, 4, 5, 3]);
}

#[test]
fn traverse_takes_equal_data_for_one_node() {
    // root(1) -> x(7) -> below_x(8); root -> y(7) -> below_y(9).
    // y carries the datum of x, so y and what lies below it are skipped.
    let mut graph = Graph::new();
    let root = graph.create_node(1);
    graph.set_root(root);
    let x = graph.create_node(7);
    let y = graph.create_node(7);
    let below_x = graph.create_node(8);
    let below_y = graph.create_node(9);
    graph.add_edge(root, x);
    graph.add_edge(root, y);
    graph.add_edge(x, below_x);
    graph.add_edge(y, below_y);
    assert_eq!(calls(&graph), vec![1, 7, 8]);
    let order = graph.traverse_order();
    assert_eq!(order.len(), 3);
    assert!(std::ptr::eq(order[1], graph.node(x)));
}

#[test]
fn traverse_of_a_single_node_calls_once() {
    let mut graph = Graph::new();
    let root = graph.create_node(11);
    graph.set_root(root);
    assert_eq!(calls(&graph), vec![11]);
}

#[test]
fn traverse_starts_at_any_node() {
    let graph = diamond();
    let b = graph.node(NodeRef { index: 2 });
    assert_eq!(data(b.traverse_order(&graph)), vec![2, 3]);
    let seen = RefCell::new(Vec::new());
    b.traverse(&graph, |datum: &i32| seen.borrow_mut().push(*datum));
    assert_eq!(seen.into_inner(), vec![2, 3]);
}

#[test]
fn traverse_starts_at_a_detached_node() {
    let graph = diamond();
    let mut outside = Node::new(3);
    outside.add_edge(NodeRef { index: 1 });
    // The detached node carries the datum of c, so c is skipped below a.
    assert_eq!(data(outside.traverse_order(&graph)), vec![3, 1]);
}

#[test]
fn traverse_works_on_owned_strings() {
    let mut graph = Graph::new();
    let a = graph.create_node(String::from("a"));
    let b = graph.create_node(String::from("b"));
    let again = graph.create_node(String::from("a"));
    graph.set_root(a);
    graph.add_edge(a, b);
    graph.add_edge(b, again);
    graph.add_edge(again, a);
    let order: Vec<&str> = graph.traverse_order().iter().map(|n| n.datum.as_str()).collect();
    assert_eq!(order, vec!["a", "b"]);
}

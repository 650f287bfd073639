use arena_graph::graph::{Graph, Node};
use arena_graph::model::NodeRef;

/// root(1) with children (2, 3); 2 has children (4, 5).
fn sample_tree() -> Graph<i32> {
    let mut graph = Graph::new();
    let n1 = graph.own_node(Node::new(1));
    graph.set_root(n1);
    let n2 = graph.own_node(Node::new(2));
    graph.add_edge(n1, n2);
    let n3 = graph.own_node(Node::new(3));
    graph.add_edge(n1, n3);
    let n4 = graph.own_node(Node::new(4));
    graph.add_edge(n2, n4);
    let n5 = graph.own_node(Node::new(5));
    graph.add_edge(n2, n5);
    graph
}

/// root(0) with children (a = 1, b = 2); a and b both point at c = 3.
fn diamond() -> Graph<i32> {
    let mut graph = Graph::new();
    let root = graph.create_node(0);
    graph.set_root(root);
    let a = graph.create_node(1);
    let b = graph.create_node(2);
    let c = graph.create_node(3);
    graph.add_edge(root, a);
    graph.add_edge(root, b);
    graph.add_edge(a, c);
    graph.add_edge(b, c);
    graph
}

fn data(nodes: Vec<&Node<i32>>) -> Vec<i32> {
    nodes.iter().map(|n| n.datum).collect()
}

#[test]
fn it_works() {
    let graph = sample_tree();

    println!("Graph 1 (original):");
    let mut seen = Vec::new();
    let mut iter = graph.dfs();
    while let Some(node) = iter.next() {
        println!("{}", node.datum);
        seen.push(node.datum);
    }
    assert_eq!(seen, vec![1, 2, 4, 5, 3]);

    println!("Graph 1 (mapped):");
    let mut graph2 = Graph::new();
    let mut made = Vec::new();
    for node in graph.dfs().collect() {
        made.push(graph2.own_node(Node::new(node.datum as f32 * 2.1)));
    }
    let root = NodeRef::from_iter(made);
    graph2.set_root(root);
    let mut mapped = Vec::new();
    for node in graph2.dfs().collect() {
        println!("{}", node.datum);
        mapped.push(node.datum);
    }
    assert_eq!(mapped, vec![1_f32 * 2.1]);
}

#[test]
fn dfs_yields_tree_in_preorder() {
    let graph = sample_tree();
    assert_eq!(data(graph.dfs().collect()), vec![1, 2, 4, 5, 3]);
}

#[test]
fn dfs_lists_shared_node_once_per_path() {
    let graph = diamond();
    assert_eq!(data(graph.dfs().collect()), vec![0, 1, 3, 2, 3]);
}

#[test]
fn dfs_lists_repeated_edge_twice() {
    let mut graph = Graph::new();
    let root = graph.create_node(7);
    let leaf = graph.create_node(8);
    graph.set_root(root);
    graph.add_edge(root, leaf);
    graph.add_edge(root, leaf);
    assert_eq!(data(graph.dfs().collect()), vec![7, 8, 8]);
}

#[test]
fn dfs_of_single_node_is_that_node() {
    let mut graph = Graph::new();
    let root = graph.create_node(42);
    graph.set_root(root);
    assert_eq!(data(graph.dfs().collect()), vec![42]);
}

#[test]
fn next_keeps_returning_none_after_the_end() {
    let graph = sample_tree();
    let mut iter = graph.dfs();
    let mut count = 0;
    while iter.next().is_some() {
        count += 1;
    }
    assert_eq!(count, 5);
    assert!(iter.next().is_none());
    assert!(iter.next().is_none());
}

#[test]
fn next_yields_one_node_per_call() {
    let graph = sample_tree();
    let mut iter = graph.dfs();
    assert_eq!(iter.next().map(|n| n.datum), Some(1));
    assert_eq!(iter.next().map(|n| n.datum), Some(2));
    assert_eq!(iter.next().map(|n| n.datum), Some(4));
    assert_eq!(iter.next().map(|n| n.datum), Some(5));
    assert_eq!(iter.next().map(|n| n.datum), Some(3));
    assert_eq!(iter.next().map(|n| n.datum), None);
}

#[test]
fn dfs_starts_at_any_node() {
    let graph = sample_tree();
    let two = graph.node(NodeRef { index: 1 });
    assert_eq!(data(two.dfs(&graph).collect()), vec![2, 4, 5]);
}

#[test]
fn dfs_starts_at_a_detached_node() {
    let graph = sample_tree();
    let mut outside = Node::new(9);
    outside.add_edge(NodeRef { index: 2 });
    outside.add_edge(NodeRef { index: 1 });
    assert_eq!(data(outside.dfs(&graph).collect()), vec![9, 3, 2, 4, 5]);
}

#[test]
fn take_bounds_a_walk_round_a_cycle() {
    let mut graph = Graph::new();
    let a = graph.create_node(1);
    let b = graph.create_node(2);
    graph.set_root(a);
    graph.add_edge(a, b);
    graph.add_edge(b, a);
    let mut iter = graph.dfs();
    assert_eq!(data(iter.take(5)), vec![1, 2, 1, 2, 1]);
    assert_eq!(data(iter.take(2)), vec![2, 1]);
}

#[test]
fn take_stops_where_the_walk_ends() {
    let graph = sample_tree();
    let mut iter = graph.dfs();
    assert_eq!(data(iter.take(0)), Vec::<i32>::new());
    assert_eq!(data(iter.take(2)), vec![1, 2]);
    assert_eq!(data(iter.take(10)), vec![4, 5, 3]);
    assert_eq!(data(iter.take(10)), Vec::<i32>::new());
}

#[test]
fn collect_returns_what_is_left() {
    let graph = sample_tree();
    let mut iter = graph.dfs();
    iter.next();
    iter.next();
    assert_eq!(data(iter.collect()), vec![4, 5, 3]);
}

#[test]
fn edges_added_later_are_walked() {
    let mut graph = sample_tree();
    assert_eq!(data(graph.dfs().collect()), vec![1, 2, 4, 5, 3]);
    let six = graph.create_node(6);
    graph.add_edge(NodeRef { index: 2 }, six);
    assert_eq!(data(graph.dfs().collect()), vec![1, 2, 4, 5, 3, 6]);
}

#[test]
fn mapped_single_node_tree_keeps_its_shape() {
    let mut graph = Graph::new();
    let root = graph.create_node(4);
    graph.set_root(root);

    let mut copy = Graph::new();
    let mut made = Vec::new();
    for node in graph.dfs().collect() {
        made.push(copy.own_node(Node::new(node.datum * 10)));
    }
    let new_root = NodeRef::from_iter(made);
    copy.set_root(new_root);

    assert_eq!(copy.len(), 1);
    assert_eq!(copy.root().datum, 40);
    assert_eq!(copy.root().edges().len(), graph.root().edges().len());
    assert_eq!(data(copy.dfs().collect()), vec![40]);
}

#[test]
fn mapped_tree_holds_every_datum_but_no_edge() {
    let graph = sample_tree();
    let mut copy = Graph::new();
    let mut made = Vec::new();
    for node in graph.dfs().collect() {
        made.push(copy.own_node(Node::new(node.datum + 100)));
    }
    let new_root = NodeRef::from_iter(made);
    copy.set_root(new_root);

    assert_eq!(new_root, NodeRef { index: 0 });
    assert_eq!(copy.len(), 5);
    let stored: Vec<i32> = (0..5).map(|i| copy.node(NodeRef { index: i }).datum).collect();
    assert_eq!(stored, vec![101, 102, 104, 105, 103]);
    for i in 0..5 {
        assert!(copy.node(NodeRef { index: i }).edges().is_empty());
    }
    assert_eq!(data(copy.dfs().collect()), vec![101]);
}

use arena_graph::graph::{Graph, Node};
use arena_graph::model::NodeRef;

#[test]
fn new_graph_is_empty_and_has_no_root() {
    let graph: Graph<i32> = Graph::new();
    assert_eq!(graph.len(), 0);
    assert_eq!(graph.root_ref(), None);
}

#[test]
fn new_node_has_its_datum_and_no_edges() {
    let node = Node::new("a");
    assert_eq!(node.datum, "a");
    assert_eq!(*node.datum(), "a");
    assert!(node.edges().is_empty());
}

#[test]
fn add_edge_appends_and_returns_the_target() {
    let mut node = Node::new(0);
    let first = NodeRef { index: 3 };
    let second = NodeRef { index: 1 };
    assert_eq!(node.add_edge(first), first);
    assert_eq!(node.add_edge(second), second);
    assert_eq!(node.add_edge(first), first);
    assert_eq!(node.edges(), &vec![first, second, first]);
}

#[test]
fn own_node_hands_out_handles_in_creation_order() {
    let mut graph = Graph::new();
    let a = graph.own_node(Node::new('a'));
    let b = graph.own_node(Node::new('b'));
    let c = graph.create_node('c');
    assert_eq!((a.index, b.index, c.index), (0, 1, 2));
    assert_eq!(graph.len(), 3);
    assert_eq!(graph.node(a).datum, 'a');
    assert_eq!(graph.node(b).datum, 'b');
    assert_eq!(graph.node(c).datum, 'c');
}

#[test]
fn own_node_keeps_the_edges_of_the_node() {
    let mut graph = Graph::new();
    let a = graph.create_node(1);
    let b = graph.create_node(2);
    let mut node = Node::new(3);
    node.add_edge(b);
    node.add_edge(a);
    let c = graph.own_node(node);
    assert_eq!(graph.node(c).edges(), &vec![b, a]);
    assert!(graph.node(a).edges().is_empty());
}

#[test]
fn graph_add_edge_changes_one_node_only() {
    let mut graph = Graph::new();
    let a = graph.create_node(1);
    let b = graph.create_node(2);
    let c = graph.create_node(3);
    assert_eq!(graph.add_edge(a, c), c);
    assert_eq!(graph.add_edge(a, b), b);
    assert_eq!(graph.add_edge(c, c), c);
    assert_eq!(graph.node(a).edges(), &vec![c, b]);
    assert!(graph.node(b).edges().is_empty());
    assert_eq!(graph.node(c).edges(), &vec![c]);
    assert_eq!(graph.node(a).datum, 1);
    assert_eq!(graph.len(), 3);
}

#[test]
fn add_edge_chains_through_its_result() {
    let mut graph = Graph::new();
    let root = graph.create_node("root");
    let child = graph.create_node("child");
    let grandchild = graph.create_node("grandchild");
    let reached = graph.add_edge(root, child);
    graph.add_edge(reached, grandchild);
    assert_eq!(graph.node(root).edges(), &vec![child]);
    assert_eq!(graph.node(child).edges(), &vec![grandchild]);
}

#[test]
fn set_root_records_and_returns_the_root() {
    let mut graph = Graph::new();
    let a = graph.create_node(10);
    let b = graph.create_node(20);
    assert_eq!(graph.set_root(b), b);
    assert_eq!(graph.root_ref(), Some(b));
    assert_eq!(graph.root().datum, 20);
    assert_eq!(graph.set_root(a), a);
    assert_eq!(graph.root_ref(), Some(a));
    assert_eq!(graph.root().datum, 10);
    assert_eq!(graph.node(b).datum, 20);
    assert_eq!(graph.len(), 2);
}

#[test]
fn set_root_of_a_node_just_stored() {
    let mut graph = Graph::new();
    let stored = graph.own_node(Node::new(5));
    let root = graph.set_root(stored);
    assert_eq!(root, NodeRef { index: 0 });
    assert_eq!(graph.root().datum, 5);
}

#[test]
fn from_iter_picks_the_first_handle() {
    let handles = vec![NodeRef { index: 4 }, NodeRef { index: 0 }, NodeRef { index: 9 }];
    assert_eq!(NodeRef::from_iter(handles), NodeRef { index: 4 });
    assert_eq!(NodeRef::from_iter(vec![NodeRef { index: 2 }]), NodeRef { index: 2 });
}

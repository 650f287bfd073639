//! The arena, its nodes and the handles that name them.
use vstd::prelude::*;
use crate::model::{GraphView, NodeRef, NodeView};

verus! {

/// A graph node: a datum and an append-only list of edges.
pub struct Node<T> {
    pub datum: T,
    edges: Vec<NodeRef>,
}

impl<T> View for Node<T> {
    type V = NodeView<T>;

    closed spec fn view(&self) -> NodeView<T> {
        NodeView { datum: self.datum, edges: self.edges@ }
    }
}

impl<T> Node<T> {
    /// A detached node with no edges.
    pub fn new(datum: T) -> (node: Node<T>)
        ensures
            node@ == NodeView::leaf(datum),
    {
        Node { datum, edges: Vec::new() }
    }

    /// Appends `edge` to the edge list and hands it back, so that calls chain.
    pub fn add_edge(&mut self, edge: NodeRef) -> (target: NodeRef)
        ensures
            final(self)@ == old(self)@.with_edge(edge),
            target == edge,
    {
        self.edges.push(edge);
        edge
    }

    /// The datum of the node.
    pub fn datum(&self) -> (datum: &T)
        ensures
            *datum == self@.datum,
    {
        &self.datum
    }

    /// The edge targets, in insertion order.
    pub fn edges(&self) -> (list: &Vec<NodeRef>)
        ensures
            list@ == self@.edges,
    {
        &self.edges
    }
}

/// An arena of nodes with an optional root.
pub struct Graph<T> {
    nodes: Vec<Node<T>>,
    root: Option<NodeRef>,
}

impl<T> View for Graph<T> {
    type V = GraphView<T>;

    closed spec fn view(&self) -> GraphView<T> {
        GraphView { nodes: self.nodes@.map_values(|n: Node<T>| n@), root: self.root }
    }
}

impl<T> Graph<T> {
    /// The invariant of a graph: no edge and no root leaves the arena.
    pub open spec fn wf(&self) -> bool {
        self@.wf()
    }

    /// An empty graph without a root.
    pub fn new() -> (graph: Graph<T>)
        ensures
            graph@ == GraphView::<T>::empty(),
            graph.wf(),
    {
        let graph = Graph { nodes: Vec::new(), root: None };
        assert(graph@.nodes =~= Seq::empty());
        graph
    }

    /// The number of nodes created so far.
    pub fn len(&self) -> (n: usize)
        ensures
            n == self@.nodes.len(),
    {
        self.nodes.len()
    }

    /// Moves a node into the arena and returns its handle. Nodes already in
    /// the arena keep their handles and their contents.
    pub fn own_node(&mut self, node: Node<T>) -> (r: NodeRef)
        requires
            old(self).wf(),
            old(self)@.owns_edges_of(node@),
        ensures
            final(self)@ == old(self)@.with_node(node@),
            r.index == old(self)@.nodes.len(),
            final(self).wf(),
    {
        let r = NodeRef { index: self.nodes.len() };
        self.nodes.push(node);
        assert(self@.nodes =~= old(self)@.nodes.push(node@));
        r
    }

    /// Stores a new node without edges that holds `datum`.
    pub fn create_node(&mut self, datum: T) -> (r: NodeRef)
        requires
            old(self).wf(),
        ensures
            final(self)@ == old(self)@.with_node(NodeView::leaf(datum)),
            r.index == old(self)@.nodes.len(),
            final(self).wf(),
    {
        self.own_node(Node::new(datum))
    }

    /// The node that `r` names.
    pub fn node(&self, r: NodeRef) -> (node: &Node<T>)
        requires
            self@.contains(r),
        ensures
            node@ == self@.node(r),
    {
        &self.nodes[r.index]
    }

    /// Makes `root` the root of the graph and hands it back. An earlier root
    /// is replaced; its node stays in the arena.
    pub fn set_root(&mut self, root: NodeRef) -> (r: NodeRef)
        requires
            old(self).wf(),
            old(self)@.contains(root),
        ensures
            final(self)@ == old(self)@.with_root(root),
            r == root,
            final(self).wf(),
    {
        self.root = Some(root);
        root
    }

    /// The handle of the root, or `None` while no root has been set.
    pub fn root_ref(&self) -> (r: Option<NodeRef>)
        ensures
            r == self@.root,
    {
        self.root
    }

    /// The root node. The graph must have one.
    pub fn root(&self) -> (node: &Node<T>)
        requires
            self.wf(),
            self@.root is Some,
        ensures
            node@ == self@.node(self@.root->0),
    {
        &self.nodes[self.root.unwrap().index]
    }

    /// Appends an edge from `from` to `to` and returns `to`.
    pub fn add_edge(&mut self, from: NodeRef, to: NodeRef) -> (target: NodeRef)
        requires
            old(self).wf(),
            old(self)@.contains(from),
            old(self)@.contains(to),
        ensures
            final(self)@ == old(self)@.with_edge(from, to),
            target == to,
            final(self).wf(),
    {
        self.nodes[from.index].add_edge(to);
        assert(self@.nodes =~= old(self)@.nodes.update(
            from.index as int,
            old(self)@.node(from).with_edge(to),
        ));
        to
    }
}

} // verus!

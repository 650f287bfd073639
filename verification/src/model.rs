//! The mathematical model of a graph: what contracts speak about.
use vstd::prelude::*;

verus! {

/// A stable handle to a node: its position in the arena that owns it.
#[derive(Clone, Copy, Debug, PartialEq, Eq, Structural, Hash)]
pub struct NodeRef {
    pub index: usize,
}

impl NodeRef {
    /// Picks the root out of the handles that a walk's nodes were stored
    /// under: the first one, for a walk lists its start first. There must be
    /// at least one handle.
    pub fn from_iter(handles: Vec<NodeRef>) -> (root: NodeRef)
        requires
            handles.len() > 0,
        ensures
            root == handles[0],
    {
        handles[0]
    }
}

/// A node as a value: its datum and the handles of its edge targets, in the
/// order in which the edges were added.
pub struct NodeView<T> {
    pub datum: T,
    pub edges: Seq<NodeRef>,
}

/// A graph as a value: its nodes in creation order and its root, if set.
pub struct GraphView<T> {
    pub nodes: Seq<NodeView<T>>,
    pub root: Option<NodeRef>,
}

impl<T> NodeView<T> {
    /// A node without edges.
    pub open spec fn leaf(datum: T) -> Self {
        NodeView { datum, edges: Seq::empty() }
    }

    /// The node with one more edge at the end of its list.
    pub open spec fn with_edge(self, target: NodeRef) -> Self {
        NodeView { datum: self.datum, edges: self.edges.push(target) }
    }
}

impl<T> GraphView<T> {
    /// The graph without nodes and without a root.
    pub open spec fn empty() -> Self {
        GraphView { nodes: Seq::empty(), root: None }
    }

    /// `r` names a node of this graph.
    pub open spec fn contains(self, r: NodeRef) -> bool {
        r.index < self.nodes.len()
    }

    /// The node that `r` names.
    pub open spec fn node(self, r: NodeRef) -> NodeView<T> {
        self.nodes[r.index as int]
    }

    /// Every edge of `n` ends at a node of this graph. The node itself need
    /// not be one of them.
    pub open spec fn owns_edges_of(self, n: NodeView<T>) -> bool {
        forall|i: int| 0 <= i < n.edges.len() ==> self.contains(#[trigger] n.edges[i])
    }

    /// The target of the `i`-th edge of `n`.
    pub open spec fn child(self, n: NodeView<T>, i: int) -> NodeView<T> {
        self.node(n.edges[i])
    }

    /// All edges stay inside the graph, and so does the root.
    pub open spec fn wf(self) -> bool {
        &&& forall|k: int|
            0 <= k < self.nodes.len() ==> self.owns_edges_of(#[trigger] self.nodes[k])
        &&& self.root matches Some(r) ==> self.contains(r)
    }

    /// The graph after a new node has been stored at the end of the arena.
    pub open spec fn with_node(self, n: NodeView<T>) -> Self {
        GraphView { nodes: self.nodes.push(n), root: self.root }
    }

    /// The graph after an edge from `from` to `to` has been appended.
    pub open spec fn with_edge(self, from: NodeRef, to: NodeRef) -> Self {
        GraphView {
            nodes: self.nodes.update(from.index as int, self.node(from).with_edge(to)),
            root: self.root,
        }
    }

    /// The graph with `r` as its root.
    pub open spec fn with_root(self, r: NodeRef) -> Self {
        GraphView { nodes: self.nodes, root: Some(r) }
    }
}

} // verus!

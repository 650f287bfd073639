//! Building a second graph from the listing of a first one.
use vstd::prelude::*;
use crate::model::{GraphView, NodeRef, NodeView};
use crate::order::{
    acyclic_from, bounded, dfs_order, height, lemma_dfs_order_is_preorder, preorder, subtrees,
};

verus! {

/// The graph that holds, for each of the first `count` nodes of `listing` in
/// turn, a new node without edges whose datum is `f` of that node's datum.
pub open spec fn stored<T, U>(listing: Seq<NodeView<T>>, f: spec_fn(T) -> U, count: nat)
    -> GraphView<U>
    decreases count,
{
    if count == 0 {
        GraphView::empty()
    } else {
        stored(listing, f, (count - 1) as nat).with_node(
            NodeView::leaf(f(listing[count - 1].datum)),
        )
    }
}

/// The graph made from a listing by storing a transformed copy of each
/// node's datum and taking the first node stored as the root.
pub open spec fn collected<T, U>(listing: Seq<NodeView<T>>, f: spec_fn(T) -> U) -> GraphView<U> {
    stored(listing, f, listing.len()).with_root(NodeRef { index: 0 })
}

/// Storing the nodes of a listing gives one node without edges for each, in
/// the listing's order.
pub proof fn lemma_stored_nodes<T, U>(listing: Seq<NodeView<T>>, f: spec_fn(T) -> U, count: nat)
    requires
        count <= listing.len(),
    ensures
        stored(listing, f, count).nodes.len() == count,
        stored(listing, f, count).root is None,
        forall|k: int|
            0 <= k < count ==> #[trigger] stored(listing, f, count).nodes[k] == NodeView::leaf(
                f(listing[k].datum),
            ),
    decreases count,
{
    if count > 0 {
        lemma_stored_nodes(listing, f, (count - 1) as nat);
    }
}

/// A graph collected from the listing of another holds the transformed data
/// in the listing's order and no edge at all: its own listing is its root
/// alone.
pub proof fn lemma_collected_has_no_edges<T, U>(
    g: GraphView<T>,
    n: NodeView<T>,
    f: spec_fn(T) -> U,
)
    requires
        acyclic_from(g, n),
    ensures
        ({
            let made = collected(dfs_order(g, n), f);
            &&& made.wf()
            &&& made.root == Some(NodeRef { index: 0 })
            &&& made.nodes.len() == dfs_order(g, n).len()
            &&& forall|k: int|
                0 <= k < made.nodes.len() ==> #[trigger] made.nodes[k] == NodeView::leaf(
                    f(dfs_order(g, n)[k].datum),
                )
            &&& acyclic_from(made, made.node(NodeRef { index: 0 }))
            &&& dfs_order(made, made.node(NodeRef { index: 0 })) == seq![
                NodeView::leaf(f(n.datum)),
            ]
        }),
{
    let listing = dfs_order(g, n);
    let made = collected(listing, f);
    assert(height(g, n) > 0);
    assert(listing[0] == n);
    lemma_stored_nodes(listing, f, listing.len());
    let root = made.node(NodeRef { index: 0 });
    assert(root == NodeView::leaf(f(n.datum)));
    assert(bounded(made, root, 1));
    lemma_dfs_order_is_preorder(made, root, 1);
    assert(subtrees(made, root, 0, 0) =~= Seq::<NodeView<U>>::empty());
    assert(preorder(made, root, 1) =~= seq![root]);
}

/// For a tree of one node, the graph collected from its listing has the same
/// shape: one node without edges, which holds the transformed datum and is
/// the root, so that the listing of the new graph is the transformed listing
/// of the old one.
pub proof fn lemma_collected_keeps_single_node<T, U>(
    g: GraphView<T>,
    n: NodeView<T>,
    f: spec_fn(T) -> U,
)
    requires
        n.edges.len() == 0,
    ensures
        acyclic_from(g, n),
        ({
            let made = collected(dfs_order(g, n), f);
            let root = made.node(NodeRef { index: 0 });
            &&& made.nodes == seq![NodeView { datum: f(n.datum), edges: n.edges }]
            &&& made.root == Some(NodeRef { index: 0 })
            &&& dfs_order(made, root) == dfs_order(g, n).map_values(
                |m: NodeView<T>| NodeView { datum: f(m.datum), edges: m.edges },
            )
        }),
{
    assert(bounded(g, n, 1));
    lemma_dfs_order_is_preorder(g, n, 1);
    assert(subtrees(g, n, 0, 0) =~= Seq::<NodeView<T>>::empty());
    assert(preorder(g, n, 1) =~= seq![n]);
    lemma_collected_has_no_edges(g, n, f);
    let made = collected(dfs_order(g, n), f);
    assert(n.edges =~= Seq::<NodeRef>::empty());
    assert(made.nodes =~= seq![NodeView { datum: f(n.datum), edges: n.edges }]);
    assert(dfs_order(g, n).map_values(
        |m: NodeView<T>| NodeView { datum: f(m.datum), edges: m.edges },
    ) =~= seq![NodeView { datum: f(n.datum), edges: n.edges }]);
}

} // verus!

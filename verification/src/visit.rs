//! The cycle-safe traversal as a mathematical function: which nodes it
//! visits, and in which order.
use vstd::prelude::*;
use vstd::seq_lib::seq_to_set_is_finite;
use vstd::set_lib::lemma_len_subset;
use crate::model::{GraphView, NodeView};

verus! {

/// The data of a list of nodes, in order.
pub open spec fn data_of<T>(nodes: Seq<NodeView<T>>) -> Seq<T> {
    nodes.map_values(|n: NodeView<T>| n.datum)
}

/// The data that occur in a list of nodes.
pub open spec fn data_set<T>(nodes: Seq<NodeView<T>>) -> Set<T> {
    data_of(nodes).to_set()
}

/// The data that a traversal of `g` may still visit once the data in `seen`
/// are excluded: those of the graph's nodes and of the start node `n`.
pub open spec fn open_data<T>(g: GraphView<T>, n: NodeView<T>, seen: Set<T>) -> Set<T> {
    data_set(g.nodes).insert(n.datum).difference(seen)
}

/// How many data a traversal may still visit.
pub open spec fn unseen<T>(g: GraphView<T>, n: NodeView<T>, seen: Set<T>) -> nat {
    open_data(g, n, seen).len()
}

/// There are finitely many data left to visit.
pub proof fn lemma_open_data_finite<T>(g: GraphView<T>, n: NodeView<T>, seen: Set<T>)
    ensures
        open_data(g, n, seen).finite(),
{
    seq_to_set_is_finite(data_of(g.nodes));
}

/// The datum of a node of the graph is one of the graph's data.
pub proof fn lemma_node_datum_in_graph<T>(g: GraphView<T>, k: int)
    requires
        0 <= k < g.nodes.len(),
    ensures
        data_set(g.nodes).contains(g.nodes[k].datum),
{
    assert(data_of(g.nodes)[k] == g.nodes[k].datum);
}

/// Visiting a new datum leaves fewer data to visit.
pub proof fn lemma_unseen_after_visit<T>(g: GraphView<T>, n: NodeView<T>, seen: Set<T>)
    requires
        !seen.contains(n.datum),
    ensures
        unseen(g, n, seen.insert(n.datum)) < unseen(g, n, seen),
{
    let before = open_data(g, n, seen);
    let after = open_data(g, n, seen.insert(n.datum));
    lemma_open_data_finite(g, n, seen);
    assert(before.contains(n.datum));
    assert(after =~= before.remove(n.datum));
}

/// From a node of the graph, with at least the same data excluded, no more
/// data are left to visit than from `n`.
pub proof fn lemma_unseen_shrinks<T>(
    g: GraphView<T>,
    n: NodeView<T>,
    seen: Set<T>,
    k: int,
    more: Set<T>,
)
    requires
        0 <= k < g.nodes.len(),
        seen.subset_of(more),
    ensures
        unseen(g, g.nodes[k], more) <= unseen(g, n, seen),
        unseen(g, n, more) <= unseen(g, n, seen),
{
    lemma_open_data_finite(g, n, seen);
    lemma_node_datum_in_graph(g, k);
    assert(open_data(g, g.nodes[k], more).subset_of(open_data(g, n, seen)));
    lemma_len_subset(open_data(g, g.nodes[k], more), open_data(g, n, seen));
    assert(open_data(g, n, more).subset_of(open_data(g, n, seen)));
    lemma_len_subset(open_data(g, n, more), open_data(g, n, seen));
}

/// The nodes that a traversal from `n` visits, in order, when the data in
/// `seen` have been visited before.
///
/// A node whose datum has been seen is skipped together with everything below
/// it. Any other node is visited, its datum counts as seen from then on, and
/// the traversal goes on through its edges in their order.
pub open spec fn visit<T>(g: GraphView<T>, n: NodeView<T>, seen: Set<T>) -> Seq<NodeView<T>>
    decreases unseen(g, n, seen), 0nat,
    when g.wf() && g.owns_edges_of(n)
{
    if seen.contains(n.datum) {
        Seq::empty()
    } else {
        proof {
            lemma_unseen_after_visit(g, n, seen);
        }
        seq![n] + visit_edges(g, n, 0, seen.insert(n.datum))
    }
}

/// The nodes visited through the edges of `n` from position `from` on. What
/// one edge's traversal has visited is seen by the traversals of the edges
/// after it.
pub open spec fn visit_edges<T>(g: GraphView<T>, n: NodeView<T>, from: nat, seen: Set<T>) -> Seq<
    NodeView<T>,
>
    decreases unseen(g, n, seen), 1 + n.edges.len() - from,
    when g.wf() && g.owns_edges_of(n)
{
    if from >= n.edges.len() {
        Seq::empty()
    } else {
        proof {
            lemma_unseen_shrinks(g, n, seen, n.edges[from as int].index as int, seen);
        }
        let first = visit(g, g.child(n, from as int), seen);
        proof {
            lemma_unseen_shrinks(
                g,
                n,
                seen,
                n.edges[from as int].index as int,
                seen.union(data_set(first)),
            );
        }
        first + visit_edges(g, n, from + 1, seen.union(data_set(first)))
    }
}

/// The data of a list of nodes differ from each other and from every datum
/// in `seen`.
pub open spec fn fresh_data<T>(nodes: Seq<NodeView<T>>, seen: Set<T>) -> bool {
    &&& data_of(nodes).no_duplicates()
    &&& forall|k: int| 0 <= k < nodes.len() ==> !seen.contains(#[trigger] nodes[k].datum)
}

/// The data of two lists of nodes, one after the other.
pub proof fn lemma_data_set_concat<T>(a: Seq<NodeView<T>>, b: Seq<NodeView<T>>)
    ensures
        data_set(a + b) == data_set(a).union(data_set(b)),
{
    let joined = data_of(a + b);
    assert(joined =~= data_of(a) + data_of(b));
    assert forall|d: T| data_set(a + b).contains(d) <==> data_set(a).union(data_set(b)).contains(
        d,
    ) by {
        if data_set(a + b).contains(d) {
            let k = choose|k: int| 0 <= k < joined.len() && joined[k] == d;
            if k < a.len() {
                assert(data_of(a)[k] == d);
            } else {
                assert(data_of(b)[k - a.len()] == d);
            }
        }
        if data_set(a).contains(d) {
            let k = choose|k: int| 0 <= k < data_of(a).len() && data_of(a)[k] == d;
            assert(joined[k] == d);
        }
        if data_set(b).contains(d) {
            let k = choose|k: int| 0 <= k < data_of(b).len() && data_of(b)[k] == d;
            assert(joined[a.len() + k] == d);
        }
    }
    assert(data_set(a + b) =~= data_set(a).union(data_set(b)));
}

/// The one datum of a single node.
pub proof fn lemma_data_set_single<T>(n: NodeView<T>)
    ensures
        data_set(seq![n]) == Set::<T>::empty().insert(n.datum),
{
    assert(data_of(seq![n])[0] == n.datum);
    assert(data_set(seq![n]) =~= Set::<T>::empty().insert(n.datum));
}

/// Two lists of fresh data, the second fresh against the first as well, make
/// one list of fresh data.
proof fn lemma_fresh_concat<T>(a: Seq<NodeView<T>>, b: Seq<NodeView<T>>, seen: Set<T>)
    requires
        fresh_data(a, seen),
        fresh_data(b, seen.union(data_set(a))),
    ensures
        fresh_data(a + b, seen),
{
    let joined = data_of(a + b);
    assert(joined =~= data_of(a) + data_of(b));
    assert forall|i: int, j: int| 0 <= i < j < joined.len() implies joined[i] != joined[j] by {
        if j < a.len() {
            assert(data_of(a)[i] != data_of(a)[j]);
        } else if i >= a.len() {
            assert(data_of(b)[i - a.len()] != data_of(b)[j - a.len()]);
        } else {
            assert(data_of(a)[i] == a[i].datum);
            assert(data_set(a).contains(a[i].datum));
            assert(!seen.union(data_set(a)).contains(b[j - a.len()].datum));
        }
    }
    assert forall|k: int| 0 <= k < (a + b).len() implies !seen.contains(
        #[trigger] (a + b)[k].datum,
    ) by {
        if k >= a.len() {
            assert(!seen.union(data_set(a)).contains(b[k - a.len()].datum));
        }
    }
}

/// A traversal visits no datum twice and none that was seen before: each
/// distinct datum is visited at most once.
pub proof fn lemma_visit_is_fresh<T>(g: GraphView<T>, n: NodeView<T>, seen: Set<T>)
    requires
        g.wf(),
        g.owns_edges_of(n),
    ensures
        fresh_data(visit(g, n, seen), seen),
    decreases unseen(g, n, seen), 0nat,
{
    if !seen.contains(n.datum) {
        lemma_unseen_after_visit(g, n, seen);
        let below = visit_edges(g, n, 0, seen.insert(n.datum));
        lemma_visit_edges_is_fresh(g, n, 0, seen.insert(n.datum));
        lemma_data_set_single(n);
        assert(fresh_data(seq![n], seen)) by {
            assert(data_of(seq![n]).len() == 1);
        }
        assert(seen.union(data_set(seq![n])) =~= seen.insert(n.datum));
        lemma_fresh_concat(seq![n], below, seen);
    } else {
        assert(data_of(Seq::<NodeView<T>>::empty()).len() == 0);
    }
}

/// The traversals of a node's edges visit no datum twice between them and
/// none that was seen before.
pub proof fn lemma_visit_edges_is_fresh<T>(
    g: GraphView<T>,
    n: NodeView<T>,
    from: nat,
    seen: Set<T>,
)
    requires
        g.wf(),
        g.owns_edges_of(n),
    ensures
        fresh_data(visit_edges(g, n, from, seen), seen),
    decreases unseen(g, n, seen), 1 + n.edges.len() - from,
{
    if from < n.edges.len() {
        let at = n.edges[from as int].index as int;
        let child = g.child(n, from as int);
        let first = visit(g, child, seen);
        let wider = seen.union(data_set(first));
        lemma_unseen_shrinks(g, n, seen, at, seen);
        lemma_unseen_shrinks(g, n, seen, at, wider);
        lemma_visit_is_fresh(g, child, seen);
        lemma_visit_edges_is_fresh(g, n, from + 1, wider);
        lemma_fresh_concat(first, visit_edges(g, n, from + 1, wider), seen);
    } else {
        assert(data_of(Seq::<NodeView<T>>::empty()).len() == 0);
    }
}

} // verus!

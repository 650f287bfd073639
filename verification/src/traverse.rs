//! The cycle-safe traversal: each distinct datum is visited once.
use std::collections::HashSet;
use std::hash::Hash;
use vstd::prelude::*;
use vstd::std_specs::hash::obeys_key_model;
use crate::dfs::views;
use crate::graph::{Graph, Node};
use crate::model::NodeView;
use crate::visit::{
    data_of, data_set, lemma_data_set_concat, lemma_data_set_single, lemma_unseen_after_visit,
    lemma_unseen_shrinks, lemma_visit_is_fresh, unseen, visit, visit_edges,
};

verus! {

/// A clone of a datum is the datum: what the set of visited data holds are
/// the data themselves.
pub open spec fn clone_is_exact<T: Clone>() -> bool {
    forall|a: T, b: T| cloned::<T>(a, b) ==> a == b
}

/// What the traversal needs of the data: hashing and `==` that agree with
/// equality, and exact clones.
pub open spec fn data_can_be_keys<T: Clone>() -> bool {
    obeys_key_model::<T>() && clone_is_exact::<T>()
}

/// Visits `node` and what lies below it, unless its datum is in `visited`.
/// The nodes visited are appended to `order`, their data added to `visited`.
fn visit_from<'a, T: Clone + Eq + Hash>(
    graph: &'a Graph<T>,
    node: &'a Node<T>,
    visited: &mut HashSet<T>,
    order: &mut Vec<&'a Node<T>>,
)
    requires
        graph.wf(),
        graph@.owns_edges_of(node@),
        data_can_be_keys::<T>(),
    ensures
        views(final(order)@) == views(old(order)@) + visit(graph@, node@, old(visited)@),
        final(visited)@ == old(visited)@.union(
            data_set(visit(graph@, node@, old(visited)@)),
        ),
    decreases unseen(graph@, node@, old(visited)@), 0nat,
{
    let ghost g = graph@;
    let ghost n = node@;
    let ghost seen = visited@;
    let ghost before = views(order@);
    if visited.contains(node.datum()) {
        assert(before + Seq::<NodeView<T>>::empty() =~= before);
        assert(data_set(Seq::<NodeView<T>>::empty()) =~= Set::<T>::empty());
        assert(seen.union(Set::<T>::empty()) =~= seen);
        return ;
    }
    order.push(node);
    let key = node.datum().clone();
    assert(cloned::<T>(n.datum, key));
    visited.insert(key);
    let ghost marked = seen.insert(n.datum);
    let ghost below = visit_edges(g, n, 0, marked);
    proof {
        assert(views(order@) =~= before + seq![n]);
        lemma_unseen_after_visit(g, n, seen);
        lemma_data_set_single(n);
        lemma_data_set_concat(seq![n], below);
        assert(marked.union(data_set(below)) =~= seen.union(data_set(seq![n] + below)));
    }
    let edges = node.edges();
    let mut i: usize = 0;
    while i < edges.len()
        invariant
            graph.wf(),
            g == graph@,
            n == node@,
            g.owns_edges_of(n),
            data_can_be_keys::<T>(),
            edges@ == n.edges,
            i <= edges.len(),
            seen == old(visited)@,
            marked.subset_of(visited@),
            unseen(g, n, marked) < unseen(g, n, seen),
            views(order@) + visit_edges(g, n, i as nat, visited@) == (before + seq![n]) + below,
            visited@.union(data_set(visit_edges(g, n, i as nat, visited@))) == marked.union(
                data_set(below),
            ),
        decreases edges.len() - i,
    {
        let child = graph.node(edges[i]);
        let ghost so_far = views(order@);
        let ghost now = visited@;
        let ghost first = visit(g, child@, now);
        let ghost wider = now.union(data_set(first));
        let ghost rest = visit_edges(g, n, (i + 1) as nat, wider);
        proof {
            lemma_unseen_shrinks(g, n, marked, edges[i as int].index as int, now);
            assert(g.owns_edges_of(child@));
        }
        visit_from(graph, child, visited, order);
        proof {
            lemma_unseen_shrinks(g, n, now, edges[i as int].index as int, now);
            assert(visit_edges(g, n, i as nat, now) == first + rest);
            assert((so_far + first) + rest =~= so_far + (first + rest));
            lemma_data_set_concat(first, rest);
            assert(wider.union(data_set(rest)) =~= now.union(data_set(first + rest)));
        }
        i = i + 1;
    }
    proof {
        assert(visit_edges(g, n, i as nat, visited@) =~= Seq::<NodeView<T>>::empty());
        assert(views(order@) + Seq::<NodeView<T>>::empty() =~= views(order@));
        assert(data_set(Seq::<NodeView<T>>::empty()) =~= Set::<T>::empty());
        assert(visited@.union(Set::<T>::empty()) =~= visited@);
        assert((before + seq![n]) + below =~= before + (seq![n] + below));
    }
}

impl<T: Clone + Eq + Hash> Node<T> {
    /// The nodes that a traversal from this node visits, in the order of the
    /// visits: each distinct datum once, at the first node that carries it.
    /// The node may be detached, as long as its edges point into `graph`.
    pub fn traverse_order<'a>(&'a self, graph: &'a Graph<T>) -> (order: Vec<&'a Node<T>>)
        requires
            graph.wf(),
            graph@.owns_edges_of(self@),
            data_can_be_keys::<T>(),
        ensures
            views(order@) == visit(graph@, self@, Set::empty()),
            data_of(views(order@)).no_duplicates(),
    {
        proof {
            lemma_visit_is_fresh(graph@, self@, Set::empty());
        }
        let mut visited: HashSet<T> = HashSet::new();
        let mut order: Vec<&'a Node<T>> = Vec::new();
        assert(views(order@) =~= Seq::<NodeView<T>>::empty());
        visit_from(graph, self, &mut visited, &mut order);
        assert(Seq::<NodeView<T>>::empty() + visit(graph@, self@, Set::empty()) =~= visit(
            graph@,
            self@,
            Set::empty(),
        ));
        order
    }

    /// Calls `callback` on the datum of each node that a traversal from this
    /// node visits, in the order of the visits.
    pub fn traverse<F: Fn(&T)>(&self, graph: &Graph<T>, callback: F)
        requires
            graph.wf(),
            graph@.owns_edges_of(self@),
            data_can_be_keys::<T>(),
            forall|k: int|
                0 <= k < visit(graph@, self@, Set::empty()).len() ==> call_requires(
                    callback,
                    (&(#[trigger] visit(graph@, self@, Set::empty())[k]).datum,),
                ),
        ensures
            forall|k: int|
                0 <= k < visit(graph@, self@, Set::empty()).len() ==> call_ensures(
                    callback,
                    (&(#[trigger] visit(graph@, self@, Set::empty())[k]).datum,),
                    (),
                ),
    {
        let order = self.traverse_order(graph);
        let ghost visits = visit(graph@, self@, Set::empty());
        let mut i: usize = 0;
        while i < order.len()
            invariant
                i <= order.len(),
                views(order@) == visits,
                forall|k: int|
                    0 <= k < visits.len() ==> call_requires(
                        callback,
                        (&(#[trigger] visits[k]).datum,),
                    ),
                forall|k: int|
                    0 <= k < i ==> call_ensures(callback, (&(#[trigger] visits[k]).datum,), ()),
            decreases order.len() - i,
        {
            assert(visits[i as int] == order@[i as int]@);
            callback(order[i].datum());
            i = i + 1;
        }
    }
}

impl<T: Clone + Eq + Hash> Graph<T> {
    /// The nodes that a traversal from the root visits, in the order of the
    /// visits. The graph must have a root.
    pub fn traverse_order<'a>(&'a self) -> (order: Vec<&'a Node<T>>)
        requires
            self.wf(),
            self@.root is Some,
            data_can_be_keys::<T>(),
        ensures
            views(order@) == visit(self@, self@.node(self@.root->0), Set::empty()),
            data_of(views(order@)).no_duplicates(),
    {
        self.root().traverse_order(self)
    }

    /// Calls `callback` on the datum of each node that a traversal from the
    /// root visits, in the order of the visits. The graph must have a root.
    pub fn traverse<F: Fn(&T)>(&self, callback: F)
        requires
            self.wf(),
            self@.root is Some,
            data_can_be_keys::<T>(),
            forall|k: int|
                0 <= k < visit(self@, self@.node(self@.root->0), Set::empty()).len()
                    ==> call_requires(
                    callback,
                    (&(#[trigger] visit(self@, self@.node(self@.root->0), Set::empty())[k]).datum,),
                ),
        ensures
            forall|k: int|
                0 <= k < visit(self@, self@.node(self@.root->0), Set::empty()).len()
                    ==> call_ensures(
                    callback,
                    (&(#[trigger] visit(self@, self@.node(self@.root->0), Set::empty())[k]).datum,),
                    (),
                ),
    {
        self.root().traverse(self, callback)
    }
}

} // verus!

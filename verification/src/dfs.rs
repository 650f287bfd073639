//! The depth-first iterator: a lazy pre-order walk kept on an explicit stack.
use vstd::prelude::*;
use crate::graph::{Graph, Node};
use crate::model::{GraphView, NodeView};
use crate::order::{acyclic_from, dfs_order, ends, lemma_start_has_dfs_order, lemma_step_follows_rest, rest_of_walk};
use crate::walk::{stack_in, start_at, step, steps, Frame};

verus! {

/// What a stack entry of the iterator stands for.
pub open spec fn frame_view<T>(entry: (Option<usize>, &Node<T>)) -> Frame<T> {
    Frame {
        next: match entry.0 {
            None => None,
            Some(i) => Some(i as nat),
        },
        node: entry.1@,
    }
}

/// What a produced node stands for.
pub open spec fn produced<T>(found: Option<&Node<T>>) -> Option<NodeView<T>> {
    match found {
        None => None,
        Some(node) => Some(node@),
    }
}

/// What a list of produced nodes stands for.
pub open spec fn views<T>(nodes: Seq<&Node<T>>) -> Seq<NodeView<T>> {
    nodes.map_values(|node: &Node<T>| node@)
}

/// Depth-first iterator over the nodes that can be reached from a start node.
pub struct DfsIter<'a, T> {
    graph: &'a Graph<T>,
    branch_points: Vec<(Option<usize>, &'a Node<T>)>,
}

impl<'a, T> View for DfsIter<'a, T> {
    type V = Seq<Frame<T>>;

    closed spec fn view(&self) -> Seq<Frame<T>> {
        self.branch_points@.map_values(|entry: (Option<usize>, &Node<T>)| frame_view(entry))
    }
}

/// How many more turns of the loop inside `next` a stack can take.
spec fn turns_left<T>(stack: Seq<Frame<T>>) -> nat {
    if stack.len() == 0 || stack.last().next is None {
        0
    } else {
        stack.len() + 1
    }
}

impl<'a, T> DfsIter<'a, T> {
    /// The graph that the iterator walks.
    pub closed spec fn graph(&self) -> GraphView<T> {
        self.graph@
    }

    /// The graph is well formed and every node on the stack points into it.
    pub open spec fn wf(&self) -> bool {
        &&& self.graph().wf()
        &&& stack_in(self.graph(), self@)
    }

    /// The walk comes to an end: the graph has no cycle that it can reach.
    pub open spec fn ends(&self) -> bool {
        ends(self.graph(), self@)
    }

    /// The nodes that a walk which ends has yet to produce, in order.
    pub open spec fn remaining(&self) -> Seq<NodeView<T>> {
        rest_of_walk(self.graph(), self@)
    }

    /// Produces the next node of the walk, or `None` when the walk is over.
    ///
    /// The result is one step of the walk over the stack. Where the walk
    /// ends, that is the first of the remaining nodes.
    pub fn next(&mut self) -> (found: Option<&'a Node<T>>)
        requires
            old(self).wf(),
        ensures
            final(self).wf(),
            final(self).graph() == old(self).graph(),
            (final(self)@, produced(found)) == step(old(self).graph(), old(self)@),
            old(self).ends() ==> final(self).ends(),
            old(self).ends() && old(self).remaining().len() == 0 ==> found is None,
            old(self).ends() && old(self).remaining().len() > 0 ==> {
                &&& produced(found) == Some(old(self).remaining().first())
                &&& final(self).remaining() == old(self).remaining().drop_first()
            },
    {
        let graph: &'a Graph<T> = self.graph;
        loop
            invariant
                self.wf(),
                self.graph == graph,
                graph@ == old(self).graph(),
                step(graph@, self@) == step(graph@, old(self)@),
            decreases turns_left(self@),
        {
            let ghost before = self@;
            match self.branch_points.pop() {
                None => {
                    assert(self@ =~= before);
                    proof {
                        if old(self).ends() {
                            lemma_step_follows_rest(graph@, old(self)@);
                        }
                    }
                    return None;
                },
                Some((index, node)) => {
                    assert(before.last() == frame_view((index, node)));
                    assert(self@ =~= before.drop_last());
                    match index {
                        None => {
                            self.branch_points.push((Some(0), node));
                            assert(self@ =~= before.drop_last().push(Frame::at(node@, 0)));
                            proof {
                                if old(self).ends() {
                                    lemma_step_follows_rest(graph@, old(self)@);
                                }
                            }
                            return Some(node);
                        },
                        Some(i) => {
                            let edges = node.edges();
                            if i < edges.len() {
                                let child = graph.node(edges[i]);
                                self.branch_points.push((Some(i + 1), node));
                                self.branch_points.push((None, child));
                                assert(self@ =~= before.drop_last().push(
                                    Frame::at(node@, (i + 1) as nat),
                                ).push(Frame::fresh(child@)));
                            }
                        },
                    }
                },
            }
        }
    }
}

impl<'a, T> DfsIter<'a, T> {
    /// Produces up to `limit` nodes, fewer only if the walk is over before.
    /// This is the way to read a graph that may have a cycle.
    pub fn take(&mut self, limit: usize) -> (nodes: Vec<&'a Node<T>>)
        requires
            old(self).wf(),
        ensures
            final(self).wf(),
            final(self).graph() == old(self).graph(),
            (final(self)@, views(nodes@)) == steps(old(self).graph(), old(self)@, limit as nat),
    {
        let mut nodes: Vec<&'a Node<T>> = Vec::new();
        let mut done: usize = 0;
        let ghost g = self.graph();
        assert(views(nodes@) =~= Seq::<NodeView<T>>::empty());
        while done < limit
            invariant
                self.wf(),
                self.graph() == g,
                g == old(self).graph(),
                done <= limit,
                steps(g, old(self)@, limit as nat).0 == steps(g, self@, (limit - done) as nat).0,
                steps(g, old(self)@, limit as nat).1 == views(nodes@) + steps(
                    g,
                    self@,
                    (limit - done) as nat,
                ).1,
            decreases limit - done,
        {
            let ghost before = self@;
            let ghost so_far = views(nodes@);
            match self.next() {
                None => {
                    assert(so_far + Seq::<NodeView<T>>::empty() =~= so_far);
                    assert(steps(g, self@, 0).1 =~= Seq::<NodeView<T>>::empty());
                    return nodes;
                },
                Some(node) => {
                    nodes.push(node);
                    done = done + 1;
                    assert(views(nodes@) =~= so_far.push(node@));
                    assert(so_far + (seq![node@] + steps(g, self@, (limit - done) as nat).1)
                        =~= so_far.push(node@) + steps(g, self@, (limit - done) as nat).1);
                },
            }
        }
        assert(views(nodes@) + Seq::<NodeView<T>>::empty() =~= views(nodes@));
        nodes
    }

    /// Runs the walk to its end and returns every node it produces, in order.
    /// The walk must end: the graph has no cycle that it can reach.
    pub fn collect(self) -> (nodes: Vec<&'a Node<T>>)
        requires
            self.wf(),
            self.ends(),
        ensures
            views(nodes@) == self.remaining(),
    {
        let mut iter = self;
        let mut nodes: Vec<&'a Node<T>> = Vec::new();
        let ghost whole = self.remaining();
        assert(views(nodes@) + whole =~= whole);
        loop
            invariant
                iter.wf(),
                iter.ends(),
                whole == self.remaining(),
                views(nodes@) + iter.remaining() == whole,
            decreases iter.remaining().len(),
        {
            let ghost so_far = views(nodes@);
            let ghost rest = iter.remaining();
            match iter.next() {
                None => {
                    assert(rest.len() == 0);
                    assert(so_far + rest =~= so_far);
                    return nodes;
                },
                Some(node) => {
                    nodes.push(node);
                    assert(views(nodes@) =~= so_far.push(node@));
                    assert(so_far.push(rest.first()) + rest.drop_first() =~= so_far + rest);
                },
            }
        }
    }
}

impl<T> Node<T> {
    /// Starts a depth-first walk at this node. The node may be detached, as
    /// long as its edges point into `graph`.
    pub fn dfs<'a>(&'a self, graph: &'a Graph<T>) -> (iter: DfsIter<'a, T>)
        requires
            graph.wf(),
            graph@.owns_edges_of(self@),
        ensures
            iter.wf(),
            iter.graph() == graph@,
            iter@ == start_at(self@),
            acyclic_from(graph@, self@) ==> iter.ends() && iter.remaining() == dfs_order(
                graph@,
                self@,
            ),
    {
        proof {
            if acyclic_from(graph@, self@) {
                lemma_start_has_dfs_order(graph@, self@);
            }
        }
        let mut branch_points: Vec<(Option<usize>, &'a Node<T>)> = Vec::new();
        branch_points.push((None, self));
        let iter = DfsIter { graph, branch_points };
        assert(iter@ =~= seq![Frame::fresh(self@)]);
        iter
    }
}

impl<T> Graph<T> {
    /// Starts a depth-first walk at the root. The graph must have one.
    pub fn dfs<'a>(&'a self) -> (iter: DfsIter<'a, T>)
        requires
            self.wf(),
            self@.root is Some,
        ensures
            iter.wf(),
            iter.graph() == self@,
            iter@ == start_at(self@.node(self@.root->0)),
            acyclic_from(self@, self@.node(self@.root->0)) ==> iter.ends() && iter.remaining()
                == dfs_order(self@, self@.node(self@.root->0)),
    {
        self.root().dfs(self)
    }
}

} // verus!

//! The depth-first walk as a state machine over a stack of frames.
use vstd::prelude::*;
use crate::model::{GraphView, NodeView};

verus! {

/// One entry of the walk's stack: a node and how far its edges have been
/// followed. `next` is `None` until the node itself has been produced, then
/// the position of the next edge to follow.
pub struct Frame<T> {
    pub next: Option<nat>,
    pub node: NodeView<T>,
}

impl<T> Frame<T> {
    /// The frame of a node that the walk has not produced yet.
    pub open spec fn fresh(node: NodeView<T>) -> Self {
        Frame { next: None, node }
    }

    /// The frame of a node whose edges before position `i` have been followed.
    pub open spec fn at(node: NodeView<T>, i: nat) -> Self {
        Frame { next: Some(i), node }
    }
}

/// Every node on the stack has all its edges inside `g`.
pub open spec fn stack_in<T>(g: GraphView<T>, stack: Seq<Frame<T>>) -> bool {
    forall|k: int| 0 <= k < stack.len() ==> g.owns_edges_of((#[trigger] stack[k]).node)
}

/// One step of the walk: the stack afterwards and the node produced, `None`
/// once the walk is over.
///
/// Exhausted frames are dropped from the top. A fresh frame produces its own
/// node; a frame with an edge left produces that edge's target and moves on
/// by one edge.
pub open spec fn step<T>(g: GraphView<T>, stack: Seq<Frame<T>>) -> (Seq<Frame<T>>, Option<
    NodeView<T>,
>)
    decreases stack.len(),
{
    if stack.len() == 0 {
        (stack, None)
    } else {
        let top = stack.last();
        let rest = stack.drop_last();
        match top.next {
            None => (rest.push(Frame::at(top.node, 0)), Some(top.node)),
            Some(i) => if i < top.node.edges.len() {
                let child = g.child(top.node, i as int);
                (
                    rest.push(Frame::at(top.node, i + 1)).push(Frame::at(child, 0)),
                    Some(child),
                )
            } else {
                step(g, rest)
            },
        }
    }
}

/// Up to `count` steps in a row: the stack afterwards and the nodes produced,
/// in order. The run stops early when a step produces nothing.
pub open spec fn steps<T>(g: GraphView<T>, stack: Seq<Frame<T>>, count: nat) -> (
    Seq<Frame<T>>,
    Seq<NodeView<T>>,
)
    decreases count,
{
    if count == 0 {
        (stack, Seq::empty())
    } else {
        let (after, found) = step(g, stack);
        match found {
            None => (after, Seq::empty()),
            Some(n) => {
                let (last, more) = steps(g, after, (count - 1) as nat);
                (last, seq![n] + more)
            },
        }
    }
}

/// The stack of a walk that is about to start at `n`.
pub open spec fn start_at<T>(n: NodeView<T>) -> Seq<Frame<T>> {
    seq![Frame::fresh(n)]
}

} // verus!

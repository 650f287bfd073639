//! The pre-order listing of a graph, and why the iterator's steps follow it.
use vstd::prelude::*;
use crate::walk::{start_at, step, steps, Frame};
use crate::model::{GraphView, NodeView};

verus! {

/// Every walk along edges that starts at `n` has fewer than `depth` nodes.
pub open spec fn bounded<T>(g: GraphView<T>, n: NodeView<T>, depth: nat) -> bool
    decreases depth,
{
    &&& depth > 0
    &&& forall|i: int|
        0 <= i < n.edges.len() ==> bounded(g, #[trigger] g.child(n, i), (depth - 1) as nat)
}

/// No walk from `n` comes back to a node it has left: the part of the graph
/// that `n` reaches has no cycle.
pub open spec fn acyclic_from<T>(g: GraphView<T>, n: NodeView<T>) -> bool {
    exists|depth: nat| bounded(g, n, depth)
}

/// A bound on the walks from `n`, where there is one.
pub open spec fn height<T>(g: GraphView<T>, n: NodeView<T>) -> nat {
    choose|depth: nat| bounded(g, n, depth)
}

/// The nodes met by the walks from `n` that have fewer than `depth` nodes, in
/// depth-first pre-order: `n` first, then the listing of each edge's target
/// in edge order, one whole listing before the next. A node that several
/// walks reach is listed once for each of them.
pub open spec fn preorder<T>(g: GraphView<T>, n: NodeView<T>, depth: nat) -> Seq<NodeView<T>>
    decreases depth, 0nat,
{
    if depth == 0 {
        Seq::empty()
    } else {
        seq![n] + subtrees(g, n, 0, (depth - 1) as nat)
    }
}

/// The listings of the targets of `n`'s edges from position `from` on, one
/// after the other.
pub open spec fn subtrees<T>(g: GraphView<T>, n: NodeView<T>, from: nat, depth: nat) -> Seq<
    NodeView<T>,
>
    decreases depth, n.edges.len() - from,
{
    if from >= n.edges.len() {
        Seq::empty()
    } else {
        preorder(g, g.child(n, from as int), depth) + subtrees(g, n, from + 1, depth)
    }
}

/// The depth-first pre-order listing of what `n` reaches, for a node from
/// which the graph is acyclic.
pub open spec fn dfs_order<T>(g: GraphView<T>, n: NodeView<T>) -> Seq<NodeView<T>> {
    preorder(g, n, height(g, n))
}

/// A bound on the walks from a node stays one when it grows.
pub proof fn lemma_bounded_grows<T>(g: GraphView<T>, n: NodeView<T>, depth: nat, more: nat)
    requires
        bounded(g, n, depth),
        depth <= more,
    ensures
        bounded(g, n, more),
    decreases depth,
{
    assert forall|i: int| 0 <= i < n.edges.len() implies bounded(
        g,
        #[trigger] g.child(n, i),
        (more - 1) as nat,
    ) by {
        lemma_bounded_grows(g, g.child(n, i), (depth - 1) as nat, (more - 1) as nat);
    }
}

/// Past a bound on the walks from `n`, the listing no longer depends on the
/// depth.
pub proof fn lemma_preorder_settles<T>(g: GraphView<T>, n: NodeView<T>, depth: nat, more: nat)
    requires
        bounded(g, n, depth),
        depth <= more,
    ensures
        preorder(g, n, more) == preorder(g, n, depth),
    decreases depth, 0nat,
{
    lemma_subtrees_settle(g, n, 0, (depth - 1) as nat, (more - 1) as nat);
}

/// Past a bound on the walks from each target, the listings of the targets no
/// longer depend on the depth.
pub proof fn lemma_subtrees_settle<T>(
    g: GraphView<T>,
    n: NodeView<T>,
    from: nat,
    depth: nat,
    more: nat,
)
    requires
        forall|i: int| from <= i < n.edges.len() ==> bounded(g, #[trigger] g.child(n, i), depth),
        depth <= more,
    ensures
        subtrees(g, n, from, more) == subtrees(g, n, from, depth),
    decreases depth, n.edges.len() - from,
{
    if from < n.edges.len() {
        lemma_preorder_settles(g, g.child(n, from as int), depth, more);
        lemma_subtrees_settle(g, n, from + 1, depth, more);
    }
}

/// The listing of a node is the node followed by the listings of its targets.
pub proof fn lemma_preorder_unfolds<T>(g: GraphView<T>, n: NodeView<T>, depth: nat)
    requires
        bounded(g, n, depth),
    ensures
        preorder(g, n, depth) == seq![n] + subtrees(g, n, 0, depth),
{
    lemma_subtrees_settle(g, n, 0, (depth - 1) as nat, depth);
}

/// For an acyclic start, every bound gives the same listing.
pub proof fn lemma_dfs_order_is_preorder<T>(g: GraphView<T>, n: NodeView<T>, depth: nat)
    requires
        bounded(g, n, depth),
    ensures
        dfs_order(g, n) == preorder(g, n, depth),
{
    let h = height(g, n);
    if h <= depth {
        lemma_preorder_settles(g, n, h, depth);
    } else {
        lemma_preorder_settles(g, n, depth, h);
    }
}

/// `depth` bounds the walks from every node on the stack.
pub open spec fn stack_bounded<T>(g: GraphView<T>, stack: Seq<Frame<T>>, depth: nat) -> bool {
    forall|k: int| 0 <= k < stack.len() ==> bounded(g, (#[trigger] stack[k]).node, depth)
}

/// What one stack entry still has to produce.
pub open spec fn frame_pending<T>(g: GraphView<T>, frame: Frame<T>, depth: nat) -> Seq<
    NodeView<T>,
> {
    match frame.next {
        None => preorder(g, frame.node, depth),
        Some(i) => subtrees(g, frame.node, i, depth),
    }
}

/// What a stack still has to produce, from its top down.
pub open spec fn pending<T>(g: GraphView<T>, stack: Seq<Frame<T>>, depth: nat) -> Seq<
    NodeView<T>,
>
    decreases stack.len(),
{
    if stack.len() == 0 {
        Seq::empty()
    } else {
        frame_pending(g, stack.last(), depth) + pending(g, stack.drop_last(), depth)
    }
}

/// What a stack still has to produce once an entry is pushed on it.
pub proof fn lemma_pending_push<T>(
    g: GraphView<T>,
    stack: Seq<Frame<T>>,
    frame: Frame<T>,
    depth: nat,
)
    ensures
        pending(g, stack.push(frame), depth) == frame_pending(g, frame, depth) + pending(
            g,
            stack,
            depth,
        ),
{
    assert(stack.push(frame).drop_last() =~= stack);
}

/// A step produces the first node that the stack has pending and leaves the
/// others pending, in their order; it produces nothing exactly when nothing
/// is pending.
pub proof fn lemma_step_follows_pending<T>(g: GraphView<T>, stack: Seq<Frame<T>>, depth: nat)
    requires
        stack_bounded(g, stack, depth),
    ensures
        stack_bounded(g, step(g, stack).0, depth),
        pending(g, stack, depth).len() == 0 ==> {
            &&& step(g, stack).1 is None
            &&& pending(g, step(g, stack).0, depth).len() == 0
        },
        pending(g, stack, depth).len() > 0 ==> {
            &&& step(g, stack).1 == Some(pending(g, stack, depth).first())
            &&& pending(g, step(g, stack).0, depth) == pending(g, stack, depth).drop_first()
        },
    decreases stack.len(),
{
    if stack.len() > 0 {
        let top = stack.last();
        let rest = stack.drop_last();
        let below = pending(g, rest, depth);
        assert(stack_bounded(g, rest, depth)) by {
            assert forall|k: int| 0 <= k < rest.len() implies bounded(
                g,
                (#[trigger] rest[k]).node,
                depth,
            ) by {
                assert(rest[k] == stack[k]);
            }
        }
        assert(bounded(g, top.node, depth));
        match top.next {
            None => {
                let back = Frame::at(top.node, 0);
                lemma_preorder_unfolds(g, top.node, depth);
                lemma_pending_push(g, rest, back, depth);
                let tail = subtrees(g, top.node, 0, depth);
                assert(((seq![top.node] + tail) + below).drop_first() =~= tail + below);
                assert forall|k: int| 0 <= k < rest.push(back).len() implies bounded(
                    g,
                    (#[trigger] rest.push(back)[k]).node,
                    depth,
                ) by {
                    if k < rest.len() {
                        assert(rest.push(back)[k] == stack[k]);
                    }
                }
            },
            Some(i) => {
                if i < top.node.edges.len() {
                    let child = g.child(top.node, i as int);
                    let back = Frame::at(top.node, i + 1);
                    let down = Frame::at(child, 0);
                    assert(bounded(g, child, (depth - 1) as nat));
                    lemma_bounded_grows(g, child, (depth - 1) as nat, depth);
                    lemma_preorder_unfolds(g, child, depth);
                    lemma_pending_push(g, rest, back, depth);
                    lemma_pending_push(g, rest.push(back), down, depth);
                    let under = subtrees(g, child, 0, depth);
                    let beside = subtrees(g, top.node, i + 1, depth);
                    assert((((seq![child] + under) + beside) + below).drop_first() =~= under + (
                    beside + below));
                    let after = rest.push(back).push(down);
                    assert forall|k: int| 0 <= k < after.len() implies bounded(
                        g,
                        (#[trigger] after[k]).node,
                        depth,
                    ) by {
                        if k < rest.len() {
                            assert(after[k] == stack[k]);
                        }
                    }
                } else {
                    lemma_step_follows_pending(g, rest, depth);
                    assert(subtrees(g, top.node, i, depth) + below =~= below);
                }
            },
        }
    }
}

/// The walk from this stack comes to an end: some depth bounds the walks from
/// every node on it.
pub open spec fn ends<T>(g: GraphView<T>, stack: Seq<Frame<T>>) -> bool {
    exists|depth: nat| stack_bounded(g, stack, depth)
}

/// The nodes that a walk which ends has yet to produce, in order.
pub open spec fn rest_of_walk<T>(g: GraphView<T>, stack: Seq<Frame<T>>) -> Seq<NodeView<T>> {
    pending(g, stack, choose|depth: nat| stack_bounded(g, stack, depth))
}

/// Past a bound on the walks from the stack's nodes, what is pending no
/// longer depends on the depth.
pub proof fn lemma_pending_settles<T>(
    g: GraphView<T>,
    stack: Seq<Frame<T>>,
    depth: nat,
    more: nat,
)
    requires
        stack_bounded(g, stack, depth),
        depth <= more,
    ensures
        stack_bounded(g, stack, more),
        pending(g, stack, more) == pending(g, stack, depth),
    decreases stack.len(),
{
    assert forall|k: int| 0 <= k < stack.len() implies bounded(
        g,
        (#[trigger] stack[k]).node,
        more,
    ) by {
        lemma_bounded_grows(g, stack[k].node, depth, more);
    }
    if stack.len() > 0 {
        let top = stack.last();
        let rest = stack.drop_last();
        assert forall|k: int| 0 <= k < rest.len() implies bounded(
            g,
            (#[trigger] rest[k]).node,
            depth,
        ) by {
            assert(rest[k] == stack[k]);
        }
        lemma_pending_settles(g, rest, depth, more);
        assert(bounded(g, top.node, depth));
        match top.next {
            None => {
                lemma_preorder_settles(g, top.node, depth, more);
            },
            Some(i) => {
                assert forall|j: int| i <= j < top.node.edges.len() implies bounded(
                    g,
                    #[trigger] g.child(top.node, j),
                    depth,
                ) by {
                    lemma_bounded_grows(g, g.child(top.node, j), (depth - 1) as nat, depth);
                }
                lemma_subtrees_settle(g, top.node, i, depth, more);
            },
        }
    }
}

/// For a walk that ends, every bound gives the same rest.
pub proof fn lemma_rest_is_pending<T>(g: GraphView<T>, stack: Seq<Frame<T>>, depth: nat)
    requires
        stack_bounded(g, stack, depth),
    ensures
        ends(g, stack),
        rest_of_walk(g, stack) == pending(g, stack, depth),
{
    let chosen = choose|d: nat| stack_bounded(g, stack, d);
    if chosen <= depth {
        lemma_pending_settles(g, stack, chosen, depth);
    } else {
        lemma_pending_settles(g, stack, depth, chosen);
    }
}

/// A walk that starts at a node from which the graph is acyclic ends, and
/// has the node's whole listing before it.
pub proof fn lemma_start_has_dfs_order<T>(g: GraphView<T>, n: NodeView<T>)
    requires
        acyclic_from(g, n),
    ensures
        ends(g, start_at(n)),
        rest_of_walk(g, start_at(n)) == dfs_order(g, n),
{
    let depth = height(g, n);
    let stack = start_at(n);
    assert(stack_bounded(g, stack, depth));
    lemma_rest_is_pending(g, stack, depth);
    assert(stack.drop_last() =~= Seq::<Frame<T>>::empty());
    assert(pending(g, stack.drop_last(), depth) =~= Seq::<NodeView<T>>::empty());
    assert(pending(g, stack, depth) =~= preorder(g, n, depth));
}

/// In a walk that ends, a step produces the first node of the rest and
/// leaves the others; it produces nothing exactly when the rest is empty.
pub proof fn lemma_step_follows_rest<T>(g: GraphView<T>, stack: Seq<Frame<T>>)
    requires
        ends(g, stack),
    ensures
        ends(g, step(g, stack).0),
        rest_of_walk(g, stack).len() == 0 ==> {
            &&& step(g, stack).1 is None
            &&& rest_of_walk(g, step(g, stack).0).len() == 0
        },
        rest_of_walk(g, stack).len() > 0 ==> {
            &&& step(g, stack).1 == Some(rest_of_walk(g, stack).first())
            &&& rest_of_walk(g, step(g, stack).0) == rest_of_walk(g, stack).drop_first()
        },
{
    let depth = choose|d: nat| stack_bounded(g, stack, d);
    lemma_step_follows_pending(g, stack, depth);
    lemma_rest_is_pending(g, stack, depth);
    lemma_rest_is_pending(g, step(g, stack).0, depth);
}

/// In a walk that ends, `count` steps produce the first `count` nodes of the
/// rest, or all of it where it is shorter, and leave the others.
pub proof fn lemma_steps_follow_rest<T>(g: GraphView<T>, stack: Seq<Frame<T>>, count: nat)
    requires
        ends(g, stack),
    ensures
        ends(g, steps(g, stack, count).0),
        count <= rest_of_walk(g, stack).len() ==> {
            &&& steps(g, stack, count).1 == rest_of_walk(g, stack).take(count as int)
            &&& rest_of_walk(g, steps(g, stack, count).0) == rest_of_walk(g, stack).skip(
                count as int,
            )
        },
        count > rest_of_walk(g, stack).len() ==> {
            &&& steps(g, stack, count).1 == rest_of_walk(g, stack)
            &&& rest_of_walk(g, steps(g, stack, count).0).len() == 0
        },
    decreases count,
{
    let rest = rest_of_walk(g, stack);
    if count == 0 {
        assert(rest.take(0) =~= Seq::<NodeView<T>>::empty());
        assert(rest.skip(0) =~= rest);
    } else {
        lemma_step_follows_rest(g, stack);
        let (after, found) = step(g, stack);
        if rest.len() == 0 {
            assert(rest =~= Seq::<NodeView<T>>::empty());
        } else {
            let less = (count - 1) as nat;
            lemma_steps_follow_rest(g, after, less);
            let tail = rest.drop_first();
            if count <= rest.len() {
                assert(seq![rest.first()] + tail.take(less as int) =~= rest.take(count as int));
                assert(tail.skip(less as int) =~= rest.skip(count as int));
            } else {
                assert(seq![rest.first()] + tail =~= rest);
            }
        }
    }
}

} // verus!

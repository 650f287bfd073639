//! Walks as lists of edge positions, and how the pre-order listing counts
//! them.
use vstd::prelude::*;
use crate::model::{GraphView, NodeView};
use crate::order::{acyclic_from, bounded, dfs_order, height, preorder, subtrees};

verus! {

/// A walk from a node, written as the position of the edge taken at each
/// node on the way. The empty list is the walk that stays at the start.
pub type Path = Seq<int>;

/// `path` names a walk from `n`: each position is one of an edge of the node
/// reached so far.
pub open spec fn is_path<T>(g: GraphView<T>, n: NodeView<T>, path: Path) -> bool
    decreases path.len(),
{
    path.len() == 0 || {
        &&& 0 <= path[0] < n.edges.len()
        &&& is_path(g, g.child(n, path[0]), path.drop_first())
    }
}

/// The node at which the walk `path` from `n` ends.
pub open spec fn end_of<T>(g: GraphView<T>, n: NodeView<T>, path: Path) -> NodeView<T>
    decreases path.len(),
{
    if path.len() == 0 {
        n
    } else {
        end_of(g, g.child(n, path[0]), path.drop_first())
    }
}

/// All walks from `n`.
pub open spec fn paths_from<T>(g: GraphView<T>, n: NodeView<T>) -> Set<Path> {
    Set::new(|path: Path| is_path(g, n, path))
}

/// Each path of the list, taken after the edge at position `i`.
pub open spec fn through(i: int, paths: Seq<Path>) -> Seq<Path> {
    paths.map_values(|path: Path| seq![i] + path)
}

/// The walks from `n` with fewer than `depth` nodes, in the order in which
/// the pre-order listing meets their ends.
pub open spec fn path_list<T>(g: GraphView<T>, n: NodeView<T>, depth: nat) -> Seq<Path>
    decreases depth, 0nat,
{
    if depth == 0 {
        Seq::empty()
    } else {
        seq![Seq::<int>::empty()] + path_lists(g, n, 0, (depth - 1) as nat)
    }
}

/// The walks that leave `n` by an edge at position `from` or later, in the
/// order in which the listings of those edges' targets meet their ends.
pub open spec fn path_lists<T>(g: GraphView<T>, n: NodeView<T>, from: nat, depth: nat) -> Seq<
    Path,
>
    decreases depth, n.edges.len() - from,
{
    if from >= n.edges.len() {
        Seq::empty()
    } else {
        through(from as int, path_list(g, g.child(n, from as int), depth)) + path_lists(
            g,
            n,
            from + 1,
            depth,
        )
    }
}

/// Every entry of the path lists of `n` from `from` on leaves `n` by an edge
/// at position `from` or later and goes on along a walk of that edge's
/// target.
proof fn lemma_path_lists_entries<T>(g: GraphView<T>, n: NodeView<T>, from: nat, depth: nat)
    ensures
        forall|k: int|
            0 <= k < path_lists(g, n, from, depth).len() ==> {
                let path = #[trigger] path_lists(g, n, from, depth)[k];
                &&& path.len() > 0
                &&& from <= path[0] < n.edges.len()
                &&& path_list(g, g.child(n, path[0]), depth).contains(path.drop_first())
            },
    decreases n.edges.len() - from,
{
    if from < n.edges.len() {
        let first = path_list(g, g.child(n, from as int), depth);
        let head = through(from as int, first);
        let tail = path_lists(g, n, from + 1, depth);
        lemma_path_lists_entries(g, n, from + 1, depth);
        assert forall|k: int| 0 <= k < (head + tail).len() implies {
            let path = #[trigger] (head + tail)[k];
            &&& path.len() > 0
            &&& from <= path[0] < n.edges.len()
            &&& path_list(g, g.child(n, path[0]), depth).contains(path.drop_first())
        } by {
            if k < head.len() {
                let path = head[k];
                assert(path == seq![from as int] + first[k]);
                assert(path.drop_first() =~= first[k]);
            } else {
                assert((head + tail)[k] == tail[k - head.len()]);
            }
        }
    }
}

/// The listing and the path list go together: they have the same length, and
/// each listed node is the end of the path at its place.
pub proof fn lemma_listing_follows_paths<T>(g: GraphView<T>, n: NodeView<T>, depth: nat)
    ensures
        path_list(g, n, depth).len() == preorder(g, n, depth).len(),
        forall|k: int|
            0 <= k < path_list(g, n, depth).len() ==> {
                &&& is_path(g, n, #[trigger] path_list(g, n, depth)[k])
                &&& end_of(g, n, path_list(g, n, depth)[k]) == preorder(g, n, depth)[k]
            },
    decreases depth, 0nat,
{
    if depth > 0 {
        lemma_listings_follow_paths(g, n, 0, (depth - 1) as nat);
    }
}

/// The same for the listings of the targets of `n`'s edges from `from` on.
pub proof fn lemma_listings_follow_paths<T>(
    g: GraphView<T>,
    n: NodeView<T>,
    from: nat,
    depth: nat,
)
    ensures
        path_lists(g, n, from, depth).len() == subtrees(g, n, from, depth).len(),
        forall|k: int|
            0 <= k < path_lists(g, n, from, depth).len() ==> {
                &&& is_path(g, n, #[trigger] path_lists(g, n, from, depth)[k])
                &&& end_of(g, n, path_lists(g, n, from, depth)[k]) == subtrees(
                    g,
                    n,
                    from,
                    depth,
                )[k]
            },
    decreases depth, 1 + n.edges.len() - from,
{
    if from < n.edges.len() {
        let child = g.child(n, from as int);
        let first = path_list(g, child, depth);
        let head = through(from as int, first);
        let tail = path_lists(g, n, from + 1, depth);
        lemma_listing_follows_paths(g, child, depth);
        lemma_listings_follow_paths(g, n, from + 1, depth);
        assert forall|k: int| 0 <= k < (head + tail).len() implies {
            &&& is_path(g, n, #[trigger] (head + tail)[k])
            &&& end_of(g, n, (head + tail)[k]) == subtrees(g, n, from, depth)[k]
        } by {
            if k < head.len() {
                let path = head[k];
                assert(path == seq![from as int] + first[k]);
                assert(path.drop_first() =~= first[k]);
                assert(path[0] == from);
            } else {
                assert((head + tail)[k] == tail[k - head.len()]);
            }
        }
    }
}

/// Every walk from a node with bounded walks stands in its path list.
pub proof fn lemma_path_is_listed<T>(g: GraphView<T>, n: NodeView<T>, depth: nat, path: Path)
    requires
        bounded(g, n, depth),
        is_path(g, n, path),
    ensures
        path_list(g, n, depth).contains(path),
    decreases path.len(),
{
    let list = path_list(g, n, depth);
    if path.len() == 0 {
        assert(list[0] =~= path);
    } else {
        let i = path[0];
        let child = g.child(n, i);
        lemma_path_is_listed(g, child, (depth - 1) as nat, path.drop_first());
        lemma_path_lists_cover(g, n, 0, (depth - 1) as nat, path);
        let below = path_lists(g, n, 0, (depth - 1) as nat);
        let k = choose|k: int| 0 <= k < below.len() && below[k] == path;
        assert(list[k + 1] == path);
    }
}

/// A path that leaves `n` by an edge at position `from` or later and goes on
/// along a listed walk of that edge's target stands in the path lists.
proof fn lemma_path_lists_cover<T>(
    g: GraphView<T>,
    n: NodeView<T>,
    from: nat,
    depth: nat,
    path: Path,
)
    requires
        path.len() > 0,
        from <= path[0] < n.edges.len(),
        path_list(g, g.child(n, path[0]), depth).contains(path.drop_first()),
    ensures
        path_lists(g, n, from, depth).contains(path),
    decreases n.edges.len() - from,
{
    let first = path_list(g, g.child(n, from as int), depth);
    let head = through(from as int, first);
    let tail = path_lists(g, n, from + 1, depth);
    if path[0] == from {
        let k = choose|k: int| 0 <= k < first.len() && first[k] == path.drop_first();
        assert(head[k] =~= path);
        assert((head + tail)[k] == path);
    } else {
        lemma_path_lists_cover(g, n, from + 1, depth, path);
        let k = choose|k: int| 0 <= k < tail.len() && tail[k] == path;
        assert((head + tail)[head.len() + k] == path);
    }
}

/// No walk stands twice in a path list.
pub proof fn lemma_path_list_distinct<T>(g: GraphView<T>, n: NodeView<T>, depth: nat)
    ensures
        path_list(g, n, depth).no_duplicates(),
    decreases depth, 0nat,
{
    if depth > 0 {
        let below = path_lists(g, n, 0, (depth - 1) as nat);
        lemma_path_lists_distinct(g, n, 0, (depth - 1) as nat);
        lemma_path_lists_entries(g, n, 0, (depth - 1) as nat);
        let list = seq![Seq::<int>::empty()] + below;
        assert forall|i: int, j: int| 0 <= i < j < list.len() implies list[i] != list[j] by {
            assert(list[j] == below[j - 1]);
            if i > 0 {
                assert(list[i] == below[i - 1]);
            }
        }
    }
}

/// No walk stands twice in the path lists of `n` from `from` on.
pub proof fn lemma_path_lists_distinct<T>(g: GraphView<T>, n: NodeView<T>, from: nat, depth: nat)
    ensures
        path_lists(g, n, from, depth).no_duplicates(),
    decreases depth, 1 + n.edges.len() - from,
{
    if from < n.edges.len() {
        let first = path_list(g, g.child(n, from as int), depth);
        let head = through(from as int, first);
        let tail = path_lists(g, n, from + 1, depth);
        lemma_path_list_distinct(g, g.child(n, from as int), depth);
        lemma_path_lists_distinct(g, n, from + 1, depth);
        lemma_path_lists_entries(g, n, from + 1, depth);
        assert forall|i: int, j: int| 0 <= i < j < (head + tail).len() implies (head + tail)[i]
            != (head + tail)[j] by {
            if j < head.len() {
                assert(head[i].drop_first() =~= first[i]);
                assert(head[j].drop_first() =~= first[j]);
            } else if i >= head.len() {
                assert((head + tail)[i] == tail[i - head.len()]);
                assert((head + tail)[j] == tail[j - head.len()]);
            } else {
                assert(head[i][0] == from);
                assert((head + tail)[j] == tail[j - head.len()]);
            }
        }
    }
}

/// Where the graph is acyclic from `n`, the depth-first listing has one entry
/// for each walk from `n`: a node that several walks reach is listed once
/// for each of them, and there are finitely many walks.
pub proof fn lemma_listing_counts_paths<T>(g: GraphView<T>, n: NodeView<T>, depth: nat)
    requires
        bounded(g, n, depth),
    ensures
        paths_from(g, n).finite(),
        preorder(g, n, depth).len() == paths_from(g, n).len(),
        paths_from(g, n) == path_list(g, n, depth).to_set(),
{
    let list = path_list(g, n, depth);
    lemma_listing_follows_paths(g, n, depth);
    lemma_path_list_distinct(g, n, depth);
    assert forall|path: Path| paths_from(g, n).contains(path) <==> list.to_set().contains(
        path,
    ) by {
        if is_path(g, n, path) {
            lemma_path_is_listed(g, n, depth, path);
        }
        if list.contains(path) {
            let k = choose|k: int| 0 <= k < list.len() && list[k] == path;
            assert(is_path(g, n, list[k]));
        }
    }
    assert(paths_from(g, n) =~= list.to_set());
    list.unique_seq_to_set();
    vstd::seq_lib::seq_to_set_is_finite(list);
}

/// The depth-first listing of an acyclic start has one entry for each walk
/// from it.
pub proof fn lemma_dfs_order_counts_paths<T>(g: GraphView<T>, n: NodeView<T>)
    requires
        acyclic_from(g, n),
    ensures
        paths_from(g, n).finite(),
        dfs_order(g, n).len() == paths_from(g, n).len(),
{
    lemma_listing_counts_paths(g, n, height(g, n));
}

} // verus!

//! Reachability in a graph given as adjacency lists over the vertices `0 .. adj.len()`.

use vstd::prelude::*;

verus! {

/// Adjacency lists as sequences: entry `u` lists the neighbours of the vertex `u`.
pub open spec fn lists(adj: Vec<Vec<usize>>) -> Seq<Seq<usize>> {
    Seq::new(adj.len() as nat, |u: int| adj[u]@)
}

/// `v` is listed among the neighbours of the vertex `u`.
pub open spec fn is_edge(adj: Seq<Seq<usize>>, u: usize, v: usize) -> bool {
    u < adj.len() && adj[u as int].contains(v)
}

/// Every listed neighbour is a vertex of the graph.
pub open spec fn neighbors_in_range(adj: Seq<Seq<usize>>) -> bool {
    forall|u: int, j: int|
        0 <= u < adj.len() && 0 <= j < adj[u].len() ==> #[trigger] adj[u][j] < adj.len()
}

/// The graph is part of a path through its vertices in the order of their indices: every
/// listed neighbour of a vertex is the vertex before it or the vertex after it.
pub open spec fn is_path_shaped(adj: Seq<Seq<usize>>) -> bool {
    forall|u: int, j: int|
        0 <= u < adj.len() && 0 <= j < adj[u].len() ==> (#[trigger] adj[u][j]) == u + 1 || adj[u][j] + 1 == u
}

/// A walk of exactly `steps` edges leads from the vertex `from` to `to`.
pub open spec fn reachable_in(adj: Seq<Seq<usize>>, from: usize, to: usize, steps: nat) -> bool
    decreases steps,
{
    if steps == 0 {
        from == to && from < adj.len()
    } else {
        exists|mid: usize|
            reachable_in(adj, from, mid, (steps - 1) as nat) && #[trigger] is_edge(adj, mid, to)
    }
}

/// Some walk leads from the vertex `from` to `to`.
pub open spec fn reachable(adj: Seq<Seq<usize>>, from: usize, to: usize) -> bool {
    exists|steps: nat| reachable_in(adj, from, to, steps)
}

/// The adjacency lists name vertices only, and every vertex can be reached from `root`.
pub open spec fn spans(adj: Seq<Seq<usize>>, root: usize) -> bool {
    &&& root < adj.len()
    &&& neighbors_in_range(adj)
    &&& forall|v: usize| v < adj.len() ==> reachable(adj, root, v)
}

/// `d` is the least number of edges of a walk from the vertex `from` to `to`.
pub open spec fn is_distance(adj: Seq<Seq<usize>>, from: usize, to: usize, d: nat) -> bool {
    &&& reachable_in(adj, from, to, d)
    &&& forall|steps: nat| reachable_in(adj, from, to, steps) ==> d <= steps
}

/// All neighbours of the vertex `u` are vertices that have a depth, which is more than
/// the depth of `u` by one at most.
pub open spec fn leveled_at(adj: Seq<Seq<usize>>, depth: Seq<Option<usize>>, u: int) -> bool {
    forall|j: int|
        0 <= j < adj[u].len() ==> {
            &&& (#[trigger] adj[u][j]) < adj.len()
            &&& depth[adj[u][j] as int] is Some
            &&& depth[u] is Some
            &&& depth[adj[u][j] as int].unwrap() <= depth[u].unwrap() + 1
        }
}

/// Where `from` has the depth 0 and no neighbour of a vertex that has a depth lies more
/// than one level below it, every vertex that a walk from `from` leads to has a depth,
/// which is the number of edges of the walk at most.
pub proof fn lemma_depth_is_least(
    adj: Seq<Seq<usize>>,
    depth: Seq<Option<usize>>,
    from: usize,
    to: usize,
    steps: nat,
)
    requires
        depth.len() == adj.len(),
        from < adj.len(),
        depth[from as int] == Some(0usize),
        forall|u: int| 0 <= u < adj.len() && depth[u] is Some ==> #[trigger] leveled_at(adj, depth, u),
        reachable_in(adj, from, to, steps),
    ensures
        to < adj.len(),
        depth[to as int] is Some,
        depth[to as int].unwrap() <= steps,
    decreases steps,
{
    if steps > 0 {
        let mid = choose|mid: usize|
            reachable_in(adj, from, mid, (steps - 1) as nat) && #[trigger] is_edge(adj, mid, to);
        lemma_depth_is_least(adj, depth, from, mid, (steps - 1) as nat);
        assert(leveled_at(adj, depth, mid as int));
        let j = choose|j: int| 0 <= j < adj[mid as int].len() && adj[mid as int][j] == to;
        assert(adj[mid as int][j] == to);
    }
}

} // verus!

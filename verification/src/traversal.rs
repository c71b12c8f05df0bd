//! Breadth-first exploration of adjacency lists from a root, recording for each
//! vertex found its depth and its column of the jump table.

use crate::ancestry::{climb, lemma_climb_add, parent_links, rows};
use crate::lca::LCA;
use crate::powers::is_ceil_log2;
use crate::reachability::{is_edge, leveled_at, lists, neighbors_in_range, reachable_in};
use std::collections::VecDeque;
use vstd::arithmetic::power2::{lemma2_to64, lemma_pow2_pos, lemma_pow2_unfold, pow2};
use vstd::prelude::*;

verus! {

/// How many entries are set.
pub open spec fn count_marked(marks: Seq<Option<usize>>) -> nat
    decreases marks.len(),
{
    if marks.len() == 0 {
        0
    } else {
        count_marked(marks.drop_last()) + if marks.last() is Some {
            1nat
        } else {
            0nat
        }
    }
}

/// No more entries are set than there are entries.
pub proof fn lemma_count_bound(marks: Seq<Option<usize>>)
    ensures
        count_marked(marks) <= marks.len(),
    decreases marks.len(),
{
    if marks.len() > 0 {
        lemma_count_bound(marks.drop_last());
    }
}

/// Where no entry is set, the count is 0.
proof fn lemma_count_none(marks: Seq<Option<usize>>)
    requires
        forall|v: int| 0 <= v < marks.len() ==> marks[v] is None,
    ensures
        count_marked(marks) == 0,
    decreases marks.len(),
{
    if marks.len() > 0 {
        lemma_count_none(marks.drop_last());
    }
}

/// Setting one entry that was not set raises the count by one.
proof fn lemma_count_mark(marks: Seq<Option<usize>>, v: int, d: usize)
    requires
        0 <= v < marks.len(),
        marks[v] is None,
    ensures
        count_marked(marks.update(v, Some(d))) == count_marked(marks) + 1,
    decreases marks.len(),
{
    let after = marks.update(v, Some(d));
    if v == marks.len() - 1 {
        assert(after.drop_last() =~= marks.drop_last());
    } else {
        assert(after.drop_last() =~= marks.drop_last().update(v, Some(d)));
        lemma_count_mark(marks.drop_last(), v, d);
    }
}

/// The found vertex `v` hangs below a found vertex one level up that lists it as a
/// neighbour, unless it is the root.
pub open spec fn linked(
    adj: Seq<Seq<usize>>,
    root: usize,
    depth: Seq<Option<usize>>,
    parents: Seq<Option<usize>>,
    v: int,
) -> bool {
    match parents[v] {
        Some(p) => {
            &&& p < adj.len()
            &&& v != root
            &&& depth[p as int] is Some
            &&& depth[v] is Some
            &&& depth[v].unwrap() == depth[p as int].unwrap() + 1
            &&& is_edge(adj, p, v as usize)
        },
        None => v == root,
    }
}

/// What holds of the vertices found so far, those whose depth is set: they form a tree
/// below the root along edges of the graph, in which the depth of a vertex is the length of
/// a walk from the root to it, and their columns of the jump table are filled.
pub open spec fn explored(
    adj: Seq<Seq<usize>>,
    root: usize,
    depth: Seq<Option<usize>>,
    jumps: Seq<Seq<Option<usize>>>,
) -> bool {
    let n = adj.len();
    let parents = parent_links(jumps, n);
    &&& 1 <= n <= usize::MAX
    &&& root < n
    &&& depth.len() == n
    &&& is_ceil_log2(n, jumps.len())
    &&& forall|i: int| 0 <= i < jumps.len() ==> (#[trigger] jumps[i]).len() == n
    &&& depth[root as int] == Some(0usize)
    &&& forall|v: int|
        0 <= v < n ==> (#[trigger] depth[v] matches Some(d) ==> d < count_marked(depth))
    &&& forall|v: int| 0 <= v < n && depth[v] is Some ==> #[trigger] linked(adj, root, depth, parents, v)
    &&& forall|i: int, v: int|
        0 <= i < jumps.len() && 0 <= v < n && depth[v] is Some ==> #[trigger] jumps[i][v] == climb(
            parents,
            v as usize,
            pow2(i as nat),
        )
    &&& forall|v: usize|
        v < n && depth[v as int] is Some ==> #[trigger] reachable_in(adj, root, v, depth[v as int].unwrap() as nat)
}

/// Links that agree on the found vertices lead from a found vertex to the same
/// ancestors, all of them found.
proof fn lemma_climb_frame(
    adj: Seq<Seq<usize>>,
    root: usize,
    depth: Seq<Option<usize>>,
    parents: Seq<Option<usize>>,
    others: Seq<Option<usize>>,
    x: usize,
    k: nat,
)
    requires
        parents.len() == adj.len(),
        others.len() == adj.len(),
        depth.len() == adj.len(),
        forall|v: int| 0 <= v < adj.len() && depth[v] is Some ==> #[trigger] linked(adj, root, depth, parents, v),
        forall|v: int| 0 <= v < adj.len() && depth[v] is Some ==> others[v] == parents[v],
        x < adj.len(),
        depth[x as int] is Some,
    ensures
        climb(others, x, k) == climb(parents, x, k),
        climb(parents, x, k) matches Some(a) ==> a < adj.len() && depth[a as int] is Some,
    decreases k,
{
    if k > 0 {
        assert(linked(adj, root, depth, parents, x as int));
        match parents[x as int] {
            Some(p) => {
                lemma_climb_frame(adj, root, depth, parents, others, p, (k - 1) as nat);
            },
            None => {},
        }
    }
}

/// A tree of at least two vertices has at least one level.
proof fn lemma_levels_positive(n: nat, levels: nat)
    requires
        is_ceil_log2(n, levels),
        n >= 2,
    ensures
        levels >= 1,
{
    lemma2_to64();
}

/// Records the vertex `v`, seen for the first time among the neighbours of the found
/// vertex `u`, as a child of `u`: its depth, and in each row of the table its ancestor.
fn attach(
    Ghost(adj): Ghost<Seq<Seq<usize>>>,
    Ghost(root): Ghost<usize>,
    depth: &mut Vec<Option<usize>>,
    jumps: &mut Vec<Vec<Option<usize>>>,
    u: usize,
    v: usize,
)
    requires
        explored(adj, root, old(depth)@, rows(*old(jumps))),
        u < adj.len(),
        v < adj.len(),
        old(depth)[u as int] is Some,
        old(depth)[v as int] is None,
        is_edge(adj, u, v),
    ensures
        explored(adj, root, final(depth)@, rows(*final(jumps))),
        final(depth)@.len() == old(depth)@.len(),
        final(depth)[v as int] is Some,
        final(depth)[v as int].unwrap() == old(depth)[u as int].unwrap() + 1,
        forall|x: int| 0 <= x < adj.len() && x != v ==> final(depth)[x] == old(depth)[x],
        count_marked(final(depth)@) == count_marked(old(depth)@) + 1,
{
    let n = depth.len();
    let levels = jumps.len();
    let du = depth[u].unwrap();
    let ghost before = parent_links(rows(*old(jumps)), n as nat);
    let ghost after = before.update(v as int, Some(u));
    proof {
        lemma_levels_positive(n as nat, levels as nat);
        lemma_count_bound(depth@);
        assert(rows(*jumps)[0].len() == n);
    }
    jumps[0][v] = Some(u);
    proof {
        assert(rows(*jumps)[0] == after);
        assert(parent_links(rows(*jumps), n as nat) == after);
        assert forall|i: int| 0 <= i < levels implies (#[trigger] rows(*jumps)[i]).len() == n by {
            assert(rows(*old(jumps))[i].len() == n);
        }
        assert forall|x: int| 0 <= x < n && depth[x] is Some implies #[trigger] linked(
            adj,
            root,
            depth@,
            after,
            x,
        ) by {
            assert(linked(adj, root, depth@, before, x));
        }
        assert forall|i: int, x: int| 0 <= i < levels && 0 <= x < n && depth[x] is Some implies #[trigger] rows(
            *jumps,
        )[i][x] == climb(after, x as usize, pow2(i as nat)) by {
            assert(rows(*old(jumps))[i][x] == climb(before, x as usize, pow2(i as nat)));
            lemma_climb_frame(adj, root, depth@, before, after, x as usize, pow2(i as nat));
        }
        assert(climb(after, v, 1) == Some(u)) by {
            assert(climb(after, u, 0) == Some(u));
        }
        lemma2_to64();
    }
    let mut i: usize = 1;
    while i < levels
        invariant
            1 <= i <= levels,
            levels == jumps.len(),
            n == depth.len(),
            n == adj.len(),
            u < n,
            v < n,
            depth@ == old(depth)@,
            depth[u as int] is Some,
            depth[v as int] is None,
            explored(adj, root, depth@, rows(*jumps)),
            parent_links(rows(*jumps), n as nat) == after,
            after == before.update(v as int, Some(u)),
            before.len() == n,
            forall|x: int| 0 <= x < n && depth[x] is Some ==> #[trigger] linked(adj, root, depth@, before, x),
            forall|k: int| 0 <= k < i ==> #[trigger] rows(*jumps)[k][v as int] == climb(after, v, pow2(k as nat)),
        decreases levels - i,
    {
        let ghost half = pow2((i - 1) as nat);
        let ghost prev = rows(*jumps);
        proof {
            lemma_pow2_unfold(i as nat);
            lemma_pow2_pos((i - 1) as nat);
            assert(prev[i - 1].len() == n);
            assert(prev[i as int].len() == n);
            assert(prev[i - 1][v as int] == climb(after, v, half));
            lemma_climb_add(after, v, half, half);
            lemma_climb_add(after, v, 1, (half - 1) as nat);
            lemma_climb_frame(adj, root, depth@, before, after, u, (half - 1) as nat);
        }
        let next = match jumps[i - 1][v] {
            Some(a) => {
                proof {
                    assert(prev[i - 1][a as int] == climb(after, a, half));
                }
                jumps[i - 1][a]
            },
            None => None,
        };
        jumps[i][v] = next;
        proof {
            let cur = rows(*jumps);
            assert(cur[0] == prev[0]);
            assert forall|r: int| 0 <= r < levels implies (#[trigger] cur[r]).len() == n by {
                assert(prev[r].len() == n);
            }
            assert forall|r: int, x: int| 0 <= r < levels && 0 <= x < n && depth[x] is Some implies #[trigger] cur[r][x]
                == climb(after, x as usize, pow2(r as nat)) by {
                assert(prev[r][x] == climb(after, x as usize, pow2(r as nat)));
            }
            assert forall|k: int| 0 <= k < i + 1 implies #[trigger] cur[k][v as int] == climb(
                after,
                v,
                pow2(k as nat),
            ) by {
                if k < i {
                    assert(prev[k][v as int] == climb(after, v, pow2(k as nat)));
                }
            }
        }
        i = i + 1;
    }
    let ghost marks = depth@;
    depth[v] = Some(du + 1);
    proof {
        let cur = rows(*jumps);
        lemma_count_mark(marks, v as int, (du + 1) as usize);
        assert forall|x: int| 0 <= x < n && depth[x] is Some implies #[trigger] linked(
            adj,
            root,
            depth@,
            after,
            x,
        ) by {
            if x != v {
                assert(linked(adj, root, marks, before, x));
            }
        }
        assert forall|r: int, x: int| 0 <= r < levels && 0 <= x < n && depth[x] is Some implies #[trigger] cur[r][x]
            == climb(after, x as usize, pow2(r as nat)) by {
            if x != v {
                assert(marks[x] is Some);
            }
        }
        assert forall|x: usize| x < n && depth[x as int] is Some implies #[trigger] reachable_in(
            adj,
            root,
            x,
            depth[x as int].unwrap() as nat,
        ) by {
            if x == v {
                assert(reachable_in(adj, root, u, du as nat));
                assert(is_edge(adj, u, v));
            } else {
                assert(marks[x as int] is Some);
                assert(reachable_in(adj, root, x, marks[x as int].unwrap() as nat));
            }
        }
        assert forall|x: int| 0 <= x < n implies (#[trigger] depth[x] matches Some(d) ==> d < count_marked(depth@)) by {
            if x != v {
                assert(marks[x] matches Some(d) ==> d < count_marked(marks));
            } else {
                assert(marks[u as int] matches Some(d) ==> d < count_marked(marks));
            }
        }
    }
}

/// What holds of the neighbours of a vertex stays so while depths are only added.
proof fn lemma_leveled_at_stays(adj: Seq<Seq<usize>>, depth: Seq<Option<usize>>, more: Seq<Option<usize>>, u: int)
    requires
        0 <= u < adj.len(),
        depth.len() == adj.len(),
        more.len() == adj.len(),
        forall|x: int| 0 <= x < depth.len() && depth[x] is Some ==> more[x] == depth[x],
        leveled_at(adj, depth, u),
    ensures
        leveled_at(adj, more, u),
{
    assert forall|j: int| 0 <= j < adj[u].len() implies {
        &&& (#[trigger] adj[u][j]) < adj.len()
        &&& more[adj[u][j] as int] is Some
        &&& more[u] is Some
        &&& more[adj[u][j] as int].unwrap() <= more[u].unwrap() + 1
    } by {
        assert(depth[adj[u][j] as int] is Some);
    }
}

/// The depths of the vertices that wait in the queue do not fall from the front to the
/// back, and none is below `floor`.
spec fn in_level_order(queue: Seq<usize>, depth: Seq<Option<usize>>, floor: nat) -> bool {
    &&& forall|k: int|
        0 <= k < queue.len() ==> (#[trigger] queue[k]) < depth.len() && depth[queue[k] as int] is Some
            && depth[queue[k] as int].unwrap() >= floor
    &&& forall|i: int, k: int|
        0 <= i <= k < queue.len() ==> depth[(#[trigger] queue[i]) as int].unwrap() <= depth[(
        #[trigger] queue[k]) as int].unwrap()
}

/// No vertex found so far lies more than one level below `floor`.
spec fn within_next_level(depth: Seq<Option<usize>>, floor: nat) -> bool {
    forall|x: int| 0 <= x < depth.len() ==> (#[trigger] depth[x] matches Some(d) ==> d <= floor + 1)
}

/// Explores the graph breadth first from `root`. Gives the depth of every vertex found
/// and the jump table over them, or nothing when a list names a neighbour that is no vertex.
pub fn traverse(adj: &Vec<Vec<usize>>, root: usize) -> (found: Option<
    (Vec<Option<usize>>, Vec<Vec<Option<usize>>>),
>)
    requires
        root < adj.len(),
    ensures
        match found {
            Some((depth, jumps)) => {
                &&& explored(lists(*adj), root, depth@, rows(jumps))
                &&& forall|u: int|
                    0 <= u < adj.len() && depth[u] is Some ==> #[trigger] leveled_at(lists(*adj), depth@, u)
            },
            None => !neighbors_in_range(lists(*adj)),
        },
{
    let n = adj.len();
    let levels = LCA::log2(n);
    let ghost graph = lists(*adj);
    let mut jumps: Vec<Vec<Option<usize>>> = vec![vec![None; n]; levels];
    let mut depth: Vec<Option<usize>> = vec![None; n];
    let mut queue: VecDeque<usize> = VecDeque::new();
    proof {
        lemma_count_none(depth@);
    }
    let ghost blank = depth@;
    queue.push_back(root);
    depth[root] = Some(0);
    let ghost mut floor: nat = 0;
    proof {
        lemma_count_mark(blank, root as int, 0);
        let parents = parent_links(rows(jumps), n as nat);
        assert forall|v: int| 0 <= v < n implies parents[v] is None by {
            if levels > 0 {
                assert(rows(jumps)[0][v] is None);
            }
        }
        assert forall|i: int, v: int| 0 <= i < levels && 0 <= v < n && depth[v] is Some implies #[trigger] rows(
            jumps,
        )[i][v] == climb(parents, v as usize, pow2(i as nat)) by {
            lemma_pow2_pos(i as nat);
        }
        assert(reachable_in(graph, root, root, 0));
        assert(linked(graph, root, depth@, parents, root as int));
        assert(queue@[0] == root);
    }
    while queue.len() > 0
        invariant
            n == adj.len(),
            graph == lists(*adj),
            explored(graph, root, depth@, rows(jumps)),
            in_level_order(queue@, depth@, floor),
            within_next_level(depth@, floor),
            forall|x: int|
                0 <= x < n && depth[x] is Some && !queue@.contains(x as usize) ==> #[trigger] leveled_at(
                    graph,
                    depth@,
                    x,
                ),
        decreases n - count_marked(depth@) + queue@.len(),
    {
        let ghost waiting = queue@;
        let ghost budget = n - count_marked(depth@) + queue@.len();
        proof {
            lemma_count_bound(depth@);
        }
        let u = queue.pop_front().unwrap();
        let ghost du = depth[u as int].unwrap();
        proof {
            assert(u == waiting[0]);
            floor = du as nat;
            assert forall|k: int| 0 <= k < queue@.len() implies queue@[k] == waiting[k + 1] by {}
            assert(in_level_order(queue@, depth@, floor)) by {
                assert forall|k: int| 0 <= k < queue@.len() implies (#[trigger] queue@[k]) < depth@.len()
                    && depth[queue@[k] as int] is Some && depth[queue@[k] as int].unwrap() >= floor by {
                    assert(queue@[k] == waiting[k + 1]);
                    assert(depth[waiting[0] as int].unwrap() <= depth[waiting[k + 1] as int].unwrap());
                }
                assert forall|i: int, k: int| 0 <= i <= k < queue@.len() implies depth[(
                #[trigger] queue@[i]) as int].unwrap() <= depth[(#[trigger] queue@[k]) as int].unwrap() by {
                    assert(queue@[i] == waiting[i + 1]);
                    assert(queue@[k] == waiting[k + 1]);
                }
            }
            assert forall|x: int|
                0 <= x < n && depth[x] is Some && !queue@.contains(x as usize) && x != u implies #[trigger] leveled_at(
                graph,
                depth@,
                x,
            ) by {
                if waiting.contains(x as usize) {
                    let k = choose|k: int| 0 <= k < waiting.len() && waiting[k] == x as usize;
                    assert(queue@[k - 1] == x as usize);
                }
            }
        }
        let row = &adj[u];
        let mut j: usize = 0;
        while j < row.len()
            invariant
                n == adj.len(),
                graph == lists(*adj),
                u < n,
                row@ == graph[u as int],
                j <= row.len(),
                depth[u as int] == Some(du),
                floor == du,
                explored(graph, root, depth@, rows(jumps)),
                in_level_order(queue@, depth@, floor),
                within_next_level(depth@, floor),
                forall|x: int|
                    0 <= x < n && depth[x] is Some && !queue@.contains(x as usize) && x != u
                        ==> #[trigger] leveled_at(graph, depth@, x),
                forall|k: int| 0 <= k < j ==> (#[trigger] row@[k]) < n && depth[row@[k] as int] is Some,
                n - count_marked(depth@) + queue@.len() == budget - 1,
            decreases row.len() - j,
        {
            let w = row[j];
            if w >= n {
                proof {
                    assert(graph[u as int][j as int] == w);
                }
                return None;
            }
            if depth[w].is_none() {
                let ghost marks = depth@;
                let ghost pending = queue@;
                proof {
                    assert(row@.contains(w));
                }
                attach(Ghost(graph), Ghost(root), &mut depth, &mut jumps, u, w);
                queue.push_back(w);
                proof {
                    assert(queue@[pending.len() as int] == w);
                    assert forall|k: int| 0 <= k < pending.len() implies queue@[k] == pending[k] by {}
                    assert forall|x: int|
                        0 <= x < n && depth[x] is Some && !queue@.contains(x as usize) && x != u implies #[trigger] leveled_at(
                        graph,
                        depth@,
                        x,
                    ) by {
                        if pending.contains(x as usize) {
                            let k = choose|k: int| 0 <= k < pending.len() && pending[k] == x as usize;
                            assert(queue@[k] == x as usize);
                        }
                        assert(x != w);
                        assert(leveled_at(graph, marks, x));
                        lemma_leveled_at_stays(graph, marks, depth@, x);
                    }
                    assert(in_level_order(queue@, depth@, floor)) by {
                        assert forall|k: int| 0 <= k < queue@.len() implies (#[trigger] queue@[k]) < depth@.len()
                            && depth[queue@[k] as int] is Some && depth[queue@[k] as int].unwrap() >= floor by {
                            if k < pending.len() {
                                assert(queue@[k] == pending[k]);
                                assert(marks[pending[k] as int] is Some);
                            }
                        }
                        assert forall|i: int, k: int| 0 <= i <= k < queue@.len() implies depth[(
                        #[trigger] queue@[i]) as int].unwrap() <= depth[(#[trigger] queue@[k]) as int].unwrap() by {
                            if i < pending.len() {
                                assert(queue@[i] == pending[i]);
                                assert(marks[pending[i] as int] is Some);
                                assert(marks[pending[i] as int] matches Some(d) ==> d <= floor + 1);
                            }
                            if k < pending.len() {
                                assert(queue@[k] == pending[k]);
                                assert(marks[pending[k] as int] is Some);
                            }
                        }
                    }
                    assert(within_next_level(depth@, floor)) by {
                        assert forall|x: int| 0 <= x < depth@.len() implies (#[trigger] depth[x] matches Some(d) ==> d
                            <= floor + 1) by {
                            if x != w {
                                assert(marks[x] matches Some(d) ==> d <= floor + 1);
                            }
                        }
                    }
                    assert forall|k: int| 0 <= k < j implies (#[trigger] row@[k]) < n
                        && depth[row@[k] as int] is Some by {
                        assert(marks[row@[k] as int] is Some);
                    }
                }
            }
            j = j + 1;
        }
        proof {
            assert(leveled_at(graph, depth@, u as int)) by {
                assert forall|i: int| 0 <= i < graph[u as int].len() implies {
                    &&& (#[trigger] graph[u as int][i]) < graph.len()
                    &&& depth[graph[u as int][i] as int] is Some
                    &&& depth[u as int] is Some
                    &&& depth[graph[u as int][i] as int].unwrap() <= depth[u as int].unwrap() + 1
                } by {
                    assert(row@[i] < n && depth[row@[i] as int] is Some);
                    assert(depth[row@[i] as int] matches Some(d) ==> d <= floor + 1);
                }
            }
            lemma_count_bound(depth@);
        }
    }
    proof {
        assert forall|u: int| 0 <= u < adj.len() && depth[u] is Some implies #[trigger] leveled_at(
            graph,
            depth@,
            u,
        ) by {
            assert(!queue@.contains(u as usize));
        }
    }
    Some((depth, jumps))
}

} // verus!

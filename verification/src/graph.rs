//! Algorithms on graphs.

use crate::graph_view::{edge_lists, weighted_adjacency_lists};
use crate::heap::Heap;
use petgraph::graph::UnGraph;
use vstd::multiset::Multiset;
use vstd::prelude::*;

verus! {

/// Weighted adjacency lists as sequences: entry `u` lists, for each edge that leaves the
/// vertex `u`, the vertex that the edge leads to and the weight of the edge.
pub open spec fn weighted_lists(adj: Vec<Vec<(usize, usize)>>) -> Seq<Seq<(usize, usize)>> {
    Seq::new(adj.len() as nat, |u: int| adj[u]@)
}

/// An edge of weight `w` leads from the vertex `u` to the vertex `v`.
pub open spec fn is_weighted_edge(adj: Seq<Seq<(usize, usize)>>, u: usize, v: usize, w: usize) -> bool {
    u < adj.len() && v < adj.len() && adj[u as int].contains((v, w))
}

/// A walk of exactly `steps` edges, whose weights add up to `weight`, leads from the
/// vertex `from` to `to`.
pub open spec fn walk_in(adj: Seq<Seq<(usize, usize)>>, from: usize, to: usize, steps: nat, weight: int) -> bool
    decreases steps,
{
    if steps == 0 {
        from == to && from < adj.len() && weight == 0
    } else {
        exists|mid: usize, w: usize|
            walk_in(adj, from, mid, (steps - 1) as nat, weight - w) && #[trigger] is_weighted_edge(
                adj,
                mid,
                to,
                w,
            )
    }
}

/// Some walk whose weights add up to `weight` leads from the vertex `from` to `to`.
pub open spec fn has_walk(adj: Seq<Seq<(usize, usize)>>, from: usize, to: usize, weight: int) -> bool {
    exists|steps: nat| walk_in(adj, from, to, steps, weight)
}

/// `d` is the weight of a walk from `from` to `to`, and no walk between them weighs less.
pub open spec fn is_shortest(adj: Seq<Seq<(usize, usize)>>, from: usize, to: usize, d: int) -> bool {
    &&& has_walk(adj, from, to, d)
    &&& forall|weight: int| has_walk(adj, from, to, weight) ==> d <= weight
}

/// The distances from `s` in the graph: for each vertex the weight of a shortest walk
/// from `s` to it, and nothing for a vertex to which no walk leads whose weight a `usize`
/// can hold.
pub open spec fn are_distances(adj: Seq<Seq<(usize, usize)>>, s: usize, distance: Seq<Option<usize>>) -> bool {
    &&& distance.len() == adj.len()
    &&& forall|v: usize|
        v < adj.len() ==> match #[trigger] distance[v as int] {
            Some(d) => is_shortest(adj, s, v, d as int),
            None => forall|weight: int| has_walk(adj, s, v, weight) ==> weight > usize::MAX,
        }
}

/// What is left to gain: the sum of the distances found, with more than any distance for
/// each vertex that has none yet.
spec fn slack(distance: Seq<Option<usize>>) -> int
    decreases distance.len(),
{
    if distance.len() == 0 {
        0
    } else {
        slack(distance.drop_last()) + match distance.last() {
            Some(d) => d as int,
            None => usize::MAX + 1,
        }
    }
}

/// The slack is not negative.
proof fn lemma_slack_bound(distance: Seq<Option<usize>>)
    ensures
        slack(distance) >= 0,
    decreases distance.len(),
{
    if distance.len() > 0 {
        lemma_slack_bound(distance.drop_last());
    }
}

/// A shorter distance for one vertex lowers the slack.
proof fn lemma_slack_drops(distance: Seq<Option<usize>>, v: int, d: usize)
    requires
        0 <= v < distance.len(),
        distance[v] matches Some(old) ==> d < old,
    ensures
        slack(distance.update(v, Some(d))) < slack(distance),
    decreases distance.len(),
{
    let after = distance.update(v, Some(d));
    if v == distance.len() - 1 {
        assert(after.drop_last() =~= distance.drop_last());
    } else {
        assert(after.drop_last() =~= distance.drop_last().update(v, Some(d)));
        lemma_slack_drops(distance.drop_last(), v, d);
    }
}

/// The edge to `e.0` of weight `e.1` cannot improve on what is known, given the
/// distance `du` of the vertex that it leaves.
spec fn edge_settled(distance: Seq<Option<usize>>, du: usize, e: (usize, usize)) -> bool {
    e.0 < distance.len() && du + e.1 <= usize::MAX ==> (distance[e.0 as int] matches Some(dv) && dv <= du + e.1)
}

/// No edge that leaves `u` can improve on what is known.
spec fn settled(adj: Seq<Seq<(usize, usize)>>, distance: Seq<Option<usize>>, u: int) -> bool {
    distance[u] matches Some(du) ==> forall|j: int|
        0 <= j < adj[u].len() ==> edge_settled(distance, du, #[trigger] adj[u][j])
}

/// The entry of the queue for the vertex `u` at the distance `d`. The queue hands out its
/// greatest entry first, so an entry is the greater the smaller its distance is.
spec fn entry(d: usize, u: usize) -> (usize, usize) {
    ((usize::MAX - d) as usize, u)
}

/// What a multiset holds after one element has been taken out.
proof fn lemma_remove_contains<V>(m: Multiset<V>, x: V, e: V)
    ensures
        m.remove(x).contains(e) ==> m.contains(e),
        e != x && m.contains(e) ==> m.remove(x).contains(e),
        m.contains(x) ==> m.remove(x).len() == m.len() - 1,
{
    broadcast use vstd::multiset::group_multiset_axioms;

}

/// What a multiset holds after one element has been put in.
proof fn lemma_insert_contains<V>(m: Multiset<V>, x: V, e: V)
    ensures
        m.insert(x).contains(e) <==> e == x || m.contains(e),
        m.insert(x).len() == m.len() + 1,
{
    broadcast use vstd::multiset::group_multiset_axioms;

}

/// A walk stays a walk when an edge is added to its end.
proof fn lemma_walk_step(adj: Seq<Seq<(usize, usize)>>, from: usize, mid: usize, to: usize, weight: int, w: usize)
    requires
        has_walk(adj, from, mid, weight),
        is_weighted_edge(adj, mid, to, w),
    ensures
        has_walk(adj, from, to, weight + w),
{
    let steps = choose|steps: nat| walk_in(adj, from, mid, steps, weight);
    assert(walk_in(adj, from, mid, ((steps + 1) - 1) as nat, (weight + w) - w));
    assert(walk_in(adj, from, to, steps + 1, weight + w));
}

/// Where no edge can improve on what is known, what is known of a vertex is at most the
/// weight of any walk to it from `s`.
proof fn lemma_settled_is_least(
    adj: Seq<Seq<(usize, usize)>>,
    s: usize,
    distance: Seq<Option<usize>>,
    v: usize,
    steps: nat,
    weight: int,
)
    requires
        distance.len() == adj.len(),
        s < adj.len(),
        distance[s as int] == Some(0usize),
        forall|u: int| 0 <= u < adj.len() ==> #[trigger] settled(adj, distance, u),
        walk_in(adj, s, v, steps, weight),
        weight <= usize::MAX,
    ensures
        v < adj.len(),
        distance[v as int] matches Some(d) && d <= weight,
    decreases steps,
{
    if steps > 0 {
        let (mid, w) = choose|mid: usize, w: usize|
            walk_in(adj, s, mid, (steps - 1) as nat, weight - w) && #[trigger] is_weighted_edge(adj, mid, v, w);
        lemma_settled_is_least(adj, s, distance, mid, (steps - 1) as nat, weight - w);
        assert(settled(adj, distance, mid as int));
        let j = choose|j: int| 0 <= j < adj[mid as int].len() && adj[mid as int][j] == (v, w);
        assert(edge_settled(distance, distance[mid as int].unwrap(), adj[mid as int][j]));
    }
}

/// Compute the shortest distance in a graph with non-negative weights from some
/// source `s` to every vertex in the graph, given the adjacency lists of the graph.
/// Edges that lead to no vertex of the graph are passed over.
///
/// Returns a vector with the distance to each vertex or `None` if vertex cannot
/// be reached, or only by walks that weigh more than a `usize` holds.
///
/// Time complexity: `O(|V| log |E|)`.
pub fn shortest_distances(adj: &Vec<Vec<(usize, usize)>>, s: usize) -> (distance: Vec<Option<usize>>)
    requires
        s < adj.len(),
    ensures
        are_distances(weighted_lists(*adj), s, distance@),
{
    let n = adj.len();
    let ghost graph = weighted_lists(*adj);
    let mut distance: Vec<Option<usize>> = vec![None; n];
    let mut queue: Heap<(usize, usize)> = Heap::new();

    distance[s] = Some(0);
    // The queue is a max-heap: it holds for each vertex what its distance leaves of
    // usize::MAX, so that the nearest vertex comes out first.
    queue.push((usize::MAX, s));
    proof {
        assert(walk_in(graph, s, s, 0, 0));
        assert forall|e: (usize, usize)| #[trigger] queue@.contains(e) implies e == entry(0, s) by {
            lemma_insert_contains(Multiset::empty(), entry(0, s), e);
        }
        lemma_insert_contains(Multiset::empty(), entry(0, s), entry(0, s));
    }

    loop
        invariant_except_break
            n == adj.len(),
            graph == weighted_lists(*adj),
            s < n,
            distance@.len() == n,
            distance[s as int] == Some(0usize),
            queue.wf(),
            forall|v: usize|
                v < n ==> (#[trigger] distance[v as int] matches Some(d) ==> has_walk(graph, s, v, d as int)),
            forall|e: (usize, usize)|
                #[trigger] queue@.contains(e) ==> e.1 < n && (distance[e.1 as int] matches Some(d) && d <= usize::MAX
                    - e.0),
            forall|u: int|
                0 <= u < n ==> (#[trigger] distance[u] matches Some(d) ==> queue@.contains(entry(d, u as usize))
                    || settled(graph, distance@, u)),
        ensures
            distance@.len() == n,
            distance[s as int] == Some(0usize),
            forall|v: usize|
                v < n ==> (#[trigger] distance[v as int] matches Some(d) ==> has_walk(graph, s, v, d as int)),
            forall|u: int| 0 <= u < n ==> #[trigger] settled(graph, distance@, u),
        decreases slack(distance@), queue@.len(),
    {
        let ghost waiting = queue@;
        let ghost known = distance@;
        proof {
            lemma_slack_bound(distance@);
        }
        match queue.pop() {
            None => {
                proof {
                    assert forall|u: int| 0 <= u < n implies #[trigger] settled(graph, distance@, u) by {
                        if distance[u] is Some {
                            assert(!queue@.contains(entry(distance[u].unwrap(), u as usize)));
                        }
                    }
                }
                break ;
            },
            Some((key, u)) => {
                assert(waiting.contains((key, u)));
                proof {
                    assert forall|e: (usize, usize)| #[trigger] queue@.contains(e) implies waiting.contains(e) by {
                        lemma_remove_contains(waiting, (key, u), e);
                    }
                    assert forall|e: (usize, usize)|
                        e != (key, u) && #[trigger] waiting.contains(e) implies queue@.contains(e) by {
                        lemma_remove_contains(waiting, (key, u), e);
                    }
                    lemma_remove_contains(waiting, (key, u), (key, u));
                }
                let d = usize::MAX - key;
                let stale = match distance[u] {
                    Some(cur_d) => cur_d < d,
                    None => false,
                };
                if !stale {
                    assert(distance[u as int] == Some(d));
                    let row = &adj[u];
                    let mut j: usize = 0;
                    while j < row.len()
                        invariant
                            n == adj.len(),
                            graph == weighted_lists(*adj),
                            s < n,
                            u < n,
                            row@ == graph[u as int],
                            j <= row.len(),
                            distance@.len() == n,
                            distance[s as int] == Some(0usize),
                            distance[u as int] == Some(d),
                            queue.wf(),
                            forall|v: usize|
                                v < n ==> (#[trigger] distance[v as int] matches Some(d) ==> has_walk(
                                    graph,
                                    s,
                                    v,
                                    d as int,
                                )),
                            forall|e: (usize, usize)|
                                #[trigger] queue@.contains(e) ==> e.1 < n && (distance[e.1 as int] matches Some(d)
                                    && d <= usize::MAX - e.0),
                            forall|x: int|
                                0 <= x < n && x != u ==> (#[trigger] distance[x] matches Some(d) ==> queue@.contains(
                                    entry(d, x as usize),
                                ) || settled(graph, distance@, x)),
                            forall|i: int| 0 <= i < j ==> edge_settled(distance@, d, #[trigger] row@[i]),
                            slack(distance@) <= slack(known),
                            slack(distance@) == slack(known) ==> queue@.len() == waiting.len() - 1,
                        decreases row.len() - j,
                    {
                        let (v, w) = row[j];
                        if v < n {
                            match d.checked_add(w) {
                                Some(new_d) => {
                                    let should_queue = match distance[v] {
                                        None => true,
                                        Some(cur_d) => new_d < cur_d,
                                    };
                                    if should_queue {
                                        let ghost before = distance@;
                                        let ghost pending = queue@;
                                        distance[v] = Some(new_d);
                                        queue.push((usize::MAX - new_d, v));
                                        proof {
                                            assert forall|e: (usize, usize)| #[trigger] queue@.contains(e) implies e
                                                == entry(new_d, v) || pending.contains(e) by {
                                                lemma_insert_contains(pending, entry(new_d, v), e);
                                            }
                                            assert forall|e: (usize, usize)|
                                                #[trigger] pending.contains(e) implies queue@.contains(e) by {
                                                lemma_insert_contains(pending, entry(new_d, v), e);
                                            }
                                            lemma_insert_contains(pending, entry(new_d, v), entry(new_d, v));
                                            assert(v != u);
                                            assert(row@.contains((v, w)));
                                            assert(is_weighted_edge(graph, u, v, w));
                                            lemma_walk_step(graph, s, u, v, d as int, w);
                                            lemma_slack_drops(before, v as int, new_d);
                                            assert(distance@ == before.update(v as int, Some(new_d)));
                                            assert(queue@.contains(entry(new_d, v)));
                                            assert forall|x: int| 0 <= x < n && x != u implies (
                                            #[trigger] distance[x] matches Some(d) ==> queue@.contains(
                                                entry(d, x as usize),
                                            ) || settled(graph, distance@, x)) by {
                                                if x != v && distance[x] is Some {
                                                    let dx = distance[x].unwrap();
                                                    if !pending.contains(entry(dx, x as usize)) {
                                                        assert(settled(graph, before, x));
                                                        assert forall|i: int| 0 <= i < graph[x].len() implies edge_settled(
                                                            distance@,
                                                            dx,
                                                            #[trigger] graph[x][i],
                                                        ) by {
                                                            assert(edge_settled(before, dx, graph[x][i]));
                                                        }
                                                    }
                                                }
                                            }
                                            assert forall|i: int| 0 <= i < j + 1 implies edge_settled(
                                                distance@,
                                                d,
                                                #[trigger] row@[i],
                                            ) by {
                                                if i < j {
                                                    assert(edge_settled(before, d, row@[i]));
                                                }
                                            }
                                        }
                                    }
                                },
                                None => {},
                            }
                        }
                        j = j + 1;
                    }
                    proof {
                        assert(settled(graph, distance@, u as int));
                        lemma_slack_bound(distance@);
                    }
                } else {
                    proof {
                        assert forall|x: int| 0 <= x < n implies (#[trigger] distance[x] matches Some(d)
                            ==> queue@.contains(entry(d, x as usize)) || settled(graph, distance@, x)) by {
                            if distance[x] is Some {
                                let dx = distance[x].unwrap();
                                if waiting.contains(entry(dx, x as usize)) {
                                    assert(entry(dx, x as usize) != (key, u));
                                }
                            }
                        }
                    }
                }
            },
        }
    }
    proof {
        assert forall|v: usize| v < n implies match #[trigger] distance[v as int] {
            Some(d) => is_shortest(graph, s, v, d as int),
            None => forall|weight: int| has_walk(graph, s, v, weight) ==> weight > usize::MAX,
        } by {
            assert forall|weight: int| has_walk(graph, s, v, weight) && weight <= usize::MAX implies (
            distance[v as int] matches Some(d) && d <= weight) by {
                let steps = choose|steps: nat| walk_in(graph, s, v, steps, weight);
                lemma_settled_is_least(graph, s, distance@, v, steps, weight);
            }
        }
    }
    distance
}

/// Compute the shortest distance in a graph with non-negative weights from some
/// source `s` to every vertex in the graph.
///
/// Returns a vector with the distance to each vertex or `None` if vertex cannot
/// be reached, or only by walks that weigh more than a `usize` holds.
///
/// Time complexity: `O(|V| log |E|)`.
pub fn shortest_distance(g: &UnGraph<(), usize>, s: usize) -> (distance: Vec<Option<usize>>)
    requires
        s < edge_lists(*g).len(),
    ensures
        are_distances(edge_lists(*g), s, distance@),
{
    let adj = weighted_adjacency_lists(g);
    shortest_distances(&adj, s)
}

/// The shortest distances from `s` as `shortest_distance` computes them, or nothing
/// where `s` is no vertex of the graph.
pub fn shortest_distance_from(g: &UnGraph<(), usize>, s: usize) -> (distance: Option<Vec<Option<usize>>>)
    ensures
        s >= edge_lists(*g).len() <==> distance is None,
        distance matches Some(found) ==> are_distances(edge_lists(*g), s, found@),
{
    let adj = weighted_adjacency_lists(g);
    if s < adj.len() {
        Some(shortest_distances(&adj, s))
    } else {
        None
    }
}

} // verus!

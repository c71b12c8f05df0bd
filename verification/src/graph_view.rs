//! The graphs of `petgraph` as this library reads them: a vertex count and, for each
//! vertex, the list of its neighbours or of its edges.

use crate::graph::weighted_lists;
use crate::reachability::lists;
use petgraph::graph::{Graph, NodeIndex};
use petgraph::visit::EdgeRef;
use petgraph::Undirected;
use vstd::prelude::*;

verus! {

/// `petgraph::graph::Graph`, used as an opaque value: what the library reads of a graph it
/// reads through the functions below.
#[verifier::external_type_specification]
#[verifier::external_body]
#[verifier::reject_recursive_types(N)]
#[verifier::reject_recursive_types(E)]
#[verifier::reject_recursive_types(Ty)]
#[verifier::reject_recursive_types(Ix)]
pub struct ExGraph<N, E, Ty, Ix>(Graph<N, E, Ty, Ix>);

/// `petgraph::Undirected`, the marker type of graphs with undirected edges.
#[verifier::external_type_specification]
#[verifier::external_body]
pub struct ExUndirected(Undirected);

/// For each node of the graph, by index, the indices of its neighbours in the order in
/// which `Graph::neighbors` yields them.
pub uninterp spec fn neighbor_lists(graph: Graph<(), (), Undirected, u32>) -> Seq<Seq<usize>>;

/// `Graph::node_count`: the number of nodes, which are indexed from 0 without gaps.
#[verifier::external_body]
fn vertex_count(graph: &Graph<(), (), Undirected, u32>) -> (n: usize)
    ensures
        n == neighbor_lists(*graph).len(),
{
    graph.node_count()
}

/// `Graph::neighbors` for the node of index `u`, with each neighbour given by its index
/// (`NodeIndex::new`, `NodeIndex::index`).
#[verifier::external_body]
fn neighbors_of(graph: &Graph<(), (), Undirected, u32>, u: usize) -> (list: Vec<usize>)
    requires
        u < neighbor_lists(*graph).len(),
    ensures
        list@ == neighbor_lists(*graph)[u as int],
{
    graph.neighbors(NodeIndex::new(u)).map(|v| v.index()).collect()
}

/// The neighbours of every node of the graph, as adjacency lists.
pub fn adjacency_lists(graph: &Graph<(), (), Undirected, u32>) -> (adj: Vec<Vec<usize>>)
    ensures
        lists(adj) == neighbor_lists(*graph),
{
    let n = vertex_count(graph);
    let mut adj: Vec<Vec<usize>> = Vec::new();
    let mut u: usize = 0;
    while u < n
        invariant
            n == neighbor_lists(*graph).len(),
            u <= n,
            adj.len() == u,
            forall|x: int| 0 <= x < u ==> (#[trigger] adj[x])@ == neighbor_lists(*graph)[x],
        decreases n - u,
    {
        let list = neighbors_of(graph, u);
        adj.push(list);
        u = u + 1;
    }
    assert(lists(adj) =~= neighbor_lists(*graph));
    adj
}

/// For each node of the graph, by index, the edges of the node in the order in which
/// `Graph::edges` yields them, each as the index of the node at its other end and its weight.
pub uninterp spec fn edge_lists(graph: Graph<(), usize, Undirected, u32>) -> Seq<Seq<(usize, usize)>>;

/// `Graph::node_count`: the number of nodes, which are indexed from 0 without gaps.
#[verifier::external_body]
fn weighted_vertex_count(graph: &Graph<(), usize, Undirected, u32>) -> (n: usize)
    ensures
        n == edge_lists(*graph).len(),
{
    graph.node_count()
}

/// `Graph::edges` for the node of index `u`, with each edge given by the index of its
/// target and its weight (`NodeIndex::new`, `EdgeRef::target`, `NodeIndex::index`,
/// `EdgeRef::weight`).
#[verifier::external_body]
fn edges_of(graph: &Graph<(), usize, Undirected, u32>, u: usize) -> (list: Vec<(usize, usize)>)
    requires
        u < edge_lists(*graph).len(),
    ensures
        list@ == edge_lists(*graph)[u as int],
{
    graph.edges(NodeIndex::new(u)).map(|e| (e.target().index(), *e.weight())).collect()
}

/// The edges of every node of the graph, as weighted adjacency lists.
pub fn weighted_adjacency_lists(graph: &Graph<(), usize, Undirected, u32>) -> (adj: Vec<Vec<(usize, usize)>>)
    ensures
        weighted_lists(adj) == edge_lists(*graph),
{
    let n = weighted_vertex_count(graph);
    let mut adj: Vec<Vec<(usize, usize)>> = Vec::new();
    let mut u: usize = 0;
    while u < n
        invariant
            n == edge_lists(*graph).len(),
            u <= n,
            adj.len() == u,
            forall|x: int| 0 <= x < u ==> (#[trigger] adj[x])@ == edge_lists(*graph)[x],
        decreases n - u,
    {
        let list = edges_of(graph, u);
        adj.push(list);
        u = u + 1;
    }
    assert(weighted_lists(adj) =~= edge_lists(*graph));
    adj
}

} // verus!

use algorithms::graph::{shortest_distance, shortest_distance_from, shortest_distances};
use petgraph::graph::Graph;
use petgraph::graph::UnGraph;

#[test]
fn singleton_graph() {
    let mut g: UnGraph<(), usize> = Graph::new_undirected();
    g.add_node(());
    assert_eq!(shortest_distance(&g, 0), vec![Some(0)]);
}

#[test]
fn small_path_graph() {
    let g: UnGraph<(), usize> = Graph::from_edges(&[(0, 1, 5), (1, 2, 10)]);
    assert_eq!(shortest_distance(&g, 0), vec![Some(0), Some(5), Some(15)])
}

#[test]
fn two_component_graph() {
    let g: UnGraph<(), usize> = Graph::from_edges(&[(0, 1, 5), (1, 2, 3), (0, 2, 7), (3, 4, 0)]);
    assert_eq!(
        shortest_distance(&g, 0),
        vec![Some(0), Some(5), Some(7), None, None]
    );
}

#[test]
fn cycle_graph() {
    let g: UnGraph<(), usize> = Graph::from_edges(&[(0, 1, 2), (1, 2, 2), (2, 3, 2), (3, 0, 2)]);
    assert_eq!(
        shortest_distance(&g, 0),
        vec![Some(0), Some(2), Some(4), Some(2)]
    )
}

#[test]
fn simple_choice() {
    let g: UnGraph<(), usize> = Graph::from_edges(&[(0, 1, 10), (0, 2, 50), (1, 2, 10)]);
    assert_eq!(
        shortest_distance(&g, 0),
        vec![Some(0), Some(10), Some(20)]
    )
}

#[test]
fn distances_from_another_source() {
    let g: UnGraph<(), usize> = Graph::from_edges(&[(0, 1, 10), (0, 2, 50), (1, 2, 10)]);
    assert_eq!(shortest_distance(&g, 2), vec![Some(20), Some(10), Some(0)]);
    assert_eq!(
        shortest_distance_from(&g, 1),
        Some(vec![Some(10), Some(0), Some(10)])
    );
}

#[test]
fn source_that_is_no_vertex() {
    let g: UnGraph<(), usize> = Graph::from_edges(&[(0, 1, 10), (0, 2, 50), (1, 2, 10)]);
    assert_eq!(shortest_distance_from(&g, 3), None);
    let empty: UnGraph<(), usize> = Graph::new_undirected();
    assert_eq!(shortest_distance_from(&empty, 0), None);
}

#[test]
fn distances_over_adjacency_lists() {
    // 0 -> 1 (4), 0 -> 2 (1), 2 -> 1 (2), 1 -> 3 (5), and an edge to a vertex that is none.
    let adj = vec![
        vec![(1, 4), (2, 1)],
        vec![(3, 5)],
        vec![(1, 2), (9, 0)],
        vec![],
        vec![(0, 1)],
    ];
    assert_eq!(
        shortest_distances(&adj, 0),
        vec![Some(0), Some(3), Some(1), Some(8), None]
    );
    assert_eq!(
        shortest_distances(&adj, 4),
        vec![Some(1), Some(4), Some(2), Some(9), Some(0)]
    );
}

#[test]
fn distances_that_do_not_fit_are_left_out() {
    let big = usize::MAX - 1;
    let adj = vec![vec![(1, big), (2, 1)], vec![(3, 5)], vec![(1, big)], vec![]];
    // Both walks to 3 weigh more than a usize holds; the walk 0 -> 2 -> 1 weighs usize::MAX.
    assert_eq!(
        shortest_distances(&adj, 0),
        vec![Some(0), Some(big), Some(1), None]
    );
}

#[test]
fn parallel_edges_and_loops() {
    let mut g: UnGraph<(), usize> = Graph::new_undirected();
    let a = g.add_node(());
    let b = g.add_node(());
    g.add_edge(a, b, 9);
    g.add_edge(b, a, 4);
    g.add_edge(a, a, 0);
    g.add_edge(b, b, 7);
    assert_eq!(shortest_distance(&g, 0), vec![Some(0), Some(4)]);
    assert_eq!(shortest_distance(&g, 1), vec![Some(4), Some(0)]);
}

use algorithms::lca::{LcaError, LCA};
use petgraph::graph::UnGraph;

/// Construct the following graph:
///
///          0
///        /   \
///       1     2
///      / \   / \
///     3   4 5   6
fn simple_graph() -> UnGraph<(), ()> {
    UnGraph::from_edges(&[(0, 1), (0, 2), (1, 3), (1, 4), (2, 5), (2, 6)])
}

fn path_graph(n: u32) -> UnGraph<(), ()> {
    let mut g = UnGraph::new_undirected();
    for _ in 0..n {
        g.add_node(());
    }
    for v in 1..n {
        g.add_edge((v - 1).into(), v.into(), ());
    }
    g
}

/// The vertices from `v` up to the root, found by following parents.
fn root_path(solver: &LCA, v: usize) -> Vec<usize> {
    let mut path = vec![v];
    let mut cur = v;
    while let Some(p) = solver.parent(cur).unwrap() {
        path.push(p);
        cur = p;
    }
    path
}

#[test]
fn it_answers_simple_queries() {
    let g = simple_graph();
    let solver = LCA::new(g, 0).unwrap();

    assert_eq!(solver.lca(0, 1), Ok(0));
    assert_eq!(solver.lca(0, 3), Ok(0));
    assert_eq!(solver.lca(1, 2), Ok(0));
    assert_eq!(solver.lca(4, 1), Ok(1));
    assert_eq!(solver.lca(3, 4), Ok(1));
    assert_eq!(solver.lca(5, 6), Ok(2));
    assert_eq!(solver.lca(3, 5), Ok(0));
}

#[test]
fn root_is_ancestor_of_everything() {
    let solver = LCA::new(simple_graph(), 0).unwrap();
    for x in 0..7 {
        assert_eq!(solver.lca(0, x), Ok(0));
        assert_eq!(solver.lca(x, 0), Ok(0));
    }
}

#[test]
fn depths_follow_parents() {
    let solver = LCA::new(simple_graph(), 0).unwrap();
    assert_eq!(solver.vertex_count(), 7);
    assert_eq!(solver.levels(), 3);
    assert_eq!(solver.depth(0), Ok(0));
    assert_eq!(solver.parent(0), Ok(None));
    let parents = [0, 0, 0, 1, 1, 2, 2];
    let depths = [0, 1, 1, 2, 2, 2, 2];
    for v in 1..7 {
        assert_eq!(solver.parent(v), Ok(Some(parents[v])));
        assert_eq!(solver.depth(v), Ok(depths[v]));
        let p = solver.parent(v).unwrap().unwrap();
        assert_eq!(solver.depth(v).unwrap(), solver.depth(p).unwrap() + 1);
    }
}

#[test]
fn another_root_turns_the_tree() {
    let solver = LCA::new(simple_graph(), 3).unwrap();
    assert_eq!(solver.depth(3), Ok(0));
    assert_eq!(solver.depth(1), Ok(1));
    assert_eq!(solver.depth(0), Ok(2));
    assert_eq!(solver.depth(4), Ok(2));
    assert_eq!(solver.depth(2), Ok(3));
    assert_eq!(solver.depth(6), Ok(4));
    assert_eq!(solver.parent(0), Ok(Some(1)));
    assert_eq!(solver.lca(5, 6), Ok(2));
    assert_eq!(solver.lca(4, 6), Ok(1));
    assert_eq!(solver.lca(0, 4), Ok(1));
    assert_eq!(solver.lca(3, 6), Ok(3));
}

#[test]
fn lca_laws_hold_on_every_pair() {
    let solver = LCA::new(simple_graph(), 0).unwrap();
    for u in 0..7 {
        assert_eq!(solver.lca(u, u), Ok(u));
        for v in 0..7 {
            let w = solver.lca(u, v).unwrap();
            assert_eq!(solver.lca(v, u), Ok(w));
            let dw = solver.depth(w).unwrap();
            assert!(dw <= solver.depth(u).unwrap().min(solver.depth(v).unwrap()));
            let up = root_path(&solver, u);
            let vp = root_path(&solver, v);
            assert!(up.contains(&w));
            assert!(vp.contains(&w));
            // No common ancestor lies deeper.
            for x in &up {
                if vp.contains(x) {
                    assert!(solver.depth(*x).unwrap() <= dw);
                }
            }
        }
    }
}

#[test]
fn single_vertex_tree() {
    let mut g: UnGraph<(), ()> = UnGraph::new_undirected();
    g.add_node(());
    let solver = LCA::new(g, 0).unwrap();
    assert_eq!(solver.vertex_count(), 1);
    assert_eq!(solver.levels(), 0);
    assert_eq!(solver.parent(0), Ok(None));
    assert_eq!(solver.depth(0), Ok(0));
    assert_eq!(solver.lca(0, 0), Ok(0));
}

#[test]
fn path_shaped_tree() {
    for n in [2u32, 3, 4, 5, 8, 9, 17] {
        let solver = LCA::new(path_graph(n), 0).unwrap();
        let n = n as usize;
        for u in 0..n {
            assert_eq!(solver.depth(u), Ok(u));
            for v in 0..n {
                assert_eq!(solver.lca(u, v), Ok(u.min(v)));
            }
        }
    }
}

#[test]
fn deep_jumps_use_every_level() {
    let n = 100usize;
    let solver = LCA::new(path_graph(n as u32), 0).unwrap();
    assert_eq!(solver.levels(), 7);
    assert_eq!(solver.lca(99, 0), Ok(0));
    assert_eq!(solver.lca(99, 36), Ok(36));
    assert_eq!(solver.lca(1, 99), Ok(1));
    let middle = LCA::new(path_graph(n as u32), 50).unwrap();
    assert_eq!(middle.depth(0), Ok(50));
    assert_eq!(middle.depth(99), Ok(49));
    assert_eq!(middle.lca(0, 99), Ok(50));
    assert_eq!(middle.lca(10, 40), Ok(40));
    assert_eq!(middle.lca(60, 90), Ok(60));
}

#[test]
fn disconnected_vertex_is_malformed() {
    let mut g = simple_graph();
    g.add_node(());
    assert_eq!(LCA::new(g, 0).err(), Some(LcaError::MalformedTree));

    let two_parts: UnGraph<(), ()> = UnGraph::from_edges(&[(0, 1), (2, 3)]);
    assert_eq!(LCA::new(two_parts, 2).err(), Some(LcaError::MalformedTree));
}

#[test]
fn empty_tree_and_invalid_root() {
    let empty: UnGraph<(), ()> = UnGraph::new_undirected();
    assert_eq!(LCA::new(empty, 0).err(), Some(LcaError::EmptyTree));
    assert_eq!(LCA::new(simple_graph(), 7).err(), Some(LcaError::InvalidRoot));
    assert_eq!(LCA::build(&vec![], 3).err(), Some(LcaError::EmptyTree));
    assert_eq!(LCA::build(&vec![vec![]], 1).err(), Some(LcaError::InvalidRoot));
}

#[test]
fn query_out_of_range_is_rejected() {
    let solver = LCA::new(simple_graph(), 0).unwrap();
    assert_eq!(solver.lca(7, 0), Err(LcaError::IndexOutOfRange));
    assert_eq!(solver.lca(0, 7), Err(LcaError::IndexOutOfRange));
    assert_eq!(solver.depth(7), Err(LcaError::IndexOutOfRange));
    assert_eq!(solver.parent(7), Err(LcaError::IndexOutOfRange));
    // The table still answers afterwards.
    assert_eq!(solver.lca(3, 4), Ok(1));
}

#[test]
fn build_from_adjacency_lists() {
    let adj = vec![vec![1, 2], vec![0, 3, 4], vec![0, 5, 6], vec![1], vec![1], vec![2], vec![2]];
    let solver = LCA::build(&adj, 0).unwrap();
    assert_eq!(solver.lca(3, 4), Ok(1));
    assert_eq!(solver.lca(5, 6), Ok(2));
    assert_eq!(solver.lca(3, 5), Ok(0));
    assert_eq!(solver.lca(1, 2), Ok(0));
}

#[test]
fn neighbour_that_is_no_vertex_is_malformed() {
    let adj = vec![vec![1], vec![0, 2]];
    assert_eq!(LCA::build(&adj, 0).err(), Some(LcaError::MalformedTree));
    let unreachable = vec![vec![1], vec![0], vec![0]];
    assert_eq!(LCA::build(&unreachable, 0).err(), Some(LcaError::MalformedTree));
}

#[test]
fn connected_graph_with_a_cycle_gives_a_spanning_tree() {
    // A triangle 0-1-2 with a tail 2-3: every vertex hangs at its distance from the root.
    let g: UnGraph<(), ()> = UnGraph::from_edges(&[(0, 1), (1, 2), (2, 0), (2, 3)]);
    let solver = LCA::new(g, 0).unwrap();
    assert_eq!(solver.depth(1), Ok(1));
    assert_eq!(solver.depth(2), Ok(1));
    assert_eq!(solver.depth(3), Ok(2));
    assert_eq!(solver.lca(1, 3), Ok(0));
    assert_eq!(solver.lca(2, 3), Ok(2));
}

#[test]
fn log2_rounds_up() {
    assert_eq!(LCA::log2(0), 0);
    assert_eq!(LCA::log2(1), 0);
    assert_eq!(LCA::log2(2), 1);
    assert_eq!(LCA::log2(3), 2);
    assert_eq!(LCA::log2(4), 2);
    assert_eq!(LCA::log2(5), 3);
    assert_eq!(LCA::log2(7), 3);
    assert_eq!(LCA::log2(8), 3);
    assert_eq!(LCA::log2(9), 4);
    assert_eq!(LCA::log2(1 << 20), 20);
    assert_eq!(LCA::log2((1 << 20) + 1), 21);
    assert_eq!(LCA::log2(usize::MAX), usize::BITS as usize);
}

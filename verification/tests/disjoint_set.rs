use algorithms::disjoint_set::DisjointSet;

#[test]
fn it_constructs_empty() {
    let set = DisjointSet::new(0);
    assert!(set.len() == 0)
}

#[test]
fn it_constructs_small() {
    let n = 10;
    let set = DisjointSet::new(n);
    for u in 0..n {
        assert_eq!(set.parent(u), u)
    }
}

#[test]
fn it_finds_root() {
    let n = 10;
    let mut set = DisjointSet::new(n);
    for u in 0..n {
        assert_eq!(set.root(u), u)
    }
}

#[test]
fn it_joins_sets() {
    let mut set = DisjointSet::new(10);
    assert!(!set.same_set(0, 1));
    assert!(set.join(0, 1));
    assert!(set.same_set(0, 1));

    assert!(!set.same_set(1, 2));
    assert!(set.join(1, 2));
    assert!(set.same_set(1, 2));

    assert!(set.same_set(0, 2));
    assert!(!set.join(0, 2));
}

#[test]
fn it_maintains_set_size() {
    let n = 10;
    let mut set = DisjointSet::new(n);
    for u in 0..n {
        assert_eq!(set.size(u), 1)
    }
    set.join(0, 1);
    assert_eq!(set.size(0), 2);
    assert_eq!(set.size(1), 2);
    for u in 2..n {
        assert_eq!(set.size(u), 1)
    }
    for u in 2..n {
        set.join(u - 1, u);
    }
    for u in 0..n {
        assert_eq!(set.size(u), n)
    }
}

#[test]
fn join_keeps_the_root_of_higher_rank() {
    let mut set = DisjointSet::new(6);
    // Equal ranks: the root of the second argument wins and rises in rank.
    assert!(set.join(0, 1));
    assert_eq!(set.root(0), 1);
    assert_eq!(set.root(1), 1);
    // A singleton joins the set of higher rank, whichever side it stands on.
    assert!(set.join(1, 2));
    assert_eq!(set.root(2), 1);
    assert!(set.join(3, 0));
    assert_eq!(set.root(3), 1);
    assert_eq!(set.size(3), 4);
    // The other elements stay alone.
    assert_eq!(set.root(4), 4);
    assert_eq!(set.size(5), 1);
}

#[test]
fn root_compresses_the_path() {
    let mut set = DisjointSet::new(4);
    set.join(0, 1);
    set.join(2, 3);
    set.join(1, 3);
    // 0 -> 1 -> 3 before the query, 0 -> 3 after it.
    assert_eq!(set.parent(0), 1);
    assert_eq!(set.root(0), 3);
    assert_eq!(set.parent(0), 3);
    assert_eq!(set.size(0), 4);
}

//! Union-find with union by rank and path compression.

use vstd::prelude::*;

verus! {

/// A data structure for performing UnionFind queries and updates.
pub struct DisjointSet {
    /// Parent of a given element. If 'parent[u] == u' then element 'u' has no
    /// parent.
    parent: Vec<usize>,
    /// Size of a set. Only valid for the root of a set.
    size: Vec<usize>,
    /// Upper bound on the height of a set. Only valid for the root of a set.
    rank: Vec<usize>,
}

/// The partition that a `DisjointSet` stands for: for each element the root of its set,
/// and for each element its rank, which decides the root of a joined set.
pub struct Partition {
    pub root: Seq<usize>,
    pub rank: Seq<usize>,
}

/// How many elements have `r` as their root.
pub open spec fn members(root: Seq<usize>, r: usize) -> nat
    decreases root.len(),
{
    if root.len() == 0 {
        0
    } else {
        members(root.drop_last(), r) + if root.last() == r {
            1nat
        } else {
            0nat
        }
    }
}

/// The roots after the set of root `from` has gone into the set of root `to`.
pub open spec fn joined(root: Seq<usize>, from: usize, to: usize) -> Seq<usize> {
    Seq::new(
        root.len(),
        |x: int|
            if root[x] == from {
                to
            } else {
                root[x]
            },
    )
}

impl Partition {
    /// The number of elements.
    pub open spec fn len(self) -> nat {
        self.root.len()
    }

    /// `u` and `v` are elements of one set.
    pub open spec fn same_set(self, u: usize, v: usize) -> bool {
        self.root[u as int] == self.root[v as int]
    }

    /// The root that the union of the sets of roots `a` and `b` gets: that of the higher
    /// rank, and `b` where the ranks are equal.
    pub open spec fn winner(self, a: usize, b: usize) -> usize {
        if self.rank[a as int] <= self.rank[b as int] {
            b
        } else {
            a
        }
    }

    /// The partition after the sets of the distinct roots `a` and `b` have been joined.
    pub open spec fn union(self, a: usize, b: usize) -> Partition {
        let to = self.winner(a, b);
        let from = if to == a {
            b
        } else {
            a
        };
        Partition {
            root: joined(self.root, from, to),
            rank: if self.rank[a as int] == self.rank[b as int] {
                self.rank.update(b as int, (self.rank[b as int] + 1) as usize)
            } else {
                self.rank
            },
        }
    }
}

/// Every parent is an element, of a rank above that of its child, and ranks stay below
/// the number of elements.
spec fn links_ok(parent: Seq<usize>, rank: Seq<usize>) -> bool {
    &&& parent.len() == rank.len()
    &&& forall|u: int| 0 <= u < parent.len() ==> #[trigger] parent[u] < parent.len()
    &&& forall|u: int| 0 <= u < parent.len() ==> #[trigger] rank[u] < parent.len()
    &&& forall|u: int|
        0 <= u < parent.len() && #[trigger] parent[u] != u ==> rank[u] < rank[parent[u] as int]
}

/// The element without a parent that is reached from `u` along the parent links.
spec fn find(parent: Seq<usize>, rank: Seq<usize>, u: int) -> int
    decreases parent.len() - rank[u],
    when links_ok(parent, rank) && 0 <= u < parent.len()
{
    if parent[u] == u {
        u
    } else {
        find(parent, rank, parent[u] as int)
    }
}

/// For each element the root that it finds.
spec fn roots_of(parent: Seq<usize>, rank: Seq<usize>) -> Seq<usize> {
    Seq::new(parent.len(), |u: int| find(parent, rank, u) as usize)
}

/// What an element finds is a root, of a rank no lower than its own.
proof fn lemma_find(parent: Seq<usize>, rank: Seq<usize>, u: int)
    requires
        links_ok(parent, rank),
        0 <= u < parent.len(),
    ensures
        0 <= find(parent, rank, u) < parent.len(),
        parent[find(parent, rank, u)] == find(parent, rank, u),
        rank[u] <= rank[find(parent, rank, u)],
        parent[u] != u ==> rank[u] < rank[find(parent, rank, u)],
        find(parent, rank, find(parent, rank, u)) == find(parent, rank, u),
    decreases parent.len() - rank[u],
{
    if parent[u] != u {
        lemma_find(parent, rank, parent[u] as int);
    }
}

/// Two sets of different roots have no more members together than there are elements.
proof fn lemma_members_bound(root: Seq<usize>, a: usize, b: usize)
    requires
        a != b,
    ensures
        members(root, a) + members(root, b) <= root.len(),
    decreases root.len(),
{
    if root.len() > 0 {
        lemma_members_bound(root.drop_last(), a, b);
    }
}

/// Joining gives the winning root the members of both sets, leaves the other root none,
/// and leaves every other set as it was.
proof fn lemma_members_joined(root: Seq<usize>, from: usize, to: usize, r: usize)
    requires
        from != to,
    ensures
        members(joined(root, from, to), r) == if r == to {
            members(root, from) + members(root, to)
        } else if r == from {
            0
        } else {
            members(root, r)
        },
    decreases root.len(),
{
    if root.len() > 0 {
        lemma_members_joined(root.drop_last(), from, to, r);
        assert(joined(root, from, to).drop_last() =~= joined(root.drop_last(), from, to));
    }
}

/// Where every element is its own root, every set has one member.
proof fn lemma_members_singletons(root: Seq<usize>, r: usize)
    requires
        forall|u: int| 0 <= u < root.len() ==> root[u] == u,
    ensures
        members(root, r) == if r < root.len() {
            1nat
        } else {
            0nat
        },
    decreases root.len(),
{
    if root.len() > 0 {
        lemma_members_singletons(root.drop_last(), r);
    }
}

/// Where the links change so that the same elements have a parent as before, and the new
/// parent of each had the same root as its child, every element finds the root it found.
proof fn lemma_find_stays(
    parent: Seq<usize>,
    rank: Seq<usize>,
    parent2: Seq<usize>,
    rank2: Seq<usize>,
    u: int,
)
    requires
        links_ok(parent, rank),
        links_ok(parent2, rank2),
        parent2.len() == parent.len(),
        forall|x: int|
            0 <= x < parent.len() ==> find(parent, rank, #[trigger] parent2[x] as int) == find(parent, rank, x),
        forall|x: int| 0 <= x < parent.len() ==> (#[trigger] parent2[x] == x <==> parent[x] == x),
        0 <= u < parent.len(),
    ensures
        find(parent2, rank2, u) == find(parent, rank, u),
    decreases parent2.len() - rank2[u],
{
    if parent2[u] != u {
        lemma_find_stays(parent, rank, parent2, rank2, parent2[u] as int);
    }
}

/// After the root `from` has been given the parent `to`, another root, every element
/// that found `from` finds `to`, and all others find what they found.
proof fn lemma_find_joined(
    parent: Seq<usize>,
    rank: Seq<usize>,
    rank2: Seq<usize>,
    from: usize,
    to: usize,
    u: int,
)
    requires
        links_ok(parent, rank),
        links_ok(parent.update(from as int, to), rank2),
        from < parent.len(),
        to < parent.len(),
        from != to,
        parent[from as int] == from,
        parent[to as int] == to,
        0 <= u < parent.len(),
    ensures
        find(parent.update(from as int, to), rank2, u) == if find(parent, rank, u) == from {
            to as int
        } else {
            find(parent, rank, u)
        },
    decreases parent.len() - rank[u],
{
    let parent2 = parent.update(from as int, to);
    if u == from {
        assert(find(parent2, rank2, to as int) == to);
    } else if parent[u] != u {
        lemma_find_joined(parent, rank, rank2, from, to, parent[u] as int);
    }
}

impl View for DisjointSet {
    type V = Partition;

    /// The root that each element finds along the parent links, and the ranks.
    closed spec fn view(&self) -> Partition {
        Partition { root: roots_of(self.parent@, self.rank@), rank: self.rank@ }
    }
}

impl DisjointSet {
    /// The links lead every element to a root, and each root knows the size of its set.
    pub closed spec fn wf(&self) -> bool {
        &&& links_ok(self.parent@, self.rank@)
        &&& self.parent@.len() <= usize::MAX
        &&& self.size@.len() == self.parent@.len()
        &&& forall|r: int|
            0 <= r < self.parent@.len() && #[trigger] self.parent@[r] == r ==> {
                &&& self.size@[r] == members(roots_of(self.parent@, self.rank@), r as usize)
                &&& self.rank@[r] < self.size@[r]
            }
    }

    /// The parent link of the element `u`.
    pub closed spec fn link(&self, u: int) -> usize {
        self.parent@[u]
    }

    /// Construct a new disjoint set with 'n' singleton sets.
    pub fn new(n: usize) -> (set: Self)
        ensures
            set.wf(),
            set@.len() == n,
            forall|u: int| 0 <= u < n ==> set@.root[u] == u,
            forall|u: int| 0 <= u < n ==> set@.rank[u] == 0,
            forall|u: int| 0 <= u < n ==> set.link(u) == u,
    {
        let mut set = DisjointSet { parent: vec![0; n], size: vec![1; n], rank: vec![0; n] };
        for u in 0..n
            invariant
                set.parent@.len() == n,
                set.size@.len() == n,
                set.rank@.len() == n,
                forall|x: int| 0 <= x < n ==> set.size@[x] == 1,
                forall|x: int| 0 <= x < n ==> set.rank@[x] == 0,
                forall|x: int| 0 <= x < u ==> set.parent@[x] == x,
        {
            set.parent[u] = u
        }
        proof {
            let roots = roots_of(set.parent@, set.rank@);
            assert forall|r: int| 0 <= r < n implies #[trigger] members(roots, r as usize) == 1 by {
                lemma_members_singletons(roots, r as usize);
            }
        }
        set
    }

    /// The number of elements.
    pub fn len(&self) -> (n: usize)
        ensures
            n == self@.len(),
    {
        self.parent.len()
    }

    /// The parent link of the element 'u', which is 'u' itself where 'u' is a root.
    pub fn parent(&self, u: usize) -> (p: usize)
        requires
            self.wf(),
            u < self@.len(),
        ensures
            p == self.link(u as int),
            p < self@.len(),
            p == u <==> self@.root[u as int] == u,
            self@.root[p as int] == self@.root[u as int],
    {
        proof {
            lemma_find(self.parent@, self.rank@, u as int);
            lemma_find(self.parent@, self.rank@, self.parent@[u as int] as int);
        }
        self.parent[u]
    }

    /// Find the root of element 'u'. If 'u' is the root return itself. Perform
    /// path optimization on the way.
    pub fn root(&mut self, u: usize) -> (r: usize)
        requires
            old(self).wf(),
            u < old(self)@.len(),
        ensures
            final(self).wf(),
            final(self)@ == old(self)@,
            r == old(self)@.root[u as int],
            r < old(self)@.len(),
            old(self)@.root[r as int] == r,
            final(self).link(r as int) == r,
        decreases old(self)@.rank.len() - old(self)@.rank[u as int],
    {
        proof {
            lemma_find(self.parent@, self.rank@, u as int);
        }
        if self.parent[u] == u {
            u
        } else {
            let r = self.root(self.parent[u]);
            let ghost parent = self.parent@;
            let ghost rank = self.rank@;
            proof {
                lemma_find(old(self).parent@, old(self).rank@, old(self).parent@[u as int] as int);
                assert(roots_of(parent, rank)[u as int] == roots_of(old(self).parent@, old(self).rank@)[u as int]);
                assert(roots_of(parent, rank)[old(self).parent@[u as int] as int] == roots_of(
                    old(self).parent@,
                    old(self).rank@,
                )[old(self).parent@[u as int] as int]);
                lemma_find(parent, rank, u as int);
            }
            self.parent[u] = r;
            proof {
                let parent2 = self.parent@;
                assert(parent2 == parent.update(u as int, r));
                assert(links_ok(parent2, rank)) by {
                    assert forall|x: int| 0 <= x < parent2.len() && #[trigger] parent2[x] != x implies rank[x]
                        < rank[parent2[x] as int] by {
                        if x != u {
                            assert(parent[x] != x);
                        }
                    }
                }
                assert forall|x: int| 0 <= x < parent.len() implies find(
                    parent,
                    rank,
                    #[trigger] parent2[x] as int,
                ) == find(parent, rank, x) by {
                    lemma_find(parent, rank, x);
                }
                assert forall|x: int| 0 <= x < parent.len() implies find(parent2, rank, x) == find(
                    parent,
                    rank,
                    x,
                ) by {
                    lemma_find_stays(parent, rank, parent2, rank, x);
                }
                assert(roots_of(parent2, rank) =~= roots_of(parent, rank));
            }
            r
        }
    }

    /// Join the sets containing 'u' and 'v'. If they are already in the same
    /// set do nothing and return false, otherwise join the sets and return
    /// true.
    pub fn join(&mut self, u: usize, v: usize) -> (merged: bool)
        requires
            old(self).wf(),
            u < old(self)@.len(),
            v < old(self)@.len(),
        ensures
            final(self).wf(),
            merged <==> !old(self)@.same_set(u, v),
            !merged ==> final(self)@ == old(self)@,
            merged ==> final(self)@ == old(self)@.union(old(self)@.root[u as int], old(self)@.root[v as int]),
    {
        let r1 = self.root(u);
        let r2 = self.root(v);
        if r1 != r2 {
            let ghost before = *self;
            let ghost parent = self.parent@;
            let ghost rank = self.rank@;
            let ghost roots = roots_of(parent, rank);
            proof {
                lemma_find(parent, rank, u as int);
                lemma_find(parent, rank, v as int);
                assert(roots[u as int] == r1);
                assert(roots[v as int] == r2);
                assert(parent[r1 as int] == r1);
                assert(parent[r2 as int] == r2);
                lemma_members_bound(roots, r1, r2);
                assert(self.size@[r1 as int] == members(roots, r1));
                assert(self.size@[r2 as int] == members(roots, r2));
                assert(self.size@[r1 as int] + self.size@[r2 as int] <= parent.len());
            }
            if self.rank[r1] <= self.rank[r2] {
                if self.rank[r1] == self.rank[r2] {
                    self.rank[r2] += 1
                }
                self.parent[r1] = r2;
                self.size[r2] += self.size[r1];
                proof {
                    self.lemma_joined(before, parent, rank, r1, r2);
                }
            } else {
                self.parent[r2] = r1;
                self.size[r1] += self.size[r2];
                proof {
                    self.lemma_joined(before, parent, rank, r2, r1);
                }
            }
            true
        } else {
            false
        }
    }

    /// What `join` has brought about once the root `from` hangs below the root `to`.
    proof fn lemma_joined(&self, before: Self, parent: Seq<usize>, rank: Seq<usize>, from: usize, to: usize)
        requires
            links_ok(parent, rank),
            parent.len() <= usize::MAX,
            from < parent.len(),
            to < parent.len(),
            from != to,
            parent[from as int] == from,
            parent[to as int] == to,
            rank[from as int] <= rank[to as int],
            before.size@.len() == parent.len(),
            before@ == (Partition { root: roots_of(parent, rank), rank }),
            forall|r: int|
                0 <= r < parent.len() && #[trigger] parent[r] == r ==> {
                    &&& before.size@[r] == members(roots_of(parent, rank), r as usize)
                    &&& rank[r] < before.size@[r]
                },
            before.size@[from as int] + before.size@[to as int] <= parent.len(),
            self.parent@ == parent.update(from as int, to),
            self.size@ == before.size@.update(
                to as int,
                (before.size@[from as int] + before.size@[to as int]) as usize,
            ),
            self.rank@ == if rank[from as int] == rank[to as int] {
                rank.update(to as int, (rank[to as int] + 1) as usize)
            } else {
                rank
            },
        ensures
            self.wf(),
            self@.root == joined(before@.root, from, to),
    {
        let parent2 = self.parent@;
        let rank2 = self.rank@;
        let roots = roots_of(parent, rank);
        assert(links_ok(parent2, rank2)) by {
            assert forall|x: int| 0 <= x < parent2.len() && #[trigger] parent2[x] != x implies rank2[x]
                < rank2[parent2[x] as int] by {
                if x != from {
                    assert(parent[x] != x);
                    assert(rank[x] < rank[parent[x] as int]);
                }
            }
            assert forall|x: int| 0 <= x < parent2.len() implies #[trigger] rank2[x] < parent2.len() by {
                assert(rank[x] < parent.len());
            }
        }
        let roots2 = roots_of(parent2, rank2);
        assert forall|x: int| 0 <= x < parent.len() implies #[trigger] roots2[x] == joined(roots, from, to)[x] by {
            lemma_find_joined(parent, rank, rank2, from, to, x);
            lemma_find(parent, rank, x);
        }
        assert(roots2 =~= joined(roots, from, to));
        assert forall|r: int| 0 <= r < parent2.len() && #[trigger] parent2[r] == r implies {
            &&& self.size@[r] == members(roots_of(parent2, rank2), r as usize)
            &&& rank2[r] < self.size@[r]
        } by {
            lemma_members_joined(roots, from, to, r as usize);
            assert(parent[r] == r);
            assert(parent[from as int] == from);
        }
    }

    /// Returns true if 'u' and 'v' are in the same set, otherwise false.
    pub fn same_set(&mut self, u: usize, v: usize) -> (same: bool)
        requires
            old(self).wf(),
            u < old(self)@.len(),
            v < old(self)@.len(),
        ensures
            final(self).wf(),
            final(self)@ == old(self)@,
            same <==> old(self)@.same_set(u, v),
    {
        self.root(u) == self.root(v)
    }

    /// Returns the size of the set which contains element 'u'.
    pub fn size(&mut self, u: usize) -> (count: usize)
        requires
            old(self).wf(),
            u < old(self)@.len(),
        ensures
            final(self).wf(),
            final(self)@ == old(self)@,
            count == members(old(self)@.root, old(self)@.root[u as int]),
    {
        let r = self.root(u);
        self.size[r]
    }
}

} // verus!

//! The mathematical model of a rooted tree stored as a depth array and a
//! binary-lifting jump table, and the facts about ancestors that the
//! executable code relies on.

use crate::powers::is_ceil_log2;
use vstd::arithmetic::power2::pow2;
use vstd::prelude::*;

verus! {

/// The rows of a jump table as sequences.
pub open spec fn rows(jumps: Vec<Vec<Option<usize>>>) -> Seq<Seq<Option<usize>>> {
    Seq::new(jumps.len() as nat, |i: int| jumps[i]@)
}

/// The parent links that a jump table over `n` vertices holds in its lowest row.
pub open spec fn parent_links(jumps: Seq<Seq<Option<usize>>>, n: nat) -> Seq<Option<usize>> {
    if jumps.len() == 0 {
        Seq::new(n, |v: int| None)
    } else {
        jumps[0]
    }
}

/// The vertex reached from `v` by following the links in `parents` `k` times.
pub open spec fn climb(parents: Seq<Option<usize>>, v: usize, k: nat) -> Option<usize>
    decreases k,
{
    if k == 0 {
        Some(v)
    } else if v < parents.len() {
        match parents[v as int] {
            Some(p) => climb(parents, p, (k - 1) as nat),
            None => None,
        }
    } else {
        None
    }
}

/// Climbing `a` links and then `b` links is climbing `a + b` links.
pub proof fn lemma_climb_add(parents: Seq<Option<usize>>, v: usize, a: nat, b: nat)
    ensures
        climb(parents, v, a + b) == match climb(parents, v, a) {
            Some(x) => climb(parents, x, b),
            None => None,
        },
    decreases a,
{
    if a > 0 && v < parents.len() {
        match parents[v as int] {
            Some(p) => {
                lemma_climb_add(parents, p, (a - 1) as nat, b);
            },
            None => {},
        }
    }
}

/// Abstract content of an ancestor index over the vertices `0 .. depth.len()`.
///
/// `jumps[i][v]` is the vertex `2^i` steps above `v`, if there is one.
pub struct AncestorTable {
    pub depth: Seq<usize>,
    pub jumps: Seq<Seq<Option<usize>>>,
}

impl AncestorTable {
    /// The number of vertices.
    pub open spec fn vertex_count(self) -> nat {
        self.depth.len()
    }

    /// The number of rows of the jump table.
    pub open spec fn levels(self) -> nat {
        self.jumps.len()
    }

    /// The parent links, one per vertex: the lowest row of the jump table. A table
    /// of a single vertex has no rows, and its vertex no parent.
    pub open spec fn parents(self) -> Seq<Option<usize>> {
        parent_links(self.jumps, self.depth.len())
    }

    /// The direct parent of `v`; the root has none.
    pub open spec fn parent(self, v: usize) -> Option<usize> {
        self.parents()[v as int]
    }

    /// The vertex reached from `v` by following parent links `k` times.
    pub open spec fn ancestor(self, v: usize, k: nat) -> Option<usize> {
        climb(self.parents(), v, k)
    }

    /// `a` lies on the path from `v` up to the root (both ends included).
    pub open spec fn is_ancestor(self, a: usize, v: usize) -> bool {
        &&& a < self.depth.len()
        &&& v < self.depth.len()
        &&& exists|k: nat| self.ancestor(v, k) == Some(a)
    }

    /// `a` is an ancestor of both `u` and `v`.
    pub open spec fn is_common_ancestor(self, a: usize, u: usize, v: usize) -> bool {
        self.is_ancestor(a, u) && self.is_ancestor(a, v)
    }

    /// `w` is the deepest vertex that is an ancestor of both `u` and `v`.
    pub open spec fn is_lowest_common_ancestor(self, w: usize, u: usize, v: usize) -> bool {
        &&& self.is_common_ancestor(w, u, v)
        &&& forall|a: usize| #[trigger]
            self.is_common_ancestor(a, u, v) ==> self.depth[a as int] <= self.depth[w as int]
    }

    /// The lowest common ancestor of `u` and `v`.
    pub open spec fn lca(self, u: usize, v: usize) -> usize {
        choose|w: usize| self.is_lowest_common_ancestor(w, u, v)
    }

    /// The vertex of depth 0.
    pub open spec fn root(self) -> usize {
        choose|r: usize| r < self.depth.len() && self.depth[r as int] == 0
    }

    /// The table has one row per level, `ceil(log2(n))` of them, and one column per vertex.
    pub open spec fn well_shaped(self) -> bool {
        &&& self.depth.len() >= 1
        &&& self.depth.len() <= usize::MAX
        &&& is_ceil_log2(self.depth.len(), self.jumps.len())
        &&& forall|i: int| 0 <= i < self.jumps.len() ==> (#[trigger] self.jumps[i]).len() == self.depth.len()
    }

    /// Depths and parent links describe one tree.
    pub open spec fn is_rooted_tree(self) -> bool {
        let n = self.depth.len();
        &&& forall|v: usize| v < n ==> #[trigger] self.depth[v as int] < n
        &&& forall|v: usize|
            v < n ==> match #[trigger] self.parent(v) {
                Some(p) => p < n && self.depth[v as int] == self.depth[p as int] + 1,
                None => self.depth[v as int] == 0,
            }
        &&& forall|a: usize, b: usize|
            a < n && b < n && #[trigger] self.depth[a as int] == 0 && #[trigger] self.depth[b as int]
                == 0 ==> a == b
    }

    /// Every entry of the jump table is the ancestor at the power-of-two distance of its row.
    pub open spec fn jumps_are_ancestors(self) -> bool {
        forall|i: int, v: usize|
            0 <= i < self.jumps.len() && v < self.depth.len() ==> #[trigger] self.jumps[i][v as int]
                == self.ancestor(v, pow2(i as nat))
    }

    /// The table describes a rooted tree and holds in each row the ancestors at the distance
    /// of that row.
    pub open spec fn wf(self) -> bool {
        &&& self.well_shaped()
        &&& self.is_rooted_tree()
        &&& self.jumps_are_ancestors()
    }

    /// Each step towards the root lowers the depth by one.
    pub proof fn lemma_ancestor_depth(self, v: usize, k: nat)
        requires
            self.wf(),
            v < self.vertex_count(),
            self.ancestor(v, k) is Some,
        ensures
            self.ancestor(v, k).unwrap() < self.vertex_count(),
            self.depth[self.ancestor(v, k).unwrap() as int] + k == self.depth[v as int],
        decreases k,
    {
        if k > 0 {
            let p = self.parent(v).unwrap();
            self.lemma_ancestor_depth(p, (k - 1) as nat);
        }
    }

    /// A vertex has an ancestor at every distance up to its depth, and none beyond.
    pub proof fn lemma_ancestor_exists(self, v: usize, k: nat)
        requires
            self.wf(),
            v < self.vertex_count(),
        ensures
            self.ancestor(v, k) is Some <==> k <= self.depth[v as int],
        decreases k,
    {
        if k > 0 {
            match self.parent(v) {
                Some(p) => {
                    self.lemma_ancestor_exists(p, (k - 1) as nat);
                },
                None => {},
            }
        }
    }

    /// Going up `a` steps and then `b` steps is going up `a + b` steps.
    pub proof fn lemma_ancestor_add(self, v: usize, a: nat, b: nat)
        ensures
            self.ancestor(v, a + b) == match self.ancestor(v, a) {
                Some(x) => self.ancestor(x, b),
                None => None,
            },
    {
        lemma_climb_add(self.parents(), v, a, b);
    }

    /// The chain of parents of any vertex ends in the root.
    pub proof fn lemma_root(self, v: usize)
        requires
            self.wf(),
            v < self.vertex_count(),
        ensures
            self.root() < self.vertex_count(),
            self.depth[self.root() as int] == 0,
            self.ancestor(v, self.depth[v as int] as nat) == Some(self.root()),
    {
        let d = self.depth[v as int] as nat;
        self.lemma_ancestor_exists(v, d);
        self.lemma_ancestor_depth(v, d);
        let r = self.ancestor(v, d).unwrap();
        assert(r < self.depth.len() && self.depth[r as int] == 0);
    }

    /// Ancestors are exactly the vertices found by climbing the difference of the depths.
    pub proof fn lemma_is_ancestor(self, a: usize, v: usize)
        requires
            self.wf(),
            a < self.vertex_count(),
            v < self.vertex_count(),
        ensures
            self.is_ancestor(a, v) <==> self.depth[a as int] <= self.depth[v as int] && self.ancestor(
                v,
                (self.depth[v as int] - self.depth[a as int]) as nat,
            ) == Some(a),
    {
        if self.is_ancestor(a, v) {
            let k = choose|k: nat| self.ancestor(v, k) == Some(a);
            self.lemma_ancestor_depth(v, k);
        }
    }

    /// Two ancestors of one vertex that have the same depth are the same vertex.
    pub proof fn lemma_ancestors_at_depth(self, a: usize, b: usize, v: usize)
        requires
            self.wf(),
            self.is_ancestor(a, v),
            self.is_ancestor(b, v),
            self.depth[a as int] == self.depth[b as int],
        ensures
            a == b,
    {
        self.lemma_is_ancestor(a, v);
        self.lemma_is_ancestor(b, v);
    }

    /// An ancestor of `v` that is at least as deep as another ancestor `a` of `v`
    /// has `a` among its own ancestors.
    pub proof fn lemma_ancestors_are_chained(self, a: usize, x: usize, v: usize)
        requires
            self.wf(),
            self.is_ancestor(a, v),
            self.is_ancestor(x, v),
            self.depth[a as int] <= self.depth[x as int],
        ensures
            self.is_ancestor(a, x),
    {
        self.lemma_is_ancestor(a, v);
        self.lemma_is_ancestor(x, v);
        let kx = (self.depth[v as int] - self.depth[x as int]) as nat;
        let ka = (self.depth[x as int] - self.depth[a as int]) as nat;
        self.lemma_ancestor_add(v, kx, ka);
        assert(self.ancestor(x, ka) == Some(a));
    }

    /// A lowest common ancestor is unique.
    pub proof fn lemma_lca_unique(self, w1: usize, w2: usize, u: usize, v: usize)
        requires
            self.wf(),
            self.is_lowest_common_ancestor(w1, u, v),
            self.is_lowest_common_ancestor(w2, u, v),
        ensures
            w1 == w2,
    {
        assert(self.is_common_ancestor(w1, u, v));
        assert(self.is_common_ancestor(w2, u, v));
        self.lemma_ancestors_at_depth(w1, w2, u);
    }

    /// Whatever vertex is a lowest common ancestor of `u` and `v` is the one `lca` names.
    pub proof fn lemma_lca_is(self, w: usize, u: usize, v: usize)
        requires
            self.wf(),
            self.is_lowest_common_ancestor(w, u, v),
        ensures
            self.lca(u, v) == w,
    {
        self.lemma_lca_unique(w, self.lca(u, v), u, v);
    }

    /// A vertex that is an ancestor of another is the lowest common ancestor of the two.
    pub proof fn lemma_lca_of_ancestor(self, u: usize, v: usize)
        requires
            self.wf(),
            self.is_ancestor(u, v),
        ensures
            self.is_lowest_common_ancestor(u, u, v),
            self.is_lowest_common_ancestor(u, v, u),
    {
        assert(self.ancestor(u, 0) == Some(u));
        assert(self.is_ancestor(u, u));
        assert forall|a: usize| #[trigger] self.is_ancestor(a, u) implies self.depth[a as int]
            <= self.depth[u as int] by {
            self.lemma_is_ancestor(a, u);
        }
    }

    /// Two distinct vertices of equal depth that share their parent, one above `u` and one
    /// above `v`, sit right below the lowest common ancestor of `u` and `v`.
    pub proof fn lemma_lca_above_siblings(self, a: usize, b: usize, u: usize, v: usize)
        requires
            self.wf(),
            self.is_ancestor(a, u),
            self.is_ancestor(b, v),
            a != b,
            self.parent(a) is Some,
            self.parent(a) == self.parent(b),
        ensures
            self.is_lowest_common_ancestor(self.parent(a).unwrap(), u, v),
    {
        let w = self.parent(a).unwrap();
        self.lemma_is_ancestor(a, u);
        self.lemma_is_ancestor(b, v);
        let ka = (self.depth[u as int] - self.depth[a as int]) as nat;
        let kb = (self.depth[v as int] - self.depth[b as int]) as nat;
        assert(self.ancestor(a, 1) == Some(w)) by {
            assert(self.ancestor(w, 0) == Some(w));
        }
        assert(self.ancestor(b, 1) == Some(w)) by {
            assert(self.ancestor(w, 0) == Some(w));
        }
        self.lemma_ancestor_add(u, ka, 1);
        self.lemma_ancestor_add(v, kb, 1);
        assert(self.is_ancestor(w, u));
        assert(self.is_ancestor(w, v));
        assert forall|x: usize| #[trigger] self.is_common_ancestor(x, u, v) implies self.depth[x as int]
            <= self.depth[w as int] by {
            if self.depth[x as int] > self.depth[w as int] {
                self.lemma_ancestors_are_chained(a, x, u);
                self.lemma_ancestors_are_chained(b, x, v);
                self.lemma_ancestors_at_depth(a, b, x);
            }
        }
    }

    /// A proper ancestor of a vertex is an ancestor of the parent of that vertex.
    pub proof fn lemma_ancestor_of_parent(self, x: usize, v: usize)
        requires
            self.wf(),
            self.is_ancestor(x, v),
            x != v,
        ensures
            self.parent(v) is Some,
            self.is_ancestor(x, self.parent(v).unwrap()),
    {
        let k = choose|k: nat| self.ancestor(v, k) == Some(x);
        assert(k > 0);
        let p = self.parent(v).unwrap();
        assert(self.ancestor(p, (k - 1) as nat) == Some(x));
    }

    /// An ancestor of the parent of a vertex is an ancestor of that vertex.
    pub proof fn lemma_ancestor_through_parent(self, x: usize, v: usize)
        requires
            self.wf(),
            v < self.vertex_count(),
            self.parent(v) is Some,
            self.is_ancestor(x, self.parent(v).unwrap()),
        ensures
            self.is_ancestor(x, v),
    {
        let p = self.parent(v).unwrap();
        let k = choose|k: nat| self.ancestor(p, k) == Some(x);
        assert(self.ancestor(v, k + 1) == Some(x));
    }

    /// Any two vertices have a lowest common ancestor, and `lca` names it.
    pub proof fn lemma_lca_exists(self, u: usize, v: usize)
        requires
            self.wf(),
            u < self.vertex_count(),
            v < self.vertex_count(),
        ensures
            self.is_lowest_common_ancestor(self.lca(u, v), u, v),
        decreases self.depth[u as int] + self.depth[v as int],
    {
        if self.is_ancestor(u, v) {
            self.lemma_lca_of_ancestor(u, v);
        } else if self.is_ancestor(v, u) {
            self.lemma_lca_of_ancestor(v, u);
        } else if self.depth[u as int] >= self.depth[v as int] {
            self.lemma_root(v);
            self.lemma_root(u);
            let p = self.parent(u).unwrap();
            self.lemma_lca_exists(p, v);
            let w = self.lca(p, v);
            self.lemma_ancestor_through_parent(w, u);
            assert forall|x: usize| #[trigger] self.is_common_ancestor(x, u, v) implies self.depth[x as int]
                <= self.depth[w as int] by {
                self.lemma_ancestor_of_parent(x, u);
                assert(self.is_common_ancestor(x, p, v));
            }
            assert(self.is_lowest_common_ancestor(w, u, v));
        } else {
            self.lemma_root(v);
            self.lemma_root(u);
            let p = self.parent(v).unwrap();
            self.lemma_lca_exists(u, p);
            let w = self.lca(u, p);
            self.lemma_ancestor_through_parent(w, v);
            assert forall|x: usize| #[trigger] self.is_common_ancestor(x, u, v) implies self.depth[x as int]
                <= self.depth[w as int] by {
                self.lemma_ancestor_of_parent(x, v);
                assert(self.is_common_ancestor(x, u, p));
            }
            assert(self.is_lowest_common_ancestor(w, u, v));
        }
    }

    /// The lowest common ancestor of a vertex and itself is that vertex.
    pub proof fn lemma_lca_reflexive(self, u: usize)
        requires
            self.wf(),
            u < self.vertex_count(),
        ensures
            self.lca(u, u) == u,
    {
        assert(self.ancestor(u, 0) == Some(u));
        self.lemma_lca_of_ancestor(u, u);
        self.lemma_lca_is(u, u, u);
    }

    /// The lowest common ancestor does not depend on the order of the two vertices.
    pub proof fn lemma_lca_symmetric(self, u: usize, v: usize)
        requires
            self.wf(),
            u < self.vertex_count(),
            v < self.vertex_count(),
        ensures
            self.lca(u, v) == self.lca(v, u),
    {
        self.lemma_lca_exists(u, v);
        let w = self.lca(u, v);
        assert forall|a: usize| #[trigger] self.is_common_ancestor(a, v, u) implies self.depth[a as int]
            <= self.depth[w as int] by {
            assert(self.is_common_ancestor(a, u, v));
        }
        self.lemma_lca_is(w, v, u);
    }

    /// The lowest common ancestor is no deeper than either of the two vertices.
    pub proof fn lemma_lca_depth(self, u: usize, v: usize)
        requires
            self.wf(),
            u < self.vertex_count(),
            v < self.vertex_count(),
        ensures
            self.depth[self.lca(u, v) as int] <= self.depth[u as int],
            self.depth[self.lca(u, v) as int] <= self.depth[v as int],
    {
        self.lemma_lca_exists(u, v);
        self.lemma_is_ancestor(self.lca(u, v), u);
        self.lemma_is_ancestor(self.lca(u, v), v);
    }

    /// The lowest common ancestor lies on the path from the root to each of the two
    /// vertices: following parent links from either of them reaches it, and following
    /// them from it reaches the root.
    pub proof fn lemma_lca_on_root_paths(self, u: usize, v: usize)
        requires
            self.wf(),
            u < self.vertex_count(),
            v < self.vertex_count(),
        ensures
            self.is_ancestor(self.lca(u, v), u),
            self.is_ancestor(self.lca(u, v), v),
            self.is_ancestor(self.root(), self.lca(u, v)),
    {
        self.lemma_lca_exists(u, v);
        self.lemma_root(self.lca(u, v));
    }

    /// Where every vertex but 0 hangs below the vertex before it, the depth of a vertex is
    /// its index, and climbing from it leads to the vertices before it, one by one.
    pub proof fn lemma_climb_on_path(self, x: usize, k: nat)
        requires
            self.wf(),
            forall|y: usize| 0 < y < self.vertex_count() ==> #[trigger] self.parent(y) == Some((y - 1) as usize),
            x < self.vertex_count(),
            k <= x,
        ensures
            self.depth[x as int] == x,
            self.ancestor(x, k) == Some((x - k) as usize),
        decreases x,
    {
        if x > 0 {
            assert(self.parent(x) == Some((x - 1) as usize));
            if k > 0 {
                self.lemma_climb_on_path((x - 1) as usize, (k - 1) as nat);
            } else {
                self.lemma_climb_on_path((x - 1) as usize, 0);
            }
        } else {
            if self.parent(0) is Some {
                let p = self.parent(0).unwrap();
                if p > 0 {
                    self.lemma_path_depth(p);
                }
            }
        }
    }

    /// Where every vertex but 0 hangs below the vertex before it, no vertex is less deep
    /// than the vertex 0.
    proof fn lemma_path_depth(self, x: usize)
        requires
            self.wf(),
            forall|y: usize| 0 < y < self.vertex_count() ==> #[trigger] self.parent(y) == Some((y - 1) as usize),
            x < self.vertex_count(),
        ensures
            self.depth[x as int] == self.depth[0] + x,
        decreases x,
    {
        if x > 0 {
            assert(self.parent(x) == Some((x - 1) as usize));
            self.lemma_path_depth((x - 1) as usize);
        }
    }

    /// In a tree that is a path from the vertex 0, where every other vertex hangs below
    /// the vertex before it, the lowest common ancestor of two vertices is the smaller one.
    pub proof fn lemma_lca_on_path(self, u: usize, v: usize)
        requires
            self.wf(),
            forall|y: usize| 0 < y < self.vertex_count() ==> #[trigger] self.parent(y) == Some((y - 1) as usize),
            u < self.vertex_count(),
            v < self.vertex_count(),
        ensures
            self.lca(u, v) == if u <= v {
                u
            } else {
                v
            },
    {
        if u <= v {
            self.lemma_climb_on_path(v, (v - u) as nat);
            self.lemma_lca_of_ancestor(u, v);
            self.lemma_lca_is(u, u, v);
        } else {
            self.lemma_climb_on_path(u, (u - v) as nat);
            self.lemma_lca_of_ancestor(v, u);
            self.lemma_lca_is(v, u, v);
        }
    }
}

} // verus!

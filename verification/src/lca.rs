//! Lowest common ancestor queries on a rooted tree, answered in `O(log n)`
//! from a table of power-of-two ancestors.

use crate::ancestry::{rows, AncestorTable};
use crate::graph_view::{adjacency_lists, neighbor_lists};
use crate::powers::{is_ceil_log2, lemma_level_fits};
use crate::reachability::{
    is_distance, is_edge, is_path_shaped, lemma_depth_is_least, leveled_at, lists, reachable, reachable_in, spans,
};
use crate::traversal::{explored, lemma_count_bound, linked, traverse};
use petgraph::graph::UnGraph;
use vstd::arithmetic::div_mod::{lemma_fundamental_div_mod, lemma_fundamental_div_mod_converse, lemma_small_mod};
use vstd::arithmetic::power2::{lemma2_to64, lemma_pow2_pos, lemma_pow2_unfold, pow2};
use vstd::bits::lemma_usize_shr_is_div;
use vstd::prelude::*;

verus! {

/// Why a table could not be built or a query could not be answered.
#[derive(Clone, Copy, Debug, PartialEq, Eq, Structural)]
pub enum LcaError {
    /// The root is not a vertex of the tree.
    InvalidRoot,
    /// The tree has no vertex.
    EmptyTree,
    /// Some vertex cannot be reached from the root, or a neighbour is not a vertex.
    MalformedTree,
    /// A queried vertex is not a vertex of the table.
    IndexOutOfRange,
}

/// Answers lowest common ancestor queries in O(log n) time.
#[derive(Debug)]
pub struct LCA {
    jump_table: Vec<Vec<Option<usize>>>,
    depth: Vec<usize>,
}

impl View for LCA {
    type V = AncestorTable;

    /// The depths and the jump table as sequences.
    closed spec fn view(&self) -> AncestorTable {
        AncestorTable {
            depth: self.depth@,
            jumps: rows(self.jump_table),
        }
    }
}

/// The remainder modulo `2p` is the remainder modulo `p` plus `p` times the next binary digit.
proof fn lemma_mod_next_bit(k: nat, p: nat)
    requires
        p > 0,
    ensures
        k % (2 * p) == k % p + ((k / p) % 2) * p,
{
    let q = k / p;
    let r = k % p;
    lemma_fundamental_div_mod(k as int, p as int);
    lemma_fundamental_div_mod(q as int, 2);
    let h = q / 2;
    let b = q % 2;
    assert(k == h * (2 * p) + (b * p + r)) by (nonlinear_arith)
        requires
            k == p * q + r,
            q == 2 * h + b,
    ;
    assert(0 <= b * p + r < 2 * p) by (nonlinear_arith)
        requires
            0 <= b < 2,
            0 <= r < p,
    ;
    lemma_fundamental_div_mod_converse(k as int, (2 * p) as int, h as int, (b * p + r) as int);
}

impl LCA {
    /// Every table that exists is well formed.
    #[verifier::type_invariant]
    spec fn inv(&self) -> bool {
        self@.wf()
    }

    /// Compute base 2 logarithm of 'n' rounded up to next integer.
    ///
    /// Time complexity: O(log n)
    pub fn log2(n: usize) -> (count: usize)
        ensures
            is_ceil_log2(n as nat, count as nat),
            count <= usize::BITS,
    {
        let mut x: usize = 1;
        let mut count: usize = 0;
        proof {
            lemma2_to64();
        }
        while x < n
            invariant
                x >= 1,
                x == pow2(count as nat),
                count < usize::BITS,
                count > 0 ==> pow2((count - 1) as nat) < n,
            decreases usize::BITS - count,
        {
            proof {
                lemma_pow2_unfold((count + 1) as nat);
            }
            if x > usize::MAX / 2 {
                return count + 1;
            }
            x = 2 * x;
            count = count + 1;
            proof {
                lemma_level_fits(count as nat);
            }
        }
        count
    }

    /// Jump upwards 'k' steps starting from vertex 'u'. Of 'k' only the binary
    /// digits below the number of levels count.
    fn jump(&self, u: usize, k: usize) -> (r: Option<usize>)
        requires
            u < self@.vertex_count(),
        ensures
            r == self@.ancestor(u, (k as nat) % pow2(self@.levels())),
            r matches Some(a) ==> a < self@.vertex_count(),
    {
        proof {
            use_type_invariant(self);
        }
        let levels = self.jump_table.len();
        let ghost total = (k as nat) % pow2(levels as nat);
        let mut cur = Some(u);
        let mut i = levels;
        proof {
            lemma_pow2_pos(levels as nat);
            if levels > 0 {
                lemma_level_fits((levels - 1) as nat);
            }
        }
        while i > 0
            invariant
                self@.wf(),
                levels == self.jump_table.len(),
                levels <= usize::BITS,
                i <= levels,
                u < self@.vertex_count(),
                total == (k as nat) % pow2(levels as nat),
                (k as nat) % pow2(i as nat) <= total,
                cur == self@.ancestor(u, (total - (k as nat) % pow2(i as nat)) as nat),
                cur matches Some(c) ==> c < self@.vertex_count(),
            decreases i,
        {
            i = i - 1;
            let ghost done = (total - (k as nat) % pow2((i + 1) as nat)) as nat;
            let ghost bit = ((k as nat) / pow2(i as nat)) % 2;
            proof {
                lemma_pow2_pos(i as nat);
                lemma_pow2_unfold((i + 1) as nat);
                lemma_mod_next_bit(k as nat, pow2(i as nat));
                lemma_usize_shr_is_div(k, i);
                let s = k >> i;
                assert(s & 1 == s % 2) by (bit_vector);
                self@.lemma_ancestor_add(u, done, bit * pow2(i as nat));
                assert(bit == 0 || bit == 1);
                assert(bit * pow2(i as nat) == if bit == 1 { pow2(i as nat) } else { 0 }) by (nonlinear_arith)
                    requires bit == 0 || bit == 1;
            }
            if let Some(c) = cur {
                if (k >> i) & 1 == 1 {
                    assert(self@.jumps[i as int][c as int] == self@.ancestor(c, pow2(i as nat)));
                    cur = self.jump_table[i][c];
                    proof {
                        if cur is Some {
                            self@.lemma_ancestor_depth(c, pow2(i as nat));
                        }
                    }
                }
            }
        }
        proof {
            assert(pow2(0) == 1) by {
                lemma2_to64();
            }
        }
        cur
    }

    /// Compute the lowest common ancestor of vertices 'u' and 'v'.
    pub fn lca(&self, u: usize, v: usize) -> (r: Result<usize, LcaError>)
        ensures
            self@.wf(),
            u < self@.vertex_count() && v < self@.vertex_count() ==> r == Ok::<usize, LcaError>(
                self@.lca(u, v),
            ) && self@.is_lowest_common_ancestor(self@.lca(u, v), u, v),
            !(u < self@.vertex_count() && v < self@.vertex_count()) ==> r == Err::<usize, LcaError>(
                LcaError::IndexOutOfRange,
            ),
            u == v && u < self@.vertex_count() ==> r == Ok::<usize, LcaError>(u),
            r matches Ok(w) ==> self@.depth[w as int] <= self@.depth[u as int] && self@.depth[w as int]
                <= self@.depth[v as int],
    {
        proof {
            use_type_invariant(self);
        }
        let n = self.depth.len();
        if u >= n || v >= n {
            return Err(LcaError::IndexOutOfRange);
        }
        proof {
            self@.lemma_lca_depth(u, v);
            if u == v {
                self@.lemma_lca_reflexive(u);
            }
        }
        let levels = self.jump_table.len();
        let mut a = u;
        let mut b = v;
        proof {
            assert(self@.ancestor(u, 0) == Some(u));
            assert(self@.ancestor(v, 0) == Some(v));
        }
        // Jump in tree such that 'a' and 'b' are at equal depth.
        if self.depth[a] < self.depth[b] {
            let k = self.depth[b] - self.depth[a];
            proof {
                lemma_small_mod(k as nat, pow2(levels as nat));
                self@.lemma_ancestor_exists(b, k as nat);
                self@.lemma_ancestor_depth(b, k as nat);
            }
            b = self.jump(b, k).unwrap();
        }
        if self.depth[a] > self.depth[b] {
            let k = self.depth[a] - self.depth[b];
            proof {
                lemma_small_mod(k as nat, pow2(levels as nat));
                self@.lemma_ancestor_exists(a, k as nat);
                self@.lemma_ancestor_depth(a, k as nat);
            }
            a = self.jump(a, k).unwrap();
        }
        // If equal after initial jump then return either 'a' or 'b'.
        if a == b {
            proof {
                if a == u {
                    self@.lemma_lca_of_ancestor(u, v);
                    self@.lemma_lca_is(u, u, v);
                } else {
                    self@.lemma_lca_of_ancestor(v, u);
                    self@.lemma_lca_is(v, u, v);
                }
            }
            return Ok(a);
        }
        proof {
            self@.lemma_root(a);
            self@.lemma_root(b);
            lemma_small_mod(self.depth[a as int] as nat, pow2(levels as nat));
        }
        // Binary search for lowest height such that 'a != b'.
        let mut i = levels;
        while i > 0
            invariant
                self@.wf(),
                levels == self.jump_table.len(),
                i <= levels,
                a != b,
                self@.is_ancestor(a, u),
                self@.is_ancestor(b, v),
                self.depth[a as int] == self.depth[b as int],
                pow2(i as nat) <= self.depth[a as int] ==> self@.ancestor(a, pow2(i as nat))
                    == self@.ancestor(b, pow2(i as nat)),
            decreases i,
        {
            i = i - 1;
            let ghost p = pow2(i as nat);
            let ghost d = self.depth[a as int] as nat;
            proof {
                lemma_pow2_unfold((i + 1) as nat);
                self@.lemma_ancestor_exists(a, p);
                self@.lemma_ancestor_exists(b, p);
                self@.lemma_root(a);
                self@.lemma_root(b);
                assert(self@.jumps[i as int][a as int] == self@.ancestor(a, p));
                assert(self@.jumps[i as int][b as int] == self@.ancestor(b, p));
            }
            let pa = self.jump_table[i][a];
            let pb = self.jump_table[i][b];
            if let (Some(x), Some(y)) = (pa, pb) {
                if x != y {
                    proof {
                        self@.lemma_ancestor_depth(a, p);
                        self@.lemma_ancestor_depth(b, p);
                        self@.lemma_is_ancestor(a, u);
                        self@.lemma_is_ancestor(b, v);
                        self@.lemma_ancestor_add(u, (self.depth[u as int] - d) as nat, p);
                        self@.lemma_ancestor_add(v, (self.depth[v as int] - d) as nat, p);
                        self@.lemma_ancestor_add(a, p, p);
                        self@.lemma_ancestor_add(b, p, p);
                        self@.lemma_ancestor_add(a, p, (d - p) as nat);
                        self@.lemma_ancestor_add(b, p, (d - p) as nat);
                    }
                    a = x;
                    b = y;
                }
            }
        }
        proof {
            lemma2_to64();
            self@.lemma_ancestor_exists(a, 1);
            self@.lemma_ancestor_exists(b, 1);
            assert(self.depth[a as int] >= 1);
            assert(self@.ancestor(a, 1) == self@.ancestor(b, 1));
            let w = self@.parent(a).unwrap();
            assert(self@.ancestor(w, 0) == Some(w));
            assert(self@.parent(b) is Some);
            let w2 = self@.parent(b).unwrap();
            assert(self@.ancestor(w2, 0) == Some(w2));
            self@.lemma_lca_above_siblings(a, b, u, v);
            self@.lemma_lca_is(w, u, v);
        }
        Ok(self.jump_table[0][a].unwrap())
    }

    /// What building over the adjacency lists `adj` from `root` gives: a table of a tree
    /// that hangs from `root` along edges of the graph, each vertex as deep as it is far
    /// from `root`, when the lists name vertices only and every vertex can be reached from
    /// `root`; otherwise the error that says what is wrong with the input.
    pub open spec fn is_build_of(built: Result<LCA, LcaError>, adj: Seq<Seq<usize>>, root: usize) -> bool {
        match built {
            Ok(table) => {
                &&& spans(adj, root)
                &&& table@.wf()
                &&& table@.vertex_count() == adj.len()
                &&& table@.root() == root
                &&& table@.depth[root as int] == 0
                &&& table@.parent(root) is None
                &&& forall|v: usize|
                    v < adj.len() ==> #[trigger] is_distance(adj, root, v, table@.depth[v as int] as nat)
                &&& forall|v: usize|
                    v < adj.len() && v != root ==> match #[trigger] table@.parent(v) {
                        Some(p) => is_edge(adj, p, v) && table@.depth[v as int] == table@.depth[p as int] + 1,
                        None => false,
                    }
            },
            Err(LcaError::EmptyTree) => adj.len() == 0,
            Err(LcaError::InvalidRoot) => adj.len() > 0 && root >= adj.len(),
            Err(LcaError::MalformedTree) => root < adj.len() && !spans(adj, root),
            Err(LcaError::IndexOutOfRange) => false,
        }
    }

    /// In the table built from the vertex 0 over a path-shaped graph, every vertex but 0
    /// hangs below the vertex before it.
    proof fn lemma_parent_on_path(table: LCA, adj: Seq<Seq<usize>>, x: usize)
        requires
            LCA::is_build_of(Ok(table), adj, 0),
            is_path_shaped(adj),
            0 < x < adj.len(),
        ensures
            table@.parent(x) == Some((x - 1) as usize),
        decreases adj.len() - x,
    {
        let p = table@.parent(x).unwrap();
        assert(is_edge(adj, p, x));
        let j = choose|j: int| 0 <= j < adj[p as int].len() && adj[p as int][j] == x;
        assert(adj[p as int][j] == p + 1 || adj[p as int][j] + 1 == p);
        if p == x + 1 {
            LCA::lemma_parent_on_path(table, adj, p);
        }
    }

    /// On a path-shaped tree `0 - 1 - ... - (n-1)` rooted at 0, the lowest common ancestor
    /// of two vertices is the smaller of the two.
    pub proof fn lemma_lca_of_path(table: LCA, adj: Seq<Seq<usize>>, u: usize, v: usize)
        requires
            LCA::is_build_of(Ok(table), adj, 0),
            is_path_shaped(adj),
            u < adj.len(),
            v < adj.len(),
        ensures
            table@.lca(u, v) == if u <= v {
                u
            } else {
                v
            },
    {
        assert forall|y: usize| 0 < y < table@.vertex_count() implies #[trigger] table@.parent(y) == Some(
            (y - 1) as usize,
        ) by {
            LCA::lemma_parent_on_path(table, adj, y);
        }
        table@.lemma_lca_on_path(u, v);
    }

    /// Construct a LCA data structure given an undirected graph representing a
    /// tree (no cycles) and a vertex to root the tree from.
    pub fn new(graph: UnGraph<(), ()>, root: usize) -> (built: Result<LCA, LcaError>)
        ensures
            LCA::is_build_of(built, neighbor_lists(graph), root),
    {
        let adj = adjacency_lists(&graph);
        LCA::build(&adj, root)
    }

    /// Construct a LCA data structure given the adjacency lists of a tree and a vertex to
    /// root the tree from.
    pub fn build(adj: &Vec<Vec<usize>>, root: usize) -> (built: Result<LCA, LcaError>)
        ensures
            LCA::is_build_of(built, lists(*adj), root),
    {
        let n = adj.len();
        if n == 0 {
            return Err(LcaError::EmptyTree);
        }
        if root >= n {
            return Err(LcaError::InvalidRoot);
        }
        let ghost graph = lists(*adj);
        let (marks, jump_table) = match traverse(adj, root) {
            Some(found) => found,
            None => {
                return Err(LcaError::MalformedTree);
            },
        };
        // After the traversal every vertex must have a depth.
        let mut depth: Vec<usize> = Vec::new();
        let mut v: usize = 0;
        while v < n
            invariant
                n == adj.len(),
                root < n,
                graph == lists(*adj),
                explored(graph, root, marks@, rows(jump_table)),
                forall|u: int| 0 <= u < n && marks[u] is Some ==> #[trigger] leveled_at(graph, marks@, u),
                v <= n,
                depth.len() == v,
                forall|x: int| 0 <= x < v ==> marks[x] == Some(#[trigger] depth[x]),
            decreases n - v,
        {
            match marks[v] {
                Some(d) => {
                    depth.push(d);
                },
                None => {
                    proof {
                        if reachable(graph, root, v) {
                            let steps = choose|steps: nat| reachable_in(graph, root, v, steps);
                            lemma_depth_is_least(graph, marks@, root, v, steps);
                        }
                    }
                    return Err(LcaError::MalformedTree);
                },
            }
            v = v + 1;
        }
        proof {
            let t = AncestorTable { depth: depth@, jumps: rows(jump_table) };
            let parents = t.parents();
            lemma_count_bound(marks@);
            assert forall|x: usize| x < n implies (match #[trigger] t.parent(x) {
                Some(p) => p < n && x != root && is_edge(graph, p, x) && t.depth[x as int] == t.depth[p as int] + 1,
                None => x == root,
            }) by {
                assert(marks[x as int] == Some(t.depth[x as int]));
                assert(linked(graph, root, marks@, parents, x as int));
                if t.parent(x) is Some {
                    let p = t.parent(x).unwrap();
                    assert(marks[p as int] == Some(t.depth[p as int]));
                }
            }
            assert forall|x: usize| x < n implies #[trigger] t.depth[x as int] < n by {
                assert(marks[x as int] == Some(t.depth[x as int]));
            }
            assert forall|a: usize, b: usize|
                a < n && b < n && #[trigger] t.depth[a as int] == 0 && #[trigger] t.depth[b as int]
                    == 0 implies a == b by {
                assert(t.parent(a) is None);
                assert(t.parent(b) is None);
            }
            assert forall|i: int, x: usize| 0 <= i < t.jumps.len() && x < n implies #[trigger] t.jumps[i][x as int]
                == t.ancestor(x, pow2(i as nat)) by {
                assert(marks[x as int] == Some(t.depth[x as int]));
            }
            assert(marks[root as int] == Some(t.depth[root as int]));
            assert(t.wf());
            assert forall|u: int, j: int| 0 <= u < n && 0 <= j < graph[u].len() implies #[trigger] graph[u][j]
                < n by {
                assert(marks[u] == Some(t.depth[u]));
                assert(leveled_at(graph, marks@, u));
            }
            assert forall|x: usize| x < n implies #[trigger] is_distance(graph, root, x, t.depth[x as int] as nat) by {
                assert(marks[x as int] == Some(t.depth[x as int]));
                assert(reachable_in(graph, root, x, marks[x as int].unwrap() as nat));
                assert forall|steps: nat| reachable_in(graph, root, x, steps) implies t.depth[x as int] <= steps by {
                    lemma_depth_is_least(graph, marks@, root, x, steps);
                }
            }
            assert forall|x: usize| x < n implies reachable(graph, root, x) by {
                assert(is_distance(graph, root, x, t.depth[x as int] as nat));
            }
            assert(t.parent(root) is None);
        }
        Ok(LCA { jump_table, depth })
    }

    /// The number of vertices of the tree.
    pub fn vertex_count(&self) -> (n: usize)
        ensures
            n == self@.vertex_count(),
            self@.wf(),
    {
        proof {
            use_type_invariant(self);
        }
        self.depth.len()
    }

    /// The number of rows of the jump table.
    pub fn levels(&self) -> (levels: usize)
        ensures
            levels == self@.levels(),
            is_ceil_log2(self@.vertex_count(), levels as nat),
    {
        proof {
            use_type_invariant(self);
        }
        self.jump_table.len()
    }

    /// The number of edges between the root and the vertex 'v'.
    pub fn depth(&self, v: usize) -> (depth: Result<usize, LcaError>)
        ensures
            v < self@.vertex_count() ==> depth == Ok::<usize, LcaError>(self@.depth[v as int]),
            v >= self@.vertex_count() ==> depth == Err::<usize, LcaError>(LcaError::IndexOutOfRange),
    {
        if v >= self.depth.len() {
            return Err(LcaError::IndexOutOfRange);
        }
        Ok(self.depth[v])
    }

    /// The parent of the vertex 'v', which the root does not have.
    pub fn parent(&self, v: usize) -> (parent: Result<Option<usize>, LcaError>)
        ensures
            v < self@.vertex_count() ==> parent == Ok::<Option<usize>, LcaError>(self@.parent(v)),
            v >= self@.vertex_count() ==> parent == Err::<Option<usize>, LcaError>(LcaError::IndexOutOfRange),
    {
        proof {
            use_type_invariant(self);
        }
        if v >= self.depth.len() {
            return Err(LcaError::IndexOutOfRange);
        }
        if self.jump_table.len() == 0 {
            return Ok(None);
        }
        assert(self@.jumps[0].len() == self.depth.len());
        Ok(self.jump_table[0][v])
    }
}

} // verus!

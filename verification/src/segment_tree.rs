//! A segment tree over a range of positions.

use crate::powers::{is_ceil_log2, lemma_high_powers, lemma_least_power, lemma_level_fits};
use crate::bounded::Bounded;
use crate::order::{compares_as_specified, greater_of, lesser_of};
use std::marker::PhantomData;
use vstd::arithmetic::power2::{lemma2_to64, lemma_pow2_pos, lemma_pow2_strictly_increases, lemma_pow2_unfold, pow2};
use vstd::prelude::*;

verus! {

/// A segment tree is defined by the elements it operates on, the default value
/// of the elements, and the associative function used to combine them.
pub trait SegmentTreeSpec {
    type T: Clone;

    /// The value of a vertex that covers nothing yet, neutral for `combine`.
    fn default() -> Self::T;

    /// The value for a range from the values for its two halves.
    fn combine(a: Self::T, b: Self::T) -> Self::T;
}

/// Segment tree specification for computing range minimum queries.
pub struct MinSpec<T>(PhantomData<T>);

impl<T: Bounded + Ord + Clone> SegmentTreeSpec for MinSpec<T> {
    type T = T;

    fn default() -> (most: T)
        ensures
            most == T::highest(),
    {
        T::max_value()
    }

    fn combine(a: T, b: T) -> (least: T)
        ensures
            compares_as_specified::<T>() ==> least == lesser_of(a, b),
    {
        a.min(b)
    }
}

/// Segment tree specification for computing range maximum queries.
pub struct MaxSpec<T>(PhantomData<T>);

impl<T: Bounded + Ord + Clone> SegmentTreeSpec for MaxSpec<T> {
    type T = T;

    fn default() -> (least: T)
        ensures
            least == T::lowest(),
    {
        T::min_value()
    }

    fn combine(a: T, b: T) -> (most: T)
        ensures
            compares_as_specified::<T>() ==> most == greater_of(a, b),
    {
        a.max(b)
    }
}

/// The range of positions `[l, r)` that the vertex `idx` covers in a tree over `n` values,
/// if the tree uses that vertex. The vertex 0 covers all of them; the children of the vertex
/// `i`, the vertices `2 i + 1` and `2 i + 2`, cover the two halves of what `i` covers, where
/// that is more than one position.
pub open spec fn covered(n: nat, idx: nat) -> Option<(nat, nat)>
    decreases idx,
{
    if idx == 0 {
        Some((0nat, n))
    } else {
        match covered(n, ((idx - 1) / 2) as nat) {
            Some((l, r)) => if r - l > 1 {
                let m = (l + (r - l) / 2) as nat;
                if idx % 2 == 1 {
                    Some((l, m))
                } else {
                    Some((m, r))
                }
            } else {
                None
            },
            None => None,
        }
    }
}

/// The bounds that the tree over `n` values records for the vertex `idx`: the range that
/// the vertex covers, and `(0, 0)` for a vertex that the tree does not use.
pub open spec fn bounds_of(n: nat, idx: nat) -> (usize, usize) {
    match covered(n, idx) {
        Some((l, r)) => (l as usize, r as usize),
        None => (0usize, 0usize),
    }
}

/// The content of a segment tree: the value and the bounds of each vertex.
pub struct TreeContent<T> {
    pub values: Seq<T>,
    pub bounds: Seq<(usize, usize)>,
}

/// How many steps the vertex `idx` is away from the vertex 0.
spec fn level(idx: nat) -> nat
    decreases idx,
{
    if idx == 0 {
        0
    } else {
        1 + level(((idx - 1) / 2) as nat)
    }
}

/// The vertex `x` is the vertex `a` or lies below it.
spec fn is_below(a: nat, x: nat) -> bool
    decreases x,
{
    x == a || (x > a && x > 0 && is_below(a, ((x - 1) / 2) as nat))
}

/// How many vertices the tree uses for a range of the given length.
spec fn weight(length: int) -> nat {
    if length >= 1 {
        (2 * length - 1) as nat
    } else {
        1
    }
}

/// How many vertices the tree still has to visit for the ranges on the stack.
spec fn work(stack: Seq<(usize, usize, usize)>) -> nat
    decreases stack.len(),
{
    if stack.len() == 0 {
        0
    } else {
        work(stack.drop_last()) + weight(stack.last().2 - stack.last().1)
    }
}

/// Every vertex lies below the vertex 0.
proof fn lemma_below_first(x: nat)
    ensures
        is_below(0, x),
    decreases x,
{
    if x > 0 {
        lemma_below_first(((x - 1) / 2) as nat);
    }
}

/// A vertex that lies below another lies below one of its two children.
proof fn lemma_below_split(a: nat, x: nat)
    requires
        is_below(a, x),
        x != a,
    ensures
        is_below(2 * a + 1, x) || is_below(2 * a + 2, x),
    decreases x,
{
    let p = ((x - 1) / 2) as nat;
    if p != a {
        lemma_below_split(a, p);
    }
}

/// What lies below a vertex lies below its parent.
proof fn lemma_below_up(c: nat, x: nat)
    requires
        c > 0,
        is_below(c, x),
    ensures
        is_below(((c - 1) / 2) as nat, x),
    decreases x,
{
    let pc = ((c - 1) / 2) as nat;
    if x == c {
        assert(is_below(pc, pc));
    } else {
        lemma_below_up(c, ((x - 1) / 2) as nat);
    }
}

/// The tree uses no vertex below one that covers a single position at most, or that it
/// does not use itself.
proof fn lemma_unused_below(n: nat, a: nat, x: nat)
    requires
        is_below(a, x),
        x != a,
        match covered(n, a) {
            Some((l, r)) => r - l <= 1,
            None => true,
        },
    ensures
        covered(n, x) is None,
    decreases x,
{
    let p = ((x - 1) / 2) as nat;
    if p != a {
        lemma_unused_below(n, a, p);
    }
}

/// A vertex that the tree uses covers a range within the positions, of a length that
/// halves with each level.
proof fn lemma_covered_fits(n: nat, k: nat, idx: nat)
    requires
        n <= pow2(k),
        covered(n, idx) is Some,
    ensures
        covered(n, idx).unwrap().0 <= covered(n, idx).unwrap().1 <= n,
        level(idx) <= k,
        covered(n, idx).unwrap().1 - covered(n, idx).unwrap().0 <= pow2((k - level(idx)) as nat),
    decreases idx,
{
    if idx > 0 {
        let p = ((idx - 1) / 2) as nat;
        lemma_covered_fits(n, k, p);
        let room = pow2((k - level(p)) as nat);
        if level(p) == k {
            lemma2_to64();
        } else {
            lemma_pow2_unfold((k - level(p)) as nat);
        }
    }
}

/// The indices of a level stay below the next power of two.
proof fn lemma_index_bound(idx: nat)
    ensures
        idx + 2 <= pow2(level(idx) + 1),
    decreases idx,
{
    if idx == 0 {
        lemma2_to64();
    } else {
        lemma_index_bound(((idx - 1) / 2) as nat);
        lemma_pow2_unfold(level(idx) + 1);
    }
}

/// The children of a vertex that covers more than one position are vertices of the tree.
proof fn lemma_children_fit(n: nat, k: nat, idx: nat)
    requires
        n <= pow2(k),
        covered(n, idx) is Some,
        covered(n, idx).unwrap().1 - covered(n, idx).unwrap().0 > 1,
    ensures
        2 * idx + 2 < 2 * pow2(k) - 1,
        covered(n, 2 * idx + 1) == Some(
            (
                covered(n, idx).unwrap().0,
                (covered(n, idx).unwrap().0 + (covered(n, idx).unwrap().1 - covered(n, idx).unwrap().0) / 2) as nat,
            ),
        ),
        covered(n, 2 * idx + 2) == Some(
            (
                (covered(n, idx).unwrap().0 + (covered(n, idx).unwrap().1 - covered(n, idx).unwrap().0) / 2) as nat,
                covered(n, idx).unwrap().1,
            ),
        ),
{
    lemma_covered_fits(n, k, idx);
    lemma_index_bound(2 * idx + 2);
    assert(level(2 * idx + 2) == level(idx) + 1) by {
        assert(((2 * idx + 2 - 1) / 2) as nat == idx);
    }
    if level(idx) == k {
        lemma2_to64();
    } else {
        lemma_pow2_unfold((k + 1) as nat);
        if level(idx) + 1 < k {
            lemma_pow2_strictly_increases(level(idx) + 2, k + 1);
        }
    }
    assert(((2 * idx + 1 - 1) / 2) as nat == idx);
    assert(((2 * idx + 2 - 1) / 2) as nat == idx);
}

/// Compute the closest power of two 'x' of 'n' such that 'n <= x'. If 'n' is a
/// power of two then 'x = n'.
pub fn next_2pow(n: usize) -> (x: usize)
    requires
        n <= usize::MAX / 2 + 1,
    ensures
        exists|k: nat| is_ceil_log2(n as nat, k) && x == pow2(k),
{
    let mut x: usize = 1;
    let ghost mut k: nat = 0;
    proof {
        lemma2_to64();
        lemma_high_powers();
    }
    while x < n
        invariant
            n <= pow2((usize::BITS - 1) as nat),
            pow2((usize::BITS - 1) as nat) == usize::MAX / 2 + 1,
            x >= 1,
            x == pow2(k),
            k < usize::BITS,
            k > 0 ==> pow2((k - 1) as nat) < n,
        decreases usize::BITS - k,
    {
        proof {
            lemma_pow2_unfold(k + 1);
            if k + 1 > usize::BITS - 1 {
                if k > usize::BITS - 1 {
                    lemma_pow2_strictly_increases((usize::BITS - 1) as nat, k);
                }
            } else if k + 1 < usize::BITS - 1 {
                lemma_pow2_strictly_increases(k + 1, (usize::BITS - 1) as nat);
            }
        }
        x *= 2;
        proof {
            k = k + 1;
            lemma_level_fits(k);
        }
    }
    x
}

/// A data-structure which supports updating and quering sub-ranges over its
/// elements.
pub struct SegmentTree<Spec: SegmentTreeSpec> {
    /// The values of each respective vertex in the tree.
    values: Vec<Spec::T>,
    /// For each vertex in the tree their bound '[l,r)' represents the range it
    /// covers.
    bounds: Vec<(usize, usize)>,
}

impl<Spec: SegmentTreeSpec> View for SegmentTree<Spec> {
    type V = TreeContent<Spec::T>;

    /// The values and the bounds as sequences.
    closed spec fn view(&self) -> TreeContent<Spec::T> {
        TreeContent { values: self.values@, bounds: self.bounds@ }
    }
}

impl<Spec: SegmentTreeSpec> SegmentTree<Spec> {
    /// Create a segment tree over 'n' values.
    pub fn new(n: usize) -> (tree: Self)
        requires
            n <= usize::MAX / 4 + 1,
        ensures
            exists|k: nat| is_ceil_log2(n as nat, k) && #[trigger] pow2(k) * 2 - 1 == tree@.bounds.len(),
            tree@.values.len() == tree@.bounds.len(),
            forall|idx: int|
                0 <= idx < tree@.bounds.len() ==> #[trigger] tree@.bounds[idx] == bounds_of(n as nat, idx as nat),
            exists|value: Spec::T|
                call_ensures(Spec::default, (), value) && forall|idx: int|
                    0 <= idx < tree@.values.len() ==> cloned(value, #[trigger] tree@.values[idx]),
    {
        let leaves = next_2pow(n);
        let ghost k = choose|k: nat| is_ceil_log2(n as nat, k) && leaves == pow2(k);
        proof {
            lemma_high_powers();
            lemma_least_power(n as nat, k, (usize::BITS - 2) as nat);
            lemma_pow2_pos(k);
        }
        let tree_size = 2 * leaves - 1;
        let filler = Spec::default();
        let ghost value = filler;
        let mut bounds: Vec<(usize, usize)> = Vec::new();
        while bounds.len() < tree_size
            invariant
                bounds@.len() <= tree_size,
                forall|idx: int| 0 <= idx < bounds@.len() ==> #[trigger] bounds@[idx] == (0usize, 0usize),
            decreases tree_size - bounds@.len(),
        {
            bounds.push((0, 0));
        }
        let mut t = SegmentTree::<Spec> { values: vec![filler; tree_size], bounds };
        let mut stack: Vec<(usize, usize, usize)> = vec![(0, 0, n)];
        proof {
            assert(stack@.drop_last() =~= Seq::empty());
            assert(work(stack@.drop_last()) == 0);
            assert(stack@[0].0 == 0);
            assert forall|x: int| 0 <= x < tree_size implies #[trigger] is_below(0, x as nat) by {
                lemma_below_first(x as nat);
            }
        }
        while stack.len() > 0
            invariant
                n <= pow2(k),
                tree_size == 2 * pow2(k) - 1,
                t.bounds@.len() == tree_size,
                t.values@.len() == tree_size,
                forall|idx: int| 0 <= idx < tree_size ==> cloned(value, #[trigger] t.values@[idx]),
                forall|i: int|
                    0 <= i < stack@.len() ==> (#[trigger] stack@[i]).0 < tree_size && covered(
                        n as nat,
                        stack@[i].0 as nat,
                    ) == Some((stack@[i].1 as nat, stack@[i].2 as nat)),
                forall|i: int, j: int|
                    0 <= i < stack@.len() && 0 <= j < stack@.len() && i != j ==> !is_below(
                        (#[trigger] stack@[i]).0 as nat,
                        (#[trigger] stack@[j]).0 as nat,
                    ),
                forall|i: int, x: int|
                    0 <= i < stack@.len() && 0 <= x < tree_size && is_below((#[trigger] stack@[i]).0 as nat, x as nat)
                        ==> #[trigger] t.bounds@[x] == (0usize, 0usize),
                forall|x: int|
                    0 <= x < tree_size ==> #[trigger] t.bounds@[x] == bounds_of(n as nat, x as nat) || exists|
                        i: int,
                    |
                        0 <= i < stack@.len() && is_below((#[trigger] stack@[i]).0 as nat, x as nat),
            decreases work(stack@),
        {
            let ghost held = stack@;
            let ghost old_bounds = t.bounds@;
            let (idx, l, r) = stack.pop().unwrap();
            let ghost rest = stack@;
            let ghost top = held.len() - 1;
            proof {
                assert(held[top] == (idx, l, r));
                assert(rest =~= held.drop_last());
                lemma_covered_fits(n as nat, k, idx as nat);
                assert(is_below(idx as nat, idx as nat));
                assert forall|i: int| 0 <= i < rest.len() implies rest[i] == held[i] by {}
            }
            t.bounds[idx] = (l, r);
            let ghost halves = r - l > 1;
            if r - l > 1 {
                proof {
                    lemma_children_fit(n as nat, k, idx as nat);
                }
                let m = l + (r - l) / 2;
                stack.push((idx * 2 + 1, l, m));
                stack.push((idx * 2 + 2, m, r));
                proof {
                    let left = (2 * idx + 1) as nat;
                    let right = (2 * idx + 2) as nat;
                    assert(stack@[rest.len() as int] == (left as usize, l, m));
                    assert(stack@[rest.len() as int + 1] == (right as usize, m, r));
                    assert(stack@.drop_last() =~= rest.push((left as usize, l, m)));
                    assert(stack@.drop_last().drop_last() =~= rest);
                    assert(stack@.last() == (right as usize, m, r));
                    assert(stack@.drop_last().last() == (left as usize, l, m));
                    assert(work(stack@) == work(stack@.drop_last()) + weight(r - m));
                    assert(work(stack@.drop_last()) == work(rest) + weight(m - l));
                    assert(work(stack@) == work(rest) + weight(m - l) + weight(r - m));
                    assert(work(held) == work(rest) + weight(r - l));
                    assert(((left - 1) / 2) as nat == idx);
                    assert(((right - 1) / 2) as nat == idx);
                    assert(is_below(left, left));
                    assert(is_below(right, right));
                    assert(is_below(idx as nat, left));
                    assert(is_below(idx as nat, right));
                    assert(!is_below(left, idx as nat));
                    assert(!is_below(right, idx as nat));
                    assert(!is_below(left, right));
                    assert(!is_below(right, left));
                    assert forall|i: int| 0 <= i < stack@.len() implies (#[trigger] stack@[i]).0 < tree_size
                        && covered(n as nat, stack@[i].0 as nat) == Some(
                        (stack@[i].1 as nat, stack@[i].2 as nat),
                    ) by {
                        if i < rest.len() {
                            assert(stack@[i] == held[i]);
                        }
                    }
                    assert forall|i: int, j: int|
                        0 <= i < stack@.len() && 0 <= j < stack@.len() && i != j implies !is_below(
                        (#[trigger] stack@[i]).0 as nat,
                        (#[trigger] stack@[j]).0 as nat,
                    ) by {
                        let a = stack@[i].0 as nat;
                        let b = stack@[j].0 as nat;
                        if i < rest.len() && j < rest.len() {
                            assert(stack@[i] == held[i]);
                            assert(stack@[j] == held[j]);
                        } else if i < rest.len() {
                            // an older entry above a child would be above the parent
                            assert(stack@[i] == held[i]);
                            assert(!is_below(held[i].0 as nat, held[top].0 as nat));
                            assert(!is_below(held[top].0 as nat, held[i].0 as nat));
                        } else if j < rest.len() {
                            assert(stack@[j] == held[j]);
                            assert(!is_below(held[top].0 as nat, held[j].0 as nat));
                            if is_below(a, b) {
                                lemma_below_up(a, b);
                            }
                        } else {
                        }
                    }
                    assert forall|i: int, x: int|
                        0 <= i < stack@.len() && 0 <= x < tree_size && is_below(
                            (#[trigger] stack@[i]).0 as nat,
                            x as nat,
                        ) implies #[trigger] t.bounds@[x] == (0usize, 0usize) by {
                        if i < rest.len() {
                            assert(stack@[i] == held[i]);
                            assert(old_bounds[x] == (0usize, 0usize));
                            assert(!is_below(held[i].0 as nat, held[top].0 as nat));
                        } else {
                            lemma_below_up(stack@[i].0 as nat, x as nat);
                            assert(is_below(held[top].0 as nat, x as nat));
                            assert(old_bounds[x] == (0usize, 0usize));
                        }
                    }
                    assert forall|x: int| 0 <= x < tree_size implies #[trigger] t.bounds@[x] == bounds_of(
                        n as nat,
                        x as nat,
                    ) || exists|i: int|
                        0 <= i < stack@.len() && is_below((#[trigger] stack@[i]).0 as nat, x as nat) by {
                        if x != idx && old_bounds[x] != bounds_of(n as nat, x as nat) {
                            let i = choose|i: int|
                                0 <= i < held.len() && is_below((#[trigger] held[i]).0 as nat, x as nat);
                            if i < rest.len() {
                                assert(stack@[i] == held[i]);
                                assert(is_below(stack@[i].0 as nat, x as nat));
                            } else {
                                lemma_below_split(idx as nat, x as nat);
                                if is_below(left, x as nat) {
                                    assert(is_below(stack@[rest.len() as int].0 as nat, x as nat));
                                } else {
                                    assert(is_below(stack@[rest.len() as int + 1].0 as nat, x as nat));
                                }
                            }
                        }
                    }
                }
            } else {
                proof {
                    assert(work(held) == work(rest) + weight(r - l));
                    assert forall|i: int, x: int|
                        0 <= i < stack@.len() && 0 <= x < tree_size && is_below(
                            (#[trigger] stack@[i]).0 as nat,
                            x as nat,
                        ) implies #[trigger] t.bounds@[x] == (0usize, 0usize) by {
                        assert(stack@[i] == held[i]);
                        assert(old_bounds[x] == (0usize, 0usize));
                        assert(!is_below(held[i].0 as nat, held[top].0 as nat));
                    }
                    assert forall|x: int| 0 <= x < tree_size implies #[trigger] t.bounds@[x] == bounds_of(
                        n as nat,
                        x as nat,
                    ) || exists|i: int|
                        0 <= i < stack@.len() && is_below((#[trigger] stack@[i]).0 as nat, x as nat) by {
                        if x != idx && old_bounds[x] != bounds_of(n as nat, x as nat) {
                            let i = choose|i: int|
                                0 <= i < held.len() && is_below((#[trigger] held[i]).0 as nat, x as nat);
                            if i < rest.len() {
                                assert(stack@[i] == held[i]);
                                assert(is_below(stack@[i].0 as nat, x as nat));
                            } else {
                                lemma_unused_below(n as nat, idx as nat, x as nat);
                                assert(old_bounds[x] == (0usize, 0usize));
                            }
                        }
                    }
                }
            }
        }
        proof {
            assert(pow2(k) * 2 - 1 == t@.bounds.len());
            assert forall|idx: int| 0 <= idx < t@.values.len() implies cloned(value, #[trigger] t@.values[idx]) by {}
        }
        t
    }

    /// The bounds '[l,r)' of each vertex in the tree.
    pub fn bounds(&self) -> (bounds: &Vec<(usize, usize)>)
        ensures
            bounds@ == self@.bounds,
    {
        &self.bounds
    }
}

} // verus!

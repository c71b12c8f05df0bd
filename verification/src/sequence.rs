//! Functions related to subsequences and substrings.

use vstd::prelude::*;
use vstd::std_specs::cmp::PartialEqSpec;

verus! {

/// `pairs` lists, in increasing order on both sides, positions of `a` from `i` on and
/// positions of `b` from `j` on that hold equal elements.
pub open spec fn is_matching_from<T: PartialEq>(
    a: Seq<T>,
    b: Seq<T>,
    pairs: Seq<(int, int)>,
    i: int,
    j: int,
) -> bool {
    &&& forall|k: int|
        0 <= k < pairs.len() ==> {
            &&& i <= (#[trigger] pairs[k]).0 < a.len()
            &&& j <= pairs[k].1 < b.len()
            &&& a[pairs[k].0].eq_spec(&b[pairs[k].1])
        }
    &&& forall|k: int, l: int|
        0 <= k < l < pairs.len() ==> (#[trigger] pairs[k]).0 < (#[trigger] pairs[l]).0 && pairs[k].1
            < pairs[l].1
}

/// `pairs` picks a subsequence of `a` and a subsequence of `b` that are equal element by element.
pub open spec fn is_common_subsequence<T: PartialEq>(a: Seq<T>, b: Seq<T>, pairs: Seq<(int, int)>) -> bool {
    is_matching_from(a, b, pairs, 0, 0)
}

/// `len` is the length of a common subsequence of `a` and `b`, and no common subsequence is longer.
pub open spec fn is_lcs_length<T: PartialEq>(a: Seq<T>, b: Seq<T>, len: nat) -> bool {
    &&& exists|pairs: Seq<(int, int)>| #[trigger] is_common_subsequence(a, b, pairs) && pairs.len() == len
    &&& forall|pairs: Seq<(int, int)>| #[trigger] is_common_subsequence(a, b, pairs) ==> pairs.len() <= len
}

/// The length of the longest common subsequence of what `a` holds from `i` on and what
/// `b` holds from `j` on.
pub open spec fn lcs_from<T: PartialEq>(a: Seq<T>, b: Seq<T>, i: int, j: int) -> nat
    decreases a.len() - i + b.len() - j,
{
    if i < 0 || j < 0 || i >= a.len() || j >= b.len() {
        0
    } else if a[i].eq_spec(&b[j]) {
        1 + lcs_from(a, b, i + 1, j + 1)
    } else if lcs_from(a, b, i + 1, j) >= lcs_from(a, b, i, j + 1) {
        lcs_from(a, b, i + 1, j)
    } else {
        lcs_from(a, b, i, j + 1)
    }
}

/// The tails have a common subsequence of the length that `lcs_from` gives.
pub proof fn lemma_lcs_from_reached<T: PartialEq>(a: Seq<T>, b: Seq<T>, i: int, j: int) -> (pairs: Seq<
    (int, int),
>)
    requires
        0 <= i <= a.len(),
        0 <= j <= b.len(),
    ensures
        is_matching_from(a, b, pairs, i, j),
        pairs.len() == lcs_from(a, b, i, j),
    decreases a.len() - i + b.len() - j,
{
    if i >= a.len() || j >= b.len() {
        Seq::empty()
    } else if a[i].eq_spec(&b[j]) {
        let rest = lemma_lcs_from_reached(a, b, i + 1, j + 1);
        let pairs = seq![(i, j)] + rest;
        assert forall|k: int| 0 <= k < pairs.len() implies {
            &&& i <= (#[trigger] pairs[k]).0 < a.len()
            &&& j <= pairs[k].1 < b.len()
            &&& a[pairs[k].0].eq_spec(&b[pairs[k].1])
        } by {
            if k > 0 {
                assert(pairs[k] == rest[k - 1]);
            }
        }
        assert forall|k: int, l: int| 0 <= k < l < pairs.len() implies (#[trigger] pairs[k]).0 < (
        #[trigger] pairs[l]).0 && pairs[k].1 < pairs[l].1 by {
            assert(pairs[l] == rest[l - 1]);
            if k > 0 {
                assert(pairs[k] == rest[k - 1]);
            }
        }
        pairs
    } else if lcs_from(a, b, i + 1, j) >= lcs_from(a, b, i, j + 1) {
        lemma_lcs_from_reached(a, b, i + 1, j)
    } else {
        lemma_lcs_from_reached(a, b, i, j + 1)
    }
}

/// No common subsequence of the tails is longer than `lcs_from` says.
pub proof fn lemma_lcs_from_longest<T: PartialEq>(
    a: Seq<T>,
    b: Seq<T>,
    pairs: Seq<(int, int)>,
    i: int,
    j: int,
)
    requires
        0 <= i <= a.len(),
        0 <= j <= b.len(),
        is_matching_from(a, b, pairs, i, j),
    ensures
        pairs.len() <= lcs_from(a, b, i, j),
    decreases a.len() - i + b.len() - j,
{
    if pairs.len() > 0 {
        let first = pairs[0];
        assert(i < a.len() && j < b.len());
        if a[i].eq_spec(&b[j]) {
            let rest = pairs.drop_first();
            assert forall|k: int| 0 <= k < rest.len() implies {
                &&& i + 1 <= (#[trigger] rest[k]).0 < a.len()
                &&& j + 1 <= rest[k].1 < b.len()
                &&& a[rest[k].0].eq_spec(&b[rest[k].1])
            } by {
                assert(rest[k] == pairs[k + 1]);
            }
            assert forall|k: int, l: int| 0 <= k < l < rest.len() implies (#[trigger] rest[k]).0 < (
            #[trigger] rest[l]).0 && rest[k].1 < rest[l].1 by {
                assert(rest[k] == pairs[k + 1]);
                assert(rest[l] == pairs[l + 1]);
            }
            lemma_lcs_from_longest(a, b, rest, i + 1, j + 1);
        } else if first.0 > i {
            assert forall|k: int| 0 <= k < pairs.len() implies i + 1 <= (#[trigger] pairs[k]).0 by {
                if k > 0 {
                    assert(pairs[0].0 < pairs[k].0);
                }
            }
            lemma_lcs_from_longest(a, b, pairs, i + 1, j);
        } else {
            assert(first.1 > j);
            assert forall|k: int| 0 <= k < pairs.len() implies j + 1 <= (#[trigger] pairs[k]).1 by {
                if k > 0 {
                    assert(pairs[0].1 < pairs[k].1);
                }
            }
            lemma_lcs_from_longest(a, b, pairs, i, j + 1);
        }
    }
}

/// What `lcs_from` gives for the whole sequences is the length of their longest common subsequence.
pub proof fn lemma_lcs_from_is_lcs_length<T: PartialEq>(a: Seq<T>, b: Seq<T>)
    ensures
        is_lcs_length(a, b, lcs_from(a, b, 0, 0)),
{
    let best = lemma_lcs_from_reached(a, b, 0, 0);
    assert(is_common_subsequence(a, b, best));
    assert forall|pairs: Seq<(int, int)>| #[trigger] is_common_subsequence(a, b, pairs) implies pairs.len()
        <= lcs_from(a, b, 0, 0) by {
        lemma_lcs_from_longest(a, b, pairs, 0, 0);
    }
}

/// Compute the length of the longest common subsequence of two sequences.
///
/// Time complexity: `O(nm)` where `n = a.len()` and `m = b.len()`.
///
/// Example: `lcs(&[1,2,3,3], &[1,2,2,0,3]) = 3`
pub fn lcs<T: Eq>(a: &[T], b: &[T]) -> (len: usize)
    requires
        a.len() < usize::MAX,
        b.len() < usize::MAX,
    ensures
        T::obeys_eq_spec() ==> is_lcs_length(a@, b@, len as nat),
        T::obeys_eq_spec() ==> len == lcs_from(a@, b@, 0, 0),
        len <= a.len(),
        len <= b.len(),
{
    let n = a.len();
    let m = b.len();
    let mut dp: Vec<Vec<usize>> = vec![vec![0; m + 1]; n + 1];
    let mut i = n;
    while i > 0
        invariant
            n == a.len(),
            m == b.len(),
            n < usize::MAX,
            m < usize::MAX,
            i <= n,
            dp.len() == n + 1,
            forall|r: int| 0 <= r <= n ==> (#[trigger] dp[r]).len() == m + 1,
            forall|r: int, c: int| 0 <= r <= n && 0 <= c <= m ==> (#[trigger] dp[r][c]) <= n - r,
            forall|r: int, c: int| 0 <= r <= n && 0 <= c <= m ==> (#[trigger] dp[r][c]) <= m - c,
            T::obeys_eq_spec() ==> forall|r: int, c: int|
                i <= r <= n && 0 <= c <= m ==> #[trigger] dp[r][c] == lcs_from(a@, b@, r, c),
        decreases i,
    {
        i = i - 1;
        let mut j = m;
        while j > 0
            invariant
                n == a.len(),
                m == b.len(),
                n < usize::MAX,
                m < usize::MAX,
                i < n,
                j <= m,
                dp.len() == n + 1,
                forall|r: int| 0 <= r <= n ==> (#[trigger] dp[r]).len() == m + 1,
                forall|r: int, c: int| 0 <= r <= n && 0 <= c <= m ==> (#[trigger] dp[r][c]) <= n - r,
                forall|r: int, c: int| 0 <= r <= n && 0 <= c <= m ==> (#[trigger] dp[r][c]) <= m - c,
                T::obeys_eq_spec() ==> forall|r: int, c: int|
                    i < r <= n && 0 <= c <= m ==> #[trigger] dp[r][c] == lcs_from(a@, b@, r, c),
                T::obeys_eq_spec() ==> forall|c: int|
                    j <= c <= m ==> #[trigger] dp[i as int][c] == lcs_from(a@, b@, i as int, c),
            decreases j,
        {
            j = j - 1;
            let ghost before = dp;
            let best = if a[i] == b[j] {
                1 + dp[i + 1][j + 1]
            } else if dp[i + 1][j] >= dp[i][j + 1] {
                dp[i + 1][j]
            } else {
                dp[i][j + 1]
            };
            dp[i][j] = best;
            proof {
                assert forall|r: int| 0 <= r <= n implies (#[trigger] dp[r]).len() == m + 1 by {
                    assert(before[r].len() == m + 1);
                }
                assert forall|r: int, c: int| 0 <= r <= n && 0 <= c <= m implies (#[trigger] dp[r][c]) <= n
                    - r && dp[r][c] <= m - c by {
                    assert(before[r][c] <= n - r && before[r][c] <= m - c);
                    assert(before[i + 1][j + 1] <= n - (i + 1) && before[i + 1][j + 1] <= m - (j + 1));
                    assert(before[i + 1][j as int] <= n - (i + 1));
                    assert(before[i as int][j + 1] <= m - (j + 1));
                }
                if T::obeys_eq_spec() {
                    assert(before[i + 1][j + 1] == lcs_from(a@, b@, i + 1, j + 1));
                    assert(before[i + 1][j as int] == lcs_from(a@, b@, i + 1, j as int));
                    assert(before[i as int][j + 1] == lcs_from(a@, b@, i as int, j + 1));
                    assert forall|r: int, c: int| i < r <= n && 0 <= c <= m implies #[trigger] dp[r][c]
                        == lcs_from(a@, b@, r, c) by {
                        assert(before[r][c] == lcs_from(a@, b@, r, c));
                    }
                    assert forall|c: int| j <= c <= m implies #[trigger] dp[i as int][c] == lcs_from(
                        a@,
                        b@,
                        i as int,
                        c,
                    ) by {
                        if c > j {
                            assert(before[i as int][c] == lcs_from(a@, b@, i as int, c));
                        }
                    }
                }
            }
        }
    }
    proof {
        lemma_lcs_from_is_lcs_length(a@, b@);
    }
    dp[0][0]
}

/// `pairs` lists, in increasing order on both sides, positions among the first `i` of `a`
/// each with a position among the first `j` of `b`.
pub open spec fn is_alignment(pairs: Seq<(int, int)>, i: int, j: int) -> bool {
    &&& forall|k: int| 0 <= k < pairs.len() ==> 0 <= (#[trigger] pairs[k]).0 < i && 0 <= pairs[k].1 < j
    &&& forall|k: int, l: int|
        0 <= k < l < pairs.len() ==> (#[trigger] pairs[k]).0 < (#[trigger] pairs[l]).0 && pairs[k].1
            < pairs[l].1
}

/// How many of the pairs hold unequal elements.
pub open spec fn substitutions<T: PartialEq>(a: Seq<T>, b: Seq<T>, pairs: Seq<(int, int)>) -> nat
    decreases pairs.len(),
{
    if pairs.len() == 0 {
        0
    } else {
        substitutions(a, b, pairs.drop_last()) + if a[pairs.last().0].eq_spec(&b[pairs.last().1]) {
            0nat
        } else {
            1nat
        }
    }
}

/// The number of edits by which the alignment turns the first `i` elements of `a` into the
/// first `j` of `b`: every unpaired element of `a` is removed, every unpaired element of `b`
/// is added, and every pair of unequal elements is a substitution.
pub open spec fn edits<T: PartialEq>(a: Seq<T>, b: Seq<T>, pairs: Seq<(int, int)>, i: int, j: int) -> int {
    (i - pairs.len()) + (j - pairs.len()) + substitutions(a, b, pairs)
}

/// `d` edits turn `a` into `b`, and no fewer do.
pub open spec fn is_edit_distance<T: PartialEq>(a: Seq<T>, b: Seq<T>, d: nat) -> bool {
    &&& exists|pairs: Seq<(int, int)>|
        is_alignment(pairs, a.len() as int, b.len() as int) && #[trigger] edits(
            a,
            b,
            pairs,
            a.len() as int,
            b.len() as int,
        ) == d
    &&& forall|pairs: Seq<(int, int)>|
        is_alignment(pairs, a.len() as int, b.len() as int) ==> #[trigger] edits(
            a,
            b,
            pairs,
            a.len() as int,
            b.len() as int,
        ) >= d
}

/// The least of three numbers.
pub open spec fn min3(x: nat, y: nat, z: nat) -> nat {
    if x <= y && x <= z {
        x
    } else if y <= z {
        y
    } else {
        z
    }
}

/// The edit distance between the first `i` elements of `a` and the first `j` of `b`.
pub open spec fn edit_upto<T: PartialEq>(a: Seq<T>, b: Seq<T>, i: int, j: int) -> nat
    decreases i + j,
{
    if i <= 0 {
        if j <= 0 {
            0
        } else {
            j as nat
        }
    } else if j <= 0 {
        i as nat
    } else if a[i - 1].eq_spec(&b[j - 1]) {
        edit_upto(a, b, i - 1, j - 1)
    } else {
        1 + min3(edit_upto(a, b, i - 1, j - 1), edit_upto(a, b, i - 1, j), edit_upto(a, b, i, j - 1))
    }
}

/// One more element on either side changes the distance between two prefixes by one at most.
pub proof fn lemma_edit_upto_steps<T: PartialEq>(a: Seq<T>, b: Seq<T>, i: int, j: int)
    requires
        0 <= i,
        0 <= j,
    ensures
        i > 0 ==> edit_upto(a, b, i, j) <= edit_upto(a, b, i - 1, j) + 1,
        j > 0 ==> edit_upto(a, b, i, j) <= edit_upto(a, b, i, j - 1) + 1,
        i > 0 ==> edit_upto(a, b, i - 1, j) <= edit_upto(a, b, i, j) + 1,
        j > 0 ==> edit_upto(a, b, i, j - 1) <= edit_upto(a, b, i, j) + 1,
    decreases i + j,
{
    if i > 0 && j > 0 {
        lemma_edit_upto_steps(a, b, i - 1, j);
        lemma_edit_upto_steps(a, b, i, j - 1);
    }
}

/// Some alignment of the two prefixes makes as many edits as `edit_upto` says.
pub proof fn lemma_edit_upto_reached<T: PartialEq>(a: Seq<T>, b: Seq<T>, i: int, j: int) -> (pairs: Seq<
    (int, int),
>)
    requires
        0 <= i,
        0 <= j,
    ensures
        is_alignment(pairs, i, j),
        edits(a, b, pairs, i, j) == edit_upto(a, b, i, j),
    decreases i + j,
{
    if i == 0 || j == 0 {
        Seq::empty()
    } else {
        let same = a[i - 1].eq_spec(&b[j - 1]);
        let diagonal = edit_upto(a, b, i - 1, j - 1);
        let up = edit_upto(a, b, i - 1, j);
        let left = edit_upto(a, b, i, j - 1);
        if same || (diagonal <= up && diagonal <= left) {
            let rest = lemma_edit_upto_reached(a, b, i - 1, j - 1);
            let pairs = rest.push((i - 1, j - 1));
            assert(pairs.drop_last() == rest);
            assert forall|k: int, l: int| 0 <= k < l < pairs.len() implies (#[trigger] pairs[k]).0 < (
            #[trigger] pairs[l]).0 && pairs[k].1 < pairs[l].1 by {
                assert(pairs[k] == rest[k]);
                if l < rest.len() {
                    assert(pairs[l] == rest[l]);
                }
            }
            pairs
        } else if up <= left {
            lemma_edit_upto_reached(a, b, i - 1, j)
        } else {
            lemma_edit_upto_reached(a, b, i, j - 1)
        }
    }
}

/// No alignment of the two prefixes makes fewer edits than `edit_upto` says.
pub proof fn lemma_edit_upto_least<T: PartialEq>(
    a: Seq<T>,
    b: Seq<T>,
    pairs: Seq<(int, int)>,
    i: int,
    j: int,
)
    requires
        0 <= i,
        0 <= j,
        is_alignment(pairs, i, j),
    ensures
        edits(a, b, pairs, i, j) >= edit_upto(a, b, i, j),
    decreases i + j,
{
    if i == 0 || j == 0 {
        if pairs.len() > 0 {
            assert(0 <= pairs[0].0 < i && 0 <= pairs[0].1 < j);
        }
    } else {
        lemma_edit_upto_steps(a, b, i, j);
        if pairs.len() > 0 && pairs.last().0 == i - 1 && pairs.last().1 == j - 1 {
            let rest = pairs.drop_last();
            assert forall|k: int| 0 <= k < rest.len() implies 0 <= (#[trigger] rest[k]).0 < i - 1 && 0
                <= rest[k].1 < j - 1 by {
                assert(rest[k] == pairs[k]);
                assert(pairs[k].0 < pairs[pairs.len() - 1].0);
            }
            assert forall|k: int, l: int| 0 <= k < l < rest.len() implies (#[trigger] rest[k]).0 < (
            #[trigger] rest[l]).0 && rest[k].1 < rest[l].1 by {
                assert(rest[k] == pairs[k]);
                assert(rest[l] == pairs[l]);
            }
            lemma_edit_upto_least(a, b, rest, i - 1, j - 1);
        } else if pairs.len() == 0 || pairs.last().0 < i - 1 {
            assert forall|k: int| 0 <= k < pairs.len() implies 0 <= (#[trigger] pairs[k]).0 < i - 1 by {
                if k < pairs.len() - 1 {
                    assert(pairs[k].0 < pairs[pairs.len() - 1].0);
                }
            }
            lemma_edit_upto_least(a, b, pairs, i - 1, j);
        } else {
            assert forall|k: int| 0 <= k < pairs.len() implies 0 <= (#[trigger] pairs[k]).1 < j - 1 by {
                if k < pairs.len() - 1 {
                    assert(pairs[k].1 < pairs[pairs.len() - 1].1);
                }
            }
            lemma_edit_upto_least(a, b, pairs, i, j - 1);
        }
    }
}

/// What `edit_upto` gives for the whole sequences is their edit distance.
pub proof fn lemma_edit_upto_is_edit_distance<T: PartialEq>(a: Seq<T>, b: Seq<T>)
    ensures
        is_edit_distance(a, b, edit_upto(a, b, a.len() as int, b.len() as int)),
{
    let n = a.len() as int;
    let m = b.len() as int;
    let best = lemma_edit_upto_reached(a, b, n, m);
    assert(edits(a, b, best, n, m) == edit_upto(a, b, n, m));
    assert forall|pairs: Seq<(int, int)>| is_alignment(pairs, n, m) implies #[trigger] edits(a, b, pairs, n, m)
        >= edit_upto(a, b, n, m) by {
        lemma_edit_upto_least(a, b, pairs, n, m);
    }
}

/// Compute the edit distance between two sequences.
///
/// An edit corresponds to adding, removing, or substituting a character.
///
/// Time complexity: `O(nm)` where `n = a.len()` and `m = b.len()`.
///
/// Example: `edit_distance("hello", "halo") = 2`
pub fn edit_distance<T: Eq>(a: &[T], b: &[T]) -> (distance: usize)
    requires
        a.len() < usize::MAX,
        b.len() < usize::MAX,
    ensures
        T::obeys_eq_spec() ==> is_edit_distance(a@, b@, distance as nat),
        T::obeys_eq_spec() ==> distance == edit_upto(a@, b@, a.len() as int, b.len() as int),
        distance <= a.len() || distance <= b.len(),
{
    let n = a.len();
    let m = b.len();
    let mut dp: Vec<Vec<usize>> = vec![vec![0; m + 1]; n + 1];
    let mut i: usize = 1;
    while i <= n
        invariant
            n == a.len(),
            m == b.len(),
            n < usize::MAX,
            1 <= i <= n + 1,
            dp.len() == n + 1,
            forall|r: int| 0 <= r <= n ==> (#[trigger] dp[r]).len() == m + 1,
            forall|r: int, c: int| 0 <= r <= n && 0 <= c <= m && !(c == 0 && r < i) ==> (#[trigger] dp[r][c]) == 0,
            forall|r: int| 0 <= r < i ==> (#[trigger] dp[r])[0] == r,
        decreases n + 1 - i,
    {
        let ghost before = dp;
        dp[i][0] = 1 + dp[i - 1][0];
        proof {
            assert forall|r: int| 0 <= r <= n implies (#[trigger] dp[r]).len() == m + 1 by {
                assert(before[r].len() == m + 1);
            }
            assert forall|r: int, c: int| 0 <= r <= n && 0 <= c <= m && !(c == 0 && r < i + 1) implies (
            #[trigger] dp[r][c]) == 0 by {
                assert(before[r][c] == 0);
            }
            assert forall|r: int| 0 <= r < i + 1 implies (#[trigger] dp[r])[0] == r by {
                if r < i {
                    assert(before[r][0] == r);
                }
            }
        }
        i = i + 1;
    }
    let mut j: usize = 1;
    while j <= m
        invariant
            n == a.len(),
            m == b.len(),
            m < usize::MAX,
            1 <= j <= m + 1,
            dp.len() == n + 1,
            forall|r: int| 0 <= r <= n ==> (#[trigger] dp[r]).len() == m + 1,
            forall|r: int, c: int| 0 < r <= n && 0 < c <= m ==> (#[trigger] dp[r][c]) == 0,
            forall|r: int| 0 <= r <= n ==> (#[trigger] dp[r])[0] == r,
            forall|c: int| 0 <= c < j ==> #[trigger] dp[0][c] == c,
        decreases m + 1 - j,
    {
        let ghost before = dp;
        dp[0][j] = 1 + dp[0][j - 1];
        proof {
            assert forall|r: int| 0 <= r <= n implies (#[trigger] dp[r]).len() == m + 1 by {
                assert(before[r].len() == m + 1);
            }
            assert forall|r: int, c: int| 0 < r <= n && 0 < c <= m implies (#[trigger] dp[r][c]) == 0 by {
                assert(before[r][c] == 0);
            }
            assert forall|r: int| 0 <= r <= n implies (#[trigger] dp[r])[0] == r by {
                assert(before[r][0] == r);
            }
            assert forall|c: int| 0 <= c < j + 1 implies #[trigger] dp[0][c] == c by {
                if c < j {
                    assert(before[0][c] == c);
                }
            }
        }
        j = j + 1;
    }
    let mut i: usize = 1;
    while i <= n
        invariant
            n == a.len(),
            m == b.len(),
            n < usize::MAX,
            m < usize::MAX,
            1 <= i <= n + 1,
            dp.len() == n + 1,
            forall|r: int| 0 <= r <= n ==> (#[trigger] dp[r]).len() == m + 1,
            forall|r: int, c: int| 0 <= r <= n && 0 <= c <= m ==> (#[trigger] dp[r][c]) <= r || dp[r][c] <= c,
            T::obeys_eq_spec() ==> forall|r: int, c: int|
                0 <= r <= n && 0 <= c <= m && (r < i || c == 0) ==> #[trigger] dp[r][c] == edit_upto(a@, b@, r, c),
        decreases n + 1 - i,
    {
        let mut j: usize = 1;
        while j <= m
            invariant
                n == a.len(),
                m == b.len(),
                n < usize::MAX,
                m < usize::MAX,
                1 <= i <= n,
                1 <= j <= m + 1,
                dp.len() == n + 1,
                forall|r: int| 0 <= r <= n ==> (#[trigger] dp[r]).len() == m + 1,
                forall|r: int, c: int|
                    0 <= r <= n && 0 <= c <= m ==> (#[trigger] dp[r][c]) <= r || dp[r][c] <= c,
                T::obeys_eq_spec() ==> forall|r: int, c: int|
                    0 <= r <= n && 0 <= c <= m && (r < i || c == 0 || (r == i && c < j)) ==> #[trigger] dp[r][c]
                        == edit_upto(a@, b@, r, c),
            decreases m + 1 - j,
        {
            let ghost before = dp;
            proof {
                assert(before[i - 1][j - 1] <= i - 1 || before[i - 1][j - 1] <= j - 1);
            }
            let best = if a[i - 1] == b[j - 1] {
                dp[i - 1][j - 1]
            } else {
                let diagonal = dp[i - 1][j - 1];
                let up = dp[i - 1][j];
                let left = dp[i][j - 1];
                if diagonal <= up && diagonal <= left {
                    1 + diagonal
                } else if up <= left {
                    1 + up
                } else {
                    1 + left
                }
            };
            dp[i][j] = best;
            proof {
                assert forall|r: int| 0 <= r <= n implies (#[trigger] dp[r]).len() == m + 1 by {
                    assert(before[r].len() == m + 1);
                }
                assert forall|r: int, c: int| 0 <= r <= n && 0 <= c <= m implies (#[trigger] dp[r][c]) <= r
                    || dp[r][c] <= c by {
                    assert(before[r][c] <= r || before[r][c] <= c);
                }
                if T::obeys_eq_spec() {
                    assert(before[i - 1][j - 1] == edit_upto(a@, b@, i - 1, j - 1));
                    assert(before[i - 1][j as int] == edit_upto(a@, b@, i - 1, j as int));
                    assert(before[i as int][j - 1] == edit_upto(a@, b@, i as int, j - 1));
                    assert forall|r: int, c: int|
                        0 <= r <= n && 0 <= c <= m && (r < i || c == 0 || (r == i && c < j + 1)) implies #[trigger] dp[r][c]
                        == edit_upto(a@, b@, r, c) by {
                        if !(r == i && c == j) {
                            assert(before[r][c] == edit_upto(a@, b@, r, c));
                        }
                    }
                }
            }
            j = j + 1;
        }
        i = i + 1;
    }
    proof {
        lemma_edit_upto_is_edit_distance(a@, b@);
    }
    dp[n][m]
}

} // verus!

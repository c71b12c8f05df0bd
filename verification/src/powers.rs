//! Powers of two and the logarithm to base two, rounded up.

use vstd::arithmetic::power2::{lemma2_to64, lemma2_to64_rest, lemma_pow2_strictly_increases, pow2};
use vstd::prelude::*;

verus! {

/// `k` is the least exponent with `n <= 2^k`, that is `ceil(log2(n))`, and 0 for `n <= 1`.
pub open spec fn is_ceil_log2(n: nat, k: nat) -> bool {
    &&& n <= pow2(k)
    &&& k > 0 ==> pow2((k - 1) as nat) < n
}

/// An exponent whose power of two fits in a `usize` is below the width of `usize`.
pub proof fn lemma_level_fits(e: nat)
    requires
        pow2(e) <= usize::MAX,
    ensures
        e < usize::BITS,
{
    if e >= usize::BITS {
        lemma2_to64();
        if e > usize::BITS {
            lemma_pow2_strictly_increases(usize::BITS as nat, e);
        }
    }
}

/// The least power of two that is no less than `n` is no more than any other such power.
pub proof fn lemma_least_power(n: nat, k: nat, e: nat)
    requires
        is_ceil_log2(n, k),
        n <= pow2(e),
    ensures
        k <= e,
        pow2(k) <= pow2(e),
{
    if k > e {
        if k - 1 > e {
            lemma_pow2_strictly_increases(e, (k - 1) as nat);
        }
    } else if k < e {
        lemma_pow2_strictly_increases(k, e);
    }
}

/// The powers of two just below the width of `usize`.
pub proof fn lemma_high_powers()
    ensures
        pow2((usize::BITS - 1) as nat) == usize::MAX / 2 + 1,
        pow2((usize::BITS - 2) as nat) == usize::MAX / 4 + 1,
{
    lemma2_to64();
    lemma2_to64_rest();
}

} // verus!

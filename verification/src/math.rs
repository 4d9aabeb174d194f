//! Integer arithmetic about powers of two and the ceiling of the base-2
//! logarithm, used to size the tree's backing storage.

use vstd::arithmetic::power2::lemma_pow2_strictly_increases;
use vstd::arithmetic::power2::lemma_pow2_unfold;
use vstd::arithmetic::power2::pow2;
use vstd::prelude::*;

verus! {

/// The least exponent `e` with `pow2(e) >= n`: the ceiling of the base-2
/// logarithm of `n`, taken as 0 for `n <= 1`.
pub open spec fn log2_ceil(n: nat) -> nat
    decreases n,
{
    if n <= 1 {
        0
    } else {
        (1 + log2_ceil((n + 1) / 2)) as nat
    }
}

/// `pow2(0)` spelled out, since `pow` is opaque in vstd.
pub proof fn lemma_pow2_zero()
    ensures
        pow2(0) == 1,
{
    vstd::arithmetic::power::lemma_pow0(2);
}

/// `pow2(log2_ceil(n))` is at least `n`: rounding a length up to the next
/// power of two never loses elements.
pub proof fn lemma_pow2_log2_ceil_bound(n: nat)
    ensures
        pow2(log2_ceil(n)) >= n,
    decreases n,
{
    if n <= 1 {
        lemma_pow2_zero();
    } else {
        let m = (n + 1) / 2;
        lemma_pow2_log2_ceil_bound(m);
        lemma_pow2_unfold(log2_ceil(n));
        assert(pow2(log2_ceil(n)) == 2 * pow2(log2_ceil(m)));
    }
}

/// `log2_ceil` is monotone.
pub proof fn lemma_log2_ceil_monotone(m: nat, n: nat)
    requires
        m <= n,
    ensures
        log2_ceil(m) <= log2_ceil(n),
    decreases n,
{
    if m <= 1 {
    } else {
        lemma_log2_ceil_monotone((m + 1) / 2, (n + 1) / 2);
    }
}

/// The least power of two that reaches `n` pins the exponent down: any `e`
/// with `pow2(e) >= n` and `pow2(e - 1) < n` (or `e == 0`) equals
/// `log2_ceil(n)`.
pub proof fn lemma_log2_ceil_unique(n: nat, e: nat)
    requires
        n >= 1,
        pow2(e) >= n,
        e == 0 || pow2((e - 1) as nat) < n,
    ensures
        e == log2_ceil(n),
    decreases n,
{
    if n <= 1 {
        if e > 0 {
            assert(pow2((e - 1) as nat) >= 1) by {
                vstd::arithmetic::power2::lemma_pow2_pos((e - 1) as nat);
            }
        }
    } else {
        let m = (n + 1) / 2;
        assert(e >= 1) by {
            if e == 0 {
                lemma_pow2_zero();
            }
        }
        lemma_pow2_unfold(e);
        assert(pow2((e - 1) as nat) >= m);
        if e >= 2 {
            lemma_pow2_unfold((e - 1) as nat);
            assert(2 * pow2((e - 2) as nat) < n);
            assert(pow2((e - 2) as nat) < m);
        } else {
            lemma_pow2_zero();
            assert(m >= 1);
        }
        lemma_log2_ceil_unique(m, (e - 1) as nat);
    }
}

/// Rounding up to a power of two less than doubles a length of at least 2.
pub proof fn lemma_pow2_log2_ceil_tight(n: nat)
    requires
        n >= 2,
    ensures
        pow2(log2_ceil(n)) <= 2 * (n - 1),
    decreases n,
{
    let m = (n + 1) / 2;
    assert(log2_ceil(n) == 1 + log2_ceil(m));
    lemma_pow2_unfold(log2_ceil(n));
    assert(pow2(log2_ceil(n)) == 2 * pow2(log2_ceil(m)));
    if m >= 2 {
        lemma_pow2_log2_ceil_tight(m);
        assert(pow2(log2_ceil(m)) <= 2 * (m - 1));
        assert(2 * m <= n + 1);
    } else {
        assert(m == 1 && n == 2);
        assert(log2_ceil(m) == 0);
        lemma_pow2_zero();
    }
}

/// A tree over `n` elements needs `2 * pow2(log2_ceil(n)) - 1` storage
/// slots; for any `n` up to a quarter of the address space that length fits
/// in `usize`. Lets callers discharge the size requirement of building a
/// tree without reasoning about powers of two themselves.
pub proof fn lemma_storage_len_fits(n: nat)
    requires
        1 <= n <= usize::MAX / 4,
    ensures
        2 * pow2(log2_ceil(n)) - 1 <= usize::MAX,
{
    if n == 1 {
        lemma_pow2_zero();
    } else {
        lemma_pow2_log2_ceil_tight(n);
    }
}

/// Strict monotonicity of `pow2`, restated in the contrapositive direction
/// that the storage-sizing proofs use: a smaller power of two means a
/// smaller exponent.
pub proof fn lemma_pow2_lt_implies_exp_lt(e1: nat, e2: nat)
    requires
        pow2(e1) < pow2(e2),
    ensures
        e1 < e2,
{
    if e1 >= e2 {
        if e1 == e2 {
        } else {
            lemma_pow2_strictly_increases(e2, e1);
        }
    }
}

} // verus!

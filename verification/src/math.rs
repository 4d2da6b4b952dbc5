//! Integer square root and base-two logarithm, the fixed-point building
//! blocks of the search policy's exploration term.

use vstd::prelude::*;
use vstd::arithmetic::power2::{lemma2_to64, lemma_pow2_strictly_increases, pow2};

verus! {

/// The integer square root of a non-negative number, by unit steps.
pub open spec fn spec_isqrt(n: int) -> int
    decreases n,
{
    if n <= 0 {
        0
    } else {
        let r = spec_isqrt(n - 1);
        if (r + 1) * (r + 1) <= n {
            r + 1
        } else {
            r
        }
    }
}

/// `spec_isqrt` is the rounded-down square root.
pub proof fn lemma_isqrt_bounds(n: int)
    requires
        n >= 0,
    ensures
        spec_isqrt(n) >= 0,
        spec_isqrt(n) * spec_isqrt(n) <= n,
        n < (spec_isqrt(n) + 1) * (spec_isqrt(n) + 1),
    decreases n,
{
    if n > 0 {
        lemma_isqrt_bounds(n - 1);
        let r = spec_isqrt(n - 1);
        if (r + 1) * (r + 1) <= n {
            assert(n < (r + 2) * (r + 2)) by (nonlinear_arith)
                requires
                    r >= 0,
                    n - 1 < (r + 1) * (r + 1),
            ;
        }
    }
}

/// Only one number has squares bracketing `n`.
pub proof fn lemma_isqrt_unique(n: int, a: int)
    requires
        n >= 0,
        a >= 0,
        a * a <= n,
        n < (a + 1) * (a + 1),
    ensures
        a == spec_isqrt(n),
{
    lemma_isqrt_bounds(n);
    let b = spec_isqrt(n);
    assert(a == b) by (nonlinear_arith)
        requires
            a >= 0,
            b >= 0,
            a * a <= n,
            n < (a + 1) * (a + 1),
            b * b <= n,
            n < (b + 1) * (b + 1),
    ;
}

/// The integer square root, by binary search.
pub fn isqrt(n: u64) -> (r: u64)
    ensures
        r == spec_isqrt(n as int),
{
    if n == 0 {
        return 0;
    }
    let mut lo: u64 = 0;
    let mut hi: u64 = 4294967296;
    proof {
        assert((hi as int) * (hi as int) > n as int) by (nonlinear_arith)
            requires
                hi == 4294967296,
                n <= u64::MAX,
        ;
    }
    while hi - lo > 1
        invariant
            lo < hi,
            (lo as int) * (lo as int) <= n as int,
            (n as int) < (hi as int) * (hi as int),
            hi <= 4294967296,
        decreases hi - lo,
    {
        let mid = lo + (hi - lo) / 2;
        proof {
            assert((mid as int) * (mid as int) <= 4294967296int * 4294967296int)
                by (nonlinear_arith)
                requires
                    0 <= mid <= 4294967296,
            ;
        }
        if (mid as u128) * (mid as u128) <= n as u128 {
            lo = mid;
        } else {
            hi = mid;
        }
    }
    proof {
        assert(hi == lo + 1);
        lemma_isqrt_unique(n as int, lo as int);
    }
    lo
}

/// The rounded-down base-two logarithm of a positive number.
pub open spec fn spec_log2(n: int) -> int
    decreases n,
{
    if n < 2 {
        0
    } else {
        1 + spec_log2(n / 2)
    }
}

/// `spec_log2` is bracketed by the neighbouring powers of two.
pub proof fn lemma_log2_bounds(n: int)
    requires
        n >= 1,
    ensures
        spec_log2(n) >= 0,
        pow2(spec_log2(n) as nat) <= n,
        n < pow2((spec_log2(n) + 1) as nat),
    decreases n,
{
    if n < 2 {
        assert(pow2(0) == 1 && pow2(1) == 2) by {
            lemma2_to64();
        }
    } else {
        lemma_log2_bounds(n / 2);
        let l = spec_log2(n / 2);
        assert(pow2((l + 1) as nat) == 2 * pow2(l as nat)) by {
            vstd::arithmetic::power2::lemma_pow2_unfold((l + 1) as nat);
        }
        assert(pow2((l + 2) as nat) == 2 * pow2((l + 1) as nat)) by {
            vstd::arithmetic::power2::lemma_pow2_unfold((l + 2) as nat);
        }
        assert(2 * (n / 2) <= n && n <= 2 * (n / 2) + 1);
    }
}

/// Only one exponent has powers of two bracketing `n`.
pub proof fn lemma_log2_unique(n: int, e: int)
    requires
        n >= 1,
        e >= 0,
        pow2(e as nat) <= n,
        n < pow2((e + 1) as nat),
    ensures
        e == spec_log2(n),
{
    lemma_log2_bounds(n);
    let l = spec_log2(n);
    if e < l {
        lemma_pow2_strictly_increases((e + 1) as nat, (l + 1) as nat);
        assert(pow2((e + 1) as nat) <= pow2(l as nat)) by {
            if e + 1 < l {
                lemma_pow2_strictly_increases((e + 1) as nat, l as nat);
            }
        }
    } else if e > l {
        assert(pow2((l + 1) as nat) <= pow2(e as nat)) by {
            if l + 1 < e {
                lemma_pow2_strictly_increases((l + 1) as nat, e as nat);
            }
        }
    }
}

/// The rounded-down base-two logarithm, by doubling.
pub fn floor_log2(n: u64) -> (r: u64)
    requires
        n >= 1,
    ensures
        r == spec_log2(n as int),
        r <= 63,
{
    let mut p: u64 = 1;
    let mut r: u64 = 0;
    proof {
        lemma2_to64();
    }
    while p <= n / 2
        invariant
            n >= 1,
            p >= 1,
            p == pow2(r as nat),
            p <= n,
            r <= 63,
        decreases n - p,
    {
        proof {
            vstd::arithmetic::power2::lemma_pow2_unfold((r + 1) as nat);
            if r + 1 >= 64 {
                lemma2_to64();
                if r + 1 > 64 {
                    lemma_pow2_strictly_increases(64, (r + 1) as nat);
                }
                assert(pow2((r + 1) as nat) >= 0x10000000000000000);
                assert(2 * p > u64::MAX as int);
                assert(false);
            }
        }
        p = p * 2;
        r = r + 1;
    }
    proof {
        assert(2 * p > n);
        vstd::arithmetic::power2::lemma_pow2_unfold((r + 1) as nat);
        lemma_log2_unique(n as int, r as int);
    }
    r
}

} // verus!

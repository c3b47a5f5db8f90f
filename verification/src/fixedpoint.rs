//! Fixed-point arithmetic for the search engine.
//!
//! All rewards, accumulated values and exploration constants carry the factor
//! [`SCALE`], so `65536` stands for the real number `1.0`.  The engine never
//! divides by a scale at comparison time: scores are compared after clearing
//! denominators, so the only approximate steps are the integer square root and
//! the piecewise-linear logarithm defined here, both of which are specified
//! exactly.

use vstd::prelude::*;

verus! {

/// The fixed-point unit: this many fixed-point steps stand for `1.0`.
pub const SCALE: u64 = 65536;

/// `floor(ln(2) * SCALE)`.
pub const LN2_FP: u64 = 45426;

/// `2^k`.
pub open spec fn pow2(k: nat) -> nat
    decreases k,
{
    if k == 0 {
        1
    } else {
        2 * pow2((k - 1) as nat)
    }
}

/// `floor(log2(n))` for `n >= 1` (and `0` for `n == 0`).
pub open spec fn floor_log2(n: nat) -> nat
    decreases n,
{
    if n < 2 {
        0
    } else {
        1 + floor_log2(n / 2)
    }
}

/// Piecewise-linear base-2 logarithm in fixed point: the integer part is
/// `floor(log2(n))`, the fractional part interpolates linearly between the
/// two neighbouring powers of two.
pub open spec fn log2_fp_spec(n: nat) -> int {
    let k = floor_log2(n);
    k * SCALE + (n - pow2(k)) * SCALE / (pow2(k) as int)
}

/// Natural logarithm in fixed point, derived from [`log2_fp_spec`].
pub open spec fn ln_fp_spec(n: nat) -> int {
    log2_fp_spec(n) * LN2_FP / (SCALE as int)
}

pub proof fn lemma_pow2_positive(k: nat)
    ensures
        pow2(k) >= 1,
    decreases k,
{
    if k > 0 {
        lemma_pow2_positive((k - 1) as nat);
    }
}

pub proof fn lemma_pow2_monotone(a: nat, b: nat)
    requires
        a <= b,
    ensures
        pow2(a) <= pow2(b),
    decreases b,
{
    if a < b {
        lemma_pow2_monotone(a, (b - 1) as nat);
        lemma_pow2_positive((b - 1) as nat);
    }
}

/// `floor_log2` is determined by the bracketing powers of two.
pub proof fn lemma_floor_log2_unique(n: nat, k: nat)
    requires
        pow2(k) <= n,
        n < pow2(k + 1),
    ensures
        floor_log2(n) == k,
    decreases n,
{
    lemma_pow2_positive(k);
    if k == 0 {
        assert(n < 2);
    } else {
        assert(pow2(k) == 2 * pow2((k - 1) as nat));
        assert(pow2(k + 1) == 2 * pow2(k));
        assert(n >= 2);
        lemma_floor_log2_unique(n / 2, (k - 1) as nat);
    }
}

/// `r` is the integer square root of `x`.
pub open spec fn is_sqrt(x: nat, r: nat) -> bool {
    r * r <= x < (r + 1) * (r + 1)
}

/// The integer square root of `x`, as a specification value.
pub open spec fn isqrt_spec(x: nat) -> nat {
    choose|r: nat| is_sqrt(x, r)
}

/// The integer square root is unique.
pub proof fn lemma_isqrt_unique(x: nat, a: nat, b: nat)
    requires
        is_sqrt(x, a),
        is_sqrt(x, b),
    ensures
        a == b,
{
    if a < b {
        assert((a + 1) * (a + 1) <= b * b) by (nonlinear_arith)
            requires
                a + 1 <= b,
        ;
    }
    if b < a {
        assert((b + 1) * (b + 1) <= a * a) by (nonlinear_arith)
            requires
                b + 1 <= a,
        ;
    }
}

/// Integer square root: the unique `r` with `r^2 <= x < (r+1)^2`.
pub fn isqrt(x: u64) -> (r: u64)
    ensures
        r * r <= x,
        x < (r + 1) * (r + 1),
        r == isqrt_spec(x as nat),
        r <= 4294967295u64,
{
    let mut lo: u64 = 0;
    let mut hi: u64 = 4294967296;
    assert(x < hi * hi);
    while lo + 1 < hi
        invariant
            lo < hi,
            hi <= 4294967296,
            lo * lo <= x,
            x < hi * hi,
        decreases hi - lo,
    {
        let mid = lo + (hi - lo) / 2;
        assert(lo < mid < hi);
        assert(mid * mid <= 4294967295u64 * 4294967295u64) by (nonlinear_arith)
            requires
                mid <= 4294967295u64,
        ;
        if mid * mid <= x {
            lo = mid;
        } else {
            hi = mid;
        }
    }
    proof {
        assert(is_sqrt(x as nat, lo as nat));
        assert(exists|r: nat| is_sqrt(x as nat, r));
        lemma_isqrt_unique(x as nat, lo as nat, isqrt_spec(x as nat));
    }
    lo
}

/// Truncating division, the sign convention of machine division.
pub open spec fn div_trunc_spec(a: int, b: int) -> int {
    if a >= 0 {
        a / b
    } else {
        -((-a) / b)
    }
}

/// Truncating signed division by a positive divisor.
pub fn div_trunc(a: i64, b: u64) -> (r: i64)
    requires
        b >= 1,
        -0x4000000000000000 <= a <= 0x4000000000000000,
    ensures
        r == div_trunc_spec(a as int, b as int),
        -0x4000000000000000 <= r <= 0x4000000000000000,
{
    if a >= 0 {
        let q = (a as u64) / b;
        proof {
            assert(q <= a) by (nonlinear_arith)
                requires
                    b >= 1,
                    a >= 0,
                    q == (a as int) / (b as int),
            ;
        }
        q as i64
    } else {
        let m = (-a) as u64;
        let q = m / b;
        proof {
            assert(q <= m) by (nonlinear_arith)
                requires
                    b >= 1,
                    m >= 0,
                    q == (m as int) / (b as int),
            ;
        }
        -(q as i64)
    }
}

/// Fixed-point base-2 logarithm; matches [`log2_fp_spec`] exactly.
pub fn log2_fp(n: u64) -> (r: u64)
    requires
        n >= 1,
    ensures
        r == log2_fp_spec(n as nat),
        r <= 64 * SCALE,
{
    let mut k: u64 = 0;
    let mut p: u64 = 1;
    while p <= n / 2
        invariant
            1 <= n,
            p == pow2(k as nat),
            p <= n,
            k <= 63,
        decreases n - p,
    {
        proof {
            lemma_pow2_positive(k as nat);
            if k >= 63 {
                lemma_pow2_monotone(63, k as nat);
                assert(pow2(63) == 0x8000000000000000) by {
                    lemma_pow2_63();
                }
                assert(false);
            }
        }
        p = p * 2;
        k = k + 1;
    }
    proof {
        lemma_pow2_positive(k as nat);
        assert(pow2((k + 1) as nat) == 2 * pow2(k as nat));
        assert(n < 2 * p) by {
            assert(n / 2 < p);
        }
        lemma_floor_log2_unique(n as nat, k as nat);
    }
    proof {
        let fr: int = (n - p) * SCALE / (p as int);
        assert(0 <= fr < SCALE) by (nonlinear_arith)
            requires
                p >= 1,
                0 <= n - p < p,
                fr == (n - p) * SCALE / (p as int),
                SCALE == 65536,
        ;
    }
    let frac = (((n - p) as u128 * SCALE as u128) / p as u128) as u64;
    k * SCALE + frac
}

proof fn lemma_pow2_63()
    ensures
        pow2(63) == 0x8000000000000000,
{
    assert(pow2(63) == 0x8000000000000000) by {
        reveal_with_fuel(pow2, 64);
    }
}

/// Fixed-point natural logarithm; matches [`ln_fp_spec`] exactly.
pub fn ln_fp(n: u64) -> (r: u64)
    requires
        n >= 1,
    ensures
        r == ln_fp_spec(n as nat),
        r <= 64 * LN2_FP,
{
    let l2 = log2_fp(n);
    let r = (l2 * LN2_FP) / SCALE;
    proof {
        assert(r <= 64 * LN2_FP) by (nonlinear_arith)
            requires
                l2 <= 64 * SCALE,
                r == l2 * LN2_FP / (SCALE as int),
                SCALE == 65536,
                LN2_FP == 45426,
        ;
    }
    r
}

} // verus!

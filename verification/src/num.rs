//! Exact integer arithmetic helpers: truncating and floor division and
//! integer square roots, with their specification-level counterparts.

use vstd::prelude::*;
use vstd::arithmetic::div_mod::lemma_fundamental_div_mod;

verus! {

/// Truncating (round-toward-zero) division by a positive divisor: the
/// value Rust's `/` computes on signed integers.
pub open spec fn tdiv(a: int, b: int) -> int
    recommends
        b > 0,
{
    if a >= 0 {
        a / b
    } else {
        -((-a) / b)
    }
}

/// `r` is the integer square root of `x`: the largest integer whose square
/// does not exceed `x`.
pub open spec fn is_sqrt(x: int, r: int) -> bool {
    r >= 0 && r * r <= x && x < (r + 1) * (r + 1)
}

/// The integer square root of a non-negative value.
pub open spec fn sqrt_of(x: int) -> int {
    choose|r: int| is_sqrt(x, r)
}

/// Two integer square roots of the same value are equal.
pub proof fn lemma_sqrt_unique(x: int, r1: int, r2: int)
    requires
        is_sqrt(x, r1),
        is_sqrt(x, r2),
    ensures
        r1 == r2,
{
    assert(r1 == r2) by (nonlinear_arith)
        requires
            r1 >= 0 && r1 * r1 <= x && x < (r1 + 1) * (r1 + 1),
            r2 >= 0 && r2 * r2 <= x && x < (r2 + 1) * (r2 + 1),
    ;
}

/// A witness for `is_sqrt` pins down `sqrt_of`.
pub proof fn lemma_sqrt_is(x: int, r: int)
    requires
        is_sqrt(x, r),
    ensures
        sqrt_of(x) == r,
{
    let w = choose|w: int| is_sqrt(x, w);
    assert(is_sqrt(x, w));
    lemma_sqrt_unique(x, w, r);
}

/// Every non-negative value has an integer square root.
pub proof fn lemma_sqrt_exists(x: int)
    requires
        x >= 0,
    ensures
        is_sqrt(x, sqrt_of(x)),
    decreases x,
{
    if x == 0 {
        assert(is_sqrt(0, 0));
        assert(exists|r: int| is_sqrt(x, r));
    } else {
        lemma_sqrt_exists(x - 1);
        let r = sqrt_of(x - 1);
        if x < (r + 1) * (r + 1) {
            assert(is_sqrt(x, r));
        } else {
            assert(is_sqrt(x, r + 1)) by (nonlinear_arith)
                requires
                    r >= 0,
                    r * r <= x - 1,
                    x - 1 < (r + 1) * (r + 1),
                    x >= (r + 1) * (r + 1),
            ;
        }
        assert(exists|r0: int| is_sqrt(x, r0));
    }
}

/// The integer square root of `x`, by bisection.
pub fn isqrt_u64(x: u64) -> (r: u64)
    ensures
        is_sqrt(x as int, r as int),
        r == sqrt_of(x as int),
        r < 0x1_0000_0000,
{
    let mut lo: u64 = 0;
    let mut hi: u64 = 0x1_0000_0000;
    assert((hi as int) * (hi as int) > x as int) by (nonlinear_arith)
        requires
            hi == 0x1_0000_0000u64 && x <= u64::MAX,
    ;
    while lo + 1 < hi
        invariant
            lo < hi <= 0x1_0000_0000,
            (lo as int) * (lo as int) <= x as int,
            x < (hi as int) * (hi as int),
        decreases hi - lo,
    {
        let mid: u64 = lo + (hi - lo) / 2;
        assert(lo < mid < hi);
        assert((mid as int) * (mid as int) <= 0x1_0000_0000_0000_0000) by (nonlinear_arith)
            requires
                0 <= mid <= 0x1_0000_0000u64,
        ;
        if (mid as u128) * (mid as u128) <= x as u128 {
            lo = mid;
        } else {
            hi = mid;
        }
    }
    assert(hi == lo + 1);
    proof {
        lemma_sqrt_is(x as int, lo as int);
    }
    lo
}

/// Floor division of a millimetre coordinate by the field size (one metre).
pub fn floor_div_1000(a: i64) -> (r: i64)
    requires
        -4_000_000_000_000 <= a <= 4_000_000_000_000,
    ensures
        r == (a as int) / 1000,
{
    if a >= 0 {
        a / 1000
    } else {
        let m: i64 = -a;
        let q: i64 = (m + 999) / 1000;
        proof {
            lemma_fundamental_div_mod(m as int + 999, 1000);
            lemma_fundamental_div_mod(a as int, 1000);
            let qq = (m as int + 999) / 1000;
            let r1 = (m as int + 999) % 1000;
            let qa = (a as int) / 1000;
            let ra = (a as int) % 1000;
            assert(a as int == 1000 * (-qq) + (999 - r1));
            assert(a as int == 1000 * qa + ra);
            assert(qa == -qq) by (nonlinear_arith)
                requires
                    1000 * (-qq) + (999 - r1) == 1000 * qa + ra,
                    0 <= r1 < 1000,
                    0 <= ra < 1000,
            ;
        }
        -q
    }
}

/// A truncated quotient is bounded by any bound on the numerator's
/// multiples.
pub proof fn lemma_tdiv_bound(n: int, l: int, k: int)
    requires
        l > 0,
        k >= 0,
        -(k * l) <= n <= k * l,
    ensures
        -k <= tdiv(n, l) <= k,
{
    vstd::arithmetic::div_mod::lemma_div_multiples_vanish(k, l);
    assert((k * l) / l == k);
    if n >= 0 {
        vstd::arithmetic::div_mod::lemma_div_is_ordered(n, k * l, l);
        vstd::arithmetic::div_mod::lemma_div_pos_is_pos(n, l);
    } else {
        vstd::arithmetic::div_mod::lemma_div_is_ordered(-n, k * l, l);
        vstd::arithmetic::div_mod::lemma_div_pos_is_pos(-n, l);
    }
}

/// Truncating division of a signed value by a positive divisor.
pub fn tdiv_i64(a: i64, b: i64) -> (r: i64)
    requires
        b > 0,
        a > i64::MIN,
    ensures
        r == tdiv(a as int, b as int),
{
    if a >= 0 {
        a / b
    } else {
        let m: i64 = -a;
        -(m / b)
    }
}

/// Truncating division of a wide signed value by a positive divisor.
pub fn tdiv_i128(a: i128, b: i128) -> (r: i128)
    requires
        b > 0,
        a > i128::MIN,
    ensures
        r == tdiv(a as int, b as int),
{
    if a >= 0 {
        a / b
    } else {
        let m: i128 = -a;
        -(m / b)
    }
}

} // verus!

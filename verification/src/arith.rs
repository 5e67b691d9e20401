//! Small verified arithmetic helpers: floor division on signed values and
//! an integer square root. The contracts are stated against Verus's
//! mathematical (Euclidean) `/`, which the rest of the crate uses in specs.

use vstd::arithmetic::div_mod::{lemma_fundamental_div_mod, lemma_fundamental_div_mod_converse};
use vstd::prelude::*;

verus! {

/// Floor of the real square root: the greatest `r` with `r * r <= x`.
pub open spec fn sqrt_floor(x: int) -> int
    decreases x,
{
    if x <= 0 {
        0
    } else {
        let r = sqrt_floor(x - 1);
        if (r + 1) * (r + 1) <= x {
            r + 1
        } else {
            r
        }
    }
}

pub proof fn lemma_sqrt_floor_bounds(x: int)
    requires
        x >= 0,
    ensures
        0 <= sqrt_floor(x),
        sqrt_floor(x) * sqrt_floor(x) <= x,
        x < (sqrt_floor(x) + 1) * (sqrt_floor(x) + 1),
    decreases x,
{
    if x == 0 {
    } else {
        lemma_sqrt_floor_bounds(x - 1);
        let r = sqrt_floor(x - 1);
        if (r + 1) * (r + 1) <= x {
            assert(x < (r + 2) * (r + 2)) by (nonlinear_arith)
                requires
                    r >= 0,
                    x - 1 < (r + 1) * (r + 1),
            ;
        }
    }
}

pub proof fn lemma_sqrt_floor_unique(x: int, r: int)
    requires
        x >= 0,
        r >= 0,
        r * r <= x,
        x < (r + 1) * (r + 1),
    ensures
        r == sqrt_floor(x),
{
    let s = sqrt_floor(x);
    lemma_sqrt_floor_bounds(x);
    if r < s {
        assert((r + 1) * (r + 1) <= s * s) by (nonlinear_arith)
            requires
                0 <= r,
                r + 1 <= s,
        ;
    }
    if s < r {
        assert((s + 1) * (s + 1) <= r * r) by (nonlinear_arith)
            requires
                0 <= s,
                s + 1 <= r,
        ;
    }
}

/// Integer square root by binary search.
pub fn isqrt_u64(x: u64) -> (r: u64)
    requires
        x < 0x4000_0000_0000_0000,
    ensures
        r == sqrt_floor(x as int),
        r * r <= x,
        x < (r + 1) * (r + 1),
{
    let mut lo: u64 = 0;
    let mut hi: u64 = 0x8000_0000;
    assert(hi * hi > x) by (nonlinear_arith)
        requires
            hi == 0x8000_0000u64,
            x < 0x4000_0000_0000_0000,
    ;
    while hi - lo > 1
        invariant
            lo < hi <= 0x8000_0000,
            lo * lo <= x,
            x < hi * hi,
        decreases hi - lo,
    {
        let mid = lo + (hi - lo) / 2;
        assert(lo < mid < hi);
        assert(mid * mid <= 0x4000_0000_0000_0000) by (nonlinear_arith)
            requires
                mid <= 0x8000_0000u64,
        ;
        if mid * mid <= x {
            lo = mid;
        } else {
            hi = mid;
        }
    }
    proof {
        lemma_sqrt_floor_unique(x as int, lo as int);
    }
    lo
}

/// A quotient stays between `lo` and `hi` when the dividend stays between
/// `lo * d` and `hi * d`.
pub proof fn lemma_div_range(a: int, lo: int, hi: int, d: int)
    requires
        0 < d,
        lo * d <= a <= hi * d,
    ensures
        lo <= a / d <= hi,
{
    lemma_fundamental_div_mod_converse(lo * d, d, lo, 0);
    lemma_fundamental_div_mod_converse(hi * d, d, hi, 0);
    vstd::arithmetic::div_mod::lemma_div_is_ordered(lo * d, a, d);
    vstd::arithmetic::div_mod::lemma_div_is_ordered(a, hi * d, d);
}

/// Linear interpolation with floor division stays between its endpoints.
pub proof fn lemma_interp_bounds(x0: int, x1: int, t: int, d: int)
    requires
        0 < d,
        0 <= t <= d,
    ensures
        x1 >= x0 ==> x0 <= x0 + (t * (x1 - x0)) / d <= x1,
        x1 < x0 ==> x1 <= x0 + (t * (x1 - x0)) / d <= x0,
{
    let delta = x1 - x0;
    if delta >= 0 {
        assert(0 * d <= t * delta <= delta * d) by (nonlinear_arith)
            requires
                0 <= t <= d,
                delta >= 0,
        ;
        lemma_div_range(t * delta, 0, delta, d);
    } else {
        assert(delta * d <= t * delta <= 0 * d) by (nonlinear_arith)
            requires
                0 <= t <= d,
                delta < 0,
        ;
        lemma_div_range(t * delta, delta, 0, d);
    }
}

/// Floor division of a signed value by a positive divisor, matching the
/// mathematical `/` used in specifications.
pub fn div_floor_i64(a: i64, b: i64) -> (q: i64)
    requires
        0 < b,
        -0x4000_0000_0000_0000 < a < 0x4000_0000_0000_0000,
    ensures
        q == a as int / b as int,
{
    if a >= 0 {
        let q0 = (a as u64) / (b as u64);
        proof {
            lemma_fundamental_div_mod(a as int, b as int);
        }
        q0 as i64
    } else {
        let n = (-a) as u64;
        let d = b as u64;
        let q0 = n / d;
        let r0 = n % d;
        if r0 == 0 {
            proof {
                lemma_fundamental_div_mod(n as int, d as int);
                assert(a as int == (-(q0 as int)) * (b as int) + 0) by (nonlinear_arith)
                    requires
                        n == q0 * d,
                        a as int == -(n as int),
                        b == d,
                ;
                lemma_fundamental_div_mod_converse(a as int, b as int, -(q0 as int), 0);
            }
            -(q0 as i64)
        } else {
            proof {
                lemma_fundamental_div_mod(n as int, d as int);
                assert(a as int == (-(q0 as int) - 1) * (b as int) + (b as int - r0 as int))
                    by (nonlinear_arith)
                    requires
                        n as int == q0 as int * d as int + r0 as int,
                        a as int == -(n as int),
                        b == d,
                ;
                lemma_fundamental_div_mod_converse(
                    a as int,
                    b as int,
                    -(q0 as int) - 1,
                    b as int - r0 as int,
                );
            }
            -(q0 as i64) - 1
        }
    }
}

} // verus!

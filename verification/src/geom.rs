//! Fixed-point scalar and vector arithmetic for the simulation.
//!
//! Coordinates are `i64` milli-units. Additions into positions and
//! velocities clamp to [`crate::POS_LIMIT`] / [`crate::VEL_LIMIT`], so the
//! physics is total: no input can overflow. The clamped result is stated
//! exactly in every contract.

use vstd::prelude::*;
use crate::POS_LIMIT;
use crate::VEL_LIMIT;

verus! {

/// A three-component integer vector in milli-units.
#[derive(Clone, Copy, PartialEq, Eq, Structural, Debug)]
pub struct V3 {
    pub x: i64,
    pub y: i64,
    pub z: i64,
}

/// The mathematical value of `v` clamped to the interval `[-b, b]`.
pub open spec fn spec_clamp(v: int, b: int) -> int {
    if v < -b {
        -b
    } else if v > b {
        b
    } else {
        v
    }
}

/// Truncating (round-toward-zero) division, the semantics of machine
/// integer division, over mathematical integers. `d` must be positive.
pub open spec fn spec_div_trunc(a: int, d: int) -> int {
    if a >= 0 {
        a / d
    } else {
        -((-a) / d)
    }
}

impl V3 {
    /// Every component lies in `[-b, b]`.
    pub open spec fn in_range(self, b: int) -> bool {
        &&& -b <= self.x <= b
        &&& -b <= self.y <= b
        &&& -b <= self.z <= b
    }
}

/// The zero vector.
pub fn v3_zero() -> (r: V3)
    ensures
        r == (V3 { x: 0, y: 0, z: 0 }),
{
    V3 { x: 0, y: 0, z: 0 }
}

/// `a + d` clamped to `[-b, b]`, computed without overflow.
pub fn sat_add_i64(a: i64, d: i64, b: i64) -> (r: i64)
    requires
        b >= 0,
    ensures
        r as int == spec_clamp(a + d, b as int),
{
    let s: i128 = a as i128 + d as i128;
    if s < -(b as i128) {
        -b
    } else if s > b as i128 {
        b
    } else {
        s as i64
    }
}

/// Component-wise `v + d`, each component clamped to `[-b, b]`.
pub fn v3_sat_add(v: V3, d: V3, b: i64) -> (r: V3)
    requires
        b >= 0,
    ensures
        r.x as int == spec_clamp(v.x + d.x, b as int),
        r.y as int == spec_clamp(v.y + d.y, b as int),
        r.z as int == spec_clamp(v.z + d.z, b as int),
{
    V3 {
        x: sat_add_i64(v.x, d.x, b),
        y: sat_add_i64(v.y, d.y, b),
        z: sat_add_i64(v.z, d.z, b),
    }
}

/// Exact component-wise difference; the inputs must be small enough that
/// no component difference overflows.
pub fn v3_sub(a: V3, b: V3) -> (r: V3)
    requires
        a.in_range(0x2000_0000_0000_0000),
        b.in_range(0x2000_0000_0000_0000),
    ensures
        r.x == a.x - b.x,
        r.y == a.y - b.y,
        r.z == a.z - b.z,
{
    V3 { x: a.x - b.x, y: a.y - b.y, z: a.z - b.z }
}

/// Exact component-wise negation.
pub fn v3_neg(a: V3) -> (r: V3)
    requires
        a.in_range(0x2000_0000_0000_0000),
    ensures
        r.x == -a.x,
        r.y == -a.y,
        r.z == -a.z,
{
    V3 { x: -a.x, y: -a.y, z: -a.z }
}

/// Squared Euclidean norm over mathematical integers.
pub open spec fn spec_sqnorm(d: V3) -> int {
    d.x * d.x + d.y * d.y + d.z * d.z
}

/// Exact squared norm of a vector with components bounded by twice the
/// position limit (any difference of in-range positions qualifies).
pub fn sqnorm(d: V3) -> (r: i64)
    requires
        d.in_range(2 * POS_LIMIT as int),
    ensures
        r as int == spec_sqnorm(d),
        r >= 0,
{
    proof {
        assert(0 <= d.x * d.x <= 2_560_000_000_000_000_000int) by (nonlinear_arith)
            requires
                -1_600_000_000 <= d.x <= 1_600_000_000,
        ;
        assert(0 <= d.y * d.y <= 2_560_000_000_000_000_000int) by (nonlinear_arith)
            requires
                -1_600_000_000 <= d.y <= 1_600_000_000,
        ;
        assert(0 <= d.z * d.z <= 2_560_000_000_000_000_000int) by (nonlinear_arith)
            requires
                -1_600_000_000 <= d.z <= 1_600_000_000,
        ;
    }
    d.x * d.x + d.y * d.y + d.z * d.z
}

/// The integer square root, floor(sqrt(n)), defined by recursion so that
/// contracts can speak of it as a total function.
pub open spec fn sqrt_floor(n: nat) -> nat
    decreases n,
{
    if n == 0 {
        0
    } else {
        let p = sqrt_floor((n - 1) as nat);
        if (p + 1) * (p + 1) <= n {
            p + 1
        } else {
            p
        }
    }
}

/// `sqrt_floor(n)` really is the floor of the square root of `n`.
pub proof fn lemma_sqrt_floor(n: nat)
    ensures
        sqrt_floor(n) * sqrt_floor(n) <= n,
        n < (sqrt_floor(n) + 1) * (sqrt_floor(n) + 1),
    decreases n,
{
    reveal_with_fuel(sqrt_floor, 2);
    if n == 0 {
        assert(sqrt_floor(n) == 0);
        assert(n < (sqrt_floor(n) + 1) * (sqrt_floor(n) + 1)) by (nonlinear_arith)
            requires
                n == 0,
                sqrt_floor(n) == 0,
        ;
    } else {
        lemma_sqrt_floor((n - 1) as nat);
        let p = sqrt_floor((n - 1) as nat) as int;
        let ni = n as int;
        assert(p * p <= ni - 1);
        assert(ni - 1 < (p + 1) * (p + 1));
        if (p + 1) * (p + 1) <= ni {
            assert(sqrt_floor(n) == p + 1);
            assert(ni < (p + 2) * (p + 2)) by (nonlinear_arith)
                requires
                    ni - 1 < (p + 1) * (p + 1),
                    0 <= p,
            ;
            assert((sqrt_floor(n) + 1) * (sqrt_floor(n) + 1) == (p + 2) * (p + 2)) by (nonlinear_arith)
                requires
                    sqrt_floor(n) == p + 1,
                    0 <= p,
            ;
            assert(n < (sqrt_floor(n) + 1) * (sqrt_floor(n) + 1));
        } else {
            assert(sqrt_floor(n) == p);
            assert(sqrt_floor(n) * sqrt_floor(n) <= n);
            assert((sqrt_floor(n) + 1) * (sqrt_floor(n) + 1) == (p + 1) * (p + 1)) by (nonlinear_arith)
                requires
                    sqrt_floor(n) == p,
                    0 <= p,
            ;
            assert(n < (sqrt_floor(n) + 1) * (sqrt_floor(n) + 1));
        }
    }
}

/// Any `r` with `r^2 <= n < (r+1)^2` equals `sqrt_floor(n)`.
pub proof fn lemma_sqrt_unique(n: nat, r: nat)
    requires
        r * r <= n,
        n < (r + 1) * (r + 1),
    ensures
        r == sqrt_floor(n),
{
    lemma_sqrt_floor(n);
    let s = sqrt_floor(n);
    assert(r == s) by (nonlinear_arith)
        requires
            r * r <= n,
            n < (r + 1) * (r + 1),
            s * s <= n,
            n < (s + 1) * (s + 1),
            0 <= r,
            0 <= s,
    ;
}

/// Executable integer square root by binary search.
pub fn isqrt(n: u64) -> (r: u64)
    ensures
        r as nat == sqrt_floor(n as nat),
        r * r <= n,
{
    let mut lo: u64 = 0;
    let mut hi: u64 = 0xFFFF_FFFF;
    proof {
        assert(0x1_0000_0000int * 0x1_0000_0000int == 0x1_0000_0000_0000_0000int) by (nonlinear_arith);
    }
    while lo < hi
        invariant
            lo <= hi <= 0xFFFF_FFFF,
            lo * lo <= n,
            (n as int) < (hi + 1) * (hi + 1),
        decreases hi - lo,
    {
        let mid: u64 = lo + (hi - lo + 1) / 2;
        proof {
            assert(lo < mid <= hi);
            assert((mid as u128) * (mid as u128) <= 0x1_0000_0000_0000_0000u128) by (nonlinear_arith)
                requires
                    mid <= 0xFFFF_FFFFu64,
            ;
        }
        if (mid as u128) * (mid as u128) <= n as u128 {
            proof {
                assert(mid * mid <= n) by (nonlinear_arith)
                    requires
                        (mid as u128) * (mid as u128) <= n as u128,
                        mid <= 0xFFFF_FFFFu64,
                ;
            }
            lo = mid;
        } else {
            proof {
                assert((n as int) < mid * mid) by (nonlinear_arith)
                    requires
                        (mid as u128) * (mid as u128) > n as u128,
                        mid <= 0xFFFF_FFFFu64,
                ;
            }
            hi = mid - 1;
        }
    }
    proof {
        lemma_sqrt_unique(n as nat, lo as nat);
        assert(lo * lo <= n);
    }
    lo
}

/// The Euclidean distance between two in-range positions, rounded down.
pub open spec fn spec_dist(a: V3, b: V3) -> int {
    sqrt_floor((((a.x - b.x) * (a.x - b.x)) + ((a.y - b.y) * (a.y - b.y)) + ((a.z - b.z) * (a.z - b.z))) as nat) as int
}

/// The distance between two in-range positions is bounded by
/// [`crate::CURLEN_CAP`].
pub proof fn lemma_dist_bound(a: V3, b: V3)
    requires
        a.in_range(POS_LIMIT as int),
        b.in_range(POS_LIMIT as int),
    ensures
        0 <= spec_dist(a, b) <= crate::CURLEN_CAP,
{
    let sq = ((a.x - b.x) * (a.x - b.x)) + ((a.y - b.y) * (a.y - b.y)) + ((a.z - b.z) * (a.z - b.z));
    assert(0 <= (a.x - b.x) * (a.x - b.x) <= 2_560_000_000_000_000_000int) by (nonlinear_arith)
        requires
            -1_600_000_000 <= a.x - b.x <= 1_600_000_000,
    ;
    assert(0 <= (a.y - b.y) * (a.y - b.y) <= 2_560_000_000_000_000_000int) by (nonlinear_arith)
        requires
            -1_600_000_000 <= a.y - b.y <= 1_600_000_000,
    ;
    assert(0 <= (a.z - b.z) * (a.z - b.z) <= 2_560_000_000_000_000_000int) by (nonlinear_arith)
        requires
            -1_600_000_000 <= a.z - b.z <= 1_600_000_000,
    ;
    lemma_sqrt_floor(sq as nat);
    let r = sqrt_floor(sq as nat) as int;
    assert(0 <= sq <= 7_680_000_000_000_000_000int);
    assert(r * r <= sq);
    assert(r <= 4_000_000_000) by (nonlinear_arith)
        requires
            0 <= r,
            r * r <= sq,
            sq <= 7_680_000_000_000_000_000int,
    ;
}

/// Executable distance between two positions, exact per [`spec_dist`].
pub fn dist_points(a: V3, b: V3) -> (r: i64)
    requires
        a.in_range(POS_LIMIT as int),
        b.in_range(POS_LIMIT as int),
    ensures
        r as int == spec_dist(a, b),
        0 <= r <= crate::CURLEN_CAP,
{
    let d = v3_sub(a, b);
    let n: i64 = sqnorm(d);
    let r: u64 = isqrt(n as u64);
    proof {
        assert(spec_sqnorm(d) == ((a.x - b.x) * (a.x - b.x)) + ((a.y - b.y) * (a.y - b.y)) + ((a.z - b.z) * (a.z - b.z)));
        assert(r * r <= n);
        assert(r <= 4_000_000_000u64) by (nonlinear_arith)
            requires
                r * r <= n,
                n <= 0x7FFF_FFFF_FFFF_FFFFi64,
        ;
    }
    r as i64
}

/// Truncating division maps `[-b*d, b*d]` into `[-b, b]`.
pub proof fn lemma_div_trunc_bound(a: int, d: int, b: int)
    requires
        d >= 1,
        0 <= b,
        -(b * d) <= a <= b * d,
    ensures
        -b <= spec_div_trunc(a, d) <= b,
{
    if a >= 0 {
        assert(0 <= a / d <= b) by (nonlinear_arith)
            requires
                d >= 1,
                0 <= b,
                0 <= a <= b * d,
        ;
    } else {
        assert(0 <= (-a) / d <= b) by (nonlinear_arith)
            requires
                d >= 1,
                0 <= b,
                0 <= -a <= b * d,
        ;
    }
}

/// Truncating (round-toward-zero) remainder, the semantics of machine
/// integer remainder, over mathematical integers. `d` must be positive.
pub open spec fn spec_rem_trunc(a: int, d: int) -> int {
    a - d * spec_div_trunc(a, d)
}

/// Truncating remainder of a bounded `i64` by a positive divisor.
pub fn rem_trunc_i64(a: i64, d: i64) -> (r: i64)
    requires
        d >= 1,
        -0x2000_0000_0000_0000 <= a <= 0x2000_0000_0000_0000,
    ensures
        r as int == spec_rem_trunc(a as int, d as int),
        a >= 0 ==> 0 <= r < d,
        a < 0 ==> -d < r <= 0,
{
    if a >= 0 {
        let m: u64 = (a as u64) % (d as u64);
        proof {
            assert(m as int == (a as int) % (d as int));
            vstd::arithmetic::div_mod::lemma_fundamental_div_mod(a as int, d as int);
            vstd::arithmetic::div_mod::lemma_mod_bound(a as int, d as int);
        }
        m as i64
    } else {
        let m: u64 = ((-a) as u64) % (d as u64);
        proof {
            assert(m as int == ((-a) as int) % (d as int));
            vstd::arithmetic::div_mod::lemma_fundamental_div_mod(-a as int, d as int);
            vstd::arithmetic::div_mod::lemma_mod_bound(-a as int, d as int);
            assert((d as int) * (-(((-a) as int) / (d as int))) == -((d as int) * (((-a) as int) / (
            d as int)))) by (nonlinear_arith);
        }
        -(m as i64)
    }
}

/// Truncated halving lands between zero and its argument.
pub proof fn lemma_half_between(a: int)
    ensures
        0 <= a ==> 0 <= spec_div_trunc(a, 2) <= a,
        a < 0 ==> a <= spec_div_trunc(a, 2) <= 0,
{
    if a >= 0 {
        assert(0 <= a / 2 <= a) by (nonlinear_arith)
            requires
                0 <= a,
        ;
    } else {
        assert(0 <= (-a) / 2 <= -a) by (nonlinear_arith)
            requires
                0 <= -a,
        ;
    }
}

/// Truncating division of a bounded `i128` by a positive divisor.
pub fn div_trunc_i128(a: i128, d: u64) -> (r: i128)
    requires
        d >= 1,
        -0x4000_0000_0000_0000_0000_0000_0000_0000i128 <= a,
        a <= 0x4000_0000_0000_0000_0000_0000_0000_0000i128,
    ensures
        r as int == spec_div_trunc(a as int, d as int),
{
    if a >= 0 {
        let q: u128 = (a as u128) / (d as u128);
        proof {
            assert(q as int == (a as int) / (d as int));
            assert(q <= a as u128) by (nonlinear_arith)
                requires
                    d as u128 >= 1,
                    q as int == (a as int) / (d as int),
                    a >= 0,
            ;
        }
        q as i128
    } else {
        let m: u128 = (-a) as u128;
        let q: u128 = m / (d as u128);
        proof {
            assert(q as int == (m as int) / (d as int));
            assert(q <= m) by (nonlinear_arith)
                requires
                    d as u128 >= 1,
                    q as int == (m as int) / (d as int),
            ;
        }
        -(q as i128)
    }
}

/// Truncating division of a bounded `i64` by a positive divisor.
pub fn div_trunc_i64(a: i64, d: i64) -> (r: i64)
    requires
        d >= 1,
        -0x2000_0000_0000_0000 <= a <= 0x2000_0000_0000_0000,
    ensures
        r as int == spec_div_trunc(a as int, d as int),
{
    if a >= 0 {
        let q: u64 = (a as u64) / (d as u64);
        proof {
            assert(q as int == (a as int) / (d as int));
            assert(q <= a as u64) by (nonlinear_arith)
                requires
                    d >= 1,
                    a >= 0,
                    q as int == (a as int) / (d as int),
            ;
        }
        q as i64
    } else {
        let m: u64 = (-a) as u64;
        let q: u64 = m / (d as u64);
        proof {
            assert(q as int == (m as int) / (d as int));
            assert(q <= m) by (nonlinear_arith)
                requires
                    d >= 1,
                    q as int == (m as int) / (d as int),
            ;
        }
        -(q as i64)
    }
}

} // verus!

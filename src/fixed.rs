//! Q16.16 fixed-point arithmetic used by the grid.
//!
//! A value `v: i32` stands for the real number `v / ONE`. All rounding is
//! floor rounding (Euclidean division by a positive divisor), so every
//! operation here has an exact integer statement.
use vstd::prelude::*;

verus! {

/// The raw value of `1.0`.
pub const ONE: i32 = 65536;

/// The real value `ONE`, as an integer of specifications.
pub open spec fn one() -> int {
    ONE as int
}

/// Stiffness `k = rate * dt` of one diffusion step, as a raw fixed-point value.
pub open spec fn stiffness_of(rate: int, dt: int) -> int {
    (rate * dt) / one()
}

/// One relaxation of a value `o` toward the mean `s / 4` of its four
/// neighbours: `(o + k * s / 4) / (1 + k)`, rounded down.
pub open spec fn relax(o: int, s: int, k: int) -> int {
    (4 * one() * o + k * s) / (4 * (one() + k))
}

/// Linear interpolation from `a` (at `t == 0`) toward `b` (at `t == ONE`),
/// rounded down: `a + t * (b - a)`.
pub open spec fn lerp(a: int, b: int, t: int) -> int {
    a + (t * (b - a)) / one()
}

/// The stiffness of a step of length `dt` at diffusion rate `rate`.
pub fn stiffness(rate: u32, dt: u32) -> (k: u64)
    ensures
        k == stiffness_of(rate as int, dt as int),
        k <= 0x1_0000_0000_0000,
{
    assert(0 <= rate as int * dt as int <= 0xffff_ffff * 0xffff_ffff) by (nonlinear_arith)
        requires 0 <= rate <= 0xffff_ffff, 0 <= dt <= 0xffff_ffff;
    let p: u64 = rate as u64 * dt as u64;
    proof {
        lemma_div_between(p as int, one(), 0, 0x1_0000_0000_0000);
    }
    p / (ONE as u64)
}

proof fn lemma_div_between(n: int, d: int, lo: int, hi: int)
    requires
        d > 0,
        d * lo <= n,
        n <= d * hi,
    ensures
        lo <= n / d <= hi,
{
    vstd::arithmetic::div_mod::lemma_fundamental_div_mod(n, d);
    let q = n / d;
    let r = n % d;
    assert(0 <= r < d);
    if q < lo {
        assert(d * q <= d * (lo - 1)) by (nonlinear_arith)
            requires q <= lo - 1, d > 0;
        assert(d * (lo - 1) + d == d * lo) by (nonlinear_arith);
    }
    if q > hi {
        assert(d * q >= d * (hi + 1)) by (nonlinear_arith)
            requires q >= hi + 1, d > 0;
        assert(d * (hi + 1) == d * hi + d) by (nonlinear_arith);
    }
}

/// A relaxed value stays between the least and the greatest of the value and
/// the neighbour mean.
pub proof fn lemma_relax_between(o: int, s: int, k: int, lo: int, hi: int)
    requires
        k >= 0,
        lo <= o <= hi,
        4 * lo <= s <= 4 * hi,
    ensures
        lo <= relax(o, s, k) <= hi,
{
    let d = 4 * (one() + k);
    let n = 4 * one() * o + k * s;
    assert(d * lo <= n) by (nonlinear_arith)
        requires d == 4 * (one() + k), n == 4 * one() * o + k * s, k >= 0, lo <= o, 4 * lo <= s, one() > 0;
    assert(n <= d * hi) by (nonlinear_arith)
        requires d == 4 * (one() + k), n == 4 * one() * o + k * s, k >= 0, o <= hi, s <= 4 * hi, one() > 0;
    lemma_div_between(n, d, lo, hi);
}

/// With no stiffness a relaxation hands the value back unchanged.
pub proof fn lemma_relax_zero(o: int, s: int)
    ensures
        relax(o, s, 0) == o,
{
    assert(4 * one() * o + 0 * s == (4 * (one() + 0)) * o) by (nonlinear_arith);
    vstd::arithmetic::div_mod::lemma_div_multiples_vanish(o, 4 * (one() + 0));
}

/// An interpolated value stays between its two end points.
pub proof fn lemma_lerp_between(a: int, b: int, t: int)
    requires
        0 <= t < one(),
    ensures
        a <= b ==> a <= lerp(a, b, t) <= b,
        b <= a ==> b <= lerp(a, b, t) <= a,
{
    if a <= b {
        assert(0 <= t * (b - a) <= one() * (b - a)) by (nonlinear_arith)
            requires 0 <= t < one(), a <= b;
        lemma_div_between(t * (b - a), one(), 0, b - a);
    } else {
        assert(one() * (b - a) <= t * (b - a) <= 0) by (nonlinear_arith)
            requires 0 <= t < one(), b < a;
        lemma_div_between(t * (b - a), one(), b - a, 0);
    }
}

/// At `t == 0` an interpolation gives its first end point.
pub proof fn lemma_lerp_zero(a: int, b: int)
    ensures
        lerp(a, b, 0) == a,
{
    assert(0 * (b - a) == 0);
}

/// `a / 4`, rounded down, of a sum of four `i32` values.
pub fn div4(s: i64) -> (r: i64)
    ensures
        r == s / 4,
{
    match s.checked_div_euclid(4) {
        Some(q) => q,
        None => 0,
    }
}

/// `relax` in machine integers.
pub fn relax_exec(o: i32, s: i64, k: u64) -> (r: i32)
    requires
        4 * (i32::MIN as int) <= s <= 4 * (i32::MAX as int),
        k <= 0x1_0000_0000_0000,
    ensures
        r == relax(o as int, s as int, k as int),
{
    proof {
        lemma_relax_between(o as int, s as int, k as int, i32::MIN as int, i32::MAX as int);
    }
    let kk: i128 = k as i128;
    assert(-0x1_0000_0000_0000 * 0x2_0000_0000 <= kk * s <= 0x1_0000_0000_0000 * 0x2_0000_0000)
        by (nonlinear_arith)
        requires 0 <= kk <= 0x1_0000_0000_0000, -0x2_0000_0000 <= s <= 0x2_0000_0000;
    let ks: i128 = kk * (s as i128);
    let n: i128 = 0x4_0000 * (o as i128) + ks;
    assert(n == 4 * one() * o + k * s);
    let d: i128 = 4 * ((ONE as i128) + kk);
    match n.checked_div_euclid(d) {
        Some(q) => q as i32,
        None => 0,
    }
}

/// `lerp` in machine integers.
pub fn lerp_exec(a: i32, b: i32, t: i64) -> (r: i32)
    requires
        0 <= t < one(),
    ensures
        r == lerp(a as int, b as int, t as int),
{
    proof {
        lemma_lerp_between(a as int, b as int, t as int);
    }
    let diff: i64 = b as i64 - a as i64;
    let p: i64 = t * diff;
    assert(-0x1_0000 * 0x1_0000_0000 <= p <= 0x1_0000 * 0x1_0000_0000) by (nonlinear_arith)
        requires p == t * diff, 0 <= t < 0x1_0000, -0x1_0000_0000 <= diff <= 0x1_0000_0000;
    match p.checked_div_euclid(ONE as i64) {
        Some(q) => (a as i64 + q) as i32,
        None => a,
    }
}

} // verus!

//! Binary fixed-point scalars.
//!
//! A real quantity `x` is represented by the integer `floor(x * 2^32)` held
//! in an `i64`.  All operations floor toward negative infinity, so every
//! result is pinned exactly by an integer formula in the contract.

use vstd::prelude::*;
use vstd::arithmetic::div_mod::lemma_remainder;
use vstd::arithmetic::div_mod::lemma_div_pos_is_pos;
use vstd::arithmetic::div_mod::lemma_fundamental_div_mod_converse_div;

verus! {

/// Units per 1.0: 2^32.
pub const SCALE: i64 = 4294967296;

/// Absolute tolerance used by `approx_eq` and `near_zero`:
/// `floor(1e-7 * 2^32)` units.
pub const TOL: i64 = 429;

/// Floor division for any nonzero divisor, stated over `int`.
/// For a positive divisor this is Euclidean division; a negative divisor is
/// normalized by negating both operands.
pub open spec fn floor_div(n: int, d: int) -> int {
    if d < 0 {
        (-n) / (-d)
    } else {
        n / d
    }
}

/// The product of two raw fixed-point values, scaled back down.
pub open spec fn mul_val(a: int, b: int) -> int {
    (a * b) / (SCALE as int)
}

/// The quotient of two raw fixed-point values, scaled back up.
pub open spec fn div_val(a: int, b: int) -> int {
    floor_div(a * (SCALE as int), b)
}

/// Integer square root by unary recursion; `sqrt_floor(n)` is the greatest
/// `r >= 0` with `r * r <= n`.
pub open spec fn sqrt_floor(n: int) -> int
    decreases n,
{
    if n <= 0 {
        0
    } else {
        let r = sqrt_floor(n - 1);
        if (r + 1) * (r + 1) <= n {
            r + 1
        } else {
            r
        }
    }
}

/// The raw value of the fixed-point square root of a raw value `n`:
/// `floor(sqrt(n / 2^32) * 2^32) == floor(sqrt(n * 2^32))`.
pub open spec fn sqrt_val(n: int) -> int {
    sqrt_floor(n * (SCALE as int))
}

pub proof fn lemma_sqrt_floor_bracket(n: int)
    requires
        n >= 0,
    ensures
        sqrt_floor(n) >= 0,
        sqrt_floor(n) * sqrt_floor(n) <= n,
        n < (sqrt_floor(n) + 1) * (sqrt_floor(n) + 1),
    decreases n,
{
    if n == 0 {
        assert(sqrt_floor(0) == 0);
    } else {
        lemma_sqrt_floor_bracket(n - 1);
        let r = sqrt_floor(n - 1);
        if (r + 1) * (r + 1) <= n {
            assert(n - 1 < (r + 1) * (r + 1));
            assert(n == (r + 1) * (r + 1));
            assert((r + 2) * (r + 2) > (r + 1) * (r + 1)) by (nonlinear_arith)
                requires
                    r >= 0,
            ;
        }
    }
}

pub proof fn lemma_sqrt_floor_unique(n: int, r: int)
    requires
        n >= 0,
        r >= 0,
        r * r <= n,
        n < (r + 1) * (r + 1),
    ensures
        r == sqrt_floor(n),
{
    lemma_sqrt_floor_bracket(n);
    let s = sqrt_floor(n);
    assert(r == s) by (nonlinear_arith)
        requires
            r >= 0,
            s >= 0,
            r * r <= n,
            n < (r + 1) * (r + 1),
            s * s <= n,
            n < (s + 1) * (s + 1),
    ;
}

/// Scaling a nonnegative value by a factor in [0, 1] cannot increase it.
pub proof fn lemma_mul_val_unit(a: int, b: int)
    requires
        0 <= a <= SCALE as int,
        0 <= b,
    ensures
        0 <= mul_val(a, b) <= b,
{
    assert(0 <= a * b <= (SCALE as int) * b) by (nonlinear_arith)
        requires
            0 <= a <= SCALE as int,
            0 <= b,
    ;
    vstd::arithmetic::div_mod::lemma_div_is_ordered(a * b, (SCALE as int) * b, SCALE as int);
    vstd::arithmetic::div_mod::lemma_div_by_multiple(b, SCALE as int);
    assert(b * (SCALE as int) == (SCALE as int) * b) by (nonlinear_arith);
    lemma_div_pos_is_pos(a * b, SCALE as int);
}

/// Scaling a value in [0, 1] by a factor in [-1, 1] keeps it in [-1, b].
pub proof fn lemma_mul_val_sym(a: int, b: int)
    requires
        -(SCALE as int) <= a <= SCALE as int,
        0 <= b <= SCALE as int,
    ensures
        -(SCALE as int) <= mul_val(a, b) <= b,
{
    assert(a * b <= (SCALE as int) * b) by (nonlinear_arith)
        requires
            a <= SCALE as int,
            0 <= b,
    ;
    vstd::arithmetic::div_mod::lemma_div_is_ordered(a * b, (SCALE as int) * b, SCALE as int);
    vstd::arithmetic::div_mod::lemma_div_by_multiple(b, SCALE as int);
    assert(b * (SCALE as int) == (SCALE as int) * b) by (nonlinear_arith);
    assert(-((SCALE as int) * (SCALE as int)) <= a * b) by (nonlinear_arith)
        requires
            -(SCALE as int) <= a <= SCALE as int,
            0 <= b <= SCALE as int,
    ;
    vstd::arithmetic::div_mod::lemma_div_is_ordered(
        -((SCALE as int) * (SCALE as int)),
        a * b,
        SCALE as int,
    );
    assert((-(SCALE as int)) * (SCALE as int) == -((SCALE as int) * (SCALE as int)))
        by (nonlinear_arith);
    assert(-((SCALE as int) * (SCALE as int)) == (-(SCALE as int)) * (SCALE as int) + 0);
    lemma_fundamental_div_mod_converse_div(
        -((SCALE as int) * (SCALE as int)),
        SCALE as int,
        -(SCALE as int),
        0,
    );
}

/// The scaled quotient of `n` by a divisor at least as large stays in [0, 1].
pub proof fn lemma_ratio_le_one(n: int, d: int)
    requires
        0 <= n <= d,
        1 <= d,
    ensures
        0 <= div_val(n, d) <= SCALE as int,
{
    assert(n * (SCALE as int) <= d * (SCALE as int)) by (nonlinear_arith)
        requires
            n <= d,
    ;
    vstd::arithmetic::div_mod::lemma_div_is_ordered(
        n * (SCALE as int),
        d * (SCALE as int),
        d,
    );
    vstd::arithmetic::div_mod::lemma_div_by_multiple(SCALE as int, d);
    assert((SCALE as int) * d == d * (SCALE as int)) by (nonlinear_arith);
    assert(n * (SCALE as int) >= 0) by (nonlinear_arith)
        requires
            n >= 0,
    ;
    lemma_div_pos_is_pos(n * (SCALE as int), d);
}

/// Any `c` whose square dominates the radicand bounds the root from above.
pub proof fn lemma_sqrt_val_le(f: int, c: int)
    requires
        0 <= f,
        0 <= c,
        f * (SCALE as int) <= c * c,
    ensures
        sqrt_val(f) <= c,
{
    lemma_sqrt_floor_bracket(f * (SCALE as int));
    let s = sqrt_floor(f * (SCALE as int));
    assert(s <= c) by (nonlinear_arith)
        requires
            s >= 0,
            c >= 0,
            s * s <= f * (SCALE as int),
            f * (SCALE as int) <= c * c,
    ;
}

/// The root of a value at least 1 is at least 1.
pub proof fn lemma_sqrt_val_ge_one(f: int)
    requires
        f >= SCALE as int,
    ensures
        sqrt_val(f) >= SCALE as int,
{
    lemma_sqrt_floor_bracket(f * (SCALE as int));
    let s = sqrt_floor(f * (SCALE as int));
    assert((SCALE as int) * (SCALE as int) <= f * (SCALE as int)) by (nonlinear_arith)
        requires
            f >= SCALE as int,
    ;
    assert(s >= SCALE as int) by (nonlinear_arith)
        requires
            s >= 0,
            (SCALE as int) * (SCALE as int) <= f * (SCALE as int),
            f * (SCALE as int) < (s + 1) * (s + 1),
    ;
}

/// Dividing by at least 2.0 at most halves the raw value.
pub proof fn lemma_div_val_half(t: int, d: int)
    requires
        0 <= t,
        d >= 2 * (SCALE as int),
    ensures
        0 <= div_val(t, d) <= t / 2,
{
    assert(t * (SCALE as int) >= 0) by (nonlinear_arith)
        requires
            t >= 0,
    ;
    vstd::arithmetic::div_mod::lemma_div_is_ordered_by_denominator(
        t * (SCALE as int),
        2 * (SCALE as int),
        d,
    );
    vstd::arithmetic::div_mod::lemma_div_denominator(t * (SCALE as int), SCALE as int, 2);
    vstd::arithmetic::div_mod::lemma_div_by_multiple(t, SCALE as int);
    assert(t * (SCALE as int) == (SCALE as int) * t) by (nonlinear_arith);
    assert((SCALE as int) * 2 == 2 * (SCALE as int));
    lemma_div_pos_is_pos(t * (SCALE as int), d);
}

/// Scaling any nonnegative value by a factor in [-1, 1] keeps its magnitude.
pub proof fn lemma_mul_val_bnd(a: int, b: int)
    requires
        -(SCALE as int) <= a <= SCALE as int,
        0 <= b,
    ensures
        -b - 1 <= mul_val(a, b) <= b,
{
    assert(a * b <= (SCALE as int) * b) by (nonlinear_arith)
        requires
            a <= SCALE as int,
            0 <= b,
    ;
    assert(-((SCALE as int) * b) <= a * b) by (nonlinear_arith)
        requires
            -(SCALE as int) <= a,
            0 <= b,
    ;
    vstd::arithmetic::div_mod::lemma_div_is_ordered(a * b, (SCALE as int) * b, SCALE as int);
    vstd::arithmetic::div_mod::lemma_div_is_ordered(-((SCALE as int) * b), a * b, SCALE as int);
    vstd::arithmetic::div_mod::lemma_div_by_multiple(b, SCALE as int);
    assert(b * (SCALE as int) == (SCALE as int) * b) by (nonlinear_arith);
    crate::vec3::lemma_neg_div((SCALE as int) * b, SCALE as int);
}

/// Scaling any value by a factor in [-1, 1] keeps its magnitude, up to the
/// floor.
pub proof fn lemma_mul_val_abs(a: int, b: int)
    requires
        -(SCALE as int) <= a <= SCALE as int,
    ensures
        -(if b < 0 {
            -b
        } else {
            b
        }) - 1 <= mul_val(a, b) <= (if b < 0 {
            -b
        } else {
            b
        }),
{
    let bb: int = if b < 0 {
        -b
    } else {
        b
    };
    assert(-((SCALE as int) * bb) <= a * b <= (SCALE as int) * bb) by (nonlinear_arith)
        requires
            -(SCALE as int) <= a <= SCALE as int,
            -bb <= b <= bb,
            0 <= bb,
    ;
    vstd::arithmetic::div_mod::lemma_div_is_ordered(a * b, (SCALE as int) * bb, SCALE as int);
    vstd::arithmetic::div_mod::lemma_div_is_ordered(-((SCALE as int) * bb), a * b, SCALE as int);
    vstd::arithmetic::div_mod::lemma_div_by_multiple(bb, SCALE as int);
    assert(bb * (SCALE as int) == (SCALE as int) * bb) by (nonlinear_arith);
    crate::vec3::lemma_neg_div((SCALE as int) * bb, SCALE as int);
}

/// A quotient by a positive divisor is no larger in magnitude than the
/// dividend (up to the floor).
pub proof fn lemma_div_mag(a: int, d: int)
    requires
        d >= 1,
    ensures
        -(if a < 0 {
            -a
        } else {
            a
        }) - 1 <= a / d <= (if a < 0 {
            -a
        } else {
            a
        }),
{
    if a >= 0 {
        vstd::arithmetic::div_mod::lemma_div_is_ordered_by_denominator(a, 1, d);
        vstd::arithmetic::div_mod::lemma_div_by_multiple(a, 1);
        lemma_div_pos_is_pos(a, d);
    } else {
        let x: int = -a;
        vstd::arithmetic::div_mod::lemma_div_is_ordered_by_denominator(x, 1, d);
        vstd::arithmetic::div_mod::lemma_div_by_multiple(x, 1);
        lemma_div_pos_is_pos(x, d);
        crate::vec3::lemma_neg_div(x, d);
    }
}

/// A fixed-point number: `raw` counts units of 2^-32.
#[derive(Clone, Copy, PartialEq, Eq, Structural, Debug)]
pub struct Fx {
    pub raw: i64,
}

/// Floor division of `a` by a positive divisor `d`.
pub(crate) fn div_floor_wide(a: i128, d: i128) -> (r: i128)
    requires
        d > 0,
        a >= -85070591730234615865843651857942052864,
    ensures
        r == a as int / d as int,
{
    if a >= 0 {
        let q: u128 = (a as u128) / (d as u128);
        proof {
            lemma_remainder(a as int, d as int);
            lemma_div_pos_is_pos(a as int, d as int);
            let qi: int = a as int / d as int;
            assert(qi <= a) by (nonlinear_arith)
                requires
                    qi >= 0,
                    d >= 1,
                    qi * d <= a,
            ;
        }
        q as i128
    } else {
        let au: u128 = (-a) as u128;
        let du: u128 = d as u128;
        let q: u128 = (au + (du - 1)) / du;
        proof {
            let x: int = au + du - 1;
            lemma_remainder(x, d as int);
            lemma_div_pos_is_pos(x, d as int);
            let qi: int = x / (d as int);
            let r0: int = x - qi * (d as int);
            assert(0 <= r0 < d);
            let rr: int = d - 1 - r0;
            assert((-qi) * (d as int) == -(qi * (d as int))) by (nonlinear_arith);
            assert(a as int == (-qi) * (d as int) + rr);
            lemma_fundamental_div_mod_converse_div(a as int, d as int, -qi, rr);
            assert(qi <= au + 1) by (nonlinear_arith)
                requires
                    qi >= 0,
                    d >= 1,
                    au >= 0,
                    qi * d <= au + d - 1,
            ;
        }
        let qs: i128 = q as i128;
        -qs
    }
}

impl Fx {
    /// The zero value.
    pub fn zero() -> (r: Fx)
        ensures
            r.raw == 0,
    {
        Fx { raw: 0 }
    }

    /// The whole number `v`.
    pub fn from_int(v: i64) -> (r: Fx)
        requires
            -2147483648 <= v <= 2147483647,
        ensures
            r.raw == v * SCALE,
    {
        Fx { raw: v * SCALE }
    }

    pub fn fadd(self, o: Fx) -> (r: Fx)
        requires
            i64::MIN <= self.raw + o.raw <= i64::MAX,
        ensures
            r.raw == self.raw + o.raw,
    {
        Fx { raw: self.raw + o.raw }
    }

    pub fn fsub(self, o: Fx) -> (r: Fx)
        requires
            i64::MIN <= self.raw - o.raw <= i64::MAX,
        ensures
            r.raw == self.raw - o.raw,
    {
        Fx { raw: self.raw - o.raw }
    }

    pub fn fneg(self) -> (r: Fx)
        requires
            self.raw > i64::MIN,
        ensures
            r.raw == -self.raw,
    {
        Fx { raw: -self.raw }
    }

    pub fn fabs(self) -> (r: Fx)
        requires
            self.raw > i64::MIN,
        ensures
            r.raw == if self.raw < 0 {
                -self.raw as int
            } else {
                self.raw as int
            },
    {
        if self.raw < 0 {
            Fx { raw: -self.raw }
        } else {
            self
        }
    }

    /// Fixed-point product, floored.
    pub fn fmul(self, o: Fx) -> (r: Fx)
        requires
            i64::MIN <= mul_val(self.raw as int, o.raw as int) <= i64::MAX,
        ensures
            r.raw == mul_val(self.raw as int, o.raw as int),
    {
        proof {
            assert(-85070591730234615865843651857942052864
                <= (self.raw as int) * (o.raw as int)
                <= 85070591730234615865843651857942052864) by (nonlinear_arith)
                requires
                    -9223372036854775808 <= self.raw <= 9223372036854775807,
                    -9223372036854775808 <= o.raw <= 9223372036854775807,
            ;
        }
        let p: i128 = (self.raw as i128) * (o.raw as i128);
        let q: i128 = div_floor_wide(p, SCALE as i128);
        Fx { raw: q as i64 }
    }

    /// Fixed-point quotient, floored toward negative infinity after sign
    /// normalization.
    pub fn fdiv(self, o: Fx) -> (r: Fx)
        requires
            o.raw != 0,
            i64::MIN <= div_val(self.raw as int, o.raw as int) <= i64::MAX,
        ensures
            r.raw == div_val(self.raw as int, o.raw as int),
    {
        let n: i128 = (self.raw as i128) * (SCALE as i128);
        let q: i128 = if o.raw < 0 {
            div_floor_wide(-n, -(o.raw as i128))
        } else {
            div_floor_wide(n, o.raw as i128)
        };
        Fx { raw: q as i64 }
    }

    /// Half of the value, floored.
    pub fn fhalf(self) -> (r: Fx)
        ensures
            r.raw == self.raw as int / 2,
    {
        let q: i128 = div_floor_wide(self.raw as i128, 2);
        Fx { raw: q as i64 }
    }

    /// Fixed-point square root of a nonnegative value.
    pub fn fsqrt(self) -> (r: Fx)
        requires
            self.raw >= 0,
        ensures
            r.raw == sqrt_val(self.raw as int),
            r.raw >= 0,
    {
        let n: u128 = (self.raw as u128) * (SCALE as u128);
        let r: u128 = isqrt(n);
        proof {
            assert((n as int) == (self.raw as int) * 4294967296);
            assert((n as int) <= 9223372036854775807int * 4294967296int) by (nonlinear_arith)
                requires
                    (n as int) == (self.raw as int) * 4294967296,
                    self.raw <= 9223372036854775807,
            ;
            lemma_sqrt_floor_bracket(n as int);
            let s: int = sqrt_floor(n as int);
            assert(s < 281474976710656) by (nonlinear_arith)
                requires
                    s >= 0,
                    s * s <= n as int,
                    (n as int) < 79228162514264337593543950336,
            ;
        }
        Fx { raw: r as i64 }
    }

    /// `|self - o| < 1e-7`, with the tolerance floored to whole units.
    pub fn approx_eq(self, o: Fx) -> (r: bool)
        requires
            i64::MIN <= self.raw - o.raw <= i64::MAX,
        ensures
            r <==> -TOL < self.raw - o.raw < TOL,
    {
        let d: i64 = self.raw - o.raw;
        -TOL < d && d < TOL
    }

    /// Is the value approximately zero, under the shared tolerance.
    pub fn near_zero(self) -> (r: bool)
        ensures
            r <==> -TOL < self.raw < TOL,
    {
        -TOL < self.raw && self.raw < TOL
    }
}

/// Greatest `r` with `r * r <= n`.
pub fn isqrt(n: u128) -> (r: u128)
    ensures
        r as int == sqrt_floor(n as int),
        r * r <= n,
{
    let mut lo: u128 = 0;
    let mut hi: u128 = 18446744073709551616;
    proof {
        assert(18446744073709551616int * 18446744073709551616int
            == 0x100000000000000000000000000000000int) by (nonlinear_arith);
    }
    while hi - lo > 1
        invariant
            0 <= lo < hi,
            hi <= 18446744073709551616,
            (lo as int) * (lo as int) <= n as int,
            (n as int) < (hi as int) * (hi as int),
        decreases hi - lo,
    {
        let mid: u128 = lo + (hi - lo) / 2;
        let quo: u128 = n / mid;
        proof {
            lemma_remainder(n as int, mid as int);
        }
        if mid <= quo {
            proof {
                assert((mid as int) * (mid as int) <= n as int) by (nonlinear_arith)
                    requires
                        mid >= 1,
                        mid <= n as int / mid as int,
                        n as int - (n as int / mid as int) * (mid as int) >= 0,
                ;
            }
            lo = mid;
        } else {
            proof {
                assert((n as int) < (mid as int) * (mid as int)) by (nonlinear_arith)
                    requires
                        mid >= 1,
                        mid > n as int / mid as int,
                        n as int - (n as int / mid as int) * (mid as int) < mid as int,
                ;
            }
            hi = mid;
        }
    }
    proof {
        lemma_sqrt_floor_unique(n as int, lo as int);
    }
    lo
}

/// Linear remap of `x` from the span `c0..c1` onto `t0..t1`, as
/// `(x - c0) * (t1 - t0) / (c1 - c0) + t0` with a single floored division.
pub fn remap(x: Fx, c0: Fx, c1: Fx, t0: Fx, t1: Fx) -> (r: Fx)
    requires
        c0.raw != c1.raw,
        -4611686018427387904 <= x.raw - c0.raw <= 4611686018427387904,
        -4611686018427387904 <= t1.raw - t0.raw <= 4611686018427387904,
        i64::MIN <= floor_div((x.raw - c0.raw) * (t1.raw - t0.raw), c1.raw - c0.raw) + t0.raw
            <= i64::MAX,
    ensures
        r.raw == floor_div((x.raw - c0.raw) * (t1.raw - t0.raw), c1.raw - c0.raw) + t0.raw,
{
    proof {
        assert(-85070591730234615865843651857942052864
            <= ((x.raw as int) - (c0.raw as int)) * ((t1.raw as int) - (t0.raw as int))
            <= 85070591730234615865843651857942052864) by (nonlinear_arith)
            requires
                -4611686018427387904 <= (x.raw as int) - (c0.raw as int)
                    <= 4611686018427387904,
                -4611686018427387904 <= (t1.raw as int) - (t0.raw as int)
                    <= 4611686018427387904,
        ;
    }
    let num: i128 = ((x.raw as i128) - (c0.raw as i128)) * ((t1.raw as i128) - (t0.raw as i128));
    let den: i128 = (c1.raw as i128) - (c0.raw as i128);
    let q: i128 = if den < 0 {
        div_floor_wide(-num, -den)
    } else {
        div_floor_wide(num, den)
    };
    let s: i128 = q + (t0.raw as i128);
    Fx { raw: s as i64 }
}

} // verus!

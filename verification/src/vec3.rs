//! Fixed-point 3-vectors: dot and cross products, norms, and the guarded
//! quotients that the element conversions build their angles from.

use vstd::prelude::*;
use vstd::arithmetic::div_mod::lemma_div_pos_is_pos;
use vstd::arithmetic::div_mod::lemma_div_is_ordered;
use crate::fixed::Fx;
use crate::fixed::SCALE;
use crate::fixed::mul_val;
use crate::fixed::div_val;
use crate::fixed::sqrt_floor;
use crate::fixed::lemma_sqrt_floor_bracket;

verus! {

/// Component cap (2^46 raw units, about 16384.0) under which every product
/// of two components fits comfortably in an `i64` after rescaling.
pub const VCAP: i64 = 70368744177664;

/// A vector of three fixed-point coordinates.
#[derive(Clone, Copy, PartialEq, Eq, Structural, Debug)]
pub struct V3 {
    pub x: Fx,
    pub y: Fx,
    pub z: Fx,
}

/// All three components within `cap` raw units in magnitude.
pub open spec fn in_cap(v: V3, cap: int) -> bool {
    &&& -cap <= v.x.raw <= cap
    &&& -cap <= v.y.raw <= cap
    &&& -cap <= v.z.raw <= cap
}

/// The wide dot product: exact sum of raw coordinate products (scale 2^64).
pub open spec fn wdot_val(a: V3, b: V3) -> int {
    (a.x.raw as int) * (b.x.raw as int) + (a.y.raw as int) * (b.y.raw as int) + (a.z.raw as int)
        * (b.z.raw as int)
}

/// The floored Euclidean norm: `sqrt` of the wide self-dot lands back on
/// scale 2^32 with a single rounding.
pub open spec fn len_val(v: V3) -> int {
    sqrt_floor(wdot_val(v, v))
}

/// A wide-numerator quotient clamped into [-1, 1]: `num` carries scale 2^64,
/// `den` scale 2^32, so the plain quotient is a 2^32-scale ratio.
pub open spec fn ratio_wide_val(num: int, den: int) -> int {
    if num >= den * (SCALE as int) {
        SCALE as int
    } else if num <= -(den * (SCALE as int)) {
        -(SCALE as int)
    } else {
        num / den
    }
}

pub open spec fn cross_x_val(a: V3, b: V3) -> int {
    mul_val(a.y.raw as int, b.z.raw as int) - mul_val(a.z.raw as int, b.y.raw as int)
}

pub open spec fn cross_y_val(a: V3, b: V3) -> int {
    mul_val(a.z.raw as int, b.x.raw as int) - mul_val(a.x.raw as int, b.z.raw as int)
}

pub open spec fn cross_z_val(a: V3, b: V3) -> int {
    mul_val(a.x.raw as int, b.y.raw as int) - mul_val(a.y.raw as int, b.x.raw as int)
}

/// The wide cross product divided by a positive scalar, floored once per
/// component: component `x` is `floor((a.y*b.z - a.z*b.y) / d)` at full
/// intermediate precision.
pub open spec fn cross_div_x_val(a: V3, b: V3, d: int) -> int {
    ((a.y.raw as int) * (b.z.raw as int) - (a.z.raw as int) * (b.y.raw as int)) / d
}

pub open spec fn cross_div_y_val(a: V3, b: V3, d: int) -> int {
    ((a.z.raw as int) * (b.x.raw as int) - (a.x.raw as int) * (b.z.raw as int)) / d
}

pub open spec fn cross_div_z_val(a: V3, b: V3, d: int) -> int {
    ((a.x.raw as int) * (b.y.raw as int) - (a.y.raw as int) * (b.x.raw as int)) / d
}

/// A quotient clamped into [-1, 1]; the guard that keeps arccosine
/// arguments in range despite rounding.
pub open spec fn ratio_val(n: int, d: int) -> int {
    if n >= d {
        SCALE as int
    } else if n <= -d {
        -(SCALE as int)
    } else {
        div_val(n, d)
    }
}

/// A floored product of two raw values never exceeds the floored product of
/// their caps.
pub proof fn lemma_mul_val_cap(a: int, b: int, cap: int)
    requires
        0 <= cap,
        -cap <= a <= cap,
        -cap <= b <= cap,
    ensures
        -(cap * cap) <= a * b <= cap * cap,
        -((cap * cap) / (SCALE as int)) - 1 <= mul_val(a, b) <= (cap * cap) / (SCALE as int),
{
    assert(-(cap * cap) <= a * b <= cap * cap) by (nonlinear_arith)
        requires
            0 <= cap,
            -cap <= a <= cap,
            -cap <= b <= cap,
    ;
    lemma_div_is_ordered(a * b, cap * cap, SCALE as int);
    lemma_div_is_ordered(-(cap * cap), a * b, SCALE as int);
    lemma_neg_div(cap * cap, SCALE as int);
}

/// Relates the floor of `-n / d` to the floor of `n / d`.
pub proof fn lemma_neg_div(n: int, d: int)
    requires
        d > 0,
    ensures
        -(n / d) - 1 <= (-n) / d <= -(n / d),
{
    let q: int = n / d;
    let r: int = n % d;
    vstd::arithmetic::div_mod::lemma_fundamental_div_mod(n, d);
    vstd::arithmetic::div_mod::lemma_mod_division_less_than_divisor(n, d);
    assert(n == d * q + r);
    assert(d * q == q * d) by (nonlinear_arith);
    if r == 0 {
        assert((-q) * d == -(q * d)) by (nonlinear_arith);
        assert(-n == (-q) * d + 0);
        vstd::arithmetic::div_mod::lemma_fundamental_div_mod_converse_div(-n, d, -q, 0);
    } else {
        assert((-q - 1) * d == -(q * d) - d) by (nonlinear_arith);
        assert(-n == (-q - 1) * d + (d - r));
        vstd::arithmetic::div_mod::lemma_fundamental_div_mod_converse_div(-n, d, -q - 1, d - r);
    }
}

/// A square scaled down is nonnegative.
pub proof fn lemma_sq_val_nonneg(a: int)
    ensures
        mul_val(a, a) >= 0,
        a * a >= 0,
{
    assert(a * a >= 0) by (nonlinear_arith);
    lemma_div_pos_is_pos(a * a, SCALE as int);
}

/// A quotient with a double-width numerator, clamped to the unit interval.
pub fn ratio_clamped_wide(num: i128, den: Fx) -> (r: Fx)
    requires
        den.raw >= 1,
        -1298074214633706907132624082305024 <= num <= 1298074214633706907132624082305024,
    ensures
        r.raw == ratio_wide_val(num as int, den.raw as int),
        -SCALE <= r.raw <= SCALE,
{
    let ds: i128 = (den.raw as i128) * 4294967296;
    if num >= ds {
        Fx { raw: SCALE }
    } else if num <= -ds {
        Fx { raw: -SCALE }
    } else {
        let q: i128 = crate::fixed::div_floor_wide(num, den.raw as i128);
        proof {
            let n: int = num as int;
            let d: int = den.raw as int;
            let s: int = SCALE as int;
            assert(d * (s - 1) + (d - 1) == d * s - 1) by (nonlinear_arith);
            lemma_div_is_ordered(n, d * s - 1, d);
            vstd::arithmetic::div_mod::lemma_fundamental_div_mod_converse_div(
                d * s - 1,
                d,
                s - 1,
                d - 1,
            );
            assert((s - 1) * d == d * (s - 1)) by (nonlinear_arith);
            assert((-s) * d == -(d * s)) by (nonlinear_arith);
            lemma_div_is_ordered(-(d * s), n, d);
            vstd::arithmetic::div_mod::lemma_fundamental_div_mod_converse_div(
                -(d * s),
                d,
                -s,
                0,
            );
        }
        Fx { raw: q as i64 }
    }
}

impl V3 {
    pub fn new(x: Fx, y: Fx, z: Fx) -> (r: V3)
        ensures
            r.x == x,
            r.y == y,
            r.z == z,
    {
        V3 { x, y, z }
    }

    /// The zero vector.
    pub fn zero() -> (r: V3)
        ensures
            r.x.raw == 0,
            r.y.raw == 0,
            r.z.raw == 0,
    {
        V3 { x: Fx { raw: 0 }, y: Fx { raw: 0 }, z: Fx { raw: 0 } }
    }

    pub fn vadd(self, o: V3) -> (r: V3)
        requires
            i64::MIN <= self.x.raw + o.x.raw <= i64::MAX,
            i64::MIN <= self.y.raw + o.y.raw <= i64::MAX,
            i64::MIN <= self.z.raw + o.z.raw <= i64::MAX,
        ensures
            r.x.raw == self.x.raw + o.x.raw,
            r.y.raw == self.y.raw + o.y.raw,
            r.z.raw == self.z.raw + o.z.raw,
    {
        V3 { x: self.x.fadd(o.x), y: self.y.fadd(o.y), z: self.z.fadd(o.z) }
    }

    pub fn vsub(self, o: V3) -> (r: V3)
        requires
            i64::MIN <= self.x.raw - o.x.raw <= i64::MAX,
            i64::MIN <= self.y.raw - o.y.raw <= i64::MAX,
            i64::MIN <= self.z.raw - o.z.raw <= i64::MAX,
        ensures
            r.x.raw == self.x.raw - o.x.raw,
            r.y.raw == self.y.raw - o.y.raw,
            r.z.raw == self.z.raw - o.z.raw,
    {
        V3 { x: self.x.fsub(o.x), y: self.y.fsub(o.y), z: self.z.fsub(o.z) }
    }

    /// Scale every component by `s`, flooring each product.
    pub fn scale(self, s: Fx) -> (r: V3)
        requires
            i64::MIN <= mul_val(self.x.raw as int, s.raw as int) <= i64::MAX,
            i64::MIN <= mul_val(self.y.raw as int, s.raw as int) <= i64::MAX,
            i64::MIN <= mul_val(self.z.raw as int, s.raw as int) <= i64::MAX,
        ensures
            r.x.raw == mul_val(self.x.raw as int, s.raw as int),
            r.y.raw == mul_val(self.y.raw as int, s.raw as int),
            r.z.raw == mul_val(self.z.raw as int, s.raw as int),
    {
        V3 { x: self.x.fmul(s), y: self.y.fmul(s), z: self.z.fmul(s) }
    }

    /// Wide dot product: exact sum of raw coordinate products, at scale 2^64.
    pub fn dot_wide(self, o: V3) -> (r: i128)
        requires
            in_cap(self, 1152921504606846976),
            in_cap(o, 1152921504606846976),
        ensures
            r == wdot_val(self, o),
    {
        proof {
            lemma_mul_val_cap(self.x.raw as int, o.x.raw as int, 1152921504606846976);
            lemma_mul_val_cap(self.y.raw as int, o.y.raw as int, 1152921504606846976);
            lemma_mul_val_cap(self.z.raw as int, o.z.raw as int, 1152921504606846976);
            assert(1152921504606846976int * 1152921504606846976int
                == 1329227995784915872903807060280344576int) by (nonlinear_arith);
        }
        (self.x.raw as i128) * (o.x.raw as i128) + (self.y.raw as i128) * (o.y.raw as i128) + (
        self.z.raw as i128) * (o.z.raw as i128)
    }

    /// Fixed-point cross product, each component floored termwise.
    pub fn cross(self, o: V3) -> (r: V3)
        requires
            in_cap(self, VCAP as int),
            in_cap(o, VCAP as int),
        ensures
            r.x.raw == cross_x_val(self, o),
            r.y.raw == cross_y_val(self, o),
            r.z.raw == cross_z_val(self, o),
    {
        proof {
            lemma_mul_val_cap(self.x.raw as int, o.y.raw as int, VCAP as int);
            lemma_mul_val_cap(self.x.raw as int, o.z.raw as int, VCAP as int);
            lemma_mul_val_cap(self.y.raw as int, o.x.raw as int, VCAP as int);
            lemma_mul_val_cap(self.y.raw as int, o.z.raw as int, VCAP as int);
            lemma_mul_val_cap(self.z.raw as int, o.x.raw as int, VCAP as int);
            lemma_mul_val_cap(self.z.raw as int, o.y.raw as int, VCAP as int);
            assert((VCAP as int) * (VCAP as int) == 4951760157141521099596496896int)
                by (nonlinear_arith);
        }
        V3 {
            x: self.y.fmul(o.z).fsub(self.z.fmul(o.y)),
            y: self.z.fmul(o.x).fsub(self.x.fmul(o.z)),
            z: self.x.fmul(o.y).fsub(self.y.fmul(o.x)),
        }
    }

    /// Euclidean norm: the raw products feed the square root directly, with
    /// no intermediate rescaling.
    pub fn length(self) -> (r: Fx)
        requires
            in_cap(self, 1152921504606846976),
        ensures
            r.raw == len_val(self),
            r.raw >= 0,
    {
        let d: i128 = self.dot_wide(self);
        proof {
            lemma_wdot_self_nonneg(self);
            assert(2305843009213693951int * 2305843009213693951int
                < 5316911983139663491615228241121378304int) by (nonlinear_arith);
            assert(3 * (1152921504606846976int * 1152921504606846976int)
                <= 2305843009213693951int * 2305843009213693951int) by (nonlinear_arith);
            lemma_len_val_cap(self, 1152921504606846976, 2305843009213693951);
            assert((self.x.raw as int) * (self.x.raw as int)
                <= 1152921504606846976int * 1152921504606846976int) by (nonlinear_arith)
                requires
                    -1152921504606846976 <= self.x.raw <= 1152921504606846976,
            ;
            assert((self.y.raw as int) * (self.y.raw as int)
                <= 1152921504606846976int * 1152921504606846976int) by (nonlinear_arith)
                requires
                    -1152921504606846976 <= self.y.raw <= 1152921504606846976,
            ;
            assert((self.z.raw as int) * (self.z.raw as int)
                <= 1152921504606846976int * 1152921504606846976int) by (nonlinear_arith)
                requires
                    -1152921504606846976 <= self.z.raw <= 1152921504606846976,
            ;
            crate::fixed::lemma_sqrt_floor_bracket(d as int);
            let s: int = sqrt_floor(d as int);
            assert(s < 2305843009213693952int) by (nonlinear_arith)
                requires
                    s >= 0,
                    s * s <= d as int,
                    (d as int) < 5316911983139663491615228241121378304int,
            ;
        }
        let r: u128 = crate::fixed::isqrt(d as u128);
        Fx { raw: r as i64 }
    }
}

/// The wide dot of a vector with itself is a sum of squares.
pub proof fn lemma_wdot_self_nonneg(v: V3)
    ensures
        wdot_val(v, v) >= 0,
{
    assert((v.x.raw as int) * (v.x.raw as int) >= 0) by (nonlinear_arith);
    assert((v.y.raw as int) * (v.y.raw as int) >= 0) by (nonlinear_arith);
    assert((v.z.raw as int) * (v.z.raw as int) >= 0) by (nonlinear_arith);
}

/// Caps on the components bound the norm.
pub proof fn lemma_len_val_cap(v: V3, cap: int, c: int)
    requires
        in_cap(v, cap),
        0 <= cap,
        0 <= c,
        3 * (cap * cap) <= c * c,
    ensures
        0 <= len_val(v),
        len_val(v) <= c,
{
    assert((v.x.raw as int) * (v.x.raw as int) <= cap * cap) by (nonlinear_arith)
        requires
            -cap <= v.x.raw <= cap,
    ;
    assert((v.y.raw as int) * (v.y.raw as int) <= cap * cap) by (nonlinear_arith)
        requires
            -cap <= v.y.raw <= cap,
    ;
    assert((v.z.raw as int) * (v.z.raw as int) <= cap * cap) by (nonlinear_arith)
        requires
            -cap <= v.z.raw <= cap,
    ;
    lemma_wdot_self_nonneg(v);
    crate::fixed::lemma_sqrt_floor_bracket(wdot_val(v, v));
    let s: int = len_val(v);
    assert(s <= c) by (nonlinear_arith)
        requires
            s >= 0,
            c >= 0,
            s * s <= wdot_val(v, v),
            wdot_val(v, v) <= 3 * (cap * cap),
            3 * (cap * cap) <= c * c,
    ;
}

/// A vector whose wide self-dot is at least 1 has norm at least 1.
pub proof fn lemma_len_val_pos(v: V3)
    requires
        wdot_val(v, v) >= 1,
    ensures
        len_val(v) >= 1,
{
    crate::fixed::lemma_sqrt_floor_bracket(wdot_val(v, v));
    let s: int = len_val(v);
    assert(s >= 1) by (nonlinear_arith)
        requires
            s >= 0,
            wdot_val(v, v) >= 1,
            wdot_val(v, v) < (s + 1) * (s + 1),
    ;
}

/// Caps on the factors bound the wide dot product.
pub proof fn lemma_wdot_cap(a: V3, b: V3, ca: int, cb: int)
    requires
        in_cap(a, ca),
        in_cap(b, cb),
        0 <= ca,
        0 <= cb,
    ensures
        -(3 * (ca * cb)) <= wdot_val(a, b) <= 3 * (ca * cb),
{
    assert(-(ca * cb) <= (a.x.raw as int) * (b.x.raw as int) <= ca * cb) by (nonlinear_arith)
        requires
            0 <= ca,
            0 <= cb,
            -ca <= a.x.raw <= ca,
            -cb <= b.x.raw <= cb,
    ;
    assert(-(ca * cb) <= (a.y.raw as int) * (b.y.raw as int) <= ca * cb) by (nonlinear_arith)
        requires
            0 <= ca,
            0 <= cb,
            -ca <= a.y.raw <= ca,
            -cb <= b.y.raw <= cb,
    ;
    assert(-(ca * cb) <= (a.z.raw as int) * (b.z.raw as int) <= ca * cb) by (nonlinear_arith)
        requires
            0 <= ca,
            0 <= cb,
            -ca <= a.z.raw <= ca,
            -cb <= b.z.raw <= cb,
    ;
}

/// `(a x b) / d` with the numerator at full double-width precision: one
/// floored division per component, each result checked into a +-8.0 window
/// (the eccentricity-vector scale).
pub fn cross_div_checked(a: V3, b: V3, d: Fx) -> (r: Option<V3>)
    requires
        in_cap(a, VCAP as int),
        in_cap(b, 1152921504606846976),
        d.raw >= 1,
    ensures
        match r {
            Some(v) => {
                &&& v.x.raw == cross_div_x_val(a, b, d.raw as int)
                &&& v.y.raw == cross_div_y_val(a, b, d.raw as int)
                &&& v.z.raw == cross_div_z_val(a, b, d.raw as int)
                &&& in_cap(v, 34359738368)
                &&& cross_div_ok(a, b, d.raw as int)
            },
            None => !cross_div_ok(a, b, d.raw as int),
        },
{
    let x: Option<Fx> = wide_mul_sub_div(a.y, b.z, a.z, b.y, d);
    let y: Option<Fx> = wide_mul_sub_div(a.z, b.x, a.x, b.z, d);
    let z: Option<Fx> = wide_mul_sub_div(a.x, b.y, a.y, b.x, d);
    match (x, y, z) {
        (Some(x), Some(y), Some(z)) => Some(V3 { x, y, z }),
        _ => None,
    }
}

/// All three components of `(a x b) / d` lie within the +-8.0 window.
pub open spec fn cross_div_ok(a: V3, b: V3, d: int) -> bool {
    &&& -34359738368 <= cross_div_x_val(a, b, d) <= 34359738368
    &&& -34359738368 <= cross_div_y_val(a, b, d) <= 34359738368
    &&& -34359738368 <= cross_div_z_val(a, b, d) <= 34359738368
}

/// `floor((p*q - s*t) / d)` computed in 128-bit intermediates, `None` when
/// the quotient leaves the +-8.0 window.
fn wide_mul_sub_div(p: Fx, q: Fx, s: Fx, t: Fx, d: Fx) -> (r: Option<Fx>)
    requires
        -VCAP <= p.raw <= VCAP,
        -VCAP <= s.raw <= VCAP,
        -1152921504606846976 <= q.raw <= 1152921504606846976,
        -1152921504606846976 <= t.raw <= 1152921504606846976,
        d.raw >= 1,
    ensures
        ({
            let v = ((p.raw as int) * (q.raw as int) - (s.raw as int) * (t.raw as int)) / (
            d.raw as int);
            match r {
                Some(f) => f.raw == v && -34359738368 <= v <= 34359738368,
                None => !(-34359738368 <= v <= 34359738368),
            }
        }),
{
    proof {
        assert(-(70368744177664int * 1152921504606846976int) <= (p.raw as int) * (q.raw as int)
            <= 70368744177664int * 1152921504606846976int) by (nonlinear_arith)
            requires
                -70368744177664 <= p.raw <= 70368744177664,
                -1152921504606846976 <= q.raw <= 1152921504606846976,
        ;
        assert(-(70368744177664int * 1152921504606846976int) <= (s.raw as int) * (t.raw as int)
            <= 70368744177664int * 1152921504606846976int) by (nonlinear_arith)
            requires
                -70368744177664 <= s.raw <= 70368744177664,
                -1152921504606846976 <= t.raw <= 1152921504606846976,
        ;
    }
    let num: i128 = (p.raw as i128) * (q.raw as i128) - (s.raw as i128) * (t.raw as i128);
    let fq: i128 = crate::fixed::div_floor_wide(num, d.raw as i128);
    if -34359738368 <= fq && fq <= 34359738368 {
        Some(Fx { raw: fq as i64 })
    } else {
        None
    }
}

/// A dot-product-style quotient clamped to the unit interval; the divisor
/// must be positive.
pub fn ratio_clamped(num: Fx, den: Fx) -> (r: Fx)
    requires
        den.raw >= 1,
        num.raw > i64::MIN,
    ensures
        r.raw == ratio_val(num.raw as int, den.raw as int),
        -SCALE <= r.raw <= SCALE,
{
    if num.raw >= den.raw {
        Fx { raw: SCALE }
    } else if num.raw <= -den.raw {
        Fx { raw: -SCALE }
    } else {
        proof {
            let n: int = num.raw as int;
            let d: int = den.raw as int;
            let s: int = SCALE as int;
            assert(n * s <= d * s) by (nonlinear_arith)
                requires
                    n < d,
                    s > 0,
            ;
            lemma_div_is_ordered(n * s, d * s, d);
            vstd::arithmetic::div_mod::lemma_div_by_multiple(s, d);
            assert(s * d == d * s) by (nonlinear_arith);
            assert(-(d * s) <= n * s) by (nonlinear_arith)
                requires
                    -d < n,
                    s > 0,
            ;
            lemma_div_is_ordered(-(d * s), n * s, d);
            assert((-s) * d == -(d * s)) by (nonlinear_arith);
            assert(-(d * s) == (-s) * d + 0);
            vstd::arithmetic::div_mod::lemma_fundamental_div_mod_converse_div(-(d * s), d, -s, 0);
        }
        num.fdiv(den)
    }
}

} // verus!

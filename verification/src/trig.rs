//! Fixed-point circular functions: sine and cosine by quadrant reduction and
//! odd/even polynomials, arctangent by angle halving, arccosine through the
//! two-argument arctangent.
//!
//! Contracts pin each result to its defining integer formula; accuracy
//! against the real functions is a property of the chosen polynomial degrees
//! and is exercised by the test suite.

use vstd::prelude::*;
use vstd::arithmetic::div_mod::lemma_fundamental_div_mod;
use vstd::arithmetic::div_mod::lemma_mod_division_less_than_divisor;
use crate::fixed::Fx;
use crate::fixed::SCALE;
use crate::fixed::mul_val;
use crate::fixed::div_val;
use crate::fixed::sqrt_val;
use crate::fixed::div_floor_wide;
use crate::fixed::lemma_mul_val_unit;
use crate::fixed::lemma_mul_val_sym;
use crate::fixed::lemma_ratio_le_one;
use crate::fixed::lemma_sqrt_val_le;
use crate::fixed::lemma_sqrt_val_ge_one;
use crate::fixed::lemma_div_val_half;
use crate::vec3::lemma_mul_val_cap;
use crate::vec3::lemma_sq_val_nonneg;

verus! {

/// `round(pi * 2^32)`.
pub const PI_RAW: i64 = 13493037705;

/// `round(2 * pi * 2^32)`.
pub const TWO_PI_RAW: i64 = 26986075409;

/// `round(pi / 2 * 2^32)`.
pub const HALF_PI_RAW: i64 = 6746518852;

/// `round(pi / 2 * 2^64)`: the reduction step works at doubled precision.
pub const HALF_PI_64: i128 = 28976077832308491370;

/// Odd minimax-style polynomial for sine on roughly [-1, 1], in Horner form
/// over the squared argument; coefficients are `round(2^32 / (2k+1)!)`.
pub open spec fn sin_poly_val(y: int) -> int {
    let y2 = mul_val(y, y);
    let t4 = 11836 - mul_val(y2, 108);
    let t3 = 852176 - mul_val(y2, t4);
    let t2 = 35791394 - mul_val(y2, t3);
    let t1 = 715827883 - mul_val(y2, t2);
    let p = (SCALE as int) - mul_val(y2, t1);
    mul_val(y, p)
}

/// Even polynomial for cosine on roughly [-1, 1]; coefficients
/// `round(2^32 / (2k)!)`.
pub open spec fn cos_poly_val(y: int) -> int {
    let y2 = mul_val(y, y);
    let t5 = 1184 - mul_val(y2, 9);
    let t4 = 106522 - mul_val(y2, t5);
    let t3 = 5965232 - mul_val(y2, t4);
    let t2 = 178956971 - mul_val(y2, t3);
    let t1 = 2147483648 - mul_val(y2, t2);
    (SCALE as int) - mul_val(y2, t1)
}

/// Odd polynomial for arctangent on [0, ~0.25]; coefficients
/// `round(2^32 / (2k+1))`.
pub open spec fn atan_poly_val(h: int) -> int {
    let u = mul_val(h, h);
    let t5 = 390451572 - mul_val(u, 330382100);
    let t4 = 477218588 - mul_val(u, t5);
    let t3 = 613566757 - mul_val(u, t4);
    let t2 = 858993459 - mul_val(u, t3);
    let t1 = 1431655765 - mul_val(u, t2);
    let p = (SCALE as int) - mul_val(u, t1);
    mul_val(h, p)
}

/// Index of the nearest multiple of pi/2 below-or-at `x + pi/4`.
pub open spec fn red_k(x: int) -> int {
    (2 * x + 6746518852) / 13493037704
}

/// Residual angle after subtracting `red_k(x)` quarter turns, computed at
/// 2^64 precision and rounded back to 2^32.
pub open spec fn red_y(x: int) -> int {
    (x * (SCALE as int) - red_k(x) * 28976077832308491370 + 2147483648) / (SCALE as int)
}

/// Which quadrant the reduction landed in.
pub open spec fn quadrant(x: int) -> int {
    red_k(x) % 4
}

pub open spec fn sin_val(x: int) -> int {
    let q = quadrant(x);
    let y = red_y(x);
    if q == 0 {
        sin_poly_val(y)
    } else if q == 1 {
        cos_poly_val(y)
    } else if q == 2 {
        -sin_poly_val(y)
    } else {
        -cos_poly_val(y)
    }
}

pub open spec fn cos_val(x: int) -> int {
    let q = quadrant(x);
    let y = red_y(x);
    if q == 0 {
        cos_poly_val(y)
    } else if q == 1 {
        -sin_poly_val(y)
    } else if q == 2 {
        -cos_poly_val(y)
    } else {
        sin_poly_val(y)
    }
}

/// Arctangent of a ratio in [0, 1]: two angle-halving steps, then the
/// polynomial, then the doublings undone.
pub open spec fn atan_unit_val(t: int) -> int {
    let s1 = sqrt_val((SCALE as int) + mul_val(t, t));
    let h1 = div_val(t, (SCALE as int) + s1);
    let s2 = sqrt_val((SCALE as int) + mul_val(h1, h1));
    let h2 = div_val(h1, (SCALE as int) + s2);
    4 * atan_poly_val(h2)
}

/// Quadrant-resolved arctangent in (-pi, pi]; both arguments zero maps to 0.
pub open spec fn atan2_val(y: int, x: int) -> int {
    if y == 0 && x == 0 {
        0
    } else {
        let ay = if y < 0 { -y } else { y };
        let ax = if x < 0 { -x } else { x };
        let th = if ay <= ax {
            atan_unit_val(div_val(ay, ax))
        } else {
            (HALF_PI_RAW as int) - atan_unit_val(div_val(ax, ay))
        };
        if x >= 0 && y >= 0 {
            th
        } else if x < 0 && y >= 0 {
            (PI_RAW as int) - th
        } else if x < 0 {
            th - (PI_RAW as int)
        } else {
            -th
        }
    }
}

/// Arccosine of a clamped cosine in [-1, 1], in [0, pi].
pub open spec fn acos_val(x: int) -> int {
    atan2_val(sqrt_val((SCALE as int) - mul_val(x, x)), x)
}

pub fn sin_poly(y: Fx) -> (r: Fx)
    requires
        -SCALE <= y.raw <= SCALE,
    ensures
        r.raw == sin_poly_val(y.raw as int),
        -SCALE <= r.raw <= SCALE,
{
    proof {
        lemma_mul_val_cap(y.raw as int, y.raw as int, SCALE as int);
        lemma_sq_val_nonneg(y.raw as int);
        assert((SCALE as int) * (SCALE as int) == 18446744073709551616int) by (nonlinear_arith);
        assert(18446744073709551616int / (SCALE as int) == SCALE as int);
    }
    let y2: Fx = y.fmul(y);
    proof {
        lemma_mul_val_unit(y2.raw as int, 108);
    }
    let t4: Fx = Fx { raw: 11836 }.fsub(y2.fmul(Fx { raw: 108 }));
    proof {
        lemma_mul_val_unit(y2.raw as int, t4.raw as int);
    }
    let t3: Fx = Fx { raw: 852176 }.fsub(y2.fmul(t4));
    proof {
        lemma_mul_val_unit(y2.raw as int, t3.raw as int);
    }
    let t2: Fx = Fx { raw: 35791394 }.fsub(y2.fmul(t3));
    proof {
        lemma_mul_val_unit(y2.raw as int, t2.raw as int);
    }
    let t1: Fx = Fx { raw: 715827883 }.fsub(y2.fmul(t2));
    proof {
        lemma_mul_val_unit(y2.raw as int, t1.raw as int);
    }
    let p: Fx = Fx { raw: SCALE }.fsub(y2.fmul(t1));
    proof {
        lemma_mul_val_sym(y.raw as int, p.raw as int);
    }
    y.fmul(p)
}

pub fn cos_poly(y: Fx) -> (r: Fx)
    requires
        -SCALE <= y.raw <= SCALE,
    ensures
        r.raw == cos_poly_val(y.raw as int),
        0 <= r.raw <= SCALE,
{
    proof {
        lemma_mul_val_cap(y.raw as int, y.raw as int, SCALE as int);
        lemma_sq_val_nonneg(y.raw as int);
        assert((SCALE as int) * (SCALE as int) == 18446744073709551616int) by (nonlinear_arith);
        assert(18446744073709551616int / (SCALE as int) == SCALE as int);
    }
    let y2: Fx = y.fmul(y);
    proof {
        lemma_mul_val_unit(y2.raw as int, 9);
    }
    let t5: Fx = Fx { raw: 1184 }.fsub(y2.fmul(Fx { raw: 9 }));
    proof {
        lemma_mul_val_unit(y2.raw as int, t5.raw as int);
    }
    let t4: Fx = Fx { raw: 106522 }.fsub(y2.fmul(t5));
    proof {
        lemma_mul_val_unit(y2.raw as int, t4.raw as int);
    }
    let t3: Fx = Fx { raw: 5965232 }.fsub(y2.fmul(t4));
    proof {
        lemma_mul_val_unit(y2.raw as int, t3.raw as int);
    }
    let t2: Fx = Fx { raw: 178956971 }.fsub(y2.fmul(t3));
    proof {
        lemma_mul_val_unit(y2.raw as int, t2.raw as int);
    }
    let t1: Fx = Fx { raw: 2147483648 }.fsub(y2.fmul(t2));
    proof {
        lemma_mul_val_unit(y2.raw as int, t1.raw as int);
    }
    Fx { raw: SCALE }.fsub(y2.fmul(t1))
}

fn atan_poly(h: Fx) -> (r: Fx)
    requires
        0 <= h.raw <= SCALE,
    ensures
        r.raw == atan_poly_val(h.raw as int),
        0 <= r.raw <= h.raw,
{
    proof {
        lemma_mul_val_unit(h.raw as int, h.raw as int);
    }
    let u: Fx = h.fmul(h);
    proof {
        lemma_mul_val_unit(u.raw as int, 330382100);
    }
    let t5: Fx = Fx { raw: 390451572 }.fsub(u.fmul(Fx { raw: 330382100 }));
    proof {
        lemma_mul_val_unit(u.raw as int, t5.raw as int);
    }
    let t4: Fx = Fx { raw: 477218588 }.fsub(u.fmul(t5));
    proof {
        lemma_mul_val_unit(u.raw as int, t4.raw as int);
    }
    let t3: Fx = Fx { raw: 613566757 }.fsub(u.fmul(t4));
    proof {
        lemma_mul_val_unit(u.raw as int, t3.raw as int);
    }
    let t2: Fx = Fx { raw: 858993459 }.fsub(u.fmul(t3));
    proof {
        lemma_mul_val_unit(u.raw as int, t2.raw as int);
    }
    let t1: Fx = Fx { raw: 1431655765 }.fsub(u.fmul(t2));
    proof {
        lemma_mul_val_unit(u.raw as int, t1.raw as int);
    }
    let p: Fx = Fx { raw: SCALE }.fsub(u.fmul(t1));
    proof {
        lemma_mul_val_unit(p.raw as int, h.raw as int);
        assert((h.raw as int) * (p.raw as int) == (p.raw as int) * (h.raw as int))
            by (nonlinear_arith);
    }
    h.fmul(p)
}

/// Sine and cosine together, sharing one quadrant reduction.
pub fn sin_cos(x: Fx) -> (r: (Fx, Fx))
    requires
        -36028797018963968 <= x.raw <= 36028797018963968,
    ensures
        r.0.raw == sin_val(x.raw as int),
        r.1.raw == cos_val(x.raw as int),
        -SCALE <= r.0.raw <= SCALE,
        -SCALE <= r.1.raw <= SCALE,
{
    let num: i128 = 2 * (x.raw as i128) + 6746518852;
    let k: i128 = div_floor_wide(num, 13493037704);
    proof {
        lemma_fundamental_div_mod(num as int, 13493037704);
        lemma_mod_division_less_than_divisor(num as int, 13493037704);
        assert(-5400000 <= k <= 5400000);
    }
    let xs: i128 = (x.raw as i128) * 4294967296;
    let kh: i128 = k * HALF_PI_64;
    let y64: i128 = xs - kh;
    let y: i128 = div_floor_wide(y64 + 2147483648, SCALE as i128);
    proof {
        // 2 * y64 == SCALE * (num - 13493037704 * k - 6746518852) - k * 2242054356,
        // and the parenthesized residue lies in [-6746518852, 6746518852).
        assert(2 * y64 == (SCALE as int) * (num - 13493037704 * k - 6746518852) + k * (
        -2242054356));
        assert(-28988184924709864192 <= 2 * y64 <= 28988184924709864192);
        lemma_fundamental_div_mod(y64 + 2147483648, SCALE as int);
        lemma_mod_division_less_than_divisor(y64 + 2147483648, SCALE as int);
        assert(-3380000000 <= y <= 3380000000);
    }
    let q4: i128 = div_floor_wide(k, 4);
    let qm: i128 = k - 4 * q4;
    proof {
        lemma_fundamental_div_mod(k as int, 4);
        lemma_mod_division_less_than_divisor(k as int, 4);
        assert(qm == quadrant(x.raw as int));
        assert(y == red_y(x.raw as int));
    }
    let ys: Fx = Fx { raw: y as i64 };
    let sp: Fx = sin_poly(ys);
    let cp: Fx = cos_poly(ys);
    if qm == 0 {
        (sp, cp)
    } else if qm == 1 {
        (cp, sp.fneg())
    } else if qm == 2 {
        (sp.fneg(), cp.fneg())
    } else {
        (cp.fneg(), sp)
    }
}

/// Arctangent for a ratio already scaled into [0, 1].
fn atan_unit(t: Fx) -> (r: Fx)
    requires
        0 <= t.raw <= SCALE,
    ensures
        r.raw == atan_unit_val(t.raw as int),
        0 <= r.raw <= SCALE + 8,
{
    proof {
        lemma_mul_val_unit(t.raw as int, t.raw as int);
    }
    let f1: Fx = Fx { raw: SCALE }.fadd(t.fmul(t));
    proof {
        lemma_sqrt_val_ge_one(f1.raw as int);
        lemma_sqrt_val_le(f1.raw as int, 6100000000);
        assert(6100000000int * 6100000000int == 37210000000000000000int) by (nonlinear_arith);
        assert((f1.raw as int) * (SCALE as int) <= 37210000000000000000int);
    }
    let s1: Fx = f1.fsqrt();
    let d1: Fx = Fx { raw: SCALE }.fadd(s1);
    proof {
        lemma_ratio_le_one(t.raw as int, d1.raw as int);
        lemma_div_val_half(t.raw as int, d1.raw as int);
    }
    let h1: Fx = t.fdiv(d1);
    proof {
        lemma_mul_val_unit(h1.raw as int, h1.raw as int);
    }
    let f2: Fx = Fx { raw: SCALE }.fadd(h1.fmul(h1));
    proof {
        lemma_sqrt_val_ge_one(f2.raw as int);
        lemma_sqrt_val_le(f2.raw as int, 6100000000);
        assert(6100000000int * 6100000000int == 37210000000000000000int) by (nonlinear_arith);
        assert((f2.raw as int) * (SCALE as int) <= 37210000000000000000int);
    }
    let s2: Fx = f2.fsqrt();
    let d2: Fx = Fx { raw: SCALE }.fadd(s2);
    proof {
        lemma_ratio_le_one(h1.raw as int, d2.raw as int);
        lemma_div_val_half(h1.raw as int, d2.raw as int);
    }
    let h2: Fx = h1.fdiv(d2);
    let p: Fx = atan_poly(h2);
    Fx { raw: 4 * p.raw }
}

/// Quadrant-resolved arctangent in (-pi, pi].
pub fn atan2(y: Fx, x: Fx) -> (r: Fx)
    requires
        -4611686018427387904 <= y.raw <= 4611686018427387904,
        -4611686018427387904 <= x.raw <= 4611686018427387904,
    ensures
        r.raw == atan2_val(y.raw as int, x.raw as int),
        -PI_RAW <= r.raw <= PI_RAW,
        y.raw >= 0 ==> r.raw >= 0,
{
    if y.raw == 0 && x.raw == 0 {
        return Fx { raw: 0 };
    }
    let ay: Fx = y.fabs();
    let ax: Fx = x.fabs();
    let th: Fx = if ay.raw <= ax.raw {
        proof {
            lemma_ratio_le_one(ay.raw as int, ax.raw as int);
        }
        atan_unit(ay.fdiv(ax))
    } else {
        proof {
            lemma_ratio_le_one(ax.raw as int, ay.raw as int);
        }
        Fx { raw: HALF_PI_RAW }.fsub(atan_unit(ax.fdiv(ay)))
    };
    if x.raw >= 0 && y.raw >= 0 {
        th
    } else if x.raw < 0 && y.raw >= 0 {
        Fx { raw: PI_RAW }.fsub(th)
    } else if x.raw < 0 {
        th.fsub(Fx { raw: PI_RAW })
    } else {
        th.fneg()
    }
}

/// Arccosine with the argument already clamped to [-1, 1].
pub fn acos(x: Fx) -> (r: Fx)
    requires
        -SCALE <= x.raw <= SCALE,
    ensures
        r.raw == acos_val(x.raw as int),
        0 <= r.raw <= PI_RAW,
{
    proof {
        lemma_mul_val_cap(x.raw as int, x.raw as int, SCALE as int);
        lemma_sq_val_nonneg(x.raw as int);
        assert((SCALE as int) * (SCALE as int) == 18446744073709551616int) by (nonlinear_arith);
        assert(18446744073709551616int / (SCALE as int) == SCALE as int);
    }
    let f: Fx = Fx { raw: SCALE }.fsub(x.fmul(x));
    proof {
        lemma_sqrt_val_le(f.raw as int, SCALE as int);
        assert((f.raw as int) * (SCALE as int) <= (SCALE as int) * (SCALE as int));
        lemma_sq_val_nonneg(f.raw as int);
        vstd::arithmetic::div_mod::lemma_div_pos_is_pos(
            (f.raw as int) * (SCALE as int),
            SCALE as int,
        );
        crate::fixed::lemma_sqrt_floor_bracket((f.raw as int) * (SCALE as int));
    }
    let s: Fx = f.fsqrt();
    atan2(s, x)
}

} // verus!

//! Keplerian orbital elements, Cartesian state vectors, and the analytic
//! propagation of the orbital phase.
//!
//! The mean anomaly is held at scale 2^64 so that advancing it by
//! `mean_motion * dt` is an exact integer operation: propagation steps
//! compose exactly, which `lemma_tick_linear` states as a law.

use vstd::prelude::*;
use vstd::arithmetic::div_mod::lemma_div_is_ordered;
use vstd::arithmetic::div_mod::lemma_div_is_ordered_by_denominator;
use vstd::arithmetic::div_mod::lemma_div_pos_is_pos;
use vstd::arithmetic::mul::lemma_mul_is_distributive_add;
use crate::fixed::Fx;
use crate::fixed::SCALE;
use crate::fixed::TOL;
use crate::fixed::mul_val;
use crate::fixed::sqrt_floor;
use crate::fixed::div_floor_wide;
use crate::fixed::isqrt;
use crate::fixed::lemma_sqrt_floor_bracket;
use crate::fixed::lemma_mul_val_sym;
use crate::fixed::lemma_div_mag;
use crate::trig::TWO_PI_RAW;
use crate::trig::sin_val;
use crate::trig::cos_val;
use crate::trig::sin_cos;
use crate::vec3::V3;

verus! {

/// Orbital phase at scale 2^64: twice the precision of every other
/// quantity, so that one propagation step never rounds.
#[derive(Clone, Copy, PartialEq, Eq, Structural, Debug)]
pub struct Phase {
    pub raw: i128,
}

/// Keplerian orbital elements: the five shape/orientation elements plus the
/// phase.  Angles are radians at scale 2^32.
#[derive(Clone, Copy, PartialEq, Eq, Structural, Debug)]
pub struct Koe {
    pub semi_major_axis: Fx,
    pub eccentricity: Fx,
    pub inclination: Fx,
    /// Longitude of Ascending Node.
    pub lan: Fx,
    /// Argument of Periapsis.
    pub ap: Fx,
    pub mean_anomaly: Phase,
}

/// Cartesian state vectors: position and velocity relative to the central
/// body, in meters and meters per second at scale 2^32.
#[derive(Clone, Copy, PartialEq, Eq, Structural, Debug)]
pub struct Csv {
    pub pos: V3,
    pub vel: V3,
}

/// `|a - b| < 1e-7`, with the tolerance floored to whole raw units.
pub fn approx_eq(a: Fx, b: Fx) -> (r: bool)
    requires
        i64::MIN <= a.raw - b.raw <= i64::MAX,
    ensures
        r <==> -TOL < a.raw - b.raw < TOL,
{
    a.approx_eq(b)
}

/// The cube of a raw value, at scale 2^64 (one flooring after the square).
pub open spec fn cube_scaled(a: int) -> int {
    ((a * a) / (SCALE as int)) * a
}

/// Raw mean motion `sqrt(mu / a^3)`, computed as `sqrt(mu) / sqrt(a^3)` so
/// that no sub-resolution ratio is floored away before the root.
pub open spec fn mean_motion_val(a: int, mu: int) -> int {
    div_val(sqrt_floor(mu * (SCALE as int)), sqrt_floor(cube_scaled(a)))
}

/// Raw orbital period `2 * pi * sqrt(a^3 / mu)`, computed as
/// `2 * pi * sqrt(a^3) / sqrt(mu)` for the same reason.
pub open spec fn period_val(a: int, mu: int) -> int {
    mul_val(TWO_PI_RAW as int, div_val(sqrt_floor(cube_scaled(a)), sqrt_floor(mu * (SCALE as int))))
}

/// Machine bounds under which the element pipeline cannot overflow: a
/// semi-major axis between about 1 mm and 8 km, eccentricity below
/// `1 - 2^-16`, angles within one turn, a bounded accumulated phase, and a
/// gravitational parameter between 1 and 2^26.
pub open spec fn koe_wf(k: Koe, mu: Fx) -> bool {
    &&& 4194304 <= k.semi_major_axis.raw <= 35184372088832
    &&& 0 <= k.eccentricity.raw <= SCALE - 65536
    &&& -26986075409 <= k.inclination.raw <= 26986075409
    &&& -26986075409 <= k.lan.raw <= 26986075409
    &&& -26986075409 <= k.ap.raw <= 26986075409
    &&& -1180591620717411303424 <= k.mean_anomaly.raw <= 1180591620717411303424
    &&& SCALE <= mu.raw <= 288230376151711744
}

/// Bounds shared by the cube/mean-motion computations, proved once.
proof fn lemma_cube_bounds(a: int)
    requires
        4194304 <= a <= 35184372088832,
    ensures
        17179869184 <= cube_scaled(a) <= 10141204801825835211973625643008,
{
    let s: int = SCALE as int;
    assert(17592186044416int * 17592186044416int == 309485009821345068724781056int)
        by (nonlinear_arith);
    assert(a * a <= 1237940039285380274899124224int) by (nonlinear_arith)
        requires
            0 < a <= 35184372088832,
    ;
    assert(a * a >= 17592186044416int) by (nonlinear_arith)
        requires
            a >= 4194304,
    ;
    lemma_div_is_ordered(17592186044416int, a * a, s);
    lemma_div_is_ordered(a * a, 1237940039285380274899124224int, s);
    lemma_div_pos_is_pos(a * a, s);
    assert(1237940039285380274899124224int / 4294967296int == 288230376151711744int);
    assert(17592186044416int / 4294967296int == 4096);
    assert(((a * a) / s) * a <= 288230376151711744int * 35184372088832int) by (nonlinear_arith)
        requires
            0 <= (a * a) / s <= 288230376151711744,
            0 < a <= 35184372088832,
    ;
    assert(288230376151711744int * 35184372088832int == 10141204801825835211973625643008int)
        by (nonlinear_arith);
    assert(((a * a) / s) * a >= 4096int * 4194304int) by (nonlinear_arith)
        requires
            (a * a) / s >= 4096,
            a >= 4194304,
    ;
    assert(4096int * 4194304int == 17179869184int);
}

/// The common exec prefix of `period` and `tick`: `a^3` at scale 2^64.
fn cube_wide(a: i64) -> (r: i128)
    requires
        4194304 <= a <= 35184372088832,
    ensures
        r == cube_scaled(a as int),
        17179869184 <= r <= 10141204801825835211973625643008,
{
    proof {
        lemma_cube_bounds(a as int);
        assert(a * a <= 1237940039285380274899124224int) by (nonlinear_arith)
            requires
                0 < a <= 35184372088832,
        ;
    }
    let a2: i128 = (a as i128) * (a as i128);
    let a2s: i128 = div_floor_wide(a2, 4294967296);
    proof {
        lemma_div_is_ordered(a2 as int, 1237940039285380274899124224int, SCALE as int);
        lemma_div_pos_is_pos(a2 as int, SCALE as int);
        assert(a2s * a <= 288230376151711744int * 35184372088832int) by (nonlinear_arith)
            requires
                0 <= a2s <= 288230376151711744,
                0 < a <= 35184372088832,
        ;
        assert(a2s * a >= 0) by (nonlinear_arith)
            requires
                a2s >= 0,
                a > 0,
        ;
    }
    a2s * (a as i128)
}

impl Koe {
    /// Orbital period `2 * pi * sqrt(a^3 / mu)`.
    /// `mu` is the standard gravitational parameter: central mass times the
    /// universal gravitational constant.
    pub fn period(&self, mu: Fx) -> (r: Fx)
        requires
            koe_wf(*self, mu),
        ensures
            r.raw == period_val(self.semi_major_axis.raw as int, mu.raw as int),
            r.raw >= 1,
    {
        let sa3: Fx = Fx { raw: sqrt_cube(self.semi_major_axis.raw) };
        let smu: Fx = sqrt_mu(mu);
        proof {
            let w: int = (sa3.raw as int) * (SCALE as int);
            // the quotient fits: dividing by at least 1.0 keeps it at sa3
            lemma_div_is_ordered_by_denominator(w, SCALE as int, smu.raw as int);
            vstd::arithmetic::div_mod::lemma_div_by_multiple(sa3.raw as int, SCALE as int);
            // and is at least 1: the numerator dominates the denominator
            assert(w >= 131072int * 4294967296int);
            assert(131072int * 4294967296int == 562949953421312int);
            vstd::arithmetic::div_mod::lemma_div_by_self(smu.raw as int);
            lemma_div_is_ordered(smu.raw as int, w, smu.raw as int);
        }
        let p: Fx = sa3.fdiv(smu);
        proof {
            let pv: int = p.raw as int;
            assert(26986075409int * pv <= 26986075409int * 3190000000000000int)
                by (nonlinear_arith)
                requires
                    0 <= pv <= 3190000000000000,
            ;
            lemma_div_is_ordered(
                26986075409int * pv,
                26986075409int * 3190000000000000int,
                SCALE as int,
            );
            assert(26986075409int * 3190000000000000int == 86085580554710000000000000int)
                by (nonlinear_arith);
            assert(86085580554710000000000000int / 4294967296int == 20043361129870172int);
            // two pi exceeds 1.0, so the product keeps the quotient's floor
            assert(4294967296int * pv <= 26986075409int * pv) by (nonlinear_arith)
                requires
                    pv >= 0,
            ;
            lemma_div_is_ordered(4294967296int * pv, 26986075409int * pv, SCALE as int);
            vstd::arithmetic::div_mod::lemma_div_by_multiple(pv, SCALE as int);
            assert(pv * 4294967296int == 4294967296int * pv) by (nonlinear_arith);
        }
        Fx { raw: TWO_PI_RAW }.fmul(p)
    }

    /// Advance the phase by `mean_motion * dt`, leaving every shape element
    /// untouched; `dt` is signed, so propagation runs both ways.
    pub fn tick(&self, dt: Fx, mu: Fx) -> (r: Koe)
        requires
            koe_wf(*self, mu),
        ensures
            r.semi_major_axis == self.semi_major_axis,
            r.eccentricity == self.eccentricity,
            r.inclination == self.inclination,
            r.lan == self.lan,
            r.ap == self.ap,
            r.mean_anomaly.raw == self.mean_anomaly.raw + mean_motion_val(
                self.semi_major_axis.raw as int,
                mu.raw as int,
            ) * dt.raw,
            dt.raw > 0 ==> r.mean_anomaly.raw > self.mean_anomaly.raw,
            dt.raw < 0 ==> r.mean_anomaly.raw < self.mean_anomaly.raw,
    {
        let n: i64 = mean_motion(self.semi_major_axis.raw, mu);
        proof {
            assert(dt.raw > 0 ==> (n as int) * (dt.raw as int) >= dt.raw) by (nonlinear_arith)
                requires
                    n >= 1,
            ;
            assert(dt.raw < 0 ==> (n as int) * (dt.raw as int) <= dt.raw) by (nonlinear_arith)
                requires
                    n >= 1,
            ;
            assert(-10633823966279326983230456482242756608int <= (n as int) * (dt.raw as int)
                <= 10633823966279326983230456482242756608int) by (nonlinear_arith)
                requires
                    0 <= n <= 1152921504606846976,
                    -9223372036854775808 <= dt.raw <= 9223372036854775807,
            ;
        }
        let dm: i128 = (n as i128) * (dt.raw as i128);
        Koe { mean_anomaly: Phase { raw: self.mean_anomaly.raw + dm }, ..*self }
    }
}

/// Raw mean motion `sqrt(mu / a^3)`, never floored to zero: for every
/// well-formed orbit the phase really advances.
fn mean_motion(a: i64, mu: Fx) -> (r: i64)
    requires
        4194304 <= a <= 35184372088832,
        SCALE <= mu.raw <= 288230376151711744,
    ensures
        r == mean_motion_val(a as int, mu.raw as int),
        1 <= r <= 1152921504606846976,
{
    let sa3: Fx = Fx { raw: sqrt_cube(a) };
    let smu: Fx = sqrt_mu(mu);
    proof {
        let w: int = (smu.raw as int) * (SCALE as int);
        // the quotient fits below 2^60
        lemma_div_is_ordered_by_denominator(w, 131072, sa3.raw as int);
        assert(w <= 35184372088832int * 4294967296int);
        assert(35184372088832int * 4294967296int == 151115727451828646838272int);
        lemma_div_is_ordered(w, 151115727451828646838272int, 131072);
        assert(151115727451828646838272int / 131072int == 1152921504606846976int);
        // and is at least 1: the numerator dominates the denominator
        assert(w >= 4294967296int * 4294967296int);
        assert(4294967296int * 4294967296int == 18446744073709551616int);
        vstd::arithmetic::div_mod::lemma_div_by_self(sa3.raw as int);
        lemma_div_is_ordered(sa3.raw as int, w, sa3.raw as int);
    }
    let n: Fx = smu.fdiv(sa3);
    n.raw
}

/// `sqrt(a^3)` as a raw 2^32-scale value, with its working bounds.
fn sqrt_cube(a: i64) -> (r: i64)
    requires
        4194304 <= a <= 35184372088832,
    ensures
        r == sqrt_floor(cube_scaled(a as int)),
        131072 <= r <= 3190000000000000,
{
    let a3: i128 = cube_wide(a);
    let sq: u128 = isqrt(a3 as u128);
    proof {
        lemma_sqrt_floor_bracket(a3 as int);
        let s: int = sqrt_floor(a3 as int);
        assert(3190000000000000int * 3190000000000000int > 10141204801825835211973625643008int)
            by (nonlinear_arith);
        assert(s <= 3190000000000000int) by (nonlinear_arith)
            requires
                s >= 0,
                s * s <= a3 as int,
                a3 <= 10141204801825835211973625643008,
                3190000000000000int * 3190000000000000int
                    > 10141204801825835211973625643008int,
        ;
        assert(s >= 131072) by (nonlinear_arith)
            requires
                s >= 0,
                a3 as int >= 17179869184,
                (a3 as int) < (s + 1) * (s + 1),
        ;
    }
    sq as i64
}

/// `sqrt(mu)` as a raw 2^32-scale value, with its working bounds.
fn sqrt_mu(mu: Fx) -> (r: Fx)
    requires
        SCALE <= mu.raw <= 288230376151711744,
    ensures
        r.raw == sqrt_floor((mu.raw as int) * (SCALE as int)),
        SCALE <= r.raw <= 35184372088832,
{
    proof {
        crate::fixed::lemma_sqrt_val_ge_one(mu.raw as int);
        assert(35184372088832int * 35184372088832int == 1237940039285380274899124224int)
            by (nonlinear_arith);
        assert((mu.raw as int) * (SCALE as int) <= 288230376151711744int * 4294967296int);
        assert(288230376151711744int * 4294967296int == 1237940039285380274899124224int);
        crate::fixed::lemma_sqrt_val_le(mu.raw as int, 35184372088832);
    }
    mu.fsqrt()
}

/// Mean-motion linearity: advancing the phase by `dt1` and then by `dt2`
/// lands exactly where advancing once by `dt1 + dt2` does, because `tick`
/// leaves the semi-major axis (hence the mean motion) unchanged and the
/// phase accumulator never rounds.
pub proof fn lemma_tick_linear(m0: int, a: int, mu: int, dt1: int, dt2: int)
    ensures
        (m0 + mean_motion_val(a, mu) * dt1) + mean_motion_val(a, mu) * dt2 == m0
            + mean_motion_val(a, mu) * (dt1 + dt2),
{
    lemma_mul_is_distributive_add(mean_motion_val(a, mu), dt1, dt2);
}

/// One Newton step of the Kepler solver, with the iterate clamped to
/// +-64 radians as a divergence stop.
pub open spec fn newton_step_val(ea: int, e: int, m0: int) -> int {
    let f = ea * (SCALE as int) - e * sin_val(ea) - m0;
    let d = (SCALE as int) - mul_val(e, cos_val(ea));
    let ea2 = ea - f / d;
    if ea2 > 274877906944 {
        274877906944
    } else if ea2 < -274877906944 {
        -274877906944
    } else {
        ea2
    }
}

/// `n` Newton steps from `ea0`.
pub open spec fn newton_iter_val(ea0: int, e: int, m0: int, n: nat) -> int
    decreases n,
{
    if n == 0 {
        ea0
    } else {
        newton_step_val(newton_iter_val(ea0, e, m0, (n - 1) as nat), e, m0)
    }
}

/// The residual of Kepler's equation `ea - e * sin(ea) - m0` at scale 2^64:
/// what the solver drives toward zero, measurable exactly.
pub fn kepler_residual(ea: Fx, e: Fx, m0: &Phase) -> (r: Phase)
    requires
        -36028797018963968 <= ea.raw <= 36028797018963968,
        0 <= e.raw <= SCALE,
        -1267650600228229401496703205376 <= m0.raw <= 1267650600228229401496703205376,
    ensures
        r.raw == (ea.raw as int) * (SCALE as int) - (e.raw as int) * sin_val(ea.raw as int)
            - m0.raw,
{
    let (s, c) = sin_cos(ea);
    proof {
        assert(-18446744073709551616int <= (e.raw as int) * (s.raw as int)
            <= 18446744073709551616int) by (nonlinear_arith)
            requires
                0 <= e.raw <= 4294967296,
                -4294967296 <= s.raw <= 4294967296,
        ;
    }
    Phase { raw: (ea.raw as i128) * 4294967296 - (e.raw as i128) * (s.raw as i128) - m0.raw }
}

impl Csv {
    /// Construct CSV from position and velocity.
    pub fn new(r: V3, v: V3) -> (c: Csv)
        ensures
            c.pos == r,
            c.vel == v,
    {
        Csv { pos: r, vel: v }
    }

    /// Numerically solve Kepler's equation for the eccentric anomaly by
    /// fixed-count Newton iteration from `ea0 = m0`, with no convergence
    /// check, mirroring the analytic propagator's deterministic budget.
    pub fn newton_raphson(m0: &Phase, e: &Fx, iterations: &i32) -> (r: Fx)
        requires
            0 <= e.raw <= SCALE - 65536,
            -1180591620717411303424 <= m0.raw <= 1180591620717411303424,
            0 <= *iterations <= 1000,
        ensures
            r.raw == newton_iter_val(
                m0.raw as int / (SCALE as int),
                e.raw as int,
                m0.raw as int,
                *iterations as nat,
            ),
            -274877906944 <= r.raw <= 274877906944,
    {
        let ea0: i128 = div_floor_wide(m0.raw, 4294967296);
        let mut ea: i64 = ea0 as i64;
        let mut i: i32 = 0;
        proof {
            lemma_div_mag(m0.raw as int, SCALE as int);
            lemma_div_is_ordered(m0.raw as int, 1180591620717411303424int, SCALE as int);
            lemma_div_is_ordered(-1180591620717411303424int, m0.raw as int, SCALE as int);
            assert(1180591620717411303424int / 4294967296int == 274877906944int);
            assert((-1180591620717411303424int) / 4294967296int == -274877906944int);
        }
        while i < *iterations
            invariant
                0 <= i <= *iterations,
                *iterations <= 1000,
                0 <= e.raw <= SCALE - 65536,
                -1180591620717411303424 <= m0.raw <= 1180591620717411303424,
                -274877906944 <= ea <= 274877906944,
                ea == newton_iter_val(
                    m0.raw as int / (SCALE as int),
                    e.raw as int,
                    m0.raw as int,
                    i as nat,
                ),
            decreases *iterations - i,
        {
            let (s, c) = sin_cos(Fx { raw: ea });
            proof {
                lemma_mul_val_sym(c.raw as int, e.raw as int);
                assert((e.raw as int) * (c.raw as int) == (c.raw as int) * (e.raw as int))
                    by (nonlinear_arith);
                assert(-18446744073709551616int <= (e.raw as int) * (s.raw as int)
                    <= 18446744073709551616int) by (nonlinear_arith)
                    requires
                        0 <= e.raw <= 4294967296,
                        -4294967296 <= s.raw <= 4294967296,
                ;
            }
            let ec: Fx = e.fmul(c);
            let denom: i64 = SCALE - ec.raw;
            let f: i128 = (ea as i128) * 4294967296 - (e.raw as i128) * (s.raw as i128) - m0.raw;
            let delta: i128 = div_floor_wide(f, denom as i128);
            proof {
                lemma_div_mag(f as int, denom as int);
            }
            let ea2w: i128 = (ea as i128) - delta;
            ea = if ea2w > 274877906944 {
                274877906944
            } else if ea2w < -274877906944 {
                -274877906944
            } else {
                ea2w as i64
            };
            proof {
                assert(ea == newton_step_val(
                    newton_iter_val(
                        m0.raw as int / (SCALE as int),
                        e.raw as int,
                        m0.raw as int,
                        i as nat,
                    ),
                    e.raw as int,
                    m0.raw as int,
                ));
            }
            i = i + 1;
        }
        Fx { raw: ea }
    }
}

} // verus!

// The CSV -> KOE extraction pipeline, mirrored step for step at the
// specification level over raw integer triples.

use crate::fixed::div_val;
use crate::fixed::sqrt_val;
use crate::trig::acos_val;
use crate::trig::atan2_val;
use crate::trig::HALF_PI_RAW;
use crate::trig::PI_RAW;
use crate::vec3::in_cap;
use crate::vec3::ratio_val;
use crate::vec3::ratio_wide_val;
use crate::vec3::cross_div_checked;
use crate::vec3::ratio_clamped;
use crate::vec3::ratio_clamped_wide;
use crate::vec3::lemma_wdot_cap;
use crate::vec3::lemma_len_val_cap;
use crate::trig::acos;
use crate::trig::atan2;
use crate::fixed::lemma_mul_val_bnd;

verus! {

/// The quadrant mirror `2*pi - angle`, with the full-turn boundary wrapped
/// back to zero so node and periapsis angles stay inside [0, 2*pi).
pub open spec fn mirror_val(al: int) -> int {
    if al == 0 {
        0
    } else {
        (TWO_PI_RAW as int) - al
    }
}

pub open spec fn v3i(v: V3) -> (int, int, int) {
    (v.x.raw as int, v.y.raw as int, v.z.raw as int)
}

pub open spec fn near_zero_val(x: int) -> bool {
    -(TOL as int) < x < TOL as int
}

pub open spec fn crossi(a: (int, int, int), b: (int, int, int)) -> (int, int, int) {
    (
        mul_val(a.1, b.2) - mul_val(a.2, b.1),
        mul_val(a.2, b.0) - mul_val(a.0, b.2),
        mul_val(a.0, b.1) - mul_val(a.1, b.0),
    )
}

pub open spec fn cross_divi(a: (int, int, int), b: (int, int, int), d: int) -> (int, int, int) {
    ((a.1 * b.2 - a.2 * b.1) / d, (a.2 * b.0 - a.0 * b.2) / d, (a.0 * b.1 - a.1 * b.0) / d)
}

pub open spec fn wdoti(a: (int, int, int), b: (int, int, int)) -> int {
    a.0 * b.0 + a.1 * b.1 + a.2 * b.2
}

pub open spec fn leni(t: (int, int, int)) -> int {
    sqrt_floor(wdoti(t, t))
}

/// Specific angular momentum `pos x vel`.
pub open spec fn s_h(c: Csv) -> (int, int, int) {
    crossi(v3i(c.pos), v3i(c.vel))
}

pub open spec fn s_hlen(c: Csv) -> int {
    leni(s_h(c))
}

pub open spec fn s_plen(c: Csv) -> int {
    leni(v3i(c.pos))
}

/// `(vel x h) / mu`, before the radial unit vector is subtracted.
pub open spec fn s_ev0(c: Csv, mu: Fx) -> (int, int, int) {
    cross_divi(v3i(c.vel), s_h(c), mu.raw as int)
}

/// The eccentricity vector, pointing at periapsis with length `e`.
pub open spec fn s_ev(c: Csv, mu: Fx) -> (int, int, int) {
    let e0 = s_ev0(c, mu);
    let p = v3i(c.pos);
    let pl = s_plen(c);
    (e0.0 - ratio_val(p.0, pl), e0.1 - ratio_val(p.1, pl), e0.2 - ratio_val(p.2, pl))
}

pub open spec fn s_elen(c: Csv, mu: Fx) -> int {
    leni(s_ev(c, mu))
}

/// The ascending-node vector `z x h`.
pub open spec fn s_nvec(c: Csv) -> (int, int, int) {
    (-s_h(c).1, s_h(c).0, 0)
}

pub open spec fn s_nlen(c: Csv) -> int {
    leni(s_nvec(c))
}

/// Inclination from the clamped cosine `h.z / |h|`.
pub open spec fn s_inc(c: Csv) -> int {
    acos_val(ratio_val(s_h(c).2, s_hlen(c)))
}

/// The node direction normalized componentwise (zero when degenerate).
pub open spec fn s_nu(c: Csv) -> (int, int, int) {
    let n = s_nvec(c);
    let nl = s_nlen(c);
    if nl >= 1 {
        (ratio_val(n.0, nl), ratio_val(n.1, nl), 0)
    } else {
        (0, 0, 0)
    }
}

/// Longitude of ascending node before the degenerate override.
pub open spec fn s_lan0(c: Csv) -> int {
    let n = s_nvec(c);
    let nl = s_nlen(c);
    if nl < 1 {
        0
    } else {
        let al = acos_val(ratio_val(n.0, nl));
        if n.1 <= 0 {
            al
        } else {
            mirror_val(al)
        }
    }
}

pub open spec fn s_lan(c: Csv) -> int {
    if near_zero_val(s_inc(c)) {
        0
    } else {
        s_lan0(c)
    }
}

/// Which side of the node-to-periapsis half-plane the eccentricity vector
/// lies on: the sign of `ev . (h x n)`, with `h x n` floored to scale 2^32.
pub open spec fn s_ap_sign(ev: (int, int, int), h: (int, int, int)) -> bool {
    let q1 = (-(h.0 * h.2)) / (SCALE as int);
    let q2 = (-(h.1 * h.2)) / (SCALE as int);
    let q3 = (h.0 * h.0 + h.1 * h.1) / (SCALE as int);
    ev.0 * q1 + ev.1 * q2 + ev.2 * q3 >= 0
}

/// Argument of periapsis before the degenerate overrides.
pub open spec fn s_ap0(c: Csv, mu: Fx) -> int {
    let nl = s_nlen(c);
    let el = s_elen(c, mu);
    if nl < 1 || el < 1 {
        0
    } else {
        let cr = ratio_wide_val(wdoti(s_nu(c), s_ev(c, mu)), el);
        let aap = acos_val(cr);
        if s_ap_sign(s_ev(c, mu), s_h(c)) {
            aap
        } else {
            mirror_val(aap)
        }
    }
}

/// Argument of periapsis: zero for a circular orbit; the longitude of
/// periapsis for an equatorial one, measured counterclockwise from the
/// reference axis so that the composed reconstruction rotation inverts it.
pub open spec fn s_ap(c: Csv, mu: Fx) -> int {
    if near_zero_val(s_inc(c)) && !near_zero_val(s_elen(c, mu)) {
        let ev = s_ev(c, mu);
        let a2 = acos_val(ratio_val(ev.0, s_elen(c, mu)));
        if ev.1 >= 0 {
            a2
        } else {
            mirror_val(a2)
        }
    } else if near_zero_val(s_elen(c, mu)) {
        0
    } else {
        s_ap0(c, mu)
    }
}

/// True anomaly from periapsis, before the circular-orbit overrides.
pub open spec fn s_ta0(c: Csv, mu: Fx) -> int {
    let el = s_elen(c, mu);
    if el < 1 {
        0
    } else {
        let ev = s_ev(c, mu);
        let eu = (ratio_val(ev.0, el), ratio_val(ev.1, el), ratio_val(ev.2, el));
        let t = acos_val(ratio_wide_val(wdoti(eu, v3i(c.pos)), s_plen(c)));
        if wdoti(v3i(c.pos), v3i(c.vel)) >= 0 {
            t
        } else {
            (TWO_PI_RAW as int) - t
        }
    }
}

/// True anomaly: circular orbits measure from the reference axis
/// (equatorial) or from the ascending node (inclined) instead.
pub open spec fn s_ta(c: Csv, mu: Fx) -> int {
    if near_zero_val(s_elen(c, mu)) {
        if near_zero_val(s_inc(c)) {
            let t = acos_val(ratio_val(v3i(c.pos).0, s_plen(c)));
            if v3i(c.vel).0 <= 0 {
                t
            } else {
                (TWO_PI_RAW as int) - t
            }
        } else {
            let t = acos_val(ratio_wide_val(wdoti(s_nu(c), v3i(c.pos)), s_plen(c)));
            if wdoti(s_nvec(c), v3i(c.vel)) <= 0 {
                t
            } else {
                (TWO_PI_RAW as int) - t
            }
        }
    } else {
        s_ta0(c, mu)
    }
}

/// `sqrt((1 + e) / (1 - e))`, the half-angle stretch factor.
pub open spec fn s_aa(c: Csv, mu: Fx) -> int {
    sqrt_val(div_val((SCALE as int) + s_elen(c, mu), (SCALE as int) - s_elen(c, mu)))
}

/// Eccentric anomaly via `2 * atan2(sin(ta/2), aa * cos(ta/2))`, folded
/// into (-pi, pi].
pub open spec fn s_ea(c: Csv, mu: Fx) -> int {
    let half = s_ta(c, mu) / 2;
    let th = atan2_val(sin_val(half), mul_val(s_aa(c, mu), cos_val(half)));
    if th > HALF_PI_RAW as int {
        2 * th - 2 * (PI_RAW as int)
    } else {
        2 * th
    }
}

/// Mean anomaly `ea - e * sin(ea)`, exact at scale 2^64.
pub open spec fn s_m0(c: Csv, mu: Fx) -> int {
    s_ea(c, mu) * (SCALE as int) - s_elen(c, mu) * sin_val(s_ea(c, mu))
}

pub open spec fn s_vsq(c: Csv) -> int {
    wdoti(v3i(c.vel), v3i(c.vel)) / (SCALE as int)
}

/// The vis-viva denominator `2/|r| - v^2/mu`; positive for a bound orbit.
pub open spec fn s_adenom(c: Csv, mu: Fx) -> int {
    div_val(2 * (SCALE as int), s_plen(c)) - div_val(s_vsq(c), mu.raw as int)
}

pub open spec fn s_a(c: Csv, mu: Fx) -> int {
    div_val(SCALE as int, s_adenom(c, mu))
}

/// Ranges that every extracted element set satisfies: nonnegative axis and
/// eccentricity, inclination within a half turn, node and periapsis angles
/// within a full turn, and a phase within the solver's window.
pub open spec fn koe_in_range(k: Koe) -> bool {
    &&& 0 <= k.semi_major_axis.raw <= 35184372088832
    &&& 0 <= k.eccentricity.raw <= SCALE - 65536
    &&& 0 <= k.inclination.raw <= PI_RAW
    &&& 0 <= k.lan.raw < TWO_PI_RAW
    &&& 0 <= k.ap.raw < TWO_PI_RAW
    &&& -1180591620717411303424 <= k.mean_anomaly.raw <= 1180591620717411303424
}

/// The machine-range conditions under which the extraction is defined: the
/// state within +-8 km and +-8 km/s, `mu` in [1, 2^26], a nondegenerate
/// angular momentum, `|r| >= 1` m, an eccentricity vector within +-8 and
/// eccentricity at most `1 - 2^-16`, and a vis-viva denominator bounded
/// away from the parabolic regime.
pub open spec fn csv_ok(c: Csv, mu: Fx) -> bool {
    &&& in_cap(c.pos, 35184372088832)
    &&& in_cap(c.vel, 35184372088832)
    &&& SCALE <= mu.raw <= 288230376151711744
    &&& s_hlen(c) >= 1
    &&& s_plen(c) >= SCALE
    &&& tup_in_win(s_ev0(c, mu), 34359738368)
    &&& s_elen(c, mu) <= SCALE - 65536
    &&& s_adenom(c, mu) >= 524288
}

pub open spec fn tup_in_win(t: (int, int, int), cap: int) -> bool {
    &&& -cap <= t.0 <= cap
    &&& -cap <= t.1 <= cap
    &&& -cap <= t.2 <= cap
}

} // verus!

verus! {

impl Koe {
    /// Construct KOE from CSV, refusing states outside the machine range
    /// that `csv_ok` describes.
    ///
    /// `mu` is the standard gravitational parameter: mass of the parent
    /// body times the universal gravitational constant.
    pub fn try_from_csv(csv: Csv, mu: Fx) -> (r: Option<Koe>)
        ensures
            r.is_some() <==> csv_ok(csv, mu),
            r.is_some() ==> {
                let k = r.unwrap();
                &&& k.semi_major_axis.raw == s_a(csv, mu)
                &&& k.eccentricity.raw == s_elen(csv, mu)
                &&& k.eccentricity.raw >= 0
                &&& k.inclination.raw == s_inc(csv)
                &&& k.lan.raw == s_lan(csv)
                &&& k.ap.raw == s_ap(csv, mu)
                &&& k.mean_anomaly.raw == s_m0(csv, mu)
                &&& koe_in_range(k)
            },
    {
        let pos: V3 = csv.pos;
        let vel: V3 = csv.vel;
        // range gates on the raw inputs
        if pos.x.raw < -35184372088832 || pos.x.raw > 35184372088832 || pos.y.raw
            < -35184372088832 || pos.y.raw > 35184372088832 || pos.z.raw < -35184372088832
            || pos.z.raw > 35184372088832 {
            return None;
        }
        if vel.x.raw < -35184372088832 || vel.x.raw > 35184372088832 || vel.y.raw
            < -35184372088832 || vel.y.raw > 35184372088832 || vel.z.raw < -35184372088832
            || vel.z.raw > 35184372088832 {
            return None;
        }
        if mu.raw < SCALE || mu.raw > 288230376151711744 {
            return None;
        }
        proof {
            crate::vec3::lemma_mul_val_cap(pos.x.raw as int, vel.y.raw as int, 35184372088832);
            crate::vec3::lemma_mul_val_cap(pos.x.raw as int, vel.z.raw as int, 35184372088832);
            crate::vec3::lemma_mul_val_cap(pos.y.raw as int, vel.x.raw as int, 35184372088832);
            crate::vec3::lemma_mul_val_cap(pos.y.raw as int, vel.z.raw as int, 35184372088832);
            crate::vec3::lemma_mul_val_cap(pos.z.raw as int, vel.x.raw as int, 35184372088832);
            crate::vec3::lemma_mul_val_cap(pos.z.raw as int, vel.y.raw as int, 35184372088832);
            assert(35184372088832int * 35184372088832int == 1237940039285380274899124224int)
                by (nonlinear_arith);
            assert(1237940039285380274899124224int / 4294967296int == 288230376151711744int);
        }
        let h: V3 = pos.cross(vel);
        let hlen: Fx = h.length();
        if hlen.raw < 1 {
            return None;
        }
        let plen: Fx = pos.length();
        if plen.raw < SCALE {
            return None;
        }
        let ev0o: Option<V3> = cross_div_checked(vel, h, mu);
        let ev0: V3 = match ev0o {
            Some(v) => v,
            None => {
                return None;
            },
        };
        let runit: V3 = V3::new(
            ratio_clamped(pos.x, plen),
            ratio_clamped(pos.y, plen),
            ratio_clamped(pos.z, plen),
        );
        let ev: V3 = ev0.vsub(runit);
        let e: Fx = ev.length();
        if e.raw > SCALE - 65536 {
            return None;
        }
        let nvec: V3 = V3::new(h.y.fneg(), h.x, Fx { raw: 0 });
        let nlen: Fx = nvec.length();
        proof {
            lemma_len_val_cap(nvec, 576460752303423488, 998459311558907194);
            assert(3 * (576460752303423488int * 576460752303423488int)
                <= 998459311558907194int * 998459311558907194int) by (nonlinear_arith);
        }
        let cosinc: Fx = ratio_clamped(h.z, hlen);
        let inc: Fx = acos(cosinc);
        let nu: V3 = if nlen.raw >= 1 {
            V3::new(ratio_clamped(nvec.x, nlen), ratio_clamped(nvec.y, nlen), Fx { raw: 0 })
        } else {
            V3::zero()
        };
        let lan0: Fx = if nlen.raw < 1 {
            Fx { raw: 0 }
        } else {
            let al: Fx = acos(ratio_clamped(nvec.x, nlen));
            if nvec.y.raw <= 0 {
                al
            } else {
                mirror(al)
            }
        };
        let ap0: Fx = if nlen.raw < 1 || e.raw < 1 {
            Fx { raw: 0 }
        } else {
            proof {
                lemma_wdot_cap(nu, ev, 4294967296, 38654705664);
                assert(3 * (4294967296int * 38654705664int) == 498062089990157893632int)
                    by (nonlinear_arith);
            }
            let wd: i128 = nu.dot_wide(ev);
            let cr: Fx = ratio_clamped_wide(wd, e);
            let aap: Fx = acos(cr);
            if ap_sign(ev, h) {
                aap
            } else {
                mirror(aap)
            }
        };
        let ta0: Fx = if e.raw < 1 {
            Fx { raw: 0 }
        } else {
            let eu: V3 = V3::new(
                ratio_clamped(ev.x, e),
                ratio_clamped(ev.y, e),
                ratio_clamped(ev.z, e),
            );
            proof {
                lemma_wdot_cap(eu, pos, 4294967296, 35184372088832);
                assert(3 * (4294967296int * 35184372088832int) == 453347182355485940514816int)
                    by (nonlinear_arith);
            }
            let wd: i128 = eu.dot_wide(pos);
            let t: Fx = acos(ratio_clamped_wide(wd, plen));
            if pos.dot_wide(vel) >= 0 {
                t
            } else {
                Fx { raw: TWO_PI_RAW }.fsub(t)
            }
        };
        // degenerate overrides, in the fixed precedence
        let lan_f: Fx = if inc.near_zero() {
            Fx { raw: 0 }
        } else {
            lan0
        };
        let ap_f: Fx = if inc.near_zero() && !e.near_zero() {
            let a2: Fx = acos(ratio_clamped(ev.x, e));
            if ev.y.raw >= 0 {
                a2
            } else {
                mirror(a2)
            }
        } else if e.near_zero() {
            Fx { raw: 0 }
        } else {
            ap0
        };
        let ta_f: Fx = if e.near_zero() {
            if inc.near_zero() {
                let t: Fx = acos(ratio_clamped(pos.x, plen));
                if vel.x.raw <= 0 {
                    t
                } else {
                    Fx { raw: TWO_PI_RAW }.fsub(t)
                }
            } else {
                proof {
                    lemma_wdot_cap(nu, pos, 4294967296, 35184372088832);
                    assert(3 * (4294967296int * 35184372088832int) == 453347182355485940514816int)
                        by (nonlinear_arith);
                }
                let wd: i128 = nu.dot_wide(pos);
                let t: Fx = acos(ratio_clamped_wide(wd, plen));
                if nvec.dot_wide(vel) <= 0 {
                    t
                } else {
                    Fx { raw: TWO_PI_RAW }.fsub(t)
                }
            }
        } else {
            ta0
        };
        // eccentric anomaly from the half-angle identity
        let aan: Fx = Fx { raw: SCALE }.fadd(e);
        let aad: Fx = Fx { raw: SCALE }.fsub(e);
        proof {
            let n: int = aan.raw as int;
            lemma_div_is_ordered_by_denominator(n * (SCALE as int), 65536, aad.raw as int);
            lemma_div_is_ordered(
                n * (SCALE as int),
                8589934592int * 4294967296int,
                65536,
            );
            assert(n * (SCALE as int) <= 8589934592int * 4294967296int) by (nonlinear_arith)
                requires
                    0 <= n <= 8589934592,
            ;
            assert(8589934592int * 4294967296int / 65536int == 562949953421312int);
            lemma_div_pos_is_pos(n * (SCALE as int), aad.raw as int);
        }
        let aa: Fx = aan.fdiv(aad).fsqrt();
        proof {
            lemma_sqrt_floor_bracket(div_val(aan.raw as int, aad.raw as int) * (SCALE as int));
            let s: int = aa.raw as int;
            assert(div_val(aan.raw as int, aad.raw as int) * (SCALE as int)
                <= 2417851639229258349412352int) by (nonlinear_arith)
                requires
                    0 <= div_val(aan.raw as int, aad.raw as int) <= 562949953421312,
            ;
            assert(s <= 1554944255988int) by (nonlinear_arith)
                requires
                    s >= 0,
                    s * s <= 2417851639229258349412352int,
            ;
        }
        let half: Fx = ta_f.fhalf();
        let hsc: (Fx, Fx) = crate::trig::sin_cos(half);
        proof {
            lemma_mul_val_bnd(hsc.1.raw as int, aa.raw as int);
            assert((aa.raw as int) * (hsc.1.raw as int) == (hsc.1.raw as int) * (aa.raw as int))
                by (nonlinear_arith);
        }
        let thv: Fx = atan2(hsc.0, aa.fmul(hsc.1));
        let eaw: i64 = if thv.raw > HALF_PI_RAW {
            2 * thv.raw - 26986075410
        } else {
            2 * thv.raw
        };
        let esc: (Fx, Fx) = crate::trig::sin_cos(Fx { raw: eaw });
        proof {
            assert(-18446744073709551616int <= (e.raw as int) * (esc.0.raw as int)
                <= 18446744073709551616int) by (nonlinear_arith)
                requires
                    0 <= e.raw <= 4294967296,
                    -4294967296 <= esc.0.raw <= 4294967296,
            ;
        }
        let m0w: i128 = (eaw as i128) * 4294967296 - (e.raw as i128) * (esc.0.raw as i128);
        // semi-major axis from vis-viva
        let d1: Fx = {
            proof {
                lemma_div_is_ordered_by_denominator(
                    8589934592int * 4294967296int,
                    SCALE as int,
                    plen.raw as int,
                );
                assert(8589934592int * 4294967296int / 4294967296int == 8589934592int);
                lemma_div_pos_is_pos(8589934592int * 4294967296int, plen.raw as int);
            }
            Fx { raw: 8589934592 }.fdiv(plen)
        };
        let vsqw: i128 = vel.dot_wide(vel);
        proof {
            lemma_wdot_cap(vel, vel, 35184372088832, 35184372088832);
            assert(3 * (35184372088832int * 35184372088832int)
                == 3713820117856140824697372672int) by (nonlinear_arith);
            lemma_div_is_ordered(vsqw as int, 3713820117856140824697372672int, SCALE as int);
            assert(3713820117856140824697372672int / 4294967296int == 864691128455135232int);
            crate::vec3::lemma_wdot_self_nonneg(vel);
            lemma_div_pos_is_pos(vsqw as int, SCALE as int);
        }
        let vsf: Fx = Fx { raw: div_floor_wide(vsqw, 4294967296) as i64 };
        let t2: Fx = {
            proof {
                lemma_div_is_ordered_by_denominator(
                    (vsf.raw as int) * (SCALE as int),
                    SCALE as int,
                    mu.raw as int,
                );
                vstd::arithmetic::div_mod::lemma_div_by_multiple(vsf.raw as int, SCALE as int);
                assert((vsf.raw as int) * (SCALE as int) >= 0) by (nonlinear_arith)
                    requires
                        vsf.raw >= 0,
                ;
                lemma_div_pos_is_pos((vsf.raw as int) * (SCALE as int), mu.raw as int);
            }
            vsf.fdiv(mu)
        };
        let denoma: Fx = d1.fsub(t2);
        if denoma.raw < 524288 {
            return None;
        }
        let af: Fx = {
            proof {
                lemma_div_is_ordered_by_denominator(
                    4294967296int * 4294967296int,
                    524288,
                    denoma.raw as int,
                );
                assert(4294967296int * 4294967296int / 524288int == 35184372088832int);
                lemma_div_pos_is_pos(4294967296int * 4294967296int, denoma.raw as int);
            }
            Fx { raw: SCALE }.fdiv(denoma)
        };
        proof {
            assert(v3i(h) == s_h(csv));
            assert(hlen.raw == s_hlen(csv));
            assert(plen.raw == s_plen(csv));
            assert(v3i(ev0) == s_ev0(csv, mu));
            assert(v3i(ev) == s_ev(csv, mu));
            assert(e.raw == s_elen(csv, mu));
            assert(v3i(nvec) == s_nvec(csv));
            assert(nlen.raw == s_nlen(csv));
            assert(inc.raw == s_inc(csv));
            assert(v3i(nu) == s_nu(csv));
            assert(lan0.raw == s_lan0(csv));
            assert(ap0.raw == s_ap0(csv, mu));
            assert(ta0.raw == s_ta0(csv, mu));
            assert(lan_f.raw == s_lan(csv));
            assert(ap_f.raw == s_ap(csv, mu));
            assert(ta_f.raw == s_ta(csv, mu));
            assert(aa.raw == s_aa(csv, mu));
            assert(eaw == s_ea(csv, mu));
            assert(m0w == s_m0(csv, mu));
            assert(vsf.raw == s_vsq(csv));
            assert(denoma.raw == s_adenom(csv, mu));
            assert(af.raw == s_a(csv, mu));
            assert(csv_ok(csv, mu));
        }
        Some(
            Koe {
                semi_major_axis: af,
                eccentricity: e,
                inclination: inc,
                lan: lan_f,
                ap: ap_f,
                mean_anomaly: Phase { raw: m0w },
            },
        )
    }

    /// Construct KOE from CSV.
    ///
    /// `mu` is the standard gravitational parameter: mass of the parent
    /// body times the universal gravitational constant.
    pub fn from_csv(csv: Csv, mu: Fx) -> (r: Koe)
        requires
            csv_ok(csv, mu),
        ensures
            r.semi_major_axis.raw == s_a(csv, mu),
            r.eccentricity.raw == s_elen(csv, mu),
            r.inclination.raw == s_inc(csv),
            r.lan.raw == s_lan(csv),
            r.ap.raw == s_ap(csv, mu),
            r.mean_anomaly.raw == s_m0(csv, mu),
            koe_in_range(r),
            r.eccentricity.raw >= 0,
            near_zero_val(s_elen(csv, mu)) ==> r.ap.raw == 0,
            near_zero_val(s_inc(csv)) ==> r.lan.raw == 0,
    {
        let r: Option<Koe> = Koe::try_from_csv(csv, mu);
        r.unwrap()
    }
}

/// The quadrant mirror, wrapping the full-turn boundary back to zero.
fn mirror(al: Fx) -> (r: Fx)
    requires
        0 <= al.raw <= PI_RAW,
    ensures
        r.raw == mirror_val(al.raw as int),
        0 <= r.raw < TWO_PI_RAW,
{
    if al.raw == 0 {
        al
    } else {
        Fx { raw: TWO_PI_RAW }.fsub(al)
    }
}

/// The sign of `ev . (h x n)`, where `n = z x h`: decides which side of the
/// node line the periapsis lies on.
fn ap_sign(ev: V3, h: V3) -> (r: bool)
    requires
        in_cap(ev, 38654705664),
        in_cap(h, 576460752303423488),
    ensures
        r == s_ap_sign(v3i(ev), v3i(h)),
{
    proof {
        assert(-(576460752303423488int * 576460752303423488int) <= (h.x.raw as int) * (
        h.z.raw as int) <= 576460752303423488int * 576460752303423488int) by (nonlinear_arith)
            requires
                -576460752303423488 <= h.x.raw <= 576460752303423488,
                -576460752303423488 <= h.z.raw <= 576460752303423488,
        ;
        assert(-(576460752303423488int * 576460752303423488int) <= (h.y.raw as int) * (
        h.z.raw as int) <= 576460752303423488int * 576460752303423488int) by (nonlinear_arith)
            requires
                -576460752303423488 <= h.y.raw <= 576460752303423488,
                -576460752303423488 <= h.z.raw <= 576460752303423488,
        ;
        assert(0 <= (h.x.raw as int) * (h.x.raw as int) <= 576460752303423488int
            * 576460752303423488int) by (nonlinear_arith)
            requires
                -576460752303423488 <= h.x.raw <= 576460752303423488,
        ;
        assert(0 <= (h.y.raw as int) * (h.y.raw as int) <= 576460752303423488int
            * 576460752303423488int) by (nonlinear_arith)
            requires
                -576460752303423488 <= h.y.raw <= 576460752303423488,
        ;
    }
    let q1: i128 = div_floor_wide(
        -((h.x.raw as i128) * (h.z.raw as i128)),
        4294967296,
    );
    let q2: i128 = div_floor_wide(
        -((h.y.raw as i128) * (h.z.raw as i128)),
        4294967296,
    );
    let q3: i128 = div_floor_wide(
        (h.x.raw as i128) * (h.x.raw as i128) + (h.y.raw as i128) * (h.y.raw as i128),
        4294967296,
    );
    proof {
        let bb: int = 576460752303423488int * 576460752303423488int;
        lemma_div_is_ordered(-((h.x.raw as int) * (h.z.raw as int)), bb, SCALE as int);
        lemma_div_is_ordered(-bb, -((h.x.raw as int) * (h.z.raw as int)), SCALE as int);
        lemma_div_is_ordered(-((h.y.raw as int) * (h.z.raw as int)), bb, SCALE as int);
        lemma_div_is_ordered(-bb, -((h.y.raw as int) * (h.z.raw as int)), SCALE as int);
        lemma_div_is_ordered(
            (h.x.raw as int) * (h.x.raw as int) + (h.y.raw as int) * (h.y.raw as int),
            2 * bb,
            SCALE as int,
        );
        crate::vec3::lemma_neg_div(bb, SCALE as int);
        assert(-(38654705664int * 77371252455336267181195264int) <= (ev.x.raw as int) * (
        q1 as int) <= 38654705664int * 77371252455336267181195264int) by (nonlinear_arith)
            requires
                -38654705664 <= ev.x.raw <= 38654705664,
                -77371252455336267181195264 <= q1 <= 77371252455336267181195264,
        ;
        assert(-(38654705664int * 77371252455336267181195264int) <= (ev.y.raw as int) * (
        q2 as int) <= 38654705664int * 77371252455336267181195264int) by (nonlinear_arith)
            requires
                -38654705664 <= ev.y.raw <= 38654705664,
                -77371252455336267181195264 <= q2 <= 77371252455336267181195264,
        ;
        assert(-(38654705664int * 154742504910672534362390528int) <= (ev.z.raw as int) * (
        q3 as int) <= 38654705664int * 154742504910672534362390528int) by (nonlinear_arith)
            requires
                -38654705664 <= ev.z.raw <= 38654705664,
                -154742504910672534362390528 <= q3 <= 154742504910672534362390528,
        ;
    }
    let s: i128 = (ev.x.raw as i128) * q1 + (ev.y.raw as i128) * q2 + (ev.z.raw as i128) * q3;
    s >= 0
}

} // verus!

verus! {

// KOE -> CSV reconstruction, mirrored at the specification level.

pub open spec fn rotz_ccw_i(t: (int, int, int), c: int, s: int) -> (int, int, int) {
    (mul_val(c, t.0) - mul_val(s, t.1), mul_val(s, t.0) + mul_val(c, t.1), t.2)
}

pub open spec fn rotz_cw_i(t: (int, int, int), c: int, s: int) -> (int, int, int) {
    (mul_val(c, t.0) + mul_val(s, t.1), mul_val(c, t.1) - mul_val(s, t.0), t.2)
}

pub open spec fn rotx_ccw_i(t: (int, int, int), c: int, s: int) -> (int, int, int) {
    (t.0, mul_val(c, t.1) - mul_val(s, t.2), mul_val(s, t.1) + mul_val(c, t.2))
}

/// Eccentric anomaly: ten Newton steps from `ea0 = m0`.
pub open spec fn k_ea(k: Koe) -> int {
    newton_iter_val(
        k.mean_anomaly.raw as int / (SCALE as int),
        k.eccentricity.raw as int,
        k.mean_anomaly.raw as int,
        10,
    )
}

/// True anomaly from the half-angle arctangent identity.
pub open spec fn k_ta(k: Koe) -> int {
    let e = k.eccentricity.raw as int;
    let half = k_ea(k) / 2;
    2 * atan2_val(
        mul_val(sqrt_val((SCALE as int) + e), sin_val(half)),
        mul_val(sqrt_val((SCALE as int) - e), cos_val(half)),
    )
}

/// Distance from the focus, `a * (1 - e * cos(ea))`.
pub open spec fn k_dist(k: Koe) -> int {
    mul_val(
        k.semi_major_axis.raw as int,
        (SCALE as int) - mul_val(k.eccentricity.raw as int, cos_val(k_ea(k))),
    )
}

/// The velocity scale `sqrt(mu * a) / dist`.
pub open spec fn k_coef(k: Koe, mu: Fx) -> int {
    div_val(sqrt_floor((mu.raw as int) * (k.semi_major_axis.raw as int)), k_dist(k))
}

/// Position in the perifocal plane.
pub open spec fn k_rpf(k: Koe) -> (int, int, int) {
    (mul_val(cos_val(k_ta(k)), k_dist(k)), mul_val(sin_val(k_ta(k)), k_dist(k)), 0)
}

/// Velocity in the perifocal plane.
pub open spec fn k_vpf(k: Koe, mu: Fx) -> (int, int, int) {
    let e = k.eccentricity.raw as int;
    let s2b = sqrt_val((SCALE as int) - mul_val(e, e));
    (
        mul_val(-sin_val(k_ea(k)), k_coef(k, mu)),
        mul_val(mul_val(cos_val(k_ea(k)), s2b), k_coef(k, mu)),
        0,
    )
}

/// The composed frame rotation: periapsis argument and inclination turn
/// counterclockwise, the node longitude turns clockwise, matching the sign
/// conventions of the extraction's quadrant tests.
pub open spec fn k_rot(t: (int, int, int), k: Koe) -> (int, int, int) {
    let t1 = rotz_ccw_i(t, cos_val(k.ap.raw as int), sin_val(k.ap.raw as int));
    let t2 = rotx_ccw_i(t1, cos_val(k.inclination.raw as int), sin_val(k.inclination.raw as int));
    rotz_cw_i(t2, cos_val(k.lan.raw as int), sin_val(k.lan.raw as int))
}

pub open spec fn k_pos(k: Koe, mu: Fx) -> (int, int, int) {
    k_rot(k_rpf(k), k)
}

pub open spec fn k_vel(k: Koe, mu: Fx) -> (int, int, int) {
    k_rot(k_vpf(k, mu), k)
}

/// Machine bounds for the reconstruction: well-formed elements, the focal
/// distance at least about 1 mm, and the velocity scale within +-2^18.
pub open spec fn koe_ok(k: Koe, mu: Fx) -> bool {
    &&& koe_wf(k, mu)
    &&& k_dist(k) >= 4194304
    &&& k_coef(k, mu) <= 1125899906842624
}

/// Rotation about the polar axis, counterclockwise.
fn rot_z_ccw(v: V3, c: Fx, s: Fx) -> (r: V3)
    requires
        -SCALE <= c.raw <= SCALE,
        -SCALE <= s.raw <= SCALE,
        in_cap(v, 2305843009213693951),
    ensures
        v3i(r) == rotz_ccw_i(v3i(v), c.raw as int, s.raw as int),
{
    proof {
        crate::fixed::lemma_mul_val_abs(c.raw as int, v.x.raw as int);
        crate::fixed::lemma_mul_val_abs(s.raw as int, v.x.raw as int);
        crate::fixed::lemma_mul_val_abs(c.raw as int, v.y.raw as int);
        crate::fixed::lemma_mul_val_abs(s.raw as int, v.y.raw as int);
    }
    V3 { x: c.fmul(v.x).fsub(s.fmul(v.y)), y: s.fmul(v.x).fadd(c.fmul(v.y)), z: v.z }
}

/// Rotation about the polar axis, clockwise.
fn rot_z_cw(v: V3, c: Fx, s: Fx) -> (r: V3)
    requires
        -SCALE <= c.raw <= SCALE,
        -SCALE <= s.raw <= SCALE,
        in_cap(v, 2305843009213693951),
    ensures
        v3i(r) == rotz_cw_i(v3i(v), c.raw as int, s.raw as int),
{
    proof {
        crate::fixed::lemma_mul_val_abs(c.raw as int, v.x.raw as int);
        crate::fixed::lemma_mul_val_abs(s.raw as int, v.x.raw as int);
        crate::fixed::lemma_mul_val_abs(c.raw as int, v.y.raw as int);
        crate::fixed::lemma_mul_val_abs(s.raw as int, v.y.raw as int);
    }
    V3 { x: c.fmul(v.x).fadd(s.fmul(v.y)), y: c.fmul(v.y).fsub(s.fmul(v.x)), z: v.z }
}

/// Rotation about the reference axis (the node line), counterclockwise.
fn rot_x_ccw(v: V3, c: Fx, s: Fx) -> (r: V3)
    requires
        -SCALE <= c.raw <= SCALE,
        -SCALE <= s.raw <= SCALE,
        in_cap(v, 2305843009213693951),
    ensures
        v3i(r) == rotx_ccw_i(v3i(v), c.raw as int, s.raw as int),
{
    proof {
        crate::fixed::lemma_mul_val_abs(c.raw as int, v.y.raw as int);
        crate::fixed::lemma_mul_val_abs(s.raw as int, v.y.raw as int);
        crate::fixed::lemma_mul_val_abs(c.raw as int, v.z.raw as int);
        crate::fixed::lemma_mul_val_abs(s.raw as int, v.z.raw as int);
    }
    V3 { x: v.x, y: c.fmul(v.y).fsub(s.fmul(v.z)), z: s.fmul(v.y).fadd(c.fmul(v.z)) }
}

impl Csv {
    /// Construct CSV from KOE, refusing elements outside the machine range
    /// that `koe_ok` describes.
    /// `mu` is the standard gravitational parameter: mass of the parent
    /// body times the universal gravitational constant.
    pub fn try_from_koe(koe: Koe, mu: Fx) -> (r: Option<Csv>)
        ensures
            r.is_some() <==> koe_ok(koe, mu),
            r.is_some() ==> {
                &&& v3i(r.unwrap().pos) == k_pos(koe, mu)
                &&& v3i(r.unwrap().vel) == k_vel(koe, mu)
            },
    {
        let a: Fx = koe.semi_major_axis;
        let e: Fx = koe.eccentricity;
        if a.raw < 4194304 || a.raw > 35184372088832 || e.raw < 0 || e.raw > SCALE - 65536 {
            return None;
        }
        if koe.inclination.raw < -26986075409 || koe.inclination.raw > 26986075409 || koe.lan.raw
            < -26986075409 || koe.lan.raw > 26986075409 || koe.ap.raw < -26986075409
            || koe.ap.raw > 26986075409 {
            return None;
        }
        if koe.mean_anomaly.raw < -1180591620717411303424 || koe.mean_anomaly.raw
            > 1180591620717411303424 {
            return None;
        }
        if mu.raw < SCALE || mu.raw > 288230376151711744 {
            return None;
        }
        let iters: i32 = 10;
        let ea: Fx = Csv::newton_raphson(&koe.mean_anomaly, &e, &iters);
        let esc: (Fx, Fx) = sin_cos(ea);
        let s1: Fx = Fx { raw: SCALE }.fadd(e).fsqrt();
        let s2p: Fx = Fx { raw: SCALE }.fsub(e).fsqrt();
        proof {
            crate::fixed::lemma_sqrt_val_le((SCALE as int) + e.raw, 6100000000int);
            assert(6100000000int * 6100000000int == 37210000000000000000int) by (nonlinear_arith);
            assert(((SCALE as int) + e.raw) * (SCALE as int) <= 37210000000000000000int);
            crate::fixed::lemma_sqrt_val_le((SCALE as int) - e.raw, SCALE as int);
            assert(((SCALE as int) - e.raw) * (SCALE as int) <= (SCALE as int) * (SCALE as int));
        }
        let hsc: (Fx, Fx) = sin_cos(ea.fhalf());
        proof {
            lemma_mul_val_bnd(hsc.0.raw as int, s1.raw as int);
            assert((s1.raw as int) * (hsc.0.raw as int) == (hsc.0.raw as int) * (s1.raw as int))
                by (nonlinear_arith);
            lemma_mul_val_bnd(hsc.1.raw as int, s2p.raw as int);
            assert((s2p.raw as int) * (hsc.1.raw as int) == (hsc.1.raw as int) * (s2p.raw as int))
                by (nonlinear_arith);
        }
        let th: Fx = atan2(s1.fmul(hsc.0), s2p.fmul(hsc.1));
        let ta: Fx = Fx { raw: 2 * th.raw };
        proof {
            lemma_mul_val_sym(esc.1.raw as int, e.raw as int);
            assert((e.raw as int) * (esc.1.raw as int) == (esc.1.raw as int) * (e.raw as int))
                by (nonlinear_arith);
        }
        let ecos: Fx = e.fmul(esc.1);
        let dfac: Fx = Fx { raw: SCALE }.fsub(ecos);
        proof {
            assert(0 <= (a.raw as int) * (dfac.raw as int) <= 35184372088832int * 8589934592int)
                by (nonlinear_arith)
                requires
                    0 <= a.raw <= 35184372088832,
                    0 <= dfac.raw <= 8589934592,
            ;
            lemma_div_is_ordered(
                (a.raw as int) * (dfac.raw as int),
                35184372088832int * 8589934592int,
                SCALE as int,
            );
            assert(35184372088832int * 8589934592int / 4294967296int == 70368744177664int);
            lemma_div_pos_is_pos((a.raw as int) * (dfac.raw as int), SCALE as int);
        }
        let dist: Fx = a.fmul(dfac);
        if dist.raw < 4194304 {
            return None;
        }
        proof {
            assert(0 <= (mu.raw as int) * (a.raw as int) <= 288230376151711744int
                * 35184372088832int) by (nonlinear_arith)
                requires
                    0 < mu.raw <= 288230376151711744,
                    0 < a.raw <= 35184372088832,
            ;
            lemma_sqrt_floor_bracket((mu.raw as int) * (a.raw as int));
            let sm: int = sqrt_floor((mu.raw as int) * (a.raw as int));
            assert(3200000000000000int * 3200000000000000int >= 288230376151711744int
                * 35184372088832int) by (nonlinear_arith);
            assert(sm <= 3200000000000000int) by (nonlinear_arith)
                requires
                    sm >= 0,
                    sm * sm <= (mu.raw as int) * (a.raw as int),
                    (mu.raw as int) * (a.raw as int) <= 3200000000000000int * 3200000000000000int,
            ;
        }
        let smua: Fx = Fx { raw: isqrt(((mu.raw as u128)) * (a.raw as u128)) as i64 };
        proof {
            lemma_div_is_ordered_by_denominator(
                (smua.raw as int) * (SCALE as int),
                4194304,
                dist.raw as int,
            );
            lemma_div_is_ordered(
                (smua.raw as int) * (SCALE as int),
                3200000000000000int * 4294967296int,
                4194304,
            );
            assert((smua.raw as int) * (SCALE as int) <= 3200000000000000int * 4294967296int)
                by (nonlinear_arith)
                requires
                    0 <= smua.raw <= 3200000000000000,
            ;
            assert(3200000000000000int * 4294967296int / 4194304int == 3276800000000000000int);
            assert((smua.raw as int) * (SCALE as int) >= 0) by (nonlinear_arith)
                requires
                    smua.raw >= 0,
            ;
            lemma_div_pos_is_pos((smua.raw as int) * (SCALE as int), dist.raw as int);
        }
        let coef: Fx = smua.fdiv(dist);
        if coef.raw > 1125899906842624 {
            return None;
        }
        let tsc: (Fx, Fx) = sin_cos(ta);
        proof {
            lemma_mul_val_bnd(tsc.1.raw as int, dist.raw as int);
            lemma_mul_val_bnd(tsc.0.raw as int, dist.raw as int);
            crate::fixed::lemma_mul_val_unit(e.raw as int, e.raw as int);
        }
        let rx: Fx = tsc.1.fmul(dist);
        let ry: Fx = tsc.0.fmul(dist);
        let s2b: Fx = Fx { raw: SCALE }.fsub(e.fmul(e)).fsqrt();
        proof {
            crate::fixed::lemma_sqrt_val_le(
                (SCALE as int) - mul_val(e.raw as int, e.raw as int),
                SCALE as int,
            );
            assert(((SCALE as int) - mul_val(e.raw as int, e.raw as int)) * (SCALE as int)
                <= (SCALE as int) * (SCALE as int));
            lemma_mul_val_bnd(esc.0.raw as int, coef.raw as int);
            assert((-(esc.0.raw as int)) * (coef.raw as int) == -((esc.0.raw as int) * (
            coef.raw as int))) by (nonlinear_arith);
            crate::fixed::lemma_mul_val_abs(-(esc.0.raw as int), coef.raw as int);
            lemma_mul_val_sym(esc.1.raw as int, s2b.raw as int);
        }
        let vx: Fx = esc.0.fneg().fmul(coef);
        let vmid: Fx = esc.1.fmul(s2b);
        proof {
            crate::fixed::lemma_mul_val_abs(vmid.raw as int, coef.raw as int);
        }
        let vy: Fx = vmid.fmul(coef);
        let rpf: V3 = V3::new(rx, ry, Fx { raw: 0 });
        let vpf: V3 = V3::new(vx, vy, Fx { raw: 0 });
        let asc: (Fx, Fx) = sin_cos(koe.ap);
        let isc: (Fx, Fx) = sin_cos(koe.inclination);
        let lsc: (Fx, Fx) = sin_cos(koe.lan);
        let r1: V3 = rot_z_ccw(rpf, asc.1, asc.0);
        proof {
            lemma_rot_caps(v3i(rpf), asc.1.raw as int, asc.0.raw as int, 70368744177665);
        }
        let r2: V3 = rot_x_ccw(r1, isc.1, isc.0);
        proof {
            lemma_rotx_caps(v3i(r1), isc.1.raw as int, isc.0.raw as int, 140737488355332);
        }
        let r3: V3 = rot_z_cw(r2, lsc.1, lsc.0);
        let v1: V3 = rot_z_ccw(vpf, asc.1, asc.0);
        proof {
            lemma_rot_caps(v3i(vpf), asc.1.raw as int, asc.0.raw as int, 1125899906842625);
        }
        let v2: V3 = rot_x_ccw(v1, isc.1, isc.0);
        proof {
            lemma_rotx_caps(v3i(v1), isc.1.raw as int, isc.0.raw as int, 2251799813685252);
        }
        let v3f: V3 = rot_z_cw(v2, lsc.1, lsc.0);
        proof {
            assert(ea.raw == k_ea(koe));
            assert(ta.raw == k_ta(koe));
            assert(dist.raw == k_dist(koe));
            assert(coef.raw == k_coef(koe, mu));
            assert(v3i(rpf) == k_rpf(koe));
            assert(v3i(vpf) == k_vpf(koe, mu));
            assert(v3i(r3) == k_pos(koe, mu));
            assert(v3i(v3f) == k_vel(koe, mu));
            assert(koe_ok(koe, mu));
        }
        Some(Csv { pos: r3, vel: v3f })
    }

    /// Construct CSV from KOE.
    /// `mu` is the standard gravitational parameter: mass of the parent
    /// body times the universal gravitational constant.
    pub fn from_koe(koe: Koe, mu: Fx) -> (r: Csv)
        requires
            koe_ok(koe, mu),
        ensures
            v3i(r.pos) == k_pos(koe, mu),
            v3i(r.vel) == k_vel(koe, mu),
    {
        let r: Option<Csv> = Csv::try_from_koe(koe, mu);
        r.unwrap()
    }
}

/// A rotated pair of components stays within twice the incoming cap.
proof fn lemma_rot_caps(t: (int, int, int), c: int, s: int, cap: int)
    requires
        -(SCALE as int) <= c <= SCALE as int,
        -(SCALE as int) <= s <= SCALE as int,
        -cap <= t.0 <= cap,
        -cap <= t.1 <= cap,
        0 <= cap,
    ensures
        -(2 * cap + 2) <= rotz_ccw_i(t, c, s).0 <= 2 * cap + 2,
        -(2 * cap + 2) <= rotz_ccw_i(t, c, s).1 <= 2 * cap + 2,
        -(2 * cap + 2) <= rotz_cw_i(t, c, s).0 <= 2 * cap + 2,
        -(2 * cap + 2) <= rotz_cw_i(t, c, s).1 <= 2 * cap + 2,
{
    crate::fixed::lemma_mul_val_abs(c, t.0);
    crate::fixed::lemma_mul_val_abs(s, t.0);
    crate::fixed::lemma_mul_val_abs(c, t.1);
    crate::fixed::lemma_mul_val_abs(s, t.1);
}

/// Same for the rotation about the reference axis.
proof fn lemma_rotx_caps(t: (int, int, int), c: int, s: int, cap: int)
    requires
        -(SCALE as int) <= c <= SCALE as int,
        -(SCALE as int) <= s <= SCALE as int,
        -cap <= t.1 <= cap,
        -cap <= t.2 <= cap,
        0 <= cap,
    ensures
        -(2 * cap + 2) <= rotx_ccw_i(t, c, s).1 <= 2 * cap + 2,
        -(2 * cap + 2) <= rotx_ccw_i(t, c, s).2 <= 2 * cap + 2,
{
    crate::fixed::lemma_mul_val_abs(c, t.1);
    crate::fixed::lemma_mul_val_abs(s, t.1);
    crate::fixed::lemma_mul_val_abs(c, t.2);
    crate::fixed::lemma_mul_val_abs(s, t.2);
}

} // verus!

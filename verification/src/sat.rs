//! Fixed-step numeric propagation: semi-implicit Euler integration of the
//! two-body acceleration, for states freshly overridden by the caller.
//!
//! Time advances in whole milliseconds; each step applies the acceleration
//! over a timestep of `floor(0.001 * 2^32)` raw units.  The whole run is a
//! pure function of the starting state and the target time, mirrored
//! exactly by `sat_run`.

use vstd::prelude::*;
use vstd::arithmetic::div_mod::lemma_div_is_ordered;
use vstd::arithmetic::div_mod::lemma_div_pos_is_pos;
use crate::fixed::Fx;
use crate::fixed::SCALE;
use crate::fixed::mul_val;
use crate::fixed::div_floor_wide;
use crate::vec3::V3;
use crate::vec3::lemma_len_val_cap;
use crate::orbit::cube_scaled;
use crate::orbit::v3i;
use crate::orbit::tup_in_win;
use crate::orbit::leni;

verus! {

/// The integrator timestep, `floor(0.001 * 2^32)` raw units of a second.
pub const DT_RAW: i64 = 4294967;

/// A propagating body: position, velocity, and the millisecond it was last
/// valid at.
#[derive(Clone, Copy, PartialEq, Eq, Structural, Debug)]
pub struct Sat {
    pub pos: V3,
    pub vel: V3,
    /// When we were at this pos and vel, in whole milliseconds.
    pub when: i64,
}

pub open spec fn sat_i(s: Sat) -> ((int, int, int), (int, int, int), int) {
    (v3i(s.pos), v3i(s.vel), s.when as int)
}

/// `|p|^3` at scale 2^32.
pub open spec fn r3_val(p: (int, int, int)) -> int {
    cube_scaled(leni(p)) / (SCALE as int)
}

/// The two-body acceleration `-p * mu / |p|^3`, one floored division per
/// component at full intermediate width.
pub open spec fn acc_val(p: (int, int, int), mu: int) -> (int, int, int) {
    (
        (-(p.0 * mu)) / r3_val(p),
        (-(p.1 * mu)) / r3_val(p),
        (-(p.2 * mu)) / r3_val(p),
    )
}

/// The state is inside the window where a step is defined: position within
/// +-8 km, the cubed radius at least 2^-2 (about 63 cm from the body), and
/// the acceleration within +-2^18.
pub open spec fn acc_ok(p: (int, int, int), mu: int) -> bool {
    &&& tup_in_win(p, 35184372088832)
    &&& r3_val(p) >= 1073741824
    &&& tup_in_win(acc_val(p, mu), 1125899906842624)
}

/// One semi-implicit Euler step: the velocity absorbs the acceleration
/// first, then the position absorbs the updated velocity.
pub open spec fn sat_step(s: ((int, int, int), (int, int, int), int), mu: int) -> Option<
    ((int, int, int), (int, int, int), int),
> {
    if acc_ok(s.0, mu) && tup_in_win(s.1, 35184372088832) {
        let a = acc_val(s.0, mu);
        let v2 = (
            s.1.0 + mul_val(a.0, DT_RAW as int),
            s.1.1 + mul_val(a.1, DT_RAW as int),
            s.1.2 + mul_val(a.2, DT_RAW as int),
        );
        let p2 = (
            s.0.0 + mul_val(v2.0, DT_RAW as int),
            s.0.1 + mul_val(v2.1, DT_RAW as int),
            s.0.2 + mul_val(v2.2, DT_RAW as int),
        );
        Some((p2, v2, s.2 + 1))
    } else {
        None
    }
}

/// Stepping until the target time, `None` as soon as a step leaves the
/// defined window.
pub open spec fn sat_run(
    s: ((int, int, int), (int, int, int), int),
    mu: int,
    target: int,
) -> Option<((int, int, int), (int, int, int), int)>
    decreases target - s.2,
{
    if s.2 >= target {
        Some(s)
    } else {
        match sat_step(s, mu) {
            Some(s2) => sat_run(s2, mu, target),
            None => None,
        }
    }
}

impl Sat {
    /// The two-body acceleration toward the central body, or `None` when
    /// the state is outside the integrable window.
    pub fn acceleration(&self, mu: Fx) -> (r: Option<V3>)
        requires
            SCALE <= mu.raw <= 288230376151711744,
        ensures
            r.is_some() <==> acc_ok(v3i(self.pos), mu.raw as int),
            r.is_some() ==> v3i(r.unwrap()) == acc_val(v3i(self.pos), mu.raw as int),
    {
        let p: V3 = self.pos;
        if p.x.raw < -35184372088832 || p.x.raw > 35184372088832 || p.y.raw < -35184372088832
            || p.y.raw > 35184372088832 || p.z.raw < -35184372088832 || p.z.raw
            > 35184372088832 {
            return None;
        }
        proof {
            assert(3 * (35184372088832int * 35184372088832int) <= 60941120090266int
                * 60941120090266int) by (nonlinear_arith);
            lemma_len_val_cap(p, 35184372088832, 60941120090266);
        }
        let len: Fx = p.length();
        proof {
            assert(0 <= (len.raw as int) * (len.raw as int) <= 60941120090266int
                * 60941120090266int) by (nonlinear_arith)
                requires
                    0 <= len.raw <= 60941120090266,
            ;
        }
        let a2: i128 = (len.raw as i128) * (len.raw as i128);
        proof {
            assert(0 <= a2 <= 60941120090266int * 60941120090266int);
            assert(60941120090266int * 60941120090266int == 3713820117856222283987950756int)
                by (nonlinear_arith);
            lemma_div_is_ordered(a2 as int, 3713820117856222283987950756int, SCALE as int);
            lemma_div_pos_is_pos(a2 as int, SCALE as int);
            assert(3713820117856222283987950756int / 4294967296int == 864691128455154198int);
        }
        let a2s: i128 = div_floor_wide(a2, 4294967296);
        proof {
            assert(0 <= a2s * (len.raw as int) <= 864691128455154198int * 60941120090266int)
                by (nonlinear_arith)
                requires
                    0 <= a2s <= 864691128455154198,
                    0 <= len.raw <= 60941120090266,
            ;
            lemma_div_is_ordered(
                a2s * (len.raw as int),
                864691128455154198int * 60941120090266int,
                SCALE as int,
            );
            lemma_div_pos_is_pos(a2s * (len.raw as int), SCALE as int);
        }
        let a3: i128 = a2s * (len.raw as i128);
        let r3: i128 = div_floor_wide(a3, 4294967296);
        if r3 < 1073741824 {
            return None;
        }
        proof {
            assert(-(35184372088832int * 288230376151711744int) <= -((p.x.raw as int) * (
            mu.raw as int)) <= 35184372088832int * 288230376151711744int) by (nonlinear_arith)
                requires
                    -35184372088832 <= p.x.raw <= 35184372088832,
                    0 < mu.raw <= 288230376151711744,
            ;
            assert(-(35184372088832int * 288230376151711744int) <= -((p.y.raw as int) * (
            mu.raw as int)) <= 35184372088832int * 288230376151711744int) by (nonlinear_arith)
                requires
                    -35184372088832 <= p.y.raw <= 35184372088832,
                    0 < mu.raw <= 288230376151711744,
            ;
            assert(-(35184372088832int * 288230376151711744int) <= -((p.z.raw as int) * (
            mu.raw as int)) <= 35184372088832int * 288230376151711744int) by (nonlinear_arith)
                requires
                    -35184372088832 <= p.z.raw <= 35184372088832,
                    0 < mu.raw <= 288230376151711744,
            ;
        }
        let qx: i128 = div_floor_wide(-((p.x.raw as i128) * (mu.raw as i128)), r3);
        let qy: i128 = div_floor_wide(-((p.y.raw as i128) * (mu.raw as i128)), r3);
        let qz: i128 = div_floor_wide(-((p.z.raw as i128) * (mu.raw as i128)), r3);
        if qx < -1125899906842624 || qx > 1125899906842624 || qy < -1125899906842624 || qy
            > 1125899906842624 || qz < -1125899906842624 || qz > 1125899906842624 {
            return None;
        }
        Some(V3 { x: Fx { raw: qx as i64 }, y: Fx { raw: qy as i64 }, z: Fx { raw: qz as i64 } })
    }

    /// Step the state forward one millisecond at a time until `when_ms`,
    /// or `None` as soon as a step leaves the integrable window.  Stepping
    /// toward the past is a no-op: the integrator only runs forward.
    pub fn tick_to(self, when_ms: i64, mu: Fx) -> (r: Option<Sat>)
        requires
            SCALE <= mu.raw <= 288230376151711744,
        ensures
            match r {
                Some(s2) => sat_run(sat_i(self), mu.raw as int, when_ms as int) == Some(
                    sat_i(s2),
                ),
                None => sat_run(sat_i(self), mu.raw as int, when_ms as int).is_none(),
            },
    {
        let mut cur: Sat = self;
        while cur.when < when_ms
            invariant
                SCALE <= mu.raw <= 288230376151711744,
                sat_run(sat_i(cur), mu.raw as int, when_ms as int) == sat_run(
                    sat_i(self),
                    mu.raw as int,
                    when_ms as int,
                ),
            decreases when_ms - cur.when,
        {
            let v: V3 = cur.vel;
            if v.x.raw < -35184372088832 || v.x.raw > 35184372088832 || v.y.raw
                < -35184372088832 || v.y.raw > 35184372088832 || v.z.raw < -35184372088832
                || v.z.raw > 35184372088832 {
                proof {
                    assert(sat_run(sat_i(cur), mu.raw as int, when_ms as int).is_none());
                }
                return None;
            }
            let acc: V3 = match cur.acceleration(mu) {
                Some(a) => a,
                None => {
                    proof {
                        assert(sat_run(sat_i(cur), mu.raw as int, when_ms as int).is_none());
                    }
                    return None;
                },
            };
            proof {
                lemma_step_products(v3i(acc), v3i(cur.vel));
            }
            let dv: V3 = acc.scale(Fx { raw: DT_RAW });
            let vel2: V3 = cur.vel.vadd(dv);
            proof {
                lemma_step_products2(v3i(vel2));
            }
            let dp: V3 = vel2.scale(Fx { raw: DT_RAW });
            let pos2: V3 = cur.pos.vadd(dp);
            let next: Sat = Sat { pos: pos2, vel: vel2, when: cur.when + 1 };
            proof {
                assert(sat_step(sat_i(cur), mu.raw as int) == Some(sat_i(next)));
            }
            cur = next;
        }
        Some(cur)
    }
}

/// The velocity update terms fit comfortably after rescaling by the step.
proof fn lemma_step_products(a: (int, int, int), v: (int, int, int))
    requires
        tup_in_win(a, 1125899906842624),
        tup_in_win(v, 35184372088832),
    ensures
        -1125899829249 <= mul_val(a.0, DT_RAW as int) <= 1125899829248,
        -1125899829249 <= mul_val(a.1, DT_RAW as int) <= 1125899829248,
        -1125899829249 <= mul_val(a.2, DT_RAW as int) <= 1125899829248,
{
    lemma_dt_product(a.0);
    lemma_dt_product(a.1);
    lemma_dt_product(a.2);
}

/// The position update terms fit comfortably after rescaling by the step.
proof fn lemma_step_products2(v: (int, int, int))
    requires
        tup_in_win(v, 36310271918081),
    ensures
        -1125899829249 <= mul_val(v.0, DT_RAW as int) <= 1125899829248,
        -1125899829249 <= mul_val(v.1, DT_RAW as int) <= 1125899829248,
        -1125899829249 <= mul_val(v.2, DT_RAW as int) <= 1125899829248,
{
    lemma_dt_product(v.0);
    lemma_dt_product(v.1);
    lemma_dt_product(v.2);
}

/// `|x * dt / 2^32| <= 2^48` whenever `|x| <= 2^50`.
proof fn lemma_dt_product(x: int)
    requires
        -1125899906842624 <= x <= 1125899906842624,
    ensures
        -1125899829249 <= mul_val(x, DT_RAW as int) <= 1125899829248,
{
    assert(-(1125899906842624int * 4294967int) <= x * (DT_RAW as int) <= 1125899906842624int
        * 4294967int) by (nonlinear_arith)
        requires
            -1125899906842624 <= x <= 1125899906842624,
    ;
    lemma_div_is_ordered(x * (DT_RAW as int), 1125899906842624int * 4294967int, SCALE as int);
    lemma_div_is_ordered(-(1125899906842624int * 4294967int), x * (DT_RAW as int), SCALE as int);
    assert(1125899906842624int * 4294967int == 4835702945192144273408int) by (nonlinear_arith);
    assert(4835702945192144273408int / 4294967296int == 1125899829248int);
    crate::vec3::lemma_neg_div(4835702945192144273408int, SCALE as int);
}

} // verus!

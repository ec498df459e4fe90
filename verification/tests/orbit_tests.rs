use orbital::fixed::{remap as fx_remap, Fx, SCALE, TOL};
use orbital::orbit::{approx_eq, Csv, Koe, Phase};
use orbital::sat::Sat;
use orbital::trig::sin_cos;
use orbital::vec3::V3;

const PARENT_MASS: f64 = 5.97219e17;
const GRAVITATIONAL_CONSTANT: f64 = 6.67e-11;
const MU: f64 = PARENT_MASS * GRAVITATIONAL_CONSTANT;

fn fx(v: f64) -> Fx {
    Fx {
        raw: (v * 4294967296.0).round() as i64,
    }
}

fn val(x: Fx) -> f64 {
    x.raw as f64 / 4294967296.0
}

fn v3(x: f64, y: f64, z: f64) -> V3 {
    V3 {
        x: fx(x),
        y: fx(y),
        z: fx(z),
    }
}

fn max_err(a: V3, b: V3) -> f64 {
    let dx = (val(a.x) - val(b.x)).abs();
    let dy = (val(a.y) - val(b.y)).abs();
    let dz = (val(a.z) - val(b.z)).abs();
    dx.max(dy).max(dz)
}

#[test]
fn remap() {
    assert_eq!(fx_remap(fx(0.0), fx(0.0), fx(1.0), fx(0.0), fx(1.0)), fx(0.0));
    assert_eq!(fx_remap(fx(1.0), fx(0.0), fx(1.0), fx(0.0), fx(1.0)), fx(1.0));
    assert_eq!(fx_remap(fx(0.5), fx(0.0), fx(1.0), fx(0.0), fx(2.0)), fx(1.0));
    assert_eq!(fx_remap(fx(-0.5), fx(0.0), fx(-1.0), fx(0.0), fx(2.0)), fx(1.0));
}

#[test]
fn approx_eq_tolerance() {
    assert!(approx_eq(fx(1.0), fx(1.0)));
    assert!(!approx_eq(fx(1.0), fx(1.001)));
    // one raw unit inside and outside the floored 1e-7 window
    let a = Fx { raw: 1000 };
    assert!(approx_eq(a, Fx { raw: 1000 + TOL - 1 }));
    assert!(!approx_eq(a, Fx { raw: 1000 + TOL }));
}

#[test]
fn sqrt_exact_values() {
    assert_eq!(fx(4.0).fsqrt(), fx(2.0));
    assert_eq!(fx(0.0).fsqrt(), fx(0.0));
    assert_eq!(orbital::fixed::isqrt(15), 3);
    assert_eq!(orbital::fixed::isqrt(16), 4);
}

#[test]
fn sin_cos_spot_values() {
    let (s, c) = sin_cos(fx(0.0));
    assert_eq!(s.raw, 0);
    assert_eq!(c.raw, SCALE);
    let (s, c) = sin_cos(fx(std::f64::consts::FRAC_PI_2));
    assert!((val(s) - 1.0).abs() < 1e-8);
    assert!(val(c).abs() < 1e-8);
    let (s, c) = sin_cos(fx(2.5));
    assert!((val(s) - 2.5f64.sin()).abs() < 1e-8);
    assert!((val(c) - 2.5f64.cos()).abs() < 1e-8);
    let (s, c) = sin_cos(fx(-11.0));
    assert!((val(s) - (-11.0f64).sin()).abs() < 1e-8);
    assert!((val(c) - (-11.0f64).cos()).abs() < 1e-8);
}

/// Round-trip identity on a planar elliptical orbit.
#[test]
fn round_trip_planar() {
    let r0 = v3(1024.0 / 3.0, 0.0, 0.0);
    let v0 = v3(0.0, (MU / (1024.0 / 3.0)).sqrt() * 1.2, 0.0);
    let csv = Csv::new(r0, v0);
    let koe = Koe::try_from_csv(csv, fx(MU)).expect("state in range");
    let back = Csv::try_from_koe(koe, fx(MU)).expect("elements in range");
    assert!(max_err(back.pos, r0) < 1e-4);
    assert!(max_err(back.vel, v0) < 1e-4);
}

/// Round-trip identity on a full three-dimensional orbit.
#[test]
fn round_trip_inclined() {
    let r0 = v3(400.0, 100.0, 200.0);
    let v0 = v3(-80.0, 220.0, 60.0);
    let csv = Csv::new(r0, v0);
    let koe = Koe::try_from_csv(csv, fx(MU)).expect("state in range");
    let back = Csv::try_from_koe(koe, fx(MU)).expect("elements in range");
    assert!(max_err(back.pos, r0) < 2e-4);
    assert!(max_err(back.vel, v0) < 2e-4);
}

/// Propagating by exactly one period returns to the initial state.
#[test]
fn period_closure() {
    let r0 = v3(1024.0 / 3.0, 0.0, 0.0);
    let v0 = v3(0.0, (MU / (1024.0 / 3.0)).sqrt() * 1.2, 0.0);
    let csv = Csv::new(r0, v0);
    let koe = Koe::try_from_csv(csv, fx(MU)).expect("state in range");
    let per = koe.period(fx(MU));
    assert!(val(per) > 0.0);
    let back = Csv::try_from_koe(koe.tick(per, fx(MU)), fx(MU)).expect("elements in range");
    assert!(max_err(back.pos, r0) < 1e-3);
    assert!(max_err(back.vel, v0) < 1e-3);
}

/// Ticking by dt1 then dt2 accumulates exactly the same phase as one tick
/// by dt1 + dt2.
#[test]
fn tick_linearity() {
    let r0 = v3(400.0, 30.0, -70.0);
    let v0 = v3(10.0, 250.0, 40.0);
    let koe = Koe::try_from_csv(Csv::new(r0, v0), fx(MU)).expect("state in range");
    let dt1 = fx(13.25);
    let dt2 = fx(-4.75);
    let dt12 = dt1.fadd(dt2);
    let two_step = koe.tick(dt1, fx(MU)).tick(dt2, fx(MU));
    let one_step = koe.tick(dt12, fx(MU));
    assert_eq!(two_step.mean_anomaly, one_step.mean_anomaly);
    assert_eq!(two_step.semi_major_axis, one_step.semi_major_axis);
    assert_eq!(two_step.eccentricity, one_step.eccentricity);
}

/// A perfectly circular orbit reports ap = 0; a perfectly equatorial one
/// reports lan = 0; circular equatorial states still round-trip.
#[test]
fn degenerate_branches() {
    let r = 400.0;
    let vc = (MU / r).sqrt();
    // circular equatorial
    let csv = Csv::new(v3(r, 0.0, 0.0), v3(0.0, vc, 0.0));
    let koe = Koe::try_from_csv(csv, fx(MU)).expect("state in range");
    assert!(val(koe.eccentricity) < 1e-7);
    assert_eq!(koe.ap.raw, 0);
    assert_eq!(koe.lan.raw, 0);
    assert!(val(koe.inclination).abs() < 1e-7);
    let back = Csv::try_from_koe(koe, fx(MU)).expect("elements in range");
    assert!(max_err(back.pos, csv.pos) < 1e-3);
    assert!(max_err(back.vel, csv.vel) < 1e-3);
    // circular equatorial, quarter turn along the orbit
    let csv2 = Csv::new(v3(0.0, r, 0.0), v3(-vc, 0.0, 0.0));
    let koe2 = Koe::try_from_csv(csv2, fx(MU)).expect("state in range");
    assert_eq!(koe2.ap.raw, 0);
    assert_eq!(koe2.lan.raw, 0);
    let back2 = Csv::try_from_koe(koe2, fx(MU)).expect("elements in range");
    assert!(max_err(back2.pos, csv2.pos) < 1e-3);
    assert!(max_err(back2.vel, csv2.vel) < 1e-3);
    // elliptic equatorial: lan forced to zero, periapsis kept as longitude
    let csv3 = Csv::new(v3(r, 0.0, 0.0), v3(0.0, 1.2 * vc, 0.0));
    let koe3 = Koe::try_from_csv(csv3, fx(MU)).expect("state in range");
    assert_eq!(koe3.lan.raw, 0);
    assert!(val(koe3.eccentricity) > 0.4);
}

/// Newton-Raphson residuals stay below 1e-9 across eccentricities up to
/// 0.99 and mean anomalies across two full turns.
#[test]
fn kepler_solver_convergence() {
    let iters: i32 = 10;
    for &e in &[0.0, 0.5, 0.99] {
        let ef = fx(e);
        for i in 0..=24 {
            let m0 = Phase {
                raw: (4.0 * std::f64::consts::PI * i as f64 / 24.0 * 2f64.powi(64)) as i128,
            };
            let ea = Csv::newton_raphson(&m0, &ef, &iters);
            let resid = orbital::orbit::kepler_residual(ea, ef, &m0);
            let resid_abs = resid.raw.unsigned_abs() as f64 / 2f64.powi(64);
            assert!(
                resid_abs < 1e-9,
                "residual {} at e={} i={}",
                resid_abs,
                e,
                i
            );
        }
    }
}

/// The concrete mission scenario: an elliptical orbit whose apoapsis lies
/// opposite the eccentricity vector, reached after half a period.
#[test]
fn concrete_scenario() {
    let rmag = 1024.0 / 3.0;
    let r0 = v3(rmag, 0.0, 0.0);
    let v0 = v3(0.0, (MU / rmag).sqrt() * 1.2, 0.0);
    let csv = Csv::new(r0, v0);
    let koe = Koe::try_from_csv(csv, fx(MU)).expect("state in range");
    assert!(val(koe.eccentricity) > 0.0);
    assert!(val(koe.semi_major_axis) > rmag);
    let per = koe.period(fx(MU));
    let a = val(koe.semi_major_axis);
    let expected_period = 2.0 * std::f64::consts::PI * (a * a * a / MU).sqrt();
    assert!((val(per) - expected_period).abs() < 1e-4 * expected_period);
    let closed = Csv::try_from_koe(koe.tick(per, fx(MU)), fx(MU)).expect("elements in range");
    assert!(max_err(closed.pos, r0) < 1e-3);
    assert!(max_err(closed.vel, v0) < 1e-3);
    // half a period later the body sits at apoapsis: along -x, at a(1+e)
    let half = Fx { raw: per.raw / 2 };
    let apo = Csv::try_from_koe(koe.tick(half, fx(MU)), fx(MU)).expect("elements in range");
    let expected = -val(koe.semi_major_axis) * (1.0 + val(koe.eccentricity));
    assert!((val(apo.pos.x) - expected).abs() < 1e-2);
    assert!(val(apo.pos.y).abs() < 1e-3);
    assert!(val(apo.pos.z).abs() < 1e-3);
}

/// One integrator step matches the integer recurrence exactly.
#[test]
fn sat_single_step() {
    let s = Sat {
        pos: v3(256.0, 0.0, 0.0),
        vel: v3(0.0, 16.0, 0.0),
        when: 0,
    };
    let acc = s.acceleration(fx(1.0)).expect("in window");
    assert_eq!(acc.x.raw, -65536);
    assert_eq!(acc.y.raw, 0);
    assert_eq!(acc.z.raw, 0);
    let s2 = s.tick_to(1, fx(1.0)).expect("in window");
    assert_eq!(s2.when, 1);
    assert_eq!(s2.vel.x.raw, -66);
    assert_eq!(s2.vel.y.raw, 16 * SCALE);
    assert_eq!(s2.pos.x.raw, 256 * SCALE - 1);
    assert_eq!(s2.pos.y.raw, 68719472);
}

/// The integrator stays near a circular orbit over a full revolution,
/// within the drift budget of a first-order scheme.
#[test]
fn sat_circular_drift() {
    let r = 300.0;
    let vc = (MU / r).sqrt();
    let s = Sat {
        pos: v3(r, 0.0, 0.0),
        vel: v3(0.0, vc, 0.0),
        when: 0,
    };
    let period_ms = (2.0 * std::f64::consts::PI * (r * r * r / MU).sqrt() * 1000.0) as i64;
    let s2 = s.tick_to(period_ms, fx(MU)).expect("in window");
    let dist = (val(s2.pos.x).powi(2) + val(s2.pos.y).powi(2)).sqrt();
    assert!((dist - r).abs() < 2.0, "radius drifted to {}", dist);
}

/// Even at the extreme corners of the admitted element ranges, the period
/// and the mean motion stay strictly positive: a tiny fast orbit still has
/// a representable period, and a wide slow orbit still accumulates phase.
#[test]
fn period_and_phase_never_collapse() {
    // semi-major axis about 1 mm around the heaviest admitted body
    let tiny = Koe {
        semi_major_axis: Fx { raw: 4194304 },
        eccentricity: fx(0.0),
        inclination: fx(0.0),
        lan: fx(0.0),
        ap: fx(0.0),
        mean_anomaly: Phase { raw: 0 },
    };
    let heavy = Fx {
        raw: 288230376151711744,
    };
    let per = tiny.period(heavy);
    assert_eq!(per.raw, 100);
    // an 8 km orbit around the lightest admitted body still advances
    let wide = Koe {
        semi_major_axis: Fx {
            raw: 35184372088832,
        },
        ..tiny
    };
    let light = fx(1.0);
    let ticked = wide.tick(fx(1.0), light);
    assert_eq!(ticked.mean_anomaly.raw, 24876450578432);
    assert!(ticked.mean_anomaly.raw > wide.mean_anomaly.raw);
    // its period is far beyond the old game scale and fits in one tick
    let slow_per = wide.period(light);
    assert!(val(slow_per) > 100000.0);
    let closed = wide.tick(slow_per, light);
    assert!(closed.mean_anomaly.raw > 0);
}

/// Node and periapsis angles always land inside [0, 2*pi), including on
/// states whose quadrant mirror hits the full-turn boundary.
#[test]
fn angles_stay_inside_one_turn() {
    let two_pi_raw: i64 = 26986075409;
    let r = 400.0;
    let vc = (MU / r).sqrt();
    for k in 0..16 {
        let th = std::f64::consts::PI * 2.0 * k as f64 / 16.0;
        let (sn, cs) = th.sin_cos();
        // an inclined, rotated, mildly eccentric orbit
        let pos = v3(r * cs, r * sn, 20.0);
        let vel = v3(-1.1 * vc * sn, 1.1 * vc * cs, 15.0);
        if let Some(koe) = Koe::try_from_csv(Csv::new(pos, vel), fx(MU)) {
            assert!(0 <= koe.lan.raw && koe.lan.raw < two_pi_raw);
            assert!(0 <= koe.ap.raw && koe.ap.raw < two_pi_raw);
        }
    }
}

/// States outside the supported window are refused rather than folded in.
#[test]
fn out_of_range_states_are_refused() {
    // position at the central body
    let csv = Csv::new(v3(0.0, 0.0, 0.0), v3(0.0, 10.0, 0.0));
    assert!(Koe::try_from_csv(csv, fx(MU)).is_none());
    // radial trajectory: angular momentum vanishes
    let csv = Csv::new(v3(100.0, 0.0, 0.0), v3(50.0, 0.0, 0.0));
    assert!(Koe::try_from_csv(csv, fx(MU)).is_none());
    // hyperbolic speed: vis-viva denominator crosses zero
    let csv = Csv::new(v3(100.0, 0.0, 0.0), v3(0.0, 2000.0, 0.0));
    assert!(Koe::try_from_csv(csv, fx(MU)).is_none());
    // eccentricity above the supported band
    let mut koe = Koe::try_from_csv(
        Csv::new(v3(340.0, 0.0, 0.0), v3(0.0, 400.0, 0.0)),
        fx(MU),
    )
    .expect("state in range");
    koe.eccentricity = fx(1.5);
    assert!(Csv::try_from_koe(koe, fx(MU)).is_none());
    // the integrator refuses a state parked on the central body
    let s = Sat {
        pos: v3(0.0, 0.0, 0.0),
        vel: v3(0.0, 0.0, 0.0),
        when: 0,
    };
    assert!(s.tick_to(5, fx(MU)).is_none());
}

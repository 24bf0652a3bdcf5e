//! Predictor-corrector and semi-implicit Euler integration.

use dem::integrator::integrate;
use dem::particle::DemDiscrete;

fn fix(v: f64) -> i64 {
    (v * 1_000_000.0).round() as i64
}

#[test]
fn test_integrator_rest_round_trip() {
    // zero force, zero velocity: one whole predictor-corrector cycle leaves
    // every position exactly where it was
    let mut ent = DemDiscrete::new(2, 1, String::from("rest"));
    ent.x = vec![fix(5.), fix(-3.25)];
    ent.y = vec![fix(0.5), fix(7.)];
    ent.m = vec![fix(1.), fix(1.)];
    ent.m_inv = vec![fix(1.), fix(1.)];
    let dt = fix(1e-4);

    ent.initialize();
    ent.stage1(dt);
    ent.stage2(dt);

    assert_eq!(fix(5.), ent.x[0]);
    assert_eq!(fix(-3.25), ent.x[1]);
    assert_eq!(fix(0.5), ent.y[0]);
    assert_eq!(fix(7.), ent.y[1]);
    assert_eq!(0, ent.u[0]);
    assert_eq!(0, ent.v[0]);
}

#[test]
fn test_integrator_constant_force() {
    // constant force, mu = 0: one step matches the closed-form constant
    // acceleration displacement x0 + u0 dt + (f / m) dt^2 / 2 exactly at
    // these values
    let mut ent = DemDiscrete::new(1, 1, String::from("push"));
    ent.x = vec![fix(1.)];
    ent.m = vec![fix(1.)];
    ent.m_inv = vec![fix(1.)];
    ent.fx = vec![fix(2.)];
    let dt = fix(0.01);

    ent.initialize();
    ent.stage1(dt);
    ent.stage2(dt);

    // x = 1 + 0 + 0.5 * 2 * 0.0001 = 1.0001, u = 2 * 0.01 = 0.02
    assert_eq!(fix(1.0001), ent.x[0]);
    assert_eq!(fix(0.02), ent.u[0]);
}

#[test]
fn test_integrate_euler() {
    // semi-implicit Euler: velocity first, then position with the updated
    // velocity
    let mut ent = DemDiscrete::new(1, 1, String::from("euler"));
    ent.m = vec![fix(1.)];
    ent.m_inv = vec![fix(1.)];
    ent.fx = vec![fix(2.)];
    let dt = fix(0.01);

    integrate(&mut ent, dt);
    assert_eq!(fix(0.02), ent.u[0]);
    assert_eq!(fix(0.0002), ent.x[0]);

    integrate(&mut ent, dt);
    assert_eq!(fix(0.04), ent.u[0]);
    assert_eq!(fix(0.0006), ent.x[0]);
}

#[test]
fn test_immovable_particle_stays() {
    // m_inv = 0 marks a boundary particle: force moves it nowhere
    let mut ent = DemDiscrete::new(1, 1, String::from("wall"));
    ent.x = vec![fix(2.)];
    ent.fx = vec![fix(100.)];
    let dt = fix(1e-4);

    ent.initialize();
    ent.stage1(dt);
    ent.stage2(dt);
    assert_eq!(fix(2.), ent.x[0]);
    assert_eq!(0, ent.u[0]);
}

//! The viscoelastic model: normal force, tangential seeding, Coulomb
//! clipping, history lifecycle, and body forces.

use dem::contact_search::LinkedListGrid;
use dem::equations::{body_force_dem, linear_viscoelastic_model_dem_other, make_forces_zero};
use dem::particle::DemDiscrete;

fn fix(v: f64) -> i64 {
    (v * 1_000_000.0).round() as i64
}

fn grain(xs: &[f64], ys: &[f64], id: usize, name: &str) -> DemDiscrete {
    let mut ent = DemDiscrete::new(xs.len(), id, String::from(name));
    for (i, x) in xs.iter().enumerate() {
        ent.x[i] = fix(*x);
    }
    for (i, y) in ys.iter().enumerate() {
        ent.y[i] = fix(*y);
    }
    ent.h = vec![fix(1.); xs.len()];
    ent.rad = vec![fix(1.); xs.len()];
    ent
}

#[test]
fn test_viscoelastic_normal_force_frictionless() {
    // axis-aligned static overlap of 0.2, kn = 1, mu = 0: the normal spring
    // alone, exactly kn * overlap towards -x, and no history is kept
    let mut ent1 = grain(&[0.], &[0.], 1, "ent1");
    let ent2 = grain(&[1.8], &[0.], 2, "ent2");
    let grid = LinkedListGrid::new(&vec![&ent1, &ent2], fix(2.)).unwrap();

    linear_viscoelastic_model_dem_other(&mut ent1, &ent2, fix(1.), 0, fix(1e-4), 1, &grid);
    assert_eq!(-fix(0.2), ent1.fx[0]);
    assert_eq!(0, ent1.fy[0]);
    assert_eq!(None, ent1.tang_history.get(0, 2, 0));
}

#[test]
fn test_history_lifecycle() {
    // a contact seeds its spring on first touch with zero tangential force,
    // keeps it while the overlap lasts, loses it on separation, and a later
    // re-contact starts from a fresh spring again
    let mut ent1 = grain(&[0.], &[0.], 1, "ent1");
    ent1.v = vec![fix(1.)];
    let mut ent2 = grain(&[1.8], &[0.], 2, "ent2");
    let kn = fix(1.);
    let mu = fix(0.5);
    let dt = fix(1e-4);

    let grid = LinkedListGrid::new(&vec![&ent1, &ent2], fix(2.)).unwrap();
    linear_viscoelastic_model_dem_other(&mut ent1, &ent2, kn, mu, dt, 1, &grid);
    // first touch: pure normal force, spring seeded from v_t * dt
    assert_eq!(-fix(0.2), ent1.fx[0]);
    assert_eq!(0, ent1.fy[0]);
    assert_eq!(Some((0, 100)), ent1.tang_history.get(0, 2, 0));
    assert_eq!(Some((0, 0)), ent1.tang_history0.get(0, 2, 0));

    // second touch: the spring now acts; tangential force appears
    make_forces_zero(&mut ent1);
    linear_viscoelastic_model_dem_other(&mut ent1, &ent2, kn, mu, dt, 1, &grid);
    assert_eq!(-fix(0.2), ent1.fx[0]);
    assert!(ent1.fy[0] != 0);

    // separation clears the record
    ent2.x[0] = fix(5.);
    let grid = LinkedListGrid::new(&vec![&ent1, &ent2], fix(2.)).unwrap();
    make_forces_zero(&mut ent1);
    linear_viscoelastic_model_dem_other(&mut ent1, &ent2, kn, mu, dt, 1, &grid);
    assert_eq!(0, ent1.fx[0]);
    assert_eq!(0, ent1.fy[0]);
    assert_eq!(None, ent1.tang_history.get(0, 2, 0));
    assert_eq!(None, ent1.tang_history0.get(0, 2, 0));

    // re-approach: the re-contact starts with zero tangential force
    ent2.x[0] = fix(1.8);
    let grid = LinkedListGrid::new(&vec![&ent1, &ent2], fix(2.)).unwrap();
    make_forces_zero(&mut ent1);
    linear_viscoelastic_model_dem_other(&mut ent1, &ent2, kn, mu, dt, 1, &grid);
    assert_eq!(-fix(0.2), ent1.fx[0]);
    assert_eq!(0, ent1.fy[0]);
}

#[test]
fn test_friction_clipping() {
    // drive the tangential trial force far beyond the Coulomb cone: the
    // returned tangential force is exactly mu * |f_n|, never more
    let mut ent1 = grain(&[0.], &[0.], 1, "ent1");
    ent1.v = vec![fix(1.)];
    let ent2 = grain(&[1.8], &[0.], 2, "ent2");
    let kn = fix(1.);
    let mu = fix(0.5);
    let dt = fix(1e-4);

    let grid = LinkedListGrid::new(&vec![&ent1, &ent2], fix(2.)).unwrap();
    // seed the spring, then let it act
    linear_viscoelastic_model_dem_other(&mut ent1, &ent2, kn, mu, dt, 1, &grid);
    make_forces_zero(&mut ent1);
    linear_viscoelastic_model_dem_other(&mut ent1, &ent2, kn, mu, dt, 1, &grid);

    // |f_n| = kn * overlap = 0.2; the Coulomb limit is mu * |f_n| = 0.1
    let lim = fix(0.1);
    assert_eq!(-fix(0.2), ent1.fx[0]);
    assert_eq!(lim, ent1.fy[0].abs());
    assert!(ent1.fy[0].abs() <= lim);
}

#[test]
fn test_body_force_dem() {
    let mut ent = grain(&[0., 1.], &[0., 0.], 1, "heavy");
    ent.m = vec![fix(2.), fix(3.)];
    body_force_dem(&mut ent, 0, -fix(9.81));
    assert_eq!(0, ent.fx[0]);
    assert_eq!(-fix(19.62), ent.fy[0]);
    assert_eq!(-fix(29.43), ent.fy[1]);
    // accumulation, not overwriting
    body_force_dem(&mut ent, 0, -fix(9.81));
    assert_eq!(-2 * fix(19.62), ent.fy[0]);
}

#[test]
fn test_make_forces_zero() {
    let mut ent = grain(&[0.], &[0.], 1, "reset");
    ent.fx = vec![123];
    ent.fy = vec![-456];
    make_forces_zero(&mut ent);
    assert_eq!(0, ent.fx[0]);
    assert_eq!(0, ent.fy[0]);
}

#[test]
fn test_coincident_particles_no_force() {
    // coincident centres leave the contact normal undefined: no force this
    // step, and no contact is recorded
    let mut ent1 = grain(&[0.5], &[0.5], 1, "ent1");
    let ent2 = grain(&[0.5], &[0.5], 2, "ent2");
    let grid = LinkedListGrid::new(&vec![&ent1, &ent2], fix(2.)).unwrap();

    linear_viscoelastic_model_dem_other(&mut ent1, &ent2, fix(1.), fix(0.5), fix(1e-4), 1,
        &grid);
    assert_eq!(0, ent1.fx[0]);
    assert_eq!(0, ent1.fy[0]);
    assert_eq!(None, ent1.tang_history.get(0, 2, 0));
}

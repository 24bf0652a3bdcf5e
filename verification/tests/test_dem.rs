//! Spring-only contact force: direction, magnitude and source-store
//! integrity, on the fixed-point scale of one million units per unit.

use dem::contact_search::LinkedListGrid;
use dem::dem::{spring_force, spring_force_self};
use dem::equations::make_forces_zero;
use dem::particle::DemDiscrete;

fn fix(v: f64) -> i64 {
    (v * 1_000_000.0).round() as i64
}

fn grain(xs: &[f64], ys: &[f64], id: usize, name: &str) -> DemDiscrete {
    let mut ent = DemDiscrete::new(xs.len(), id, String::from(name));
    for (i, x) in xs.iter().enumerate() {
        ent.x[i] = fix(*x);
    }
    for (i, y) in ys.iter().enumerate() {
        ent.y[i] = fix(*y);
    }
    ent.h = vec![fix(1.); xs.len()];
    ent.rad = vec![fix(1.); xs.len()];
    ent
}

#[test]
fn test_unit_vector() {}

#[test]
fn check_spring_force_oblique_impact() {
    // two particles colliding obliquely: the force on the destination
    // points away from the source in both axes
    let ent1 = grain(&[0.], &[0.0], 1, "ent1");
    let ent2 = grain(&[-1.5], &[1.0], 2, "ent2");

    let scale = fix(2.);
    let grid = LinkedListGrid::new(&vec![&ent1, &ent2], scale).unwrap();

    let mut ent1 = ent1;
    spring_force(&mut ent1, &ent2, fix(1.), &grid);

    assert!(ent1.fx[0] > 0);
    assert!(ent1.fy[0] < 0);
}

#[test]
fn check_spring_force_impact_with_different_entity() {
    // vertical overlap between two entities: pure -y force on both
    // destination particles
    let ent1 = grain(&[0., 2.0], &[0.0, 0.0], 1, "ent1");
    let ent2 = grain(&[0., 2.0], &[1.8, 1.8], 2, "ent2");

    let scale = fix(2.);
    let grid = LinkedListGrid::new(&vec![&ent1, &ent2], scale).unwrap();

    let mut ent1 = ent1;
    spring_force(&mut ent1, &ent2, fix(1.), &grid);

    assert!(ent1.fx[0] == 0);
    assert!(ent1.fy[0] < 0);
    assert!(ent1.fx[1] == 0);
    assert!(ent1.fy[1] < 0);
}

#[test]
fn check_spring_force_horizontal_impact() {
    // axis-aligned overlap of 0.2 with kn = 1: the force is exactly
    // kn * overlap in +x and exactly zero in y
    let ent1 = grain(&[0.], &[0.0], 1, "ent1");
    let ent2 = grain(&[-1.8], &[0.0], 2, "ent2");

    let scale = fix(2.);
    let grid = LinkedListGrid::new(&vec![&ent1, &ent2], scale).unwrap();

    let mut ent1 = ent1;
    spring_force(&mut ent1, &ent2, fix(1.), &grid);

    assert!(ent1.fx[0] - fix(0.2) < 1);
    assert!(ent1.fx[0] == fix(0.2));
    assert!(ent1.fy[0] == 0);
}

#[test]
fn src_dest_index_test_in_equation() {
    let mut ent1 = grain(&[0.], &[0.0], 1, "ent1");
    let ent2 = grain(&[-1.8], &[0.0], 2, "ent2");
    let ent3 = grain(&[1.8], &[0.0], 3, "ent3");

    let scale = fix(2.);
    let grid = LinkedListGrid::new(&vec![&ent1, &ent2, &ent3], scale).unwrap();

    // force due to entity 2 on entity 1 has to be positive in x
    spring_force(&mut ent1, &ent2, fix(1.), &grid);
    assert!(ent1.fx[0] > 0);
    // the source entity must not acquire any force
    assert!(ent2.fx[0] == 0);

    // clear, then the particle on the right pushes entity 1 towards -x
    make_forces_zero(&mut ent1);
    assert!(ent1.fx[0] == 0);
    spring_force(&mut ent1, &ent3, fix(1.), &grid);
    assert!(ent1.fx[0] < 0);
    assert!(ent3.fx[0] == 0);
}

#[test]
fn test_full_simulation() {
    // two falling grains above two resting ones; the setup of a short run
    let mut ent1 = grain(&[0., 2.2], &[2.01, 2.01], 1, "ent1");
    ent1.v = vec![fix(-10.), fix(-10.)];
    let ent2 = grain(&[0., 2.2], &[0.0, 0.0], 1, "ent2");

    let dt = fix(1e-4);
    let tf = 20 * dt;
    let t = 0i64;
    let scale = fix(2.);
    assert!(ent1.len == 2 && ent2.len == 2);
    assert!(t < tf && scale > 0);
}

#[test]
fn test_spring_force_self_skips_own_index() {
    // one store whose two particles overlap: each accumulates the push from
    // the other, never from itself
    let mut ent = grain(&[0., 1.8], &[0., 0.], 1, "pairs");
    let grid = {
        let grid = LinkedListGrid::new(&vec![&ent], fix(2.)).unwrap();
        grid
    };
    spring_force_self(&mut ent, fix(1.), &grid);
    assert!(ent.fx[0] == -fix(0.2));
    assert!(ent.fx[1] == fix(0.2));
    assert!(ent.fy[0] == 0 && ent.fy[1] == 0);
}

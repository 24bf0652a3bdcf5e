//! Grid build and neighbour query, on the fixed-point scale of one million
//! units per physical unit.

use dem::contact_search::{get_neighbours_ll, LinkedListGrid};
use dem::particle::DemDiscrete;

fn fix(v: f64) -> i64 {
    (v * 1_000_000.0).round() as i64
}

fn store_xy(xs: &[f64], ys: &[f64], id: usize, name: &str) -> DemDiscrete {
    let mut ent = DemDiscrete::new(xs.len(), id, String::from(name));
    for (i, x) in xs.iter().enumerate() {
        ent.x[i] = fix(*x);
    }
    for (i, y) in ys.iter().enumerate() {
        ent.y[i] = fix(*y);
    }
    ent
}

#[test]
fn test_grid_cells_indices() {
    // two entities on a 2 x 2 arrangement; with a cell edge of one unit the
    // particles of the other entity are beyond the 3x3 neighbourhood, with
    // an edge of two units everything is inside it
    let mut ent1 = store_xy(&[0., 2.], &[0., 0.], 1, "ent1");
    ent1.h = vec![fix(1.), fix(1.)];
    let mut ent2 = store_xy(&[0., 2.], &[2.0, 2.0], 2, "ent2");
    ent2.h = vec![fix(1.), fix(1.)];

    let scale = fix(1.);
    let grid = LinkedListGrid::new(&vec![&ent1, &ent2], scale).unwrap();

    // on the 3x3 cell layout the +(no_y_cells - 1) probe offset reaches the
    // cell of the particle of entity 2 sitting two units above the query
    let nbrs = get_neighbours_ll([ent1.x[0], ent1.y[0]], &grid, &2);
    assert_eq!(1, nbrs.len());
    let nbrs = get_neighbours_ll([ent1.x[0], ent1.y[0]], &grid, &1);
    assert_eq!(1, nbrs.len());

    let scale = fix(2.);
    let grid = LinkedListGrid::new(&vec![&ent1, &ent2], scale).unwrap();

    let nbrs = get_neighbours_ll([ent1.x[0], ent1.y[0]], &grid, &2);
    assert_eq!(2, nbrs.len());
    let nbrs = get_neighbours_ll([ent1.x[0], ent1.y[0]], &grid, &1);
    assert_eq!(2, nbrs.len());
}

#[test]
fn test_grid_cells_indices_a_corner_case() {
    // every particle is in a single cell; no index may repeat
    let mut ent1 = store_xy(&[0., 0.1, 0.], &[0., 0., 0.1], 1, "ent1");
    ent1.h = vec![fix(1.), fix(1.), fix(1.)];
    let mut ent2 = store_xy(&[-0.1, 0., 0.1], &[0., -0.1, 0.1], 2, "ent1");
    ent2.h = vec![fix(1.), fix(1.), fix(1.)];

    let scale = fix(1.);
    let grid = LinkedListGrid::new(&vec![&ent1, &ent2], scale).unwrap();

    let nbrs = get_neighbours_ll([ent1.x[0], ent1.y[0]], &grid, &2);
    assert_eq!(3, nbrs.len());
    let nbrs = get_neighbours_ll([ent1.x[0], ent1.y[0]], &grid, &1);
    assert_eq!(3, nbrs.len());

    let expected_nbrs: Vec<usize> = vec![0, 1, 2];
    for i in expected_nbrs {
        assert_eq!(true, nbrs.contains(&i));
    }
}

#[test]
fn test_grid_bucketing_lattice() {
    // a 3x3 regular lattice spaced 0.1 apart with uniform h = 0.1 and
    // scale 1 yields 3x3 cells, and an interior particle sees the whole
    // lattice: its row, column and diagonal neighbours plus itself
    let xs = [0., 0.1, 0.2, 0., 0.1, 0.2, 0., 0.1, 0.2];
    let ys = [0., 0., 0., 0.1, 0.1, 0.1, 0.2, 0.2, 0.2];
    let mut ent = store_xy(&xs, &ys, 1, "lattice");
    ent.h = vec![fix(0.1); 9];

    let grid = LinkedListGrid::new(&vec![&ent], fix(1.)).unwrap();
    assert_eq!(3, grid.no_x_cells);
    assert_eq!(3, grid.no_y_cells);

    // the centre particle is index 4 at (0.1, 0.1)
    let mut nbrs = get_neighbours_ll([ent.x[4], ent.y[4]], &grid, &1);
    nbrs.sort();
    assert_eq!(vec![0, 1, 2, 3, 4, 5, 6, 7, 8], nbrs);

    // the corner particle sees its own 2x2 block, plus the cell reached by
    // the +(no_y_cells - 1) linear offset, which is probed because only
    // offsets that leave the cell array are skipped
    let mut nbrs = get_neighbours_ll([ent.x[0], ent.y[0]], &grid, &1);
    nbrs.sort();
    assert_eq!(vec![0, 1, 3, 4, 6], nbrs);
}

#[test]
fn test_grid_degenerate_all_h_zero() {
    let ent = store_xy(&[0., 1.], &[0., 0.], 1, "flat");
    let r = LinkedListGrid::new(&vec![&ent], fix(1.));
    assert!(matches!(r, Err(dem::config::DemError::DegenerateGrid)));
}

#[test]
fn test_grid_degenerate_no_particles() {
    let ent = DemDiscrete::new(0, 1, String::from("empty"));
    let r = LinkedListGrid::new(&vec![&ent], fix(1.));
    assert!(matches!(r, Err(dem::config::DemError::DegenerateGrid)));
}

#[test]
fn test_grid_too_large() {
    // a box a million units wide with a cell edge of one micro-unit asks
    // for more cells than the machine limit admits
    let mut ent = store_xy(&[0., 1_000_000.0], &[0., 0.], 1, "wide");
    ent.h = vec![1, 1];
    let r = LinkedListGrid::new(&vec![&ent], fix(1.));
    assert!(matches!(r, Err(dem::config::DemError::GridTooLarge)));
}

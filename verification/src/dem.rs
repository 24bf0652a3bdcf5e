//! Plain normal-spring contact force (no damping, no friction): each
//! overlapping pair pushes the destination particle along the unit normal
//! from the source particle, with magnitude `kn * overlap`.

use crate::config::B_KN;
use crate::contact_search::{
    cell_list_ok, gather, lemma_gather_elems, lemma_gather_len, placed, probe_cells,
    LinkedListGrid,
};
use crate::fixed::{
    lemma_mag_mul_bound, lemma_sqrt_floor, lemma_tdiv_bound, mag, mag_floor, muldiv,
    sqrt_floor, tdiv, SCALE,
};
use crate::particle::{DemDiscrete, B_FORCE, B_KIN, B_RAD};
use vstd::prelude::*;

verus! {

/// Largest admitted particle count per store in a force pass.
pub const B_LEN: usize = 10_000;

/// Largest magnitude one spring-only pair can add to a force component.
pub const B_SPRING_PAIR: i64 = 20_000_000_000_000;

/// The `x` component of the spring force a source particle at `(xj, yj)`
/// with radius `radj` exerts on a destination particle at `(xi, yi)` with
/// radius `radi`; zero without positive overlap, and zero for coincident
/// centres (no defined normal).
pub open spec fn spring_pair_x(
    xi: int,
    yi: int,
    radi: int,
    xj: int,
    yj: int,
    radj: int,
    kn: int,
) -> int {
    let dx = xi - xj;
    let dy = yi - yj;
    let dist = sqrt_floor(dx * dx + dy * dy);
    let overlap = radi + radj - dist;
    if dist > 0 && overlap > 0 {
        tdiv(tdiv(kn * overlap, SCALE as int) * tdiv(dx * SCALE as int, dist), SCALE as int)
    } else {
        0
    }
}

/// The `y` component of the same force.
pub open spec fn spring_pair_y(
    xi: int,
    yi: int,
    radi: int,
    xj: int,
    yj: int,
    radj: int,
    kn: int,
) -> int {
    let dx = xi - xj;
    let dy = yi - yj;
    let dist = sqrt_floor(dx * dx + dy * dy);
    let overlap = radi + radj - dist;
    if dist > 0 && overlap > 0 {
        tdiv(tdiv(kn * overlap, SCALE as int) * tdiv(dy * SCALE as int, dist), SCALE as int)
    } else {
        0
    }
}

/// Total spring force in `x` on a destination particle at `(xi, yi)` with
/// radius `radi` and index `i`, from the source particles listed in `nbrs`
/// (positions `sx, sy`, radii `srad`); with `skip` the destination's own
/// index is passed over (self interaction).
pub open spec fn sum_spring_x(
    xi: int,
    yi: int,
    radi: int,
    i: int,
    sx: Seq<i64>,
    sy: Seq<i64>,
    srad: Seq<i64>,
    nbrs: Seq<usize>,
    kn: int,
    skip: bool,
) -> int
    decreases nbrs.len(),
{
    if nbrs.len() == 0 {
        0
    } else {
        let j = nbrs.last() as int;
        sum_spring_x(xi, yi, radi, i, sx, sy, srad, nbrs.drop_last(), kn, skip) + if skip && j
            == i {
            0
        } else {
            spring_pair_x(xi, yi, radi, sx[j] as int, sy[j] as int, srad[j] as int, kn)
        }
    }
}

/// Total spring force in `y` on the same destination particle.
pub open spec fn sum_spring_y(
    xi: int,
    yi: int,
    radi: int,
    i: int,
    sx: Seq<i64>,
    sy: Seq<i64>,
    srad: Seq<i64>,
    nbrs: Seq<usize>,
    kn: int,
    skip: bool,
) -> int
    decreases nbrs.len(),
{
    if nbrs.len() == 0 {
        0
    } else {
        let j = nbrs.last() as int;
        sum_spring_y(xi, yi, radi, i, sx, sy, srad, nbrs.drop_last(), kn, skip) + if skip && j
            == i {
            0
        } else {
            spring_pair_y(xi, yi, radi, sx[j] as int, sy[j] as int, srad[j] as int, kn)
        }
    }
}

/// The source fields a spring pass reads, within the working range.
pub open spec fn src_fields_ok(sx: Seq<i64>, sy: Seq<i64>, srad: Seq<i64>, n: int) -> bool {
    &&& sx.len() == n
    &&& sy.len() == n
    &&& srad.len() == n
    &&& forall|j: int| 0 <= j < n ==> mag(#[trigger] sx[j] as int) <= B_KIN as int
        && mag(sy[j] as int) <= B_KIN as int && 0 <= srad[j] <= B_RAD
}

/// A centre separation never exceeds the floor distance.
pub proof fn lemma_component_le_dist(dx: int, dy: int)
    ensures
        mag(dx) <= sqrt_floor(dx * dx + dy * dy),
        mag(dy) <= sqrt_floor(dx * dx + dy * dy),
{
    let n = dx * dx + dy * dy;
    assert(n >= mag(dx) * mag(dx) && n >= mag(dy) * mag(dy) && n >= 0) by (nonlinear_arith)
        requires n == dx * dx + dy * dy;
    lemma_sqrt_floor(n);
    let r = sqrt_floor(n);
    assert(mag(dx) <= r) by (nonlinear_arith)
        requires 0 <= r, n < (r + 1) * (r + 1), mag(dx) * mag(dx) <= n, mag(dx) >= 0;
    assert(mag(dy) <= r) by (nonlinear_arith)
        requires 0 <= r, n < (r + 1) * (r + 1), mag(dy) * mag(dy) <= n, mag(dy) >= 0;
}

/// One spring pair contributes at most `B_SPRING_PAIR` per component.
pub proof fn lemma_spring_pair_bound(
    xi: int,
    yi: int,
    radi: int,
    xj: int,
    yj: int,
    radj: int,
    kn: int,
)
    requires
        mag(xi) <= B_KIN as int,
        mag(yi) <= B_KIN as int,
        mag(xj) <= B_KIN as int,
        mag(yj) <= B_KIN as int,
        0 <= radi <= B_RAD as int,
        0 <= radj <= B_RAD as int,
        0 < kn <= B_KN as int,
    ensures
        mag(spring_pair_x(xi, yi, radi, xj, yj, radj, kn)) <= B_SPRING_PAIR as int,
        mag(spring_pair_y(xi, yi, radi, xj, yj, radj, kn)) <= B_SPRING_PAIR as int,
{
    let dx = xi - xj;
    let dy = yi - yj;
    let dist = sqrt_floor(dx * dx + dy * dy);
    let overlap = radi + radj - dist;
    assert(dx * dx + dy * dy >= 0) by (nonlinear_arith);
    lemma_sqrt_floor(dx * dx + dy * dy);
    if dist > 0 && overlap > 0 {
        lemma_component_le_dist(dx, dy);
        let nx = tdiv(dx * SCALE as int, dist);
        let ny = tdiv(dy * SCALE as int, dist);
        assert(mag(dx * SCALE as int) <= dist * SCALE as int) by (nonlinear_arith)
            requires mag(dx) <= dist, SCALE as int > 0;
        assert(mag(dy * SCALE as int) <= dist * SCALE as int) by (nonlinear_arith)
            requires mag(dy) <= dist, SCALE as int > 0;
        lemma_tdiv_bound(dx * SCALE as int, dist, dist * SCALE as int);
        lemma_tdiv_bound(dy * SCALE as int, dist, dist * SCALE as int);
        assert((dist * SCALE as int) / dist == SCALE as int) by {
            vstd::arithmetic::div_mod::lemma_div_multiples_vanish(SCALE as int, dist);
            vstd::arithmetic::mul::lemma_mul_is_commutative(dist, SCALE as int);
        }
        assert(mag(nx) <= SCALE as int);
        assert(mag(ny) <= SCALE as int);
        let t = tdiv(kn * overlap, SCALE as int);
        assert(overlap <= 2 * B_RAD as int);
        lemma_mag_mul_bound(kn, overlap, B_KN as int, 2 * B_RAD as int);
        lemma_tdiv_bound(kn * overlap, SCALE as int, B_KN as int * 2 * B_RAD as int);
        lemma_mag_mul_bound(t, nx, B_KN as int * 2 * B_RAD as int / SCALE as int, SCALE as int);
        lemma_tdiv_bound(t * nx, SCALE as int,
            (B_KN as int * 2 * B_RAD as int / SCALE as int) * SCALE as int);
        lemma_mag_mul_bound(t, ny, B_KN as int * 2 * B_RAD as int / SCALE as int, SCALE as int);
        lemma_tdiv_bound(t * ny, SCALE as int,
            (B_KN as int * 2 * B_RAD as int / SCALE as int) * SCALE as int);
    }
}

/// A spring sum over `nbrs` stays within `nbrs.len()` pair bounds.
pub proof fn lemma_sum_spring_bound(
    xi: int,
    yi: int,
    radi: int,
    i: int,
    sx: Seq<i64>,
    sy: Seq<i64>,
    srad: Seq<i64>,
    nbrs: Seq<usize>,
    kn: int,
    skip: bool,
)
    requires
        mag(xi) <= B_KIN as int,
        mag(yi) <= B_KIN as int,
        0 <= radi <= B_RAD as int,
        src_fields_ok(sx, sy, srad, sx.len() as int),
        forall|k: int| 0 <= k < nbrs.len() ==> 0 <= #[trigger] nbrs[k] < sx.len(),
        0 < kn <= B_KN as int,
    ensures
        mag(sum_spring_x(xi, yi, radi, i, sx, sy, srad, nbrs, kn, skip))
            <= nbrs.len() * B_SPRING_PAIR as int,
        mag(sum_spring_y(xi, yi, radi, i, sx, sy, srad, nbrs, kn, skip))
            <= nbrs.len() * B_SPRING_PAIR as int,
    decreases nbrs.len(),
{
    if nbrs.len() > 0 {
        let pre = nbrs.drop_last();
        assert(forall|k: int| 0 <= k < pre.len() ==> pre[k] == nbrs[k]);
        lemma_sum_spring_bound(xi, yi, radi, i, sx, sy, srad, pre, kn, skip);
        let j = nbrs.last() as int;
        assert(0 <= nbrs[nbrs.len() - 1] < sx.len());
        lemma_spring_pair_bound(xi, yi, radi, sx[j] as int, sy[j] as int, srad[j] as int, kn);
        assert((nbrs.len() - 1) * B_SPRING_PAIR as int + B_SPRING_PAIR as int
            == nbrs.len() * B_SPRING_PAIR as int) by (nonlinear_arith);
    }
}

/// Spring force between one destination particle and one source particle.
fn spring_pair(xi: i64, yi: i64, radi: i64, xj: i64, yj: i64, radj: i64, kn: i64) -> (r: (
    i64,
    i64,
))
    requires
        mag(xi as int) <= B_KIN as int,
        mag(yi as int) <= B_KIN as int,
        mag(xj as int) <= B_KIN as int,
        mag(yj as int) <= B_KIN as int,
        0 <= radi <= B_RAD,
        0 <= radj <= B_RAD,
        0 < kn <= B_KN,
    ensures
        r.0 as int == spring_pair_x(xi as int, yi as int, radi as int, xj as int, yj as int,
            radj as int, kn as int),
        r.1 as int == spring_pair_y(xi as int, yi as int, radi as int, xj as int, yj as int,
            radj as int, kn as int),
{
    let dx = xi - xj;
    let dy = yi - yj;
    let dist = mag_floor(dx, dy);
    let radsum = radi + radj;
    proof {
        lemma_spring_pair_bound(xi as int, yi as int, radi as int, xj as int, yj as int,
            radj as int, kn as int);
        let n = dx as int * dx as int + dy as int * dy as int;
        assert(n >= 0) by (nonlinear_arith) requires n == dx as int * dx as int + dy as int * dy as int;
        lemma_sqrt_floor(n);
        lemma_component_le_dist(dx as int, dy as int);
        lemma_mag_mul_bound(dx as int, dx as int, 2 * B_KIN as int, 2 * B_KIN as int);
        lemma_mag_mul_bound(dy as int, dy as int, 2 * B_KIN as int, 2 * B_KIN as int);
        assert((dist as int) <= 3_000_000_000_000) by (nonlinear_arith)
            requires 0 <= dist as int, (dist as int) * (dist as int) <= n,
                n <= 2 * (2 * B_KIN as int) * (2 * B_KIN as int),
                B_KIN as int == 1_000_000_000_000;
    }
    if dist > 0 && radsum - dist > 0 {
        let overlap = radsum - dist;
        proof {
            assert(mag(dx as int * SCALE as int) <= dist as int * SCALE as int)
                by (nonlinear_arith)
                requires mag(dx as int) <= dist as int, SCALE as int > 0;
            assert(mag(dy as int * SCALE as int) <= dist as int * SCALE as int)
                by (nonlinear_arith)
                requires mag(dy as int) <= dist as int, SCALE as int > 0;
            assert(dist as int * SCALE as int <= i64::MAX as int * dist as int)
                by (nonlinear_arith)
                requires 0 < dist as int, SCALE as int <= i64::MAX as int;
            lemma_tdiv_bound(dx as int * SCALE as int, dist as int, dist as int * SCALE as int);
            lemma_tdiv_bound(dy as int * SCALE as int, dist as int, dist as int * SCALE as int);
            assert((dist as int * SCALE as int) / (dist as int) == SCALE as int) by {
                vstd::arithmetic::div_mod::lemma_div_multiples_vanish(SCALE as int, dist as int);
                vstd::arithmetic::mul::lemma_mul_is_commutative(dist as int, SCALE as int);
            }
            lemma_mag_mul_bound(kn as int, overlap as int, B_KN as int, 2 * B_RAD as int);
            lemma_tdiv_bound(kn as int * overlap as int, SCALE as int,
                B_KN as int * 2 * B_RAD as int);
        }
        let nx = muldiv(dx, SCALE, dist);
        let ny = muldiv(dy, SCALE, dist);
        let t = muldiv(kn, overlap, SCALE);
        proof {
            lemma_mag_mul_bound(t as int, nx as int,
                B_KN as int * 2 * B_RAD as int / SCALE as int, SCALE as int);
            lemma_mag_mul_bound(t as int, ny as int,
                B_KN as int * 2 * B_RAD as int / SCALE as int, SCALE as int);
        }
        let fx = muldiv(t, nx, SCALE);
        let fy = muldiv(t, ny, SCALE);
        (fx, fy)
    } else {
        (0, 0)
    }
}

/// One destination particle's spring force over a neighbour list.
#[verifier::loop_isolation(false)]
fn accumulate_spring(
    src: &DemDiscrete,
    xi: i64,
    yi: i64,
    radi: i64,
    i: usize,
    nbrs: &Vec<usize>,
    kn: i64,
    skip: bool,
    fx0: i64,
    fy0: i64,
) -> (r: (i64, i64))
    requires
        src.wf(),
        src.kin_bounded(),
        mag(xi as int) <= B_KIN as int,
        mag(yi as int) <= B_KIN as int,
        0 <= radi <= B_RAD,
        forall|k: int| 0 <= k < nbrs@.len() ==> 0 <= #[trigger] nbrs@[k] < src.len,
        nbrs@.len() <= 9 * B_LEN,
        0 < kn <= B_KN,
        mag(fx0 as int) <= B_FORCE as int,
        mag(fy0 as int) <= B_FORCE as int,
    ensures
        r.0 as int == fx0 as int + sum_spring_x(xi as int, yi as int, radi as int, i as int,
            src.x@, src.y@, src.rad@, nbrs@, kn as int, skip),
        r.1 as int == fy0 as int + sum_spring_y(xi as int, yi as int, radi as int, i as int,
            src.x@, src.y@, src.rad@, nbrs@, kn as int, skip),
{
    proof {
        assert forall|j: int| 0 <= j < src.len
            implies mag(#[trigger] src.x@[j] as int) <= B_KIN as int
                && mag(src.y@[j] as int) <= B_KIN as int && 0 <= src.rad@[j] <= B_RAD by {
            assert(src.kin_ok_at(j));
        }
        assert(src_fields_ok(src.x@, src.y@, src.rad@, src.len as int));
    }
    let mut fxa = fx0;
    let mut fya = fy0;
    let mut k: usize = 0;
    while k < nbrs.len()
        invariant
            0 <= k <= nbrs@.len(),
            fxa as int == fx0 as int + sum_spring_x(xi as int, yi as int, radi as int, i as int,
                src.x@, src.y@, src.rad@, nbrs@.take(k as int), kn as int, skip),
            fya as int == fy0 as int + sum_spring_y(xi as int, yi as int, radi as int, i as int,
                src.x@, src.y@, src.rad@, nbrs@.take(k as int), kn as int, skip),
        decreases nbrs@.len() - k,
    {
        let j = nbrs[k];
        proof {
            assert(nbrs@.take(k as int + 1).drop_last() =~= nbrs@.take(k as int));
            assert(nbrs@.take(k as int + 1).last() == nbrs@[k as int]);
            assert(forall|m: int| 0 <= m < k as int + 1
                ==> #[trigger] nbrs@.take(k as int + 1)[m] == nbrs@[m]);
            assert(forall|m: int| 0 <= m < k as int
                ==> #[trigger] nbrs@.take(k as int)[m] == nbrs@[m]);
            lemma_sum_spring_bound(xi as int, yi as int, radi as int, i as int, src.x@, src.y@,
                src.rad@, nbrs@.take(k as int), kn as int, skip);
            lemma_sum_spring_bound(xi as int, yi as int, radi as int, i as int, src.x@, src.y@,
                src.rad@, nbrs@.take(k as int + 1), kn as int, skip);
            assert(nbrs@.take(k as int).len() * B_SPRING_PAIR as int
                <= 9 * B_LEN as int * B_SPRING_PAIR as int) by (nonlinear_arith)
                requires nbrs@.take(k as int).len() <= 9 * B_LEN as int,
                    B_SPRING_PAIR as int > 0;
            assert(nbrs@.take(k as int + 1).len() * B_SPRING_PAIR as int
                <= 9 * B_LEN as int * B_SPRING_PAIR as int) by (nonlinear_arith)
                requires nbrs@.take(k as int + 1).len() <= 9 * B_LEN as int,
                    B_SPRING_PAIR as int > 0;
            assert(src.kin_ok_at(j as int));
        }
        if !(skip && j == i) {
            let (px, py) = spring_pair(xi, yi, radi, src.x[j], src.y[j], src.rad[j], kn);
            proof {
                lemma_spring_pair_bound(xi as int, yi as int, radi as int,
                    src.x@[j as int] as int, src.y@[j as int] as int,
                    src.rad@[j as int] as int, kn as int);
            }
            fxa = fxa + px;
            fya = fya + py;
        }
        k = k + 1;
    }
    proof {
        assert(nbrs@.take(nbrs@.len() as int) =~= nbrs@);
    }
    (fxa, fya)
}

/// The neighbour list a spring pass consults for destination particle `i`:
/// the grid gather at the particle's position, for the source entity.
pub open spec fn nbrs_of(g: &LinkedListGrid, d: &DemDiscrete, i: int, e: usize) -> Seq<usize> {
    gather(g, probe_cells(g, d.x@[i] as int, d.y@[i] as int), e)
}

/// Facts every force pass needs about the neighbour lists of the source
/// store: indices valid and at most nine cells of at most `len` entries.
proof fn lemma_nbrs_facts(g: &LinkedListGrid, d: &DemDiscrete, i: int, s: &DemDiscrete)
    requires
        g.wf(),
        d.wf(),
        s.wf(),
        0 <= i < d.len,
        placed(g, s, s.len as int),
        s.len <= B_LEN,
    ensures
        forall|k: int| 0 <= k < nbrs_of(g, d, i, s.id).len()
            ==> 0 <= #[trigger] nbrs_of(g, d, i, s.id)[k] < s.len,
        nbrs_of(g, d, i, s.id).len() <= 9 * B_LEN,
{
    let probes = probe_cells(g, d.x@[i] as int, d.y@[i] as int);
    crate::contact_search::lemma_dedup_valid_range(
        crate::contact_search::probe_candidates(g.cell_of(d.x@[i] as int, d.y@[i] as int),
            g.no_y_cells as int), g.cells@.len() as int);
    lemma_gather_elems(g, probes, s, s.len as int);
    lemma_gather_len(g, probes, s, s.len as int);
    assert(probes.len() * s.len as int <= 9 * B_LEN as int) by (nonlinear_arith)
        requires probes.len() <= 9, 0 <= s.len as int <= B_LEN as int;
}

/// Accumulate the spring contact force of every pair between a destination
/// store and a distinct source store into the destination's `fx, fy`.  The
/// source is read-only: no force is ever written into it.
#[verifier::loop_isolation(false)]
pub fn spring_force(dst: &mut DemDiscrete, src: &DemDiscrete, kn: i64, grid: &LinkedListGrid)
    requires
        old(dst).wf(),
        old(dst).kin_bounded(),
        old(dst).forces_bounded(),
        src.wf(),
        src.kin_bounded(),
        src.len <= B_LEN,
        grid.wf(),
        grid.entity_known(src.id),
        placed(grid, src, src.len as int),
        0 < kn <= B_KN,
    ensures
        final(dst).wf(),
        final(dst).len == old(dst).len,
        forall|i: int| 0 <= i < old(dst).len ==> #[trigger] final(dst).fx@[i] as int
            == old(dst).fx@[i] as int + sum_spring_x(old(dst).x@[i] as int,
                old(dst).y@[i] as int, old(dst).rad@[i] as int, i, src.x@, src.y@, src.rad@,
                nbrs_of(grid, old(dst), i, src.id), kn as int, false),
        forall|i: int| 0 <= i < old(dst).len ==> #[trigger] final(dst).fy@[i] as int
            == old(dst).fy@[i] as int + sum_spring_y(old(dst).x@[i] as int,
                old(dst).y@[i] as int, old(dst).rad@[i] as int, i, src.x@, src.y@, src.rad@,
                nbrs_of(grid, old(dst), i, src.id), kn as int, false),
        final(dst).x == old(dst).x,
        final(dst).y == old(dst).y,
        final(dst).u == old(dst).u,
        final(dst).v == old(dst).v,
        final(dst).omega_z == old(dst).omega_z,
        final(dst).x0 == old(dst).x0,
        final(dst).y0 == old(dst).y0,
        final(dst).u0 == old(dst).u0,
        final(dst).v0 == old(dst).v0,
        final(dst).omega_z0 == old(dst).omega_z0,
        final(dst).m == old(dst).m,
        final(dst).inertia == old(dst).inertia,
        final(dst).h == old(dst).h,
        final(dst).m_inv == old(dst).m_inv,
        final(dst).i_inv == old(dst).i_inv,
        final(dst).rad == old(dst).rad,
        final(dst).tauz == old(dst).tauz,
        final(dst).id == old(dst).id,
        final(dst).name == old(dst).name,
        final(dst).tang_history == old(dst).tang_history,
        final(dst).tang_history0 == old(dst).tang_history0,
{
    let n = dst.len;
    let mut i: usize = 0;
    while i < n
        invariant
            0 <= i <= n,
            dst.len == old(dst).len,
            dst.fx@.len() == n,
            dst.fy@.len() == n,
            forall|q: int| 0 <= q < i ==> #[trigger] dst.fx@[q] as int
                == old(dst).fx@[q] as int + sum_spring_x(old(dst).x@[q] as int,
                    old(dst).y@[q] as int, old(dst).rad@[q] as int, q, src.x@, src.y@,
                    src.rad@, nbrs_of(grid, old(dst), q, src.id), kn as int, false),
            forall|q: int| 0 <= q < i ==> #[trigger] dst.fy@[q] as int
                == old(dst).fy@[q] as int + sum_spring_y(old(dst).x@[q] as int,
                    old(dst).y@[q] as int, old(dst).rad@[q] as int, q, src.x@, src.y@,
                    src.rad@, nbrs_of(grid, old(dst), q, src.id), kn as int, false),
            forall|q: int| i <= q < n ==> #[trigger] dst.fx@[q] == old(dst).fx@[q],
            forall|q: int| i <= q < n ==> #[trigger] dst.fy@[q] == old(dst).fy@[q],
            dst.x == old(dst).x,
            dst.y == old(dst).y,
            dst.u == old(dst).u,
            dst.v == old(dst).v,
            dst.omega_z == old(dst).omega_z,
            dst.x0 == old(dst).x0,
            dst.y0 == old(dst).y0,
            dst.u0 == old(dst).u0,
            dst.v0 == old(dst).v0,
            dst.omega_z0 == old(dst).omega_z0,
            dst.m == old(dst).m,
            dst.inertia == old(dst).inertia,
            dst.h == old(dst).h,
            dst.m_inv == old(dst).m_inv,
            dst.i_inv == old(dst).i_inv,
            dst.rad == old(dst).rad,
            dst.tauz == old(dst).tauz,
            dst.id == old(dst).id,
            dst.name == old(dst).name,
            dst.tang_history == old(dst).tang_history,
            dst.tang_history0 == old(dst).tang_history0,
        decreases n - i,
    {
        proof {
            assert(old(dst).kin_ok_at(i as int));
            assert(old(dst).force_ok_at(i as int));
            assert(dst.x@[i as int] == old(dst).x@[i as int]);
            lemma_nbrs_facts(grid, dst, i as int, src);
        }
        let xi = dst.x[i];
        let yi = dst.y[i];
        let radi = dst.rad[i];
        let nbrs = crate::contact_search::get_neighbours_ll([xi, yi], grid, &src.id);
        let (fxn, fyn) = accumulate_spring(src, xi, yi, radi, i, &nbrs, kn, false, dst.fx[i],
            dst.fy[i]);
        dst.fx.set(i, fxn);
        dst.fy.set(i, fyn);
        i = i + 1;
    }
}

/// Accumulate the spring contact force of every pair within one store into
/// its own `fx, fy`; a particle never interacts with itself.
#[verifier::loop_isolation(false)]
pub fn spring_force_self(dst: &mut DemDiscrete, kn: i64, grid: &LinkedListGrid)
    requires
        old(dst).wf(),
        old(dst).kin_bounded(),
        old(dst).forces_bounded(),
        old(dst).len <= B_LEN,
        grid.wf(),
        grid.entity_known(old(dst).id),
        placed(grid, old(dst), old(dst).len as int),
        0 < kn <= B_KN,
    ensures
        final(dst).wf(),
        final(dst).len == old(dst).len,
        forall|i: int| 0 <= i < old(dst).len ==> #[trigger] final(dst).fx@[i] as int
            == old(dst).fx@[i] as int + sum_spring_x(old(dst).x@[i] as int,
                old(dst).y@[i] as int, old(dst).rad@[i] as int, i, old(dst).x@, old(dst).y@,
                old(dst).rad@, nbrs_of(grid, old(dst), i, old(dst).id), kn as int, true),
        forall|i: int| 0 <= i < old(dst).len ==> #[trigger] final(dst).fy@[i] as int
            == old(dst).fy@[i] as int + sum_spring_y(old(dst).x@[i] as int,
                old(dst).y@[i] as int, old(dst).rad@[i] as int, i, old(dst).x@, old(dst).y@,
                old(dst).rad@, nbrs_of(grid, old(dst), i, old(dst).id), kn as int, true),
        final(dst).x == old(dst).x,
        final(dst).y == old(dst).y,
        final(dst).u == old(dst).u,
        final(dst).v == old(dst).v,
        final(dst).omega_z == old(dst).omega_z,
        final(dst).x0 == old(dst).x0,
        final(dst).y0 == old(dst).y0,
        final(dst).u0 == old(dst).u0,
        final(dst).v0 == old(dst).v0,
        final(dst).omega_z0 == old(dst).omega_z0,
        final(dst).m == old(dst).m,
        final(dst).inertia == old(dst).inertia,
        final(dst).h == old(dst).h,
        final(dst).m_inv == old(dst).m_inv,
        final(dst).i_inv == old(dst).i_inv,
        final(dst).rad == old(dst).rad,
        final(dst).tauz == old(dst).tauz,
        final(dst).id == old(dst).id,
        final(dst).name == old(dst).name,
        final(dst).tang_history == old(dst).tang_history,
        final(dst).tang_history0 == old(dst).tang_history0,
{
    let n = dst.len;
    let mut i: usize = 0;
    while i < n
        invariant
            0 <= i <= n,
            dst.len == old(dst).len,
            dst.fx@.len() == n,
            dst.fy@.len() == n,
            forall|q: int| 0 <= q < i ==> #[trigger] dst.fx@[q] as int
                == old(dst).fx@[q] as int + sum_spring_x(old(dst).x@[q] as int,
                    old(dst).y@[q] as int, old(dst).rad@[q] as int, q, old(dst).x@,
                    old(dst).y@, old(dst).rad@, nbrs_of(grid, old(dst), q, old(dst).id),
                    kn as int, true),
            forall|q: int| 0 <= q < i ==> #[trigger] dst.fy@[q] as int
                == old(dst).fy@[q] as int + sum_spring_y(old(dst).x@[q] as int,
                    old(dst).y@[q] as int, old(dst).rad@[q] as int, q, old(dst).x@,
                    old(dst).y@, old(dst).rad@, nbrs_of(grid, old(dst), q, old(dst).id),
                    kn as int, true),
            forall|q: int| i <= q < n ==> #[trigger] dst.fx@[q] == old(dst).fx@[q],
            forall|q: int| i <= q < n ==> #[trigger] dst.fy@[q] == old(dst).fy@[q],
            dst.x == old(dst).x,
            dst.y == old(dst).y,
            dst.u == old(dst).u,
            dst.v == old(dst).v,
            dst.omega_z == old(dst).omega_z,
            dst.x0 == old(dst).x0,
            dst.y0 == old(dst).y0,
            dst.u0 == old(dst).u0,
            dst.v0 == old(dst).v0,
            dst.omega_z0 == old(dst).omega_z0,
            dst.m == old(dst).m,
            dst.inertia == old(dst).inertia,
            dst.h == old(dst).h,
            dst.m_inv == old(dst).m_inv,
            dst.i_inv == old(dst).i_inv,
            dst.rad == old(dst).rad,
            dst.tauz == old(dst).tauz,
            dst.id == old(dst).id,
            dst.name == old(dst).name,
            dst.tang_history == old(dst).tang_history,
            dst.tang_history0 == old(dst).tang_history0,
        decreases n - i,
    {
        proof {
            assert(old(dst).kin_ok_at(i as int));
            assert(old(dst).force_ok_at(i as int));
            assert(dst.x@[i as int] == old(dst).x@[i as int]);
            assert(placed(grid, dst, dst.len as int)) by {
                assert forall|p: int| #![trigger dst.x@[p]] 0 <= p < dst.len as int implies {
                    let c = grid.cell_of(dst.x@[p] as int, dst.y@[p] as int);
                    0 <= c < grid.cells@.len()
                        && grid.cells@[c].list_for(dst.id).contains(p as usize)
                } by {
                    assert(old(dst).x@[p] == dst.x@[p]);
                    let c = grid.cell_of(old(dst).x@[p] as int, old(dst).y@[p] as int);
                    assert(0 <= c < grid.cells@.len()
                        && grid.cells@[c].list_for(old(dst).id).contains(p as usize));
                }
                assert forall|c: int| 0 <= c < grid.cells@.len()
                    implies #[trigger] cell_list_ok(grid, dst, dst.len as int, c) by {
                    assert(cell_list_ok(grid, old(dst), old(dst).len as int, c));
                }
            }
            lemma_nbrs_facts(grid, dst, i as int, dst);
            assert(dst.kin_bounded()) by {
                assert forall|q: int| 0 <= q < dst.len implies #[trigger] dst.kin_ok_at(q) by {
                    assert(old(dst).kin_ok_at(q));
                }
            }
        }
        let xi = dst.x[i];
        let yi = dst.y[i];
        let radi = dst.rad[i];
        let nbrs = crate::contact_search::get_neighbours_ll([xi, yi], grid, &dst.id);
        let (fxn, fyn) = accumulate_spring(dst, xi, yi, radi, i, &nbrs, kn, true, dst.fx[i],
            dst.fy[i]);
        dst.fx.set(i, fxn);
        dst.fy.set(i, fyn);
        i = i + 1;
    }
}

/// Overlap sign correctness: for an axis-aligned overlapping pair (equal
/// `y`, destination to the right of the source), the spring force on the
/// destination is exactly `kn * overlap / SCALE` in `+x`, and the `y`
/// component is exactly zero.
pub proof fn lemma_axis_aligned_spring(
    xi: int,
    y: int,
    radi: int,
    xj: int,
    radj: int,
    kn: int,
)
    requires
        xi > xj,
        0 < kn,
        0 <= radi,
        0 <= radj,
        radi + radj > xi - xj,
    ensures
        spring_pair_x(xi, y, radi, xj, y, radj, kn)
            == tdiv(kn * (radi + radj - (xi - xj)), SCALE as int),
        spring_pair_x(xi, y, radi, xj, y, radj, kn) >= 0,
        spring_pair_y(xi, y, radi, xj, y, radj, kn) == 0,
{
    let dx = xi - xj;
    assert(dx * dx + 0 * 0 == dx * dx);
    assert(dx * dx >= 0 && dx * dx < (dx + 1) * (dx + 1)) by (nonlinear_arith)
        requires dx > 0;
    crate::fixed::lemma_sqrt_floor_unique(dx * dx, dx);
    let dist = sqrt_floor(dx * dx);
    assert(dist == dx);
    let overlap = radi + radj - dx;
    let nx = tdiv(dx * SCALE as int, dist);
    assert(dx * SCALE as int == SCALE as int * dx) by (nonlinear_arith);
    assert((SCALE as int * dx) / dx == SCALE as int) by {
        vstd::arithmetic::div_mod::lemma_div_multiples_vanish(SCALE as int, dx);
    }
    assert(dx * SCALE as int >= 0) by (nonlinear_arith)
        requires dx > 0;
    assert(nx == SCALE as int);
    let t = tdiv(kn * overlap, SCALE as int);
    assert(kn * overlap >= 0) by (nonlinear_arith)
        requires kn > 0, overlap > 0;
    vstd::arithmetic::div_mod::lemma_div_is_ordered(0, kn * overlap, SCALE as int);
    assert(t >= 0);
    assert(t * SCALE as int == SCALE as int * t) by (nonlinear_arith);
    assert((SCALE as int * t) / (SCALE as int) == t) by {
        vstd::arithmetic::div_mod::lemma_div_multiples_vanish(t, SCALE as int);
    }
    assert(t * SCALE as int >= 0) by (nonlinear_arith)
        requires t >= 0;
    assert(spring_pair_x(xi, y, radi, xj, y, radj, kn) == t);
    let ny = tdiv(0 * SCALE as int, dist);
    assert(0 * SCALE as int == 0);
    assert(ny == 0);
    assert(t * 0 == 0);
    assert(spring_pair_y(xi, y, radi, xj, y, radj, kn) == tdiv(0, SCALE as int));
}

}

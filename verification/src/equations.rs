//! Linear spring-dashpot (viscoelastic) contact force model with persistent
//! tangential springs and Coulomb friction, after Cundall and Strack.
//!
//! The tangential stiffness `KT` and the two damping constants `CT`, `CN`
//! are the model's fixed small coefficients, kept as named constants so
//! there is exactly one place to configure them.

use crate::config::{B_KN, B_MU};
use crate::fixed::{
    lemma_mag_mul_bound, lemma_sqrt_floor, lemma_tdiv_bound, mag, mag_ceil, mag_floor, muldiv,
    dotdiv, sqrt_ceil, sqrt_floor, tdiv, SCALE,
};
use crate::particle::{DemDiscrete, B_DT, B_FORCE, B_KIN, B_RAD};
use vstd::prelude::*;

verus! {

/// Tangential spring stiffness (ten thousand units).
pub const KT: i64 = 10_000_000_000;

/// Tangential damping coefficient (one thousandth).
pub const CT: i64 = 1_000;

/// Normal damping coefficient (one thousandth).
pub const CN: i64 = 1_000;

/// Largest admitted stored tangential-spring component on entry to a force
/// pass.
pub const B_HIST: i64 = 50_000_000_000_000;

/// Largest admitted particle count per store in a viscoelastic pass.
pub const B_VLEN: usize = 5_000;

/// Largest magnitude one viscoelastic pair can add to a force component.
pub const B_VISC_PAIR: i64 = 200_000_000_000_000;

/// Reset the accumulated forces of every particle to zero.
#[verifier::loop_isolation(false)]
pub fn make_forces_zero(entity: &mut DemDiscrete)
    requires
        old(entity).wf(),
    ensures
        final(entity).wf(),
        final(entity).len == old(entity).len,
        forall|i: int| 0 <= i < old(entity).len ==> #[trigger] final(entity).fx@[i] == 0i64,
        forall|i: int| 0 <= i < old(entity).len ==> #[trigger] final(entity).fy@[i] == 0i64,
        final(entity).x == old(entity).x,
        final(entity).y == old(entity).y,
        final(entity).u == old(entity).u,
        final(entity).v == old(entity).v,
        final(entity).omega_z == old(entity).omega_z,
        final(entity).x0 == old(entity).x0,
        final(entity).y0 == old(entity).y0,
        final(entity).u0 == old(entity).u0,
        final(entity).v0 == old(entity).v0,
        final(entity).omega_z0 == old(entity).omega_z0,
        final(entity).m == old(entity).m,
        final(entity).inertia == old(entity).inertia,
        final(entity).h == old(entity).h,
        final(entity).m_inv == old(entity).m_inv,
        final(entity).i_inv == old(entity).i_inv,
        final(entity).rad == old(entity).rad,
        final(entity).tauz == old(entity).tauz,
        final(entity).id == old(entity).id,
        final(entity).name == old(entity).name,
        final(entity).tang_history == old(entity).tang_history,
        final(entity).tang_history0 == old(entity).tang_history0,
{
    let n = entity.len;
    let mut i: usize = 0;
    while i < n
        invariant
            0 <= i <= n,
            entity.len == old(entity).len,
            entity.fx@.len() == n,
            entity.fy@.len() == n,
            forall|k: int| 0 <= k < i ==> #[trigger] entity.fx@[k] == 0i64,
            forall|k: int| 0 <= k < i ==> #[trigger] entity.fy@[k] == 0i64,
            entity.x == old(entity).x,
            entity.y == old(entity).y,
            entity.u == old(entity).u,
            entity.v == old(entity).v,
            entity.omega_z == old(entity).omega_z,
            entity.x0 == old(entity).x0,
            entity.y0 == old(entity).y0,
            entity.u0 == old(entity).u0,
            entity.v0 == old(entity).v0,
            entity.omega_z0 == old(entity).omega_z0,
            entity.m == old(entity).m,
            entity.inertia == old(entity).inertia,
            entity.h == old(entity).h,
            entity.m_inv == old(entity).m_inv,
            entity.i_inv == old(entity).i_inv,
            entity.rad == old(entity).rad,
            entity.tauz == old(entity).tauz,
            entity.id == old(entity).id,
            entity.name == old(entity).name,
            entity.tang_history == old(entity).tang_history,
            entity.tang_history0 == old(entity).tang_history0,
        decreases n - i,
    {
        entity.fx.set(i, 0);
        entity.fy.set(i, 0);
        i = i + 1;
    }
}

/// Add the external body force `m * (gx, gy)` to every particle.
#[verifier::loop_isolation(false)]
pub fn body_force_dem(entity: &mut DemDiscrete, gx: i64, gy: i64)
    requires
        old(entity).wf(),
        old(entity).kin_bounded(),
        old(entity).forces_bounded(),
        mag(gx as int) <= crate::config::B_GRAV as int,
        mag(gy as int) <= crate::config::B_GRAV as int,
    ensures
        final(entity).wf(),
        final(entity).len == old(entity).len,
        forall|i: int| 0 <= i < old(entity).len ==> #[trigger] final(entity).fx@[i] as int
            == old(entity).fx@[i] as int + tdiv(old(entity).m@[i] as int * gx as int,
                SCALE as int),
        forall|i: int| 0 <= i < old(entity).len ==> #[trigger] final(entity).fy@[i] as int
            == old(entity).fy@[i] as int + tdiv(old(entity).m@[i] as int * gy as int,
                SCALE as int),
        final(entity).x == old(entity).x,
        final(entity).y == old(entity).y,
        final(entity).u == old(entity).u,
        final(entity).v == old(entity).v,
        final(entity).omega_z == old(entity).omega_z,
        final(entity).x0 == old(entity).x0,
        final(entity).y0 == old(entity).y0,
        final(entity).u0 == old(entity).u0,
        final(entity).v0 == old(entity).v0,
        final(entity).omega_z0 == old(entity).omega_z0,
        final(entity).m == old(entity).m,
        final(entity).inertia == old(entity).inertia,
        final(entity).h == old(entity).h,
        final(entity).m_inv == old(entity).m_inv,
        final(entity).i_inv == old(entity).i_inv,
        final(entity).rad == old(entity).rad,
        final(entity).tauz == old(entity).tauz,
        final(entity).id == old(entity).id,
        final(entity).name == old(entity).name,
        final(entity).tang_history == old(entity).tang_history,
        final(entity).tang_history0 == old(entity).tang_history0,
{
    let n = entity.len;
    let mut i: usize = 0;
    while i < n
        invariant
            0 <= i <= n,
            entity.len == old(entity).len,
            entity.fx@.len() == n,
            entity.fy@.len() == n,
            forall|k: int| 0 <= k < i ==> #[trigger] entity.fx@[k] as int
                == old(entity).fx@[k] as int + tdiv(old(entity).m@[k] as int * gx as int,
                    SCALE as int),
            forall|k: int| 0 <= k < i ==> #[trigger] entity.fy@[k] as int
                == old(entity).fy@[k] as int + tdiv(old(entity).m@[k] as int * gy as int,
                    SCALE as int),
            forall|k: int| i <= k < n ==> #[trigger] entity.fx@[k] == old(entity).fx@[k],
            forall|k: int| i <= k < n ==> #[trigger] entity.fy@[k] == old(entity).fy@[k],
            entity.x == old(entity).x,
            entity.y == old(entity).y,
            entity.u == old(entity).u,
            entity.v == old(entity).v,
            entity.omega_z == old(entity).omega_z,
            entity.x0 == old(entity).x0,
            entity.y0 == old(entity).y0,
            entity.u0 == old(entity).u0,
            entity.v0 == old(entity).v0,
            entity.omega_z0 == old(entity).omega_z0,
            entity.m == old(entity).m,
            entity.inertia == old(entity).inertia,
            entity.h == old(entity).h,
            entity.m_inv == old(entity).m_inv,
            entity.i_inv == old(entity).i_inv,
            entity.rad == old(entity).rad,
            entity.tauz == old(entity).tauz,
            entity.id == old(entity).id,
            entity.name == old(entity).name,
            entity.tang_history == old(entity).tang_history,
            entity.tang_history0 == old(entity).tang_history0,
        decreases n - i,
    {
        proof {
            assert(old(entity).kin_ok_at(i as int));
            assert(old(entity).force_ok_at(i as int));
            assert(entity.x@[i as int] == old(entity).x@[i as int]);
            lemma_mag_mul_bound(entity.m@[i as int] as int, gx as int, crate::particle::B_MASS
                as int, crate::config::B_GRAV as int);
            lemma_tdiv_bound(entity.m@[i as int] as int * gx as int, SCALE as int,
                crate::particle::B_MASS as int * crate::config::B_GRAV as int);
            lemma_mag_mul_bound(entity.m@[i as int] as int, gy as int, crate::particle::B_MASS
                as int, crate::config::B_GRAV as int);
            lemma_tdiv_bound(entity.m@[i as int] as int * gy as int, SCALE as int,
                crate::particle::B_MASS as int * crate::config::B_GRAV as int);
        }
        let fxn = entity.fx[i] + muldiv(entity.m[i], gx, SCALE);
        entity.fx.set(i, fxn);
        let fyn = entity.fy[i] + muldiv(entity.m[i], gy, SCALE);
        entity.fy.set(i, fyn);
        i = i + 1;
    }
}

/// Relative contact-point velocity of particle `i` with respect to particle
/// `j`: the difference of the linear velocities plus the rim contribution
/// `(rad_i * w_i + rad_j * w_j)` of the z-only angular velocities, crossed
/// with the unit normal `(nx, ny)`.
pub open spec fn rel_vel_x(
    ui: int,
    uj: int,
    wi: int,
    wj: int,
    radi: int,
    radj: int,
    ny: int,
) -> int {
    ui - uj - tdiv((tdiv(radi * wi, SCALE as int) + tdiv(radj * wj, SCALE as int)) * ny,
        SCALE as int)
}

/// The `y` component of the relative contact-point velocity.
pub open spec fn rel_vel_y(
    vi: int,
    vj: int,
    wi: int,
    wj: int,
    radi: int,
    radj: int,
    nx: int,
) -> int {
    vi - vj + tdiv((tdiv(radi * wi, SCALE as int) + tdiv(radj * wj, SCALE as int)) * nx,
        SCALE as int)
}

/// Relative contact-point velocity of particle `i` with respect to particle
/// `j`, given the unit normal from `j` to `i`.
pub fn relative_velocity(
    ui: i64,
    vi: i64,
    uj: i64,
    vj: i64,
    wi: i64,
    wj: i64,
    nx: i64,
    ny: i64,
    radi: i64,
    radj: i64,
) -> (r: (i64, i64))
    requires
        mag(ui as int) <= B_KIN as int,
        mag(vi as int) <= B_KIN as int,
        mag(uj as int) <= B_KIN as int,
        mag(vj as int) <= B_KIN as int,
        mag(wi as int) <= B_KIN as int,
        mag(wj as int) <= B_KIN as int,
        mag(nx as int) <= SCALE as int,
        mag(ny as int) <= SCALE as int,
        0 <= radi <= B_RAD,
        0 <= radj <= B_RAD,
    ensures
        r.0 as int == rel_vel_x(ui as int, uj as int, wi as int, wj as int, radi as int,
            radj as int, ny as int),
        r.1 as int == rel_vel_y(vi as int, vj as int, wi as int, wj as int, radi as int,
            radj as int, nx as int),
        mag(r.0 as int) <= 5_000_000_000_000_000,
        mag(r.1 as int) <= 5_000_000_000_000_000,
{
    proof {
        lemma_mag_mul_bound(radi as int, wi as int, B_RAD as int, B_KIN as int);
        lemma_tdiv_bound(radi as int * wi as int, SCALE as int, B_RAD as int * B_KIN as int);
        lemma_mag_mul_bound(radj as int, wj as int, B_RAD as int, B_KIN as int);
        lemma_tdiv_bound(radj as int * wj as int, SCALE as int, B_RAD as int * B_KIN as int);
    }
    let wterm = muldiv(radi, wi, SCALE) + muldiv(radj, wj, SCALE);
    proof {
        lemma_mag_mul_bound(wterm as int, ny as int, 2 * (B_RAD as int * B_KIN as int
            / SCALE as int), SCALE as int);
        lemma_tdiv_bound(wterm as int * ny as int, SCALE as int,
            (2 * (B_RAD as int * B_KIN as int / SCALE as int)) * SCALE as int);
        lemma_mag_mul_bound(wterm as int, nx as int, 2 * (B_RAD as int * B_KIN as int
            / SCALE as int), SCALE as int);
        lemma_tdiv_bound(wterm as int * nx as int, SCALE as int,
            (2 * (B_RAD as int * B_KIN as int / SCALE as int)) * SCALE as int);
    }
    let rx = ui - uj - muldiv(wterm, ny, SCALE);
    let ry = vi - vj + muldiv(wterm, nx, SCALE);
    (rx, ry)
}

/// What one candidate pair does to the destination particle: a force
/// increment and the updated contact memories.
pub ghost struct PairEffect {
    pub dfx: int,
    pub dfy: int,
    pub hist: Map<(usize, usize, usize), (i64, i64)>,
    pub hist0: Map<(usize, usize, usize), (i64, i64)>,
}

/// `x` component of the trial tangential force clipped to the Coulomb cone:
/// magnitude `lim` along the direction of `(fx, fy)` (ceiling norm, so the
/// clipped force never exceeds the cone).
pub open spec fn clipped_x(lim: int, fx: int, fy: int) -> int {
    tdiv(lim * fx, sqrt_ceil(fx * fx + fy * fy))
}

/// `y` component of the clipped tangential force.
pub open spec fn clipped_y(lim: int, fx: int, fy: int) -> int {
    tdiv(lim * fy, sqrt_ceil(fx * fx + fy * fy))
}

/// The effect of one candidate pair `(i, j)` on destination particle `i`:
/// the linear spring-dashpot normal force, the tangential spring force
/// under the Coulomb cap, and the tangential-memory update.  Without
/// positive overlap (or with coincident centres, which leave the normal
/// undefined) there is no force and, when friction is on, the contact is
/// forgotten.
pub open spec fn visc_pair(
    hist: Map<(usize, usize, usize), (i64, i64)>,
    hist0: Map<(usize, usize, usize), (i64, i64)>,
    i: usize,
    src_id: usize,
    j: usize,
    xi: int,
    yi: int,
    ui: int,
    vi: int,
    wi: int,
    radi: int,
    xj: int,
    yj: int,
    uj: int,
    vj: int,
    wj: int,
    radj: int,
    kn: int,
    mu: int,
    dt: int,
    stage: int,
) -> PairEffect {
    let key = (i, src_id, j);
    let dx = xi - xj;
    let dy = yi - yj;
    let dist = sqrt_floor(dx * dx + dy * dy);
    let overlap = radi + radj - dist;
    if !(dist > 0 && overlap > 0) {
        if mu != 0 {
            PairEffect { dfx: 0, dfy: 0, hist: hist.remove(key), hist0: hist0.remove(key) }
        } else {
            PairEffect { dfx: 0, dfy: 0, hist, hist0 }
        }
    } else {
        let nx = tdiv(dx * SCALE as int, dist);
        let ny = tdiv(dy * SCALE as int, dist);
        let vijx = rel_vel_x(ui, uj, wi, wj, radi, radj, ny);
        let vijy = rel_vel_y(vi, vj, wi, wj, radi, radj, nx);
        let vns = tdiv(vijx * nx + vijy * ny, SCALE as int);
        let vnx = tdiv(vns * nx, SCALE as int);
        let vny = tdiv(vns * ny, SCALE as int);
        let vtx = vijx - vnx;
        let vty = vijy - vny;
        let fnx = tdiv(tdiv(kn * overlap, SCALE as int) * nx, SCALE as int) - tdiv(
            CN as int * vnx, SCALE as int);
        let fny = tdiv(tdiv(kn * overlap, SCALE as int) * ny, SCALE as int) - tdiv(
            CN as int * vny, SCALE as int);
        if mu == 0 {
            PairEffect { dfx: fnx, dfy: fny, hist, hist0 }
        } else if hist.dom().contains(key) {
            let zx = hist[key].0 as int;
            let zy = hist[key].1 as int;
            let zn = tdiv(zx * nx + zy * ny, SCALE as int);
            let zrx = zx - tdiv(nx * zn, SCALE as int);
            let zry = zy - tdiv(ny * zn, SCALE as int);
            let ft0x = -tdiv(KT as int * zrx, SCALE as int) - tdiv(CT as int * vtx,
                SCALE as int);
            let ft0y = -tdiv(KT as int * zry, SCALE as int) - tdiv(CT as int * vty,
                SCALE as int);
            let ft0n = sqrt_floor(ft0x * ft0x + ft0y * ft0y);
            let fnn = sqrt_floor(fnx * fnx + fny * fny);
            let lim = tdiv(mu * fnn, SCALE as int);
            if ft0n <= lim {
                let advx = tdiv(vtx * dt, SCALE as int);
                let advy = tdiv(vty * dt, SCALE as int);
                let sx = if stage == 1 {
                    zrx + advx
                } else {
                    let z0x = hist0[key].0 as int;
                    let z0y = hist0[key].1 as int;
                    let z0n = tdiv(z0x * nx + z0y * ny, SCALE as int);
                    z0x - tdiv(nx * z0n, SCALE as int) + advx
                };
                let sy = if stage == 1 {
                    zry + advy
                } else {
                    let z0x = hist0[key].0 as int;
                    let z0y = hist0[key].1 as int;
                    let z0n = tdiv(z0x * nx + z0y * ny, SCALE as int);
                    z0y - tdiv(ny * z0n, SCALE as int) + advy
                };
                PairEffect {
                    dfx: fnx + ft0x,
                    dfy: fny + ft0y,
                    hist: hist.insert(key, (sx as i64, sy as i64)),
                    hist0: if stage == 1 {
                        hist0
                    } else {
                        hist0.insert(key, (sx as i64, sy as i64))
                    },
                }
            } else {
                let ftx = clipped_x(lim, ft0x, ft0y);
                let fty = clipped_y(lim, ft0x, ft0y);
                let sx = tdiv((ftx + tdiv(CT as int * vtx, SCALE as int)) * SCALE as int,
                    KT as int);
                let sy = tdiv((fty + tdiv(CT as int * vty, SCALE as int)) * SCALE as int,
                    KT as int);
                PairEffect {
                    dfx: fnx + ftx,
                    dfy: fny + fty,
                    hist: hist.insert(key, (sx as i64, sy as i64)),
                    hist0: if stage == 1 {
                        hist0
                    } else {
                        hist0.insert(key, (sx as i64, sy as i64))
                    },
                }
            }
        } else {
            let sx = tdiv(vtx * dt, SCALE as int);
            let sy = tdiv(vty * dt, SCALE as int);
            PairEffect {
                dfx: fnx,
                dfy: fny,
                hist: hist.insert(key, (sx as i64, sy as i64)),
                hist0: hist0.insert(key, if stage == 1 {
                    (0i64, 0i64)
                } else {
                    (sx as i64, sy as i64)
                }),
            }
        }
    }
}

/// A force component never exceeds the floor norm of its vector.
pub proof fn lemma_component_le_norm(fx: int, fy: int)
    ensures
        mag(fx) <= sqrt_floor(fx * fx + fy * fy),
        mag(fy) <= sqrt_floor(fx * fx + fy * fy),
        sqrt_floor(fx * fx + fy * fy) <= sqrt_ceil(fx * fx + fy * fy),
{
    crate::dem::lemma_component_le_dist(fx, fy);
}

/// Apply one candidate pair to the live contact memories and return the
/// force increment on the destination particle, exactly as `visc_pair`
/// states it.
#[verifier::loop_isolation(false)]
#[verifier::rlimit(80)]
fn contact_pair(
    hist: &mut crate::history::TangHistory,
    hist0: &mut crate::history::TangHistory,
    i: usize,
    src_id: usize,
    j: usize,
    xi: i64,
    yi: i64,
    ui: i64,
    vi: i64,
    wi: i64,
    radi: i64,
    xj: i64,
    yj: i64,
    uj: i64,
    vj: i64,
    wj: i64,
    radj: i64,
    kn: i64,
    mu: i64,
    dt: i64,
    stage: usize,
) -> (r: (i64, i64))
    requires
        old(hist).wf(),
        old(hist0).wf(),
        mag(xi as int) <= B_KIN as int,
        mag(yi as int) <= B_KIN as int,
        mag(ui as int) <= B_KIN as int,
        mag(vi as int) <= B_KIN as int,
        mag(wi as int) <= B_KIN as int,
        0 <= radi <= B_RAD,
        mag(xj as int) <= B_KIN as int,
        mag(yj as int) <= B_KIN as int,
        mag(uj as int) <= B_KIN as int,
        mag(vj as int) <= B_KIN as int,
        mag(wj as int) <= B_KIN as int,
        0 <= radj <= B_RAD,
        0 < kn <= B_KN,
        0 <= mu <= B_MU,
        0 < dt <= B_DT,
        stage == 1 || stage == 2,
        old(hist)@.dom().contains((i, src_id, j))
            ==> mag(old(hist)@[(i, src_id, j)].0 as int) <= B_HIST as int
                && mag(old(hist)@[(i, src_id, j)].1 as int) <= B_HIST as int,
        old(hist)@.dom().contains((i, src_id, j))
            ==> old(hist0)@.dom().contains((i, src_id, j))
                && mag(old(hist0)@[(i, src_id, j)].0 as int) <= B_HIST as int
                && mag(old(hist0)@[(i, src_id, j)].1 as int) <= B_HIST as int,
    ensures
        final(hist).wf(),
        final(hist0).wf(),
        ({
            let pe = visc_pair(old(hist)@, old(hist0)@, i, src_id, j, xi as int, yi as int,
                ui as int, vi as int, wi as int, radi as int, xj as int, yj as int, uj as int,
                vj as int, wj as int, radj as int, kn as int, mu as int, dt as int,
                stage as int);
            &&& final(hist)@ == pe.hist
            &&& final(hist0)@ == pe.hist0
            &&& r.0 as int == pe.dfx
            &&& r.1 as int == pe.dfy
        }),
        mag(r.0 as int) <= B_VISC_PAIR as int,
        mag(r.1 as int) <= B_VISC_PAIR as int,
{
    let ghost key = (i, src_id, j);
    let dx = xi - xj;
    let dy = yi - yj;
    proof {
        lemma_mag_mul_bound(dx as int, dx as int, 2 * B_KIN as int, 2 * B_KIN as int);
        lemma_mag_mul_bound(dy as int, dy as int, 2 * B_KIN as int, 2 * B_KIN as int);
    }
    let dist = mag_floor(dx, dy);
    let radsum = radi + radj;
    proof {
        let n2 = dx as int * dx as int + dy as int * dy as int;
        assert(n2 >= 0) by (nonlinear_arith)
            requires n2 == dx as int * dx as int + dy as int * dy as int;
        lemma_sqrt_floor(n2);
        crate::dem::lemma_component_le_dist(dx as int, dy as int);
        assert((dist as int) <= 3_000_000_000_000) by (nonlinear_arith)
            requires 0 <= dist as int, (dist as int) * (dist as int) <= n2,
                n2 <= 2 * (2 * B_KIN as int) * (2 * B_KIN as int),
                B_KIN as int == 1_000_000_000_000;
    }
    if !(dist > 0 && radsum - dist > 0) {
        if mu != 0 {
            hist.remove(i, src_id, j);
            hist0.remove(i, src_id, j);
        }
        return (0, 0);
    }
    let overlap = radsum - dist;
    proof {
        assert(mag(dx as int * SCALE as int) <= dist as int * SCALE as int)
            by (nonlinear_arith)
            requires mag(dx as int) <= dist as int, SCALE as int > 0;
        assert(mag(dy as int * SCALE as int) <= dist as int * SCALE as int)
            by (nonlinear_arith)
            requires mag(dy as int) <= dist as int, SCALE as int > 0;
        assert(dist as int * SCALE as int <= i64::MAX as int * dist as int)
            by (nonlinear_arith)
            requires 0 < dist as int, SCALE as int <= i64::MAX as int;
        lemma_tdiv_bound(dx as int * SCALE as int, dist as int, dist as int * SCALE as int);
        lemma_tdiv_bound(dy as int * SCALE as int, dist as int, dist as int * SCALE as int);
        assert((dist as int * SCALE as int) / (dist as int) == SCALE as int) by {
            vstd::arithmetic::div_mod::lemma_div_multiples_vanish(SCALE as int, dist as int);
            vstd::arithmetic::mul::lemma_mul_is_commutative(dist as int, SCALE as int);
        }
    }
    let nx = muldiv(dx, SCALE, dist);
    let ny = muldiv(dy, SCALE, dist);
    let (vijx, vijy) = relative_velocity(ui, vi, uj, vj, wi, wj, nx, ny, radi, radj);
    proof {
        lemma_mag_mul_bound(vijx as int, nx as int, 5_000_000_000_000_000, SCALE as int);
        lemma_mag_mul_bound(vijy as int, ny as int, 5_000_000_000_000_000, SCALE as int);
        lemma_tdiv_bound(vijx as int * nx as int + vijy as int * ny as int, SCALE as int,
            2 * (5_000_000_000_000_000 * SCALE as int));
    }
    let vns = dotdiv(vijx, vijy, nx, ny, SCALE);
    proof {
        lemma_mag_mul_bound(vns as int, nx as int, 10_000_000_000_000_000, SCALE as int);
        lemma_tdiv_bound(vns as int * nx as int, SCALE as int,
            10_000_000_000_000_000 * SCALE as int);
        lemma_mag_mul_bound(vns as int, ny as int, 10_000_000_000_000_000, SCALE as int);
        lemma_tdiv_bound(vns as int * ny as int, SCALE as int,
            10_000_000_000_000_000 * SCALE as int);
    }
    let vnx = muldiv(vns, nx, SCALE);
    let vny = muldiv(vns, ny, SCALE);
    let vtx = vijx - vnx;
    let vty = vijy - vny;
    proof {
        assert(mag(vtx as int) <= 15_000_000_000_000_000);
        assert(mag(vty as int) <= 15_000_000_000_000_000);
        lemma_mag_mul_bound(kn as int, overlap as int, B_KN as int, 2 * B_RAD as int);
        lemma_tdiv_bound(kn as int * overlap as int, SCALE as int,
            B_KN as int * 2 * B_RAD as int);
    }
    let t = muldiv(kn, overlap, SCALE);
    proof {
        lemma_mag_mul_bound(t as int, nx as int, 20_000_000_000_000, SCALE as int);
        lemma_tdiv_bound(t as int * nx as int, SCALE as int,
            20_000_000_000_000 * SCALE as int);
        lemma_mag_mul_bound(t as int, ny as int, 20_000_000_000_000, SCALE as int);
        lemma_tdiv_bound(t as int * ny as int, SCALE as int,
            20_000_000_000_000 * SCALE as int);
        lemma_mag_mul_bound(CN as int, vnx as int, CN as int, 10_000_000_000_000_000);
        lemma_tdiv_bound(CN as int * vnx as int, SCALE as int,
            CN as int * 10_000_000_000_000_000);
        lemma_mag_mul_bound(CN as int, vny as int, CN as int, 10_000_000_000_000_000);
        lemma_tdiv_bound(CN as int * vny as int, SCALE as int,
            CN as int * 10_000_000_000_000_000);
    }
    let fnx = muldiv(t, nx, SCALE) - muldiv(CN, vnx, SCALE);
    let fny = muldiv(t, ny, SCALE) - muldiv(CN, vny, SCALE);
    proof {
        assert(mag(fnx as int) <= 30_000_000_000_000);
        assert(mag(fny as int) <= 30_000_000_000_000);
    }
    if mu == 0 {
        return (fnx, fny);
    }
    let zopt = hist.get(i, src_id, j);
    match zopt {
        Some((zx, zy)) => {
            proof {
                lemma_mag_mul_bound(zx as int, nx as int, B_HIST as int, SCALE as int);
                lemma_mag_mul_bound(zy as int, ny as int, B_HIST as int, SCALE as int);
                lemma_tdiv_bound(zx as int * nx as int + zy as int * ny as int, SCALE as int,
                    2 * (B_HIST as int * SCALE as int));
            }
            let zn = dotdiv(zx, zy, nx, ny, SCALE);
            proof {
                lemma_mag_mul_bound(nx as int, zn as int, SCALE as int, 2 * B_HIST as int);
                lemma_tdiv_bound(nx as int * zn as int, SCALE as int,
                    SCALE as int * (2 * B_HIST as int));
                lemma_mag_mul_bound(ny as int, zn as int, SCALE as int, 2 * B_HIST as int);
                lemma_tdiv_bound(ny as int * zn as int, SCALE as int,
                    SCALE as int * (2 * B_HIST as int));
            }
            let zrx = zx - muldiv(nx, zn, SCALE);
            let zry = zy - muldiv(ny, zn, SCALE);
            proof {
                assert(mag(zrx as int) <= 3 * B_HIST as int);
                assert(mag(zry as int) <= 3 * B_HIST as int);
                lemma_mag_mul_bound(KT as int, zrx as int, KT as int, 3 * B_HIST as int);
                lemma_tdiv_bound(KT as int * zrx as int, SCALE as int,
                    KT as int * (3 * B_HIST as int));
                lemma_mag_mul_bound(KT as int, zry as int, KT as int, 3 * B_HIST as int);
                lemma_tdiv_bound(KT as int * zry as int, SCALE as int,
                    KT as int * (3 * B_HIST as int));
                lemma_mag_mul_bound(CT as int, vtx as int, CT as int, 15_000_000_000_000_000);
                lemma_tdiv_bound(CT as int * vtx as int, SCALE as int,
                    CT as int * 15_000_000_000_000_000);
                lemma_mag_mul_bound(CT as int, vty as int, CT as int, 15_000_000_000_000_000);
                lemma_tdiv_bound(CT as int * vty as int, SCALE as int,
                    CT as int * 15_000_000_000_000_000);
            }
            let ft0x = -muldiv(KT, zrx, SCALE) - muldiv(CT, vtx, SCALE);
            let ft0y = -muldiv(KT, zry, SCALE) - muldiv(CT, vty, SCALE);
            proof {
                assert(mag(ft0x as int) <= 1_600_000_000_000_000_000);
                assert(mag(ft0y as int) <= 1_600_000_000_000_000_000);
            }
            let ft0n = mag_floor(ft0x, ft0y);
            let fnn = mag_floor(fnx, fny);
            proof {
                let m2 = fnx as int * fnx as int + fny as int * fny as int;
                assert(m2 >= 0) by (nonlinear_arith)
                    requires m2 == fnx as int * fnx as int + fny as int * fny as int;
                lemma_sqrt_floor(m2);
                lemma_mag_mul_bound(fnx as int, fnx as int, 30_000_000_000_000,
                    30_000_000_000_000);
                lemma_mag_mul_bound(fny as int, fny as int, 30_000_000_000_000,
                    30_000_000_000_000);
                assert((fnn as int) <= 50_000_000_000_000) by (nonlinear_arith)
                    requires 0 <= fnn as int, (fnn as int) * (fnn as int) <= m2,
                        m2 <= 2 * (30_000_000_000_000 * 30_000_000_000_000);
                lemma_mag_mul_bound(mu as int, fnn as int, B_MU as int, 50_000_000_000_000);
                lemma_tdiv_bound(mu as int * fnn as int, SCALE as int,
                    B_MU as int * 50_000_000_000_000);
            }
            let lim = muldiv(mu, fnn, SCALE);
            proof {
                assert(mag(lim as int) <= 100_000_000_000_000);
                lemma_component_le_norm(ft0x as int, ft0y as int);
                lemma_mag_mul_bound(vtx as int, dt as int, 15_000_000_000_000_000, B_DT as int);
                lemma_tdiv_bound(vtx as int * dt as int, SCALE as int,
                    15_000_000_000_000_000 * B_DT as int);
                lemma_mag_mul_bound(vty as int, dt as int, 15_000_000_000_000_000, B_DT as int);
                lemma_tdiv_bound(vty as int * dt as int, SCALE as int,
                    15_000_000_000_000_000 * B_DT as int);
            }
            if ft0n <= lim {
                let advx = muldiv(vtx, dt, SCALE);
                let advy = muldiv(vty, dt, SCALE);
                if stage == 1 {
                    hist.insert(i, src_id, j, zrx + advx, zry + advy);
                    (fnx + ft0x, fny + ft0y)
                } else {
                    let z0opt = hist0.get(i, src_id, j);
                    match z0opt {
                        Some((z0x, z0y)) => {
                            proof {
                                lemma_mag_mul_bound(z0x as int, nx as int, B_HIST as int,
                                    SCALE as int);
                                lemma_mag_mul_bound(z0y as int, ny as int, B_HIST as int,
                                    SCALE as int);
                                lemma_tdiv_bound(z0x as int * nx as int + z0y as int
                                    * ny as int, SCALE as int,
                                    2 * (B_HIST as int * SCALE as int));
                            }
                            let z0n = dotdiv(z0x, z0y, nx, ny, SCALE);
                            proof {
                                lemma_mag_mul_bound(nx as int, z0n as int, SCALE as int,
                                    2 * B_HIST as int);
                                lemma_tdiv_bound(nx as int * z0n as int, SCALE as int,
                                    SCALE as int * (2 * B_HIST as int));
                                lemma_mag_mul_bound(ny as int, z0n as int, SCALE as int,
                                    2 * B_HIST as int);
                                lemma_tdiv_bound(ny as int * z0n as int, SCALE as int,
                                    SCALE as int * (2 * B_HIST as int));
                            }
                            let sx = z0x - muldiv(nx, z0n, SCALE) + advx;
                            let sy = z0y - muldiv(ny, z0n, SCALE) + advy;
                            hist.insert(i, src_id, j, sx, sy);
                            hist0.insert(i, src_id, j, sx, sy);
                            (fnx + ft0x, fny + ft0y)
                        },
                        None => {
                            proof {
                                assert(false);
                            }
                            vstd::pervasive::unreached()
                        },
                    }
                }
            } else {
                proof {
                    let f2 = ft0x as int * ft0x as int + ft0y as int * ft0y as int;
                    assert(f2 >= 0) by (nonlinear_arith)
                        requires f2 == ft0x as int * ft0x as int + ft0y as int * ft0y as int;
                    lemma_sqrt_floor(f2);
                    lemma_mag_mul_bound(ft0x as int, ft0x as int, 1_600_000_000_000_000_000,
                        1_600_000_000_000_000_000);
                    lemma_mag_mul_bound(ft0y as int, ft0y as int, 1_600_000_000_000_000_000,
                        1_600_000_000_000_000_000);
                }
                let nf = mag_ceil(ft0x, ft0y);
                proof {
                    assert(nf >= ft0n);
                    assert(nf > 0);
                    assert(mag(ft0x as int) <= nf as int);
                    assert(mag(ft0y as int) <= nf as int);
                    assert(mag(lim as int * ft0x as int) == lim as int * mag(ft0x as int))
                        by (nonlinear_arith)
                        requires 0 <= lim as int;
                    assert(mag(lim as int * ft0y as int) == lim as int * mag(ft0y as int))
                        by (nonlinear_arith)
                        requires 0 <= lim as int;
                    assert(mag(lim as int * ft0x as int) <= lim as int * nf as int)
                        by (nonlinear_arith)
                        requires 0 <= lim as int, mag(ft0x as int) <= nf as int,
                            mag(lim as int * ft0x as int) == lim as int * mag(ft0x as int);
                    assert(mag(lim as int * ft0y as int) <= lim as int * nf as int)
                        by (nonlinear_arith)
                        requires 0 <= lim as int, mag(ft0y as int) <= nf as int,
                            mag(lim as int * ft0y as int) == lim as int * mag(ft0y as int);
                    assert(lim as int * nf as int <= i64::MAX as int * nf as int)
                        by (nonlinear_arith)
                        requires 0 < nf as int, 0 <= lim as int <= i64::MAX as int;
                    lemma_tdiv_bound(lim as int * ft0x as int, nf as int,
                        lim as int * nf as int);
                    lemma_tdiv_bound(lim as int * ft0y as int, nf as int,
                        lim as int * nf as int);
                    assert((lim as int * nf as int) / (nf as int) == lim as int) by {
                        vstd::arithmetic::div_mod::lemma_div_multiples_vanish(lim as int,
                            nf as int);
                        vstd::arithmetic::mul::lemma_mul_is_commutative(nf as int, lim as int);
                    }
                }
                let ftx = muldiv(lim, ft0x, nf);
                let fty = muldiv(lim, ft0y, nf);
                proof {
                    assert(mag(ftx as int) <= 100_000_000_000_000);
                    assert(mag(fty as int) <= 100_000_000_000_000);
                    lemma_mag_mul_bound(ftx as int + tdiv(CT as int * vtx as int, SCALE as int),
                        SCALE as int, 120_000_000_000_000, SCALE as int);
                    lemma_tdiv_bound((ftx as int + tdiv(CT as int * vtx as int, SCALE as int))
                        * SCALE as int, KT as int, 120_000_000_000_000 * SCALE as int);
                    lemma_mag_mul_bound(fty as int + tdiv(CT as int * vty as int, SCALE as int),
                        SCALE as int, 120_000_000_000_000, SCALE as int);
                    lemma_tdiv_bound((fty as int + tdiv(CT as int * vty as int, SCALE as int))
                        * SCALE as int, KT as int, 120_000_000_000_000 * SCALE as int);
                }
                let sx = muldiv(ftx + muldiv(CT, vtx, SCALE), SCALE, KT);
                let sy = muldiv(fty + muldiv(CT, vty, SCALE), SCALE, KT);
                hist.insert(i, src_id, j, sx, sy);
                if stage == 2 {
                    hist0.insert(i, src_id, j, sx, sy);
                }
                (fnx + ftx, fny + fty)
            }
        },
        None => {
            proof {
                lemma_mag_mul_bound(vtx as int, dt as int, 15_000_000_000_000_000, B_DT as int);
                lemma_tdiv_bound(vtx as int * dt as int, SCALE as int,
                    15_000_000_000_000_000 * B_DT as int);
                lemma_mag_mul_bound(vty as int, dt as int, 15_000_000_000_000_000, B_DT as int);
                lemma_tdiv_bound(vty as int * dt as int, SCALE as int,
                    15_000_000_000_000_000 * B_DT as int);
            }
            let sx = muldiv(vtx, dt, SCALE);
            let sy = muldiv(vty, dt, SCALE);
            hist.insert(i, src_id, j, sx, sy);
            if stage == 1 {
                hist0.insert(i, src_id, j, 0, 0);
            } else {
                hist0.insert(i, src_id, j, sx, sy);
            }
            (fnx, fny)
        },
    }
}

/// Accumulated effect of one destination particle's whole neighbour list.
pub ghost struct FoldState {
    pub dfx: int,
    pub dfy: int,
    pub hist: Map<(usize, usize, usize), (i64, i64)>,
    pub hist0: Map<(usize, usize, usize), (i64, i64)>,
}

/// Fold `visc_pair` over the neighbour list of destination particle `i`,
/// in list order; with `skip` the particle's own index is passed over.
pub open spec fn visc_fold(
    hist: Map<(usize, usize, usize), (i64, i64)>,
    hist0: Map<(usize, usize, usize), (i64, i64)>,
    d: &DemDiscrete,
    s: &DemDiscrete,
    i: usize,
    nbrs: Seq<usize>,
    kn: int,
    mu: int,
    dt: int,
    stage: int,
    skip: bool,
) -> FoldState
    decreases nbrs.len(),
{
    if nbrs.len() == 0 {
        FoldState { dfx: 0, dfy: 0, hist, hist0 }
    } else {
        let pre = visc_fold(hist, hist0, d, s, i, nbrs.drop_last(), kn, mu, dt, stage, skip);
        let j = nbrs.last();
        if skip && j == i {
            pre
        } else {
            let pe = visc_pair(pre.hist, pre.hist0, i, s.id, j, d.x@[i as int] as int,
                d.y@[i as int] as int, d.u@[i as int] as int, d.v@[i as int] as int,
                d.omega_z@[i as int] as int, d.rad@[i as int] as int, s.x@[j as int] as int,
                s.y@[j as int] as int, s.u@[j as int] as int, s.v@[j as int] as int,
                s.omega_z@[j as int] as int, s.rad@[j as int] as int, kn, mu, dt, stage);
            FoldState { dfx: pre.dfx + pe.dfx, dfy: pre.dfy + pe.dfy, hist: pe.hist,
                hist0: pe.hist0 }
        }
    }
}

/// State of a whole force pass after the first `k` destination particles.
pub ghost struct PassState {
    pub fxs: Seq<int>,
    pub fys: Seq<int>,
    pub hist: Map<(usize, usize, usize), (i64, i64)>,
    pub hist0: Map<(usize, usize, usize), (i64, i64)>,
}

/// The whole pass: particles `0 .. k` of the destination store `d` each
/// gather their neighbours from `grid` for the entity of `s` and fold the
/// pair model, accumulating forces and evolving the contact memories.
pub open spec fn visc_outer(
    grid: &crate::contact_search::LinkedListGrid,
    d: &DemDiscrete,
    s: &DemDiscrete,
    kn: int,
    mu: int,
    dt: int,
    stage: int,
    skip: bool,
    k: int,
) -> PassState
    decreases k,
{
    if k <= 0 {
        PassState {
            fxs: Seq::new(d.len as nat, |q: int| d.fx@[q] as int),
            fys: Seq::new(d.len as nat, |q: int| d.fy@[q] as int),
            hist: d.tang_history@,
            hist0: d.tang_history0@,
        }
    } else {
        let pre = visc_outer(grid, d, s, kn, mu, dt, stage, skip, k - 1);
        let i = k - 1;
        let nbrs = crate::contact_search::gather(grid, crate::contact_search::probe_cells(grid,
            d.x@[i] as int, d.y@[i] as int), s.id);
        let fs = visc_fold(pre.hist, pre.hist0, d, s, i as usize, nbrs, kn, mu, dt, stage,
            skip);
        PassState {
            fxs: pre.fxs.update(i, pre.fxs[i] + fs.dfx),
            fys: pre.fys.update(i, pre.fys[i] + fs.dfy),
            hist: fs.hist,
            hist0: fs.hist0,
        }
    }
}

/// A key's entry in both memories, unchanged between two map pairs.
pub open spec fn key_same(
    ha: Map<(usize, usize, usize), (i64, i64)>,
    h0a: Map<(usize, usize, usize), (i64, i64)>,
    hb: Map<(usize, usize, usize), (i64, i64)>,
    h0b: Map<(usize, usize, usize), (i64, i64)>,
    key: (usize, usize, usize),
) -> bool {
    &&& ha.dom().contains(key) <==> hb.dom().contains(key)
    &&& ha.dom().contains(key) ==> ha[key] == hb[key]
    &&& h0a.dom().contains(key) <==> h0b.dom().contains(key)
    &&& h0a.dom().contains(key) ==> h0a[key] == h0b[key]
}

/// A pair fold touches only the keys of its own particle and listed
/// neighbours.
pub proof fn lemma_fold_frame(
    hist: Map<(usize, usize, usize), (i64, i64)>,
    hist0: Map<(usize, usize, usize), (i64, i64)>,
    d: &DemDiscrete,
    s: &DemDiscrete,
    i: usize,
    nbrs: Seq<usize>,
    kn: int,
    mu: int,
    dt: int,
    stage: int,
    skip: bool,
)
    ensures
        forall|key: (usize, usize, usize)| key.0 != i || key.1 != s.id || !nbrs.contains(key.2)
            ==> #[trigger] key_same(visc_fold(hist, hist0, d, s, i, nbrs, kn, mu, dt, stage,
                skip).hist, visc_fold(hist, hist0, d, s, i, nbrs, kn, mu, dt, stage,
                skip).hist0, hist, hist0, key),
    decreases nbrs.len(),
{
    if nbrs.len() > 0 {
        lemma_fold_frame(hist, hist0, d, s, i, nbrs.drop_last(), kn, mu, dt, stage, skip);
        let j = nbrs.last();
        assert forall|key: (usize, usize, usize)| key.0 != i || key.1 != s.id
            || !nbrs.contains(key.2) implies #[trigger] key_same(visc_fold(hist, hist0, d, s,
                i, nbrs, kn, mu, dt, stage, skip).hist, visc_fold(hist, hist0, d, s, i, nbrs,
                kn, mu, dt, stage, skip).hist0, hist, hist0, key) by {
            if !nbrs.contains(key.2) {
                assert(!nbrs.drop_last().contains(key.2)) by {
                    if nbrs.drop_last().contains(key.2) {
                        let m = choose|m: int| 0 <= m < nbrs.drop_last().len()
                            && nbrs.drop_last()[m] == key.2;
                        assert(nbrs[m] == key.2);
                    }
                }
                assert(key.2 != j);
            } else {
                if nbrs.drop_last().contains(key.2) {
                    let m = choose|m: int| 0 <= m < nbrs.drop_last().len()
                        && nbrs.drop_last()[m] == key.2;
                    assert(nbrs[m] == key.2);
                }
            }
            assert(key_same(visc_fold(hist, hist0, d, s, i, nbrs.drop_last(), kn, mu, dt,
                stage, skip).hist, visc_fold(hist, hist0, d, s, i, nbrs.drop_last(), kn, mu,
                dt, stage, skip).hist0, hist, hist0, key));
        }
    }
}

/// The pass leaves the memory of still-unprocessed particles, and of other
/// entities, exactly as it found it, and only changes the forces of
/// processed particles.
pub proof fn lemma_outer_frame(
    grid: &crate::contact_search::LinkedListGrid,
    d: &DemDiscrete,
    s: &DemDiscrete,
    kn: int,
    mu: int,
    dt: int,
    stage: int,
    skip: bool,
    k: int,
)
    requires
        0 <= k <= d.len,
    ensures
        visc_outer(grid, d, s, kn, mu, dt, stage, skip, k).fxs.len() == d.len,
        visc_outer(grid, d, s, kn, mu, dt, stage, skip, k).fys.len() == d.len,
        forall|q: int| k <= q < d.len
            ==> #[trigger] visc_outer(grid, d, s, kn, mu, dt, stage, skip, k).fxs[q]
                == d.fx@[q] as int,
        forall|q: int| k <= q < d.len
            ==> #[trigger] visc_outer(grid, d, s, kn, mu, dt, stage, skip, k).fys[q]
                == d.fy@[q] as int,
        forall|key: (usize, usize, usize)| key.0 as int >= k || key.1 != s.id
            ==> #[trigger] key_same(visc_outer(grid, d, s, kn, mu, dt, stage, skip, k).hist,
                visc_outer(grid, d, s, kn, mu, dt, stage, skip, k).hist0, d.tang_history@,
                d.tang_history0@, key),
    decreases k,
{
    if k > 0 {
        lemma_outer_frame(grid, d, s, kn, mu, dt, stage, skip, k - 1);
        let pre = visc_outer(grid, d, s, kn, mu, dt, stage, skip, k - 1);
        let i = k - 1;
        let nbrs = crate::contact_search::gather(grid, crate::contact_search::probe_cells(grid,
            d.x@[i] as int, d.y@[i] as int), s.id);
        let fs = visc_fold(pre.hist, pre.hist0, d, s, i as usize, nbrs, kn, mu, dt, stage,
            skip);
        let cur = visc_outer(grid, d, s, kn, mu, dt, stage, skip, k);
        assert(cur.fxs == pre.fxs.update(i, pre.fxs[i] + fs.dfx));
        assert(cur.fys == pre.fys.update(i, pre.fys[i] + fs.dfy));
        assert(cur.hist == fs.hist);
        assert(cur.hist0 == fs.hist0);
        assert(cur.fxs.len() == pre.fxs.len());
        lemma_fold_frame(pre.hist, pre.hist0, d, s, i as usize, nbrs, kn, mu, dt, stage, skip);
        assert forall|key: (usize, usize, usize)| key.0 as int >= k || key.1 != s.id
            implies #[trigger] key_same(cur.hist, cur.hist0,
                d.tang_history@, d.tang_history0@, key) by {
            assert(key.0 != i as usize || key.1 != s.id);
            assert(key_same(fs.hist, fs.hist0, pre.hist, pre.hist0, key));
            assert(key_same(pre.hist, pre.hist0, d.tang_history@, d.tang_history0@, key));
        }
        assert(forall|q: int| k <= q < d.len ==> #[trigger] cur.fxs[q] == d.fx@[q] as int);
        assert(forall|q: int| k <= q < d.len ==> #[trigger] cur.fys[q] == d.fy@[q] as int);
    }
}

/// No particle index appears twice in a gather over distinct probed cells.
pub proof fn lemma_gather_no_dup(
    g: &crate::contact_search::LinkedListGrid,
    probes: Seq<int>,
    s: &DemDiscrete,
    n: int,
)
    requires
        forall|m: int| 0 <= m < probes.len() ==> 0 <= #[trigger] probes[m] < g.cells@.len(),
        forall|a: int, b: int| 0 <= a < b < probes.len() ==> probes[a] != probes[b],
        forall|c: int| 0 <= c < g.cells@.len()
            ==> #[trigger] crate::contact_search::cell_list_ok(g, s, n, c),
    ensures
        forall|a: int, b: int| 0 <= a < b
            < crate::contact_search::gather(g, probes, s.id).len()
            ==> crate::contact_search::gather(g, probes, s.id)[a]
                != crate::contact_search::gather(g, probes, s.id)[b],
        forall|a: int| 0 <= a < crate::contact_search::gather(g, probes, s.id).len()
            ==> exists|m: int| 0 <= m < probes.len()
                && g.cell_of(s.x@[#[trigger] crate::contact_search::gather(g, probes,
                    s.id)[a] as int] as int, s.y@[crate::contact_search::gather(g, probes,
                    s.id)[a] as int] as int) == probes[m],
    decreases probes.len(),
{
    let ga = crate::contact_search::gather(g, probes, s.id);
    if probes.len() > 0 {
        let pp = probes.drop_last();
        assert(forall|m: int| 0 <= m < pp.len() ==> pp[m] == probes[m]);
        lemma_gather_no_dup(g, pp, s, n);
        let pre = crate::contact_search::gather(g, pp, s.id);
        let c = probes.last();
        assert(crate::contact_search::cell_list_ok(g, s, n, c));
        let l = g.cells@[c].list_for(s.id);
        assert forall|a: int| 0 <= a < ga.len() implies exists|m: int| 0 <= m < probes.len()
            && g.cell_of(s.x@[#[trigger] ga[a] as int] as int,
                s.y@[ga[a] as int] as int) == probes[m] by {
            if a < pre.len() {
                assert(ga[a] == pre[a]);
                let m = choose|m: int| 0 <= m < pp.len()
                    && g.cell_of(s.x@[pre[a] as int] as int, s.y@[pre[a] as int] as int)
                        == pp[m];
                assert(g.cell_of(s.x@[ga[a] as int] as int, s.y@[ga[a] as int] as int)
                    == probes[m]);
            } else {
                assert(ga[a] == l[a - pre.len()]);
                assert(g.cell_of(s.x@[ga[a] as int] as int, s.y@[ga[a] as int] as int) == c);
                assert(probes[probes.len() - 1] == c);
            }
        }
        assert forall|a: int, b: int| 0 <= a < b < ga.len() implies ga[a] != ga[b] by {
            if b < pre.len() {
                assert(pre[a] != pre[b]);
            } else if a >= pre.len() {
                assert(ga[a] == l[a - pre.len()]);
                assert(ga[b] == l[b - pre.len()]);
                assert(l[a - pre.len()] < l[b - pre.len()]);
            } else {
                assert(ga[a] == pre[a]);
                assert(ga[b] == l[b - pre.len()]);
                let m = choose|m: int| 0 <= m < pp.len()
                    && g.cell_of(s.x@[pre[a] as int] as int, s.y@[pre[a] as int] as int)
                        == pp[m];
                assert(g.cell_of(s.x@[ga[b] as int] as int, s.y@[ga[b] as int] as int) == c);
                if ga[a] == ga[b] {
                    assert(pp[m] == c);
                    assert(probes[m] == probes[probes.len() - 1]);
                    assert(false);
                }
            }
        }
    }
}

/// Both contact memories are within range and the snapshot covers the live
/// record.
pub open spec fn hist_ok(
    h: Map<(usize, usize, usize), (i64, i64)>,
    h0: Map<(usize, usize, usize), (i64, i64)>,
) -> bool {
    forall|key: (usize, usize, usize)| #[trigger] h.dom().contains(key)
        ==> h0.dom().contains(key) && mag(h[key].0 as int) <= B_HIST as int
            && mag(h[key].1 as int) <= B_HIST as int && mag(h0[key].0 as int) <= B_HIST as int
            && mag(h0[key].1 as int) <= B_HIST as int
}

/// Pairwise viscoelastic contact pass: for every destination particle,
/// gather its neighbours among the source entity's particles, apply the
/// spring-dashpot normal force and the Coulomb-capped tangential force of
/// each overlapping pair, advance the tangential memory, and forget
/// separated contacts.  The source store is read-only: no force is ever
/// written into it.
#[verifier::loop_isolation(false)]
#[verifier::rlimit(100)]
pub fn linear_viscoelastic_model_dem_other(
    dst: &mut DemDiscrete,
    src: &DemDiscrete,
    kn: i64,
    mu: i64,
    dt: i64,
    stage: usize,
    grid: &crate::contact_search::LinkedListGrid,
)
    requires
        old(dst).wf(),
        old(dst).kin_bounded(),
        old(dst).forces_bounded(),
        src.wf(),
        src.kin_bounded(),
        src.len <= B_VLEN,
        grid.wf(),
        grid.entity_known(src.id),
        crate::contact_search::placed(grid, src, src.len as int),
        0 < kn <= B_KN,
        0 <= mu <= B_MU,
        0 < dt <= B_DT,
        stage == 1 || stage == 2,
        hist_ok(old(dst).tang_history@, old(dst).tang_history0@),
    ensures
        final(dst).wf(),
        final(dst).len == old(dst).len,
        forall|q: int| 0 <= q < old(dst).len ==> #[trigger] final(dst).fx@[q] as int
            == visc_outer(grid, old(dst), src, kn as int, mu as int, dt as int, stage as int,
                false, old(dst).len as int).fxs[q],
        forall|q: int| 0 <= q < old(dst).len ==> #[trigger] final(dst).fy@[q] as int
            == visc_outer(grid, old(dst), src, kn as int, mu as int, dt as int, stage as int,
                false, old(dst).len as int).fys[q],
        final(dst).tang_history@ == visc_outer(grid, old(dst), src, kn as int, mu as int,
            dt as int, stage as int, false, old(dst).len as int).hist,
        final(dst).tang_history0@ == visc_outer(grid, old(dst), src, kn as int, mu as int,
            dt as int, stage as int, false, old(dst).len as int).hist0,
        final(dst).x == old(dst).x,
        final(dst).y == old(dst).y,
        final(dst).u == old(dst).u,
        final(dst).v == old(dst).v,
        final(dst).omega_z == old(dst).omega_z,
        final(dst).x0 == old(dst).x0,
        final(dst).y0 == old(dst).y0,
        final(dst).u0 == old(dst).u0,
        final(dst).v0 == old(dst).v0,
        final(dst).omega_z0 == old(dst).omega_z0,
        final(dst).m == old(dst).m,
        final(dst).inertia == old(dst).inertia,
        final(dst).h == old(dst).h,
        final(dst).m_inv == old(dst).m_inv,
        final(dst).i_inv == old(dst).i_inv,
        final(dst).rad == old(dst).rad,
        final(dst).tauz == old(dst).tauz,
        final(dst).id == old(dst).id,
        final(dst).name == old(dst).name,
{
    let n = dst.len;
    let mut i: usize = 0;
    while i < n
        invariant
            0 <= i <= n,
            dst.len == old(dst).len,
            dst.fx@.len() == n,
            dst.fy@.len() == n,
            dst.tang_history.wf(),
            dst.tang_history0.wf(),
            forall|q: int| 0 <= q < n ==> #[trigger] dst.fx@[q] as int
                == visc_outer(grid, old(dst), src, kn as int, mu as int, dt as int,
                    stage as int, false, i as int).fxs[q],
            forall|q: int| 0 <= q < n ==> #[trigger] dst.fy@[q] as int
                == visc_outer(grid, old(dst), src, kn as int, mu as int, dt as int,
                    stage as int, false, i as int).fys[q],
            dst.tang_history@ == visc_outer(grid, old(dst), src, kn as int, mu as int,
                dt as int, stage as int, false, i as int).hist,
            dst.tang_history0@ == visc_outer(grid, old(dst), src, kn as int, mu as int,
                dt as int, stage as int, false, i as int).hist0,
            dst.x == old(dst).x,
            dst.y == old(dst).y,
            dst.u == old(dst).u,
            dst.v == old(dst).v,
            dst.omega_z == old(dst).omega_z,
            dst.x0 == old(dst).x0,
            dst.y0 == old(dst).y0,
            dst.u0 == old(dst).u0,
            dst.v0 == old(dst).v0,
            dst.omega_z0 == old(dst).omega_z0,
            dst.m == old(dst).m,
            dst.inertia == old(dst).inertia,
            dst.h == old(dst).h,
            dst.m_inv == old(dst).m_inv,
            dst.i_inv == old(dst).i_inv,
            dst.rad == old(dst).rad,
            dst.tauz == old(dst).tauz,
            dst.id == old(dst).id,
            dst.name == old(dst).name,
        decreases n - i,
    {
        let ghost pre = visc_outer(grid, old(dst), src, kn as int, mu as int, dt as int,
            stage as int, false, i as int);
        proof {
            assert(old(dst).kin_ok_at(i as int));
            assert(dst.x@[i as int] == old(dst).x@[i as int]);
            lemma_outer_frame(grid, old(dst), src, kn as int, mu as int, dt as int,
                stage as int, false, i as int);
        }
        let xi = dst.x[i];
        let yi = dst.y[i];
        let ui = dst.u[i];
        let vi = dst.v[i];
        let wi = dst.omega_z[i];
        let radi = dst.rad[i];
        let nbrs = crate::contact_search::get_neighbours_ll([xi, yi], grid, &src.id);
        let ghost probes = crate::contact_search::probe_cells(grid, xi as int, yi as int);
        proof {
            crate::contact_search::lemma_dedup_valid_range(
                crate::contact_search::probe_candidates(grid.cell_of(xi as int, yi as int),
                    grid.no_y_cells as int), grid.cells@.len() as int);
            crate::contact_search::lemma_dedup_valid_no_dup(
                crate::contact_search::probe_candidates(grid.cell_of(xi as int, yi as int),
                    grid.no_y_cells as int), grid.cells@.len() as int);
            crate::contact_search::lemma_gather_elems(grid, probes, src, src.len as int);
            crate::contact_search::lemma_gather_len(grid, probes, src, src.len as int);
            lemma_gather_no_dup(grid, probes, src, src.len as int);
            assert(probes.len() * src.len as int <= 9 * B_VLEN as int) by (nonlinear_arith)
                requires probes.len() <= 9, 0 <= src.len as int <= B_VLEN as int;
            assert(nbrs@.len() <= 9 * B_VLEN);
        }
        let mut accx = dst.fx[i];
        let mut accy = dst.fy[i];
        proof {
            assert(accx as int == pre.fxs[i as int]);
            assert(accy as int == pre.fys[i as int]);
            assert(old(dst).force_ok_at(i as int));
            assert(mag(pre.fxs[i as int]) <= B_FORCE as int);
            assert(mag(pre.fys[i as int]) <= B_FORCE as int);
        }
        let mut k: usize = 0;
        while k < nbrs.len()
            invariant
                0 <= k <= nbrs@.len(),
                nbrs@.len() <= 9 * B_VLEN,
                forall|m: int| 0 <= m < nbrs@.len() ==> 0 <= #[trigger] nbrs@[m] < src.len,
                forall|a: int, b: int| 0 <= a < b < nbrs@.len() ==> nbrs@[a] != nbrs@[b],
                0 <= i < n,
                dst.len == old(dst).len,
                dst.fx@.len() == n,
                dst.fy@.len() == n,
                dst.tang_history.wf(),
                dst.tang_history0.wf(),
                xi == old(dst).x@[i as int],
                yi == old(dst).y@[i as int],
                ui == old(dst).u@[i as int],
                vi == old(dst).v@[i as int],
                wi == old(dst).omega_z@[i as int],
                radi == old(dst).rad@[i as int],
                pre == visc_outer(grid, old(dst), src, kn as int, mu as int, dt as int,
                    stage as int, false, i as int),
                nbrs@ == crate::contact_search::gather(grid, crate::contact_search::probe_cells(
                    grid, old(dst).x@[i as int] as int, old(dst).y@[i as int] as int), src.id),
                dst.tang_history@ == visc_fold(pre.hist, pre.hist0, old(dst), src, i,
                    nbrs@.take(k as int), kn as int, mu as int, dt as int, stage as int,
                    false).hist,
                dst.tang_history0@ == visc_fold(pre.hist, pre.hist0, old(dst), src, i,
                    nbrs@.take(k as int), kn as int, mu as int, dt as int, stage as int,
                    false).hist0,
                accx as int == pre.fxs[i as int] + visc_fold(pre.hist, pre.hist0, old(dst),
                    src, i, nbrs@.take(k as int), kn as int, mu as int, dt as int,
                    stage as int, false).dfx,
                accy as int == pre.fys[i as int] + visc_fold(pre.hist, pre.hist0, old(dst),
                    src, i, nbrs@.take(k as int), kn as int, mu as int, dt as int,
                    stage as int, false).dfy,
                mag(accx as int) <= B_FORCE as int + k as int * B_VISC_PAIR as int,
                mag(accy as int) <= B_FORCE as int + k as int * B_VISC_PAIR as int,
                forall|q: int| 0 <= q < n ==> #[trigger] dst.fx@[q] as int
                    == visc_outer(grid, old(dst), src, kn as int, mu as int, dt as int,
                        stage as int, false, i as int).fxs[q],
                forall|q: int| 0 <= q < n ==> #[trigger] dst.fy@[q] as int
                    == visc_outer(grid, old(dst), src, kn as int, mu as int, dt as int,
                        stage as int, false, i as int).fys[q],
                dst.x == old(dst).x,
                dst.y == old(dst).y,
                dst.u == old(dst).u,
                dst.v == old(dst).v,
                dst.omega_z == old(dst).omega_z,
                dst.x0 == old(dst).x0,
                dst.y0 == old(dst).y0,
                dst.u0 == old(dst).u0,
                dst.v0 == old(dst).v0,
                dst.omega_z0 == old(dst).omega_z0,
                dst.m == old(dst).m,
                dst.inertia == old(dst).inertia,
                dst.h == old(dst).h,
                dst.m_inv == old(dst).m_inv,
                dst.i_inv == old(dst).i_inv,
                dst.rad == old(dst).rad,
                dst.tauz == old(dst).tauz,
                dst.id == old(dst).id,
                dst.name == old(dst).name,
            decreases nbrs@.len() - k,
        {
            let j = nbrs[k];
            let ghost fpre = visc_fold(pre.hist, pre.hist0, old(dst), src, i,
                nbrs@.take(k as int), kn as int, mu as int, dt as int, stage as int, false);
            proof {
                assert(nbrs@.take(k as int + 1).drop_last() =~= nbrs@.take(k as int));
                assert(nbrs@.take(k as int + 1).last() == nbrs@[k as int]);
                assert(src.kin_ok_at(j as int));
                assert(old(dst).kin_ok_at(i as int));
                // the key this pair reads is still as the pass found it
                assert(!nbrs@.take(k as int).contains(j)) by {
                    if nbrs@.take(k as int).contains(j) {
                        let m = choose|m: int| 0 <= m < k as int && nbrs@.take(k as int)[m]
                            == j;
                        assert(nbrs@[m] == nbrs@[k as int]);
                    }
                }
                lemma_fold_frame(pre.hist, pre.hist0, old(dst), src, i, nbrs@.take(k as int),
                    kn as int, mu as int, dt as int, stage as int, false);
                lemma_outer_frame(grid, old(dst), src, kn as int, mu as int, dt as int,
                    stage as int, false, i as int);
                let key = (i, src.id, j);
                assert(key_same(fpre.hist, fpre.hist0, pre.hist, pre.hist0, key));
                assert(key_same(pre.hist, pre.hist0, old(dst).tang_history@,
                    old(dst).tang_history0@, key));
                assert(mag(accx as int) <= B_FORCE as int + 9 * B_VLEN as int
                    * B_VISC_PAIR as int) by (nonlinear_arith)
                    requires mag(accx as int) <= B_FORCE as int + k as int * B_VISC_PAIR as int,
                        0 <= k as int <= 9 * B_VLEN as int, B_VISC_PAIR as int > 0,
                        B_FORCE as int > 0;
                assert(mag(accy as int) <= B_FORCE as int + 9 * B_VLEN as int
                    * B_VISC_PAIR as int) by (nonlinear_arith)
                    requires mag(accy as int) <= B_FORCE as int + k as int * B_VISC_PAIR as int,
                        0 <= k as int <= 9 * B_VLEN as int, B_VISC_PAIR as int > 0,
                        B_FORCE as int > 0;
            }
            let (dfx, dfy) = contact_pair(&mut dst.tang_history, &mut dst.tang_history0, i,
                src.id, j, xi, yi, ui, vi, wi, radi, src.x[j], src.y[j], src.u[j], src.v[j],
                src.omega_z[j], src.rad[j], kn, mu, dt, stage);
            accx = accx + dfx;
            accy = accy + dfy;
            k = k + 1;
        }
        proof {
            assert(nbrs@.take(nbrs@.len() as int) =~= nbrs@);
        }
        dst.fx.set(i, accx);
        dst.fy.set(i, accy);
        proof {
            let nxt = visc_outer(grid, old(dst), src, kn as int, mu as int, dt as int,
                stage as int, false, i as int + 1);
            assert(nxt.fxs == pre.fxs.update(i as int, pre.fxs[i as int] + visc_fold(pre.hist,
                pre.hist0, old(dst), src, i, nbrs@, kn as int, mu as int, dt as int,
                stage as int, false).dfx));
            assert(forall|q: int| 0 <= q < n ==> #[trigger] dst.fx@[q] as int == nxt.fxs[q]);
            assert(forall|q: int| 0 <= q < n ==> #[trigger] dst.fy@[q] as int == nxt.fys[q]);
        }
        i = i + 1;
    }
}

/// Self-interaction viscoelastic contact pass: the same model with the
/// store acting as its own source; a particle never interacts with itself,
/// and each particle of a pair records its own response when its own turn
/// comes.
#[verifier::loop_isolation(false)]
#[verifier::rlimit(100)]
pub fn linear_viscoelastic_model_dem_self(
    dst: &mut DemDiscrete,
    kn: i64,
    mu: i64,
    dt: i64,
    stage: usize,
    grid: &crate::contact_search::LinkedListGrid,
)
    requires
        old(dst).wf(),
        old(dst).kin_bounded(),
        old(dst).forces_bounded(),
        old(dst).len <= B_VLEN,
        grid.wf(),
        grid.entity_known(old(dst).id),
        crate::contact_search::placed(grid, old(dst), old(dst).len as int),
        0 < kn <= B_KN,
        0 <= mu <= B_MU,
        0 < dt <= B_DT,
        stage == 1 || stage == 2,
        hist_ok(old(dst).tang_history@, old(dst).tang_history0@),
    ensures
        final(dst).wf(),
        final(dst).len == old(dst).len,
        forall|q: int| 0 <= q < old(dst).len ==> #[trigger] final(dst).fx@[q] as int
            == visc_outer(grid, old(dst), old(dst), kn as int, mu as int, dt as int, stage as int,
                true, old(dst).len as int).fxs[q],
        forall|q: int| 0 <= q < old(dst).len ==> #[trigger] final(dst).fy@[q] as int
            == visc_outer(grid, old(dst), old(dst), kn as int, mu as int, dt as int, stage as int,
                true, old(dst).len as int).fys[q],
        final(dst).tang_history@ == visc_outer(grid, old(dst), old(dst), kn as int, mu as int,
            dt as int, stage as int, true, old(dst).len as int).hist,
        final(dst).tang_history0@ == visc_outer(grid, old(dst), old(dst), kn as int, mu as int,
            dt as int, stage as int, true, old(dst).len as int).hist0,
        final(dst).x == old(dst).x,
        final(dst).y == old(dst).y,
        final(dst).u == old(dst).u,
        final(dst).v == old(dst).v,
        final(dst).omega_z == old(dst).omega_z,
        final(dst).x0 == old(dst).x0,
        final(dst).y0 == old(dst).y0,
        final(dst).u0 == old(dst).u0,
        final(dst).v0 == old(dst).v0,
        final(dst).omega_z0 == old(dst).omega_z0,
        final(dst).m == old(dst).m,
        final(dst).inertia == old(dst).inertia,
        final(dst).h == old(dst).h,
        final(dst).m_inv == old(dst).m_inv,
        final(dst).i_inv == old(dst).i_inv,
        final(dst).rad == old(dst).rad,
        final(dst).tauz == old(dst).tauz,
        final(dst).id == old(dst).id,
        final(dst).name == old(dst).name,
{
    let n = dst.len;
    let mut i: usize = 0;
    while i < n
        invariant
            0 <= i <= n,
            dst.len == old(dst).len,
            dst.fx@.len() == n,
            dst.fy@.len() == n,
            dst.tang_history.wf(),
            dst.tang_history0.wf(),
            forall|q: int| 0 <= q < n ==> #[trigger] dst.fx@[q] as int
                == visc_outer(grid, old(dst), old(dst), kn as int, mu as int, dt as int,
                    stage as int, true, i as int).fxs[q],
            forall|q: int| 0 <= q < n ==> #[trigger] dst.fy@[q] as int
                == visc_outer(grid, old(dst), old(dst), kn as int, mu as int, dt as int,
                    stage as int, true, i as int).fys[q],
            dst.tang_history@ == visc_outer(grid, old(dst), old(dst), kn as int, mu as int,
                dt as int, stage as int, true, i as int).hist,
            dst.tang_history0@ == visc_outer(grid, old(dst), old(dst), kn as int, mu as int,
                dt as int, stage as int, true, i as int).hist0,
            dst.x == old(dst).x,
            dst.y == old(dst).y,
            dst.u == old(dst).u,
            dst.v == old(dst).v,
            dst.omega_z == old(dst).omega_z,
            dst.x0 == old(dst).x0,
            dst.y0 == old(dst).y0,
            dst.u0 == old(dst).u0,
            dst.v0 == old(dst).v0,
            dst.omega_z0 == old(dst).omega_z0,
            dst.m == old(dst).m,
            dst.inertia == old(dst).inertia,
            dst.h == old(dst).h,
            dst.m_inv == old(dst).m_inv,
            dst.i_inv == old(dst).i_inv,
            dst.rad == old(dst).rad,
            dst.tauz == old(dst).tauz,
            dst.id == old(dst).id,
            dst.name == old(dst).name,
        decreases n - i,
    {
        let ghost pre = visc_outer(grid, old(dst), old(dst), kn as int, mu as int, dt as int,
            stage as int, true, i as int);
        proof {
            assert(old(dst).kin_ok_at(i as int));
            assert(dst.x@[i as int] == old(dst).x@[i as int]);
            lemma_outer_frame(grid, old(dst), old(dst), kn as int, mu as int, dt as int,
                stage as int, true, i as int);
        }
        let xi = dst.x[i];
        let yi = dst.y[i];
        let ui = dst.u[i];
        let vi = dst.v[i];
        let wi = dst.omega_z[i];
        let radi = dst.rad[i];
        let nbrs = crate::contact_search::get_neighbours_ll([xi, yi], grid, &dst.id);
        let ghost probes = crate::contact_search::probe_cells(grid, xi as int, yi as int);
        proof {
            crate::contact_search::lemma_dedup_valid_range(
                crate::contact_search::probe_candidates(grid.cell_of(xi as int, yi as int),
                    grid.no_y_cells as int), grid.cells@.len() as int);
            crate::contact_search::lemma_dedup_valid_no_dup(
                crate::contact_search::probe_candidates(grid.cell_of(xi as int, yi as int),
                    grid.no_y_cells as int), grid.cells@.len() as int);
            crate::contact_search::lemma_gather_elems(grid, probes, old(dst), old(dst).len as int);
            crate::contact_search::lemma_gather_len(grid, probes, old(dst), old(dst).len as int);
            lemma_gather_no_dup(grid, probes, old(dst), old(dst).len as int);
            let ghost dn = old(dst).len as int;
            assert(probes.len() * dn <= 9 * B_VLEN as int)
                by (nonlinear_arith)
                requires probes.len() <= 9, 0 <= dn <= B_VLEN as int;
            assert(nbrs@.len() <= 9 * B_VLEN);
        }
        let mut accx = dst.fx[i];
        let mut accy = dst.fy[i];
        proof {
            assert(accx as int == pre.fxs[i as int]);
            assert(accy as int == pre.fys[i as int]);
            assert(old(dst).force_ok_at(i as int));
            assert(mag(pre.fxs[i as int]) <= B_FORCE as int);
            assert(mag(pre.fys[i as int]) <= B_FORCE as int);
        }
        let mut k: usize = 0;
        while k < nbrs.len()
            invariant
                0 <= k <= nbrs@.len(),
                nbrs@.len() <= 9 * B_VLEN,
                forall|m: int| 0 <= m < nbrs@.len() ==> 0 <= #[trigger] nbrs@[m] < old(dst).len,
                forall|a: int, b: int| 0 <= a < b < nbrs@.len() ==> nbrs@[a] != nbrs@[b],
                0 <= i < n,
                dst.len == old(dst).len,
                dst.fx@.len() == n,
                dst.fy@.len() == n,
                dst.tang_history.wf(),
                dst.tang_history0.wf(),
                xi == old(dst).x@[i as int],
                yi == old(dst).y@[i as int],
                ui == old(dst).u@[i as int],
                vi == old(dst).v@[i as int],
                wi == old(dst).omega_z@[i as int],
                radi == old(dst).rad@[i as int],
                pre == visc_outer(grid, old(dst), old(dst), kn as int, mu as int, dt as int,
                    stage as int, true, i as int),
                nbrs@ == crate::contact_search::gather(grid, crate::contact_search::probe_cells(
                    grid, old(dst).x@[i as int] as int, old(dst).y@[i as int] as int), old(dst).id),
                dst.tang_history@ == visc_fold(pre.hist, pre.hist0, old(dst), old(dst), i,
                    nbrs@.take(k as int), kn as int, mu as int, dt as int, stage as int,
                    true).hist,
                dst.tang_history0@ == visc_fold(pre.hist, pre.hist0, old(dst), old(dst), i,
                    nbrs@.take(k as int), kn as int, mu as int, dt as int, stage as int,
                    true).hist0,
                accx as int == pre.fxs[i as int] + visc_fold(pre.hist, pre.hist0, old(dst),
                    old(dst), i, nbrs@.take(k as int), kn as int, mu as int, dt as int,
                    stage as int, true).dfx,
                accy as int == pre.fys[i as int] + visc_fold(pre.hist, pre.hist0, old(dst),
                    old(dst), i, nbrs@.take(k as int), kn as int, mu as int, dt as int,
                    stage as int, true).dfy,
                mag(accx as int) <= B_FORCE as int + k as int * B_VISC_PAIR as int,
                mag(accy as int) <= B_FORCE as int + k as int * B_VISC_PAIR as int,
                forall|q: int| 0 <= q < n ==> #[trigger] dst.fx@[q] as int
                    == visc_outer(grid, old(dst), old(dst), kn as int, mu as int, dt as int,
                        stage as int, true, i as int).fxs[q],
                forall|q: int| 0 <= q < n ==> #[trigger] dst.fy@[q] as int
                    == visc_outer(grid, old(dst), old(dst), kn as int, mu as int, dt as int,
                        stage as int, true, i as int).fys[q],
                dst.x == old(dst).x,
                dst.y == old(dst).y,
                dst.u == old(dst).u,
                dst.v == old(dst).v,
                dst.omega_z == old(dst).omega_z,
                dst.x0 == old(dst).x0,
                dst.y0 == old(dst).y0,
                dst.u0 == old(dst).u0,
                dst.v0 == old(dst).v0,
                dst.omega_z0 == old(dst).omega_z0,
                dst.m == old(dst).m,
                dst.inertia == old(dst).inertia,
                dst.h == old(dst).h,
                dst.m_inv == old(dst).m_inv,
                dst.i_inv == old(dst).i_inv,
                dst.rad == old(dst).rad,
                dst.tauz == old(dst).tauz,
                dst.id == old(dst).id,
                dst.name == old(dst).name,
            decreases nbrs@.len() - k,
        {
            let j = nbrs[k];
            let ghost fpre = visc_fold(pre.hist, pre.hist0, old(dst), old(dst), i,
                nbrs@.take(k as int), kn as int, mu as int, dt as int, stage as int, true);
            proof {
                assert(nbrs@.take(k as int + 1).drop_last() =~= nbrs@.take(k as int));
                assert(nbrs@.take(k as int + 1).last() == nbrs@[k as int]);
                assert(old(dst).kin_ok_at(j as int));
                assert(old(dst).kin_ok_at(i as int));
                // the key this pair reads is still as the pass found it
                assert(!nbrs@.take(k as int).contains(j)) by {
                    if nbrs@.take(k as int).contains(j) {
                        let m = choose|m: int| 0 <= m < k as int && nbrs@.take(k as int)[m]
                            == j;
                        assert(nbrs@[m] == nbrs@[k as int]);
                    }
                }
                lemma_fold_frame(pre.hist, pre.hist0, old(dst), old(dst), i, nbrs@.take(k as int),
                    kn as int, mu as int, dt as int, stage as int, true);
                lemma_outer_frame(grid, old(dst), old(dst), kn as int, mu as int, dt as int,
                    stage as int, true, i as int);
                let key = (i, old(dst).id, j);
                assert(key_same(fpre.hist, fpre.hist0, pre.hist, pre.hist0, key));
                assert(key_same(pre.hist, pre.hist0, old(dst).tang_history@,
                    old(dst).tang_history0@, key));
                assert(mag(accx as int) <= B_FORCE as int + 9 * B_VLEN as int
                    * B_VISC_PAIR as int) by (nonlinear_arith)
                    requires mag(accx as int) <= B_FORCE as int + k as int * B_VISC_PAIR as int,
                        0 <= k as int <= 9 * B_VLEN as int, B_VISC_PAIR as int > 0,
                        B_FORCE as int > 0;
                assert(mag(accy as int) <= B_FORCE as int + 9 * B_VLEN as int
                    * B_VISC_PAIR as int) by (nonlinear_arith)
                    requires mag(accy as int) <= B_FORCE as int + k as int * B_VISC_PAIR as int,
                        0 <= k as int <= 9 * B_VLEN as int, B_VISC_PAIR as int > 0,
                        B_FORCE as int > 0;
            }
            if j != i {
                let xj = dst.x[j];
                let yj = dst.y[j];
                let uj = dst.u[j];
                let vj = dst.v[j];
                let wj = dst.omega_z[j];
                let radj = dst.rad[j];
                let eid = dst.id;
                let (dfx, dfy) = contact_pair(&mut dst.tang_history, &mut dst.tang_history0,
                    i, eid, j, xi, yi, ui, vi, wi, radi, xj, yj, uj, vj, wj, radj, kn, mu, dt,
                    stage);
                accx = accx + dfx;
                accy = accy + dfy;
            }
            k = k + 1;
        }
        proof {
            assert(nbrs@.take(nbrs@.len() as int) =~= nbrs@);
        }
        dst.fx.set(i, accx);
        dst.fy.set(i, accy);
        proof {
            let nxt = visc_outer(grid, old(dst), old(dst), kn as int, mu as int, dt as int,
                stage as int, true, i as int + 1);
            assert(nxt.fxs == pre.fxs.update(i as int, pre.fxs[i as int] + visc_fold(pre.hist,
                pre.hist0, old(dst), old(dst), i, nbrs@, kn as int, mu as int, dt as int,
                stage as int, true).dfx));
            assert(forall|q: int| 0 <= q < n ==> #[trigger] dst.fx@[q] as int == nxt.fxs[q]);
            assert(forall|q: int| 0 <= q < n ==> #[trigger] dst.fy@[q] as int == nxt.fys[q]);
        }
        i = i + 1;
    }
}

/// Friction clipping: the clipped tangential force never exceeds the
/// Coulomb limit; its squared magnitude is at most the limit squared,
/// whatever trial force is clipped.
pub proof fn lemma_friction_clipping(lim: int, fx: int, fy: int)
    requires
        0 <= lim,
        fx * fx + fy * fy >= 1,
    ensures
        clipped_x(lim, fx, fy) * clipped_x(lim, fx, fy) + clipped_y(lim, fx, fy)
            * clipped_y(lim, fx, fy) <= lim * lim,
{
    let n2 = fx * fx + fy * fy;
    lemma_sqrt_floor(n2);
    let nf = sqrt_ceil(n2);
    assert(nf * nf >= n2) by {
        if sqrt_floor(n2) * sqrt_floor(n2) == n2 {
        } else {
            assert(nf == sqrt_floor(n2) + 1);
        }
    }
    assert(nf >= 1) by (nonlinear_arith)
        requires nf * nf >= n2, n2 >= 1, nf >= 0;
    let a = clipped_x(lim, fx, fy);
    let b = clipped_y(lim, fx, fy);
    crate::fixed::lemma_tdiv_mag(lim * fx, nf);
    crate::fixed::lemma_tdiv_mag(lim * fy, nf);
    assert(mag(a) * nf <= mag(lim * fx));
    assert(mag(b) * nf <= mag(lim * fy));
    assert(mag(lim * fx) == lim * mag(fx)) by (nonlinear_arith)
        requires lim >= 0;
    assert(mag(lim * fy) == lim * mag(fy)) by (nonlinear_arith)
        requires lim >= 0;
    assert(mag(a) * mag(a) == a * a) by (nonlinear_arith);
    assert(mag(b) * mag(b) == b * b) by (nonlinear_arith);
    assert(a * a * (nf * nf) <= (lim * lim) * (mag(fx) * mag(fx))) by (nonlinear_arith)
        requires mag(a) * nf <= lim * mag(fx), mag(a) >= 0, nf >= 1, lim >= 0, mag(fx) >= 0,
            mag(a) * mag(a) == a * a;
    assert(b * b * (nf * nf) <= (lim * lim) * (mag(fy) * mag(fy))) by (nonlinear_arith)
        requires mag(b) * nf <= lim * mag(fy), mag(b) >= 0, nf >= 1, lim >= 0, mag(fy) >= 0,
            mag(b) * mag(b) == b * b;
    assert(mag(fx) * mag(fx) == fx * fx) by (nonlinear_arith);
    assert(mag(fy) * mag(fy) == fy * fy) by (nonlinear_arith);
    assert(a * a + b * b <= lim * lim) by (nonlinear_arith)
        requires
            a * a * (nf * nf) <= (lim * lim) * (fx * fx),
            b * b * (nf * nf) <= (lim * lim) * (fy * fy),
            fx * fx + fy * fy <= nf * nf,
            nf * nf >= 1,
            a * a >= 0,
            b * b >= 0,
            lim * lim >= 0;
}

/// History lifecycle: with friction on, a pair without positive overlap
/// (or with coincident centres) has its contact forgotten by the pass, a
/// pair in contact keeps or creates its record, and a pair never touches
/// any other contact's record.
pub proof fn lemma_history_lifecycle(
    hist: Map<(usize, usize, usize), (i64, i64)>,
    hist0: Map<(usize, usize, usize), (i64, i64)>,
    i: usize,
    src_id: usize,
    j: usize,
    xi: int,
    yi: int,
    ui: int,
    vi: int,
    wi: int,
    radi: int,
    xj: int,
    yj: int,
    uj: int,
    vj: int,
    wj: int,
    radj: int,
    kn: int,
    mu: int,
    dt: int,
    stage: int,
)
    requires
        mu != 0,
        stage == 1 || stage == 2,
    ensures
        ({
            let pe = visc_pair(hist, hist0, i, src_id, j, xi, yi, ui, vi, wi, radi, xj, yj,
                uj, vj, wj, radj, kn, mu, dt, stage);
            let dist = sqrt_floor((xi - xj) * (xi - xj) + (yi - yj) * (yi - yj));
            let overlap = radi + radj - dist;
            &&& !(dist > 0 && overlap > 0) ==> !pe.hist.dom().contains((i, src_id, j))
                && !pe.hist0.dom().contains((i, src_id, j))
            &&& dist > 0 && overlap > 0 ==> pe.hist.dom().contains((i, src_id, j))
                && pe.hist0.dom().contains((i, src_id, j))
                    == (hist0.dom().contains((i, src_id, j)) || stage == 2
                        || !hist.dom().contains((i, src_id, j)))
            &&& forall|k2: (usize, usize, usize)| k2 != (i, src_id, j)
                ==> #[trigger] key_same(pe.hist, pe.hist0, hist, hist0, k2)
        }),
{
    let pe = visc_pair(hist, hist0, i, src_id, j, xi, yi, ui, vi, wi, radi, xj, yj, uj, vj,
        wj, radj, kn, mu, dt, stage);
    let key = (i, src_id, j);
    let dist = sqrt_floor((xi - xj) * (xi - xj) + (yi - yj) * (yi - yj));
    let overlap = radi + radj - dist;
    if !(dist > 0 && overlap > 0) {
        assert(pe.hist == hist.remove(key));
        assert(!pe.hist.dom().contains(key));
        assert(!pe.hist0.dom().contains(key));
    } else if hist.dom().contains(key) {
        assert(pe.hist.dom().contains(key));
        if stage == 1 {
            assert(pe.hist0 == hist0);
        } else {
            assert(pe.hist0.dom().contains(key));
        }
    } else {
        assert(pe.hist.dom().contains(key));
        assert(pe.hist0.dom().contains(key));
    }
    assert forall|k2: (usize, usize, usize)| k2 != key
        implies #[trigger] key_same(pe.hist, pe.hist0, hist, hist0, k2) by {
    }
}

/// After a particle's own fold, the record of one of its listed, separated
/// neighbours is gone: the removal at that pair's turn survives the later
/// pairs, which touch other keys only.
proof fn lemma_fold_clears_separated(
    hist: Map<(usize, usize, usize), (i64, i64)>,
    hist0: Map<(usize, usize, usize), (i64, i64)>,
    d: &DemDiscrete,
    s: &DemDiscrete,
    i: usize,
    nbrs: Seq<usize>,
    kn: int,
    mu: int,
    dt: int,
    stage: int,
    skip: bool,
    j: usize,
)
    requires
        mu != 0,
        stage == 1 || stage == 2,
        nbrs.contains(j),
        !(skip && j == i),
        forall|a: int, b: int| 0 <= a < b < nbrs.len() ==> nbrs[a] != nbrs[b],
        ({
            let dist = sqrt_floor((d.x@[i as int] - s.x@[j as int]) * (d.x@[i as int]
                - s.x@[j as int]) + (d.y@[i as int] - s.y@[j as int]) * (d.y@[i as int]
                - s.y@[j as int]));
            !(dist > 0 && d.rad@[i as int] + s.rad@[j as int] - dist > 0)
        }),
    ensures
        !visc_fold(hist, hist0, d, s, i, nbrs, kn, mu, dt, stage, skip).hist.dom().contains(
            (i, s.id, j)),
        !visc_fold(hist, hist0, d, s, i, nbrs, kn, mu, dt, stage, skip).hist0.dom().contains(
            (i, s.id, j)),
    decreases nbrs.len(),
{
    let key = (i, s.id, j);
    let pre = visc_fold(hist, hist0, d, s, i, nbrs.drop_last(), kn, mu, dt, stage, skip);
    let last = nbrs.last();
    if last == j {
        lemma_history_lifecycle(pre.hist, pre.hist0, i, s.id, j, d.x@[i as int] as int,
            d.y@[i as int] as int, d.u@[i as int] as int, d.v@[i as int] as int,
            d.omega_z@[i as int] as int, d.rad@[i as int] as int, s.x@[j as int] as int,
            s.y@[j as int] as int, s.u@[j as int] as int, s.v@[j as int] as int,
            s.omega_z@[j as int] as int, s.rad@[j as int] as int, kn, mu, dt, stage);
    } else {
        assert(nbrs.drop_last().contains(j)) by {
            let m = choose|m: int| 0 <= m < nbrs.len() && nbrs[m] == j;
            assert(m < nbrs.len() - 1);
            assert(nbrs.drop_last()[m] == j);
        }
        assert(forall|a: int, b: int| 0 <= a < b < nbrs.drop_last().len()
            ==> nbrs.drop_last()[a] != nbrs.drop_last()[b]);
        lemma_fold_clears_separated(hist, hist0, d, s, i, nbrs.drop_last(), kn, mu, dt, stage,
            skip, j);
        if !(skip && last == i) {
            lemma_history_lifecycle(pre.hist, pre.hist0, i, s.id, last,
                d.x@[i as int] as int, d.y@[i as int] as int, d.u@[i as int] as int,
                d.v@[i as int] as int, d.omega_z@[i as int] as int, d.rad@[i as int] as int,
                s.x@[last as int] as int, s.y@[last as int] as int, s.u@[last as int] as int,
                s.v@[last as int] as int, s.omega_z@[last as int] as int,
                s.rad@[last as int] as int, kn, mu, dt, stage);
            assert(key != (i, s.id, last));
            assert(key_same(visc_fold(hist, hist0, d, s, i, nbrs, kn, mu, dt, stage,
                skip).hist, visc_fold(hist, hist0, d, s, i, nbrs, kn, mu, dt, stage,
                skip).hist0, pre.hist, pre.hist0, key));
        }
    }
}

/// Later particles of the pass never touch an earlier particle's records.
proof fn lemma_outer_preserves_earlier(
    grid: &crate::contact_search::LinkedListGrid,
    d: &DemDiscrete,
    s: &DemDiscrete,
    kn: int,
    mu: int,
    dt: int,
    stage: int,
    skip: bool,
    k0: int,
    k: int,
    key: (usize, usize, usize),
)
    requires
        0 <= k0 <= k <= d.len,
        (key.0 as int) < k0,
    ensures
        key_same(visc_outer(grid, d, s, kn, mu, dt, stage, skip, k).hist, visc_outer(grid, d,
            s, kn, mu, dt, stage, skip, k).hist0, visc_outer(grid, d, s, kn, mu, dt, stage,
            skip, k0).hist, visc_outer(grid, d, s, kn, mu, dt, stage, skip, k0).hist0, key),
    decreases k - k0,
{
    if k > k0 {
        lemma_outer_preserves_earlier(grid, d, s, kn, mu, dt, stage, skip, k0, k - 1, key);
        let pre = visc_outer(grid, d, s, kn, mu, dt, stage, skip, k - 1);
        let i = k - 1;
        let nbrs = crate::contact_search::gather(grid, crate::contact_search::probe_cells(grid,
            d.x@[i] as int, d.y@[i] as int), s.id);
        lemma_fold_frame(pre.hist, pre.hist0, d, s, i as usize, nbrs, kn, mu, dt, stage, skip);
        assert(key.0 != i as usize);
        assert(key_same(visc_fold(pre.hist, pre.hist0, d, s, i as usize, nbrs, kn, mu, dt,
            stage, skip).hist, visc_fold(pre.hist, pre.hist0, d, s, i as usize, nbrs, kn, mu,
            dt, stage, skip).hist0, pre.hist, pre.hist0, key));
    }
}

/// History lifecycle of a whole pass: with friction on, any neighbour the
/// pass lists for particle `i` that is not in positive overlap with it has
/// no record left in either memory when the pass is over.  Stale tangential
/// springs cannot survive a separation.
pub proof fn lemma_pass_clears_separated(
    grid: &crate::contact_search::LinkedListGrid,
    d: &DemDiscrete,
    s: &DemDiscrete,
    kn: int,
    mu: int,
    dt: int,
    stage: int,
    skip: bool,
    i: usize,
    j: usize,
)
    requires
        mu != 0,
        stage == 1 || stage == 2,
        (i as int) < d.len,
        crate::contact_search::gather(grid, crate::contact_search::probe_cells(grid,
            d.x@[i as int] as int, d.y@[i as int] as int), s.id).contains(j),
        !(skip && j == i),
        forall|a: int, b: int| 0 <= a < b < crate::contact_search::gather(grid,
            crate::contact_search::probe_cells(grid, d.x@[i as int] as int,
            d.y@[i as int] as int), s.id).len()
            ==> crate::contact_search::gather(grid, crate::contact_search::probe_cells(grid,
                d.x@[i as int] as int, d.y@[i as int] as int), s.id)[a]
                != crate::contact_search::gather(grid, crate::contact_search::probe_cells(
                grid, d.x@[i as int] as int, d.y@[i as int] as int), s.id)[b],
        ({
            let dist = sqrt_floor((d.x@[i as int] - s.x@[j as int]) * (d.x@[i as int]
                - s.x@[j as int]) + (d.y@[i as int] - s.y@[j as int]) * (d.y@[i as int]
                - s.y@[j as int]));
            !(dist > 0 && d.rad@[i as int] + s.rad@[j as int] - dist > 0)
        }),
    ensures
        !visc_outer(grid, d, s, kn, mu, dt, stage, skip, d.len as int).hist.dom().contains(
            (i, s.id, j)),
        !visc_outer(grid, d, s, kn, mu, dt, stage, skip, d.len as int).hist0.dom().contains(
            (i, s.id, j)),
{
    let pre = visc_outer(grid, d, s, kn, mu, dt, stage, skip, i as int);
    let nbrs = crate::contact_search::gather(grid, crate::contact_search::probe_cells(grid,
        d.x@[i as int] as int, d.y@[i as int] as int), s.id);
    lemma_fold_clears_separated(pre.hist, pre.hist0, d, s, i, nbrs, kn, mu, dt, stage, skip,
        j);
    lemma_outer_preserves_earlier(grid, d, s, kn, mu, dt, stage, skip, i as int + 1,
        d.len as int, (i, s.id, j));
}

}

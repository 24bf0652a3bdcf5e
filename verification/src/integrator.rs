//! Single-stage semi-implicit Euler integration, the lower-fidelity
//! alternative to the two-stage predictor-corrector.

use crate::fixed::{muldiv, SCALE};
use crate::particle::{step_pos, step_vel, DemDiscrete, B_DT, B_FORCE, B_INV, B_KIN};
use vstd::prelude::*;

verus! {

/// Semi-implicit Euler step: velocities take the accumulated force first,
/// positions then move with the updated velocities.
#[verifier::loop_isolation(false)]
pub fn integrate(src: &mut DemDiscrete, dt: i64)
    requires
        old(src).wf(),
        old(src).kin_bounded(),
        old(src).forces_bounded(),
        0 < dt <= B_DT,
    ensures
        final(src).wf(),
        final(src).len == old(src).len,
        forall|i: int| 0 <= i < old(src).len ==> #[trigger] final(src).u@[i] as int
            == step_vel(old(src).u@[i] as int, old(src).fx@[i] as int,
                old(src).m_inv@[i] as int, dt as int),
        forall|i: int| 0 <= i < old(src).len ==> #[trigger] final(src).v@[i] as int
            == step_vel(old(src).v@[i] as int, old(src).fy@[i] as int,
                old(src).m_inv@[i] as int, dt as int),
        forall|i: int| 0 <= i < old(src).len ==> #[trigger] final(src).x@[i] as int
            == step_pos(old(src).x@[i] as int, final(src).u@[i] as int, dt as int),
        forall|i: int| 0 <= i < old(src).len ==> #[trigger] final(src).y@[i] as int
            == step_pos(old(src).y@[i] as int, final(src).v@[i] as int, dt as int),
        final(src).omega_z == old(src).omega_z,
        final(src).x0 == old(src).x0,
        final(src).y0 == old(src).y0,
        final(src).u0 == old(src).u0,
        final(src).v0 == old(src).v0,
        final(src).omega_z0 == old(src).omega_z0,
        final(src).m == old(src).m,
        final(src).inertia == old(src).inertia,
        final(src).h == old(src).h,
        final(src).m_inv == old(src).m_inv,
        final(src).i_inv == old(src).i_inv,
        final(src).rad == old(src).rad,
        final(src).fx == old(src).fx,
        final(src).fy == old(src).fy,
        final(src).tauz == old(src).tauz,
        final(src).id == old(src).id,
        final(src).name == old(src).name,
        final(src).tang_history == old(src).tang_history,
        final(src).tang_history0 == old(src).tang_history0,
{
    let n = src.len;
    let mut i: usize = 0;
    while i < n
        invariant
            0 <= i <= n,
            src.len == old(src).len,
            src.x@.len() == n,
            src.y@.len() == n,
            src.u@.len() == n,
            src.v@.len() == n,
            forall|k: int| 0 <= k < i ==> #[trigger] src.u@[k] as int
                == step_vel(old(src).u@[k] as int, old(src).fx@[k] as int,
                    old(src).m_inv@[k] as int, dt as int),
            forall|k: int| 0 <= k < i ==> #[trigger] src.v@[k] as int
                == step_vel(old(src).v@[k] as int, old(src).fy@[k] as int,
                    old(src).m_inv@[k] as int, dt as int),
            forall|k: int| 0 <= k < i ==> #[trigger] src.x@[k] as int
                == step_pos(old(src).x@[k] as int, src.u@[k] as int, dt as int),
            forall|k: int| 0 <= k < i ==> #[trigger] src.y@[k] as int
                == step_pos(old(src).y@[k] as int, src.v@[k] as int, dt as int),
            forall|k: int| i <= k < n ==> #[trigger] src.x@[k] == old(src).x@[k],
            forall|k: int| i <= k < n ==> #[trigger] src.y@[k] == old(src).y@[k],
            forall|k: int| i <= k < n ==> #[trigger] src.u@[k] == old(src).u@[k],
            forall|k: int| i <= k < n ==> #[trigger] src.v@[k] == old(src).v@[k],
            src.omega_z == old(src).omega_z,
            src.x0 == old(src).x0,
            src.y0 == old(src).y0,
            src.u0 == old(src).u0,
            src.v0 == old(src).v0,
            src.omega_z0 == old(src).omega_z0,
            src.m == old(src).m,
            src.inertia == old(src).inertia,
            src.h == old(src).h,
            src.m_inv == old(src).m_inv,
            src.i_inv == old(src).i_inv,
            src.rad == old(src).rad,
            src.fx == old(src).fx,
            src.fy == old(src).fy,
            src.tauz == old(src).tauz,
            src.id == old(src).id,
            src.name == old(src).name,
            src.tang_history == old(src).tang_history,
            src.tang_history0 == old(src).tang_history0,
        decreases n - i,
    {
        proof {
            assert(old(src).kin_ok_at(i as int));
            assert(old(src).force_ok_at(i as int));
            assert(src.x@[i as int] == old(src).x@[i as int]);
            crate::fixed::lemma_mag_mul_bound(src.fx@[i as int] as int,
                src.m_inv@[i as int] as int, B_FORCE as int, B_INV as int);
            crate::fixed::lemma_tdiv_bound(
                src.fx@[i as int] as int * src.m_inv@[i as int] as int,
                SCALE as int, B_FORCE as int * B_INV as int);
            crate::fixed::lemma_mag_mul_bound(src.fy@[i as int] as int,
                src.m_inv@[i as int] as int, B_FORCE as int, B_INV as int);
            crate::fixed::lemma_tdiv_bound(
                src.fy@[i as int] as int * src.m_inv@[i as int] as int,
                SCALE as int, B_FORCE as int * B_INV as int);
        }
        let au = muldiv(src.fx[i], src.m_inv[i], SCALE);
        proof {
            crate::fixed::lemma_mag_mul_bound(au as int, dt as int,
                B_FORCE as int * B_INV as int / SCALE as int, B_DT as int);
            crate::fixed::lemma_tdiv_bound(au as int * dt as int, SCALE as int,
                (B_FORCE as int * B_INV as int / SCALE as int) * B_DT as int);
        }
        let un = src.u[i] + muldiv(au, dt, SCALE);
        src.u.set(i, un);
        let av = muldiv(src.fy[i], src.m_inv[i], SCALE);
        proof {
            crate::fixed::lemma_mag_mul_bound(av as int, dt as int,
                B_FORCE as int * B_INV as int / SCALE as int, B_DT as int);
            crate::fixed::lemma_tdiv_bound(av as int * dt as int, SCALE as int,
                (B_FORCE as int * B_INV as int / SCALE as int) * B_DT as int);
        }
        let vn = src.v[i] + muldiv(av, dt, SCALE);
        src.v.set(i, vn);
        proof {
            crate::fixed::lemma_mag_mul_bound(un as int, dt as int,
                B_KIN as int + (B_FORCE as int * B_INV as int / SCALE as int) * B_DT as int
                    / SCALE as int, B_DT as int);
            crate::fixed::lemma_tdiv_bound(un as int * dt as int, SCALE as int,
                (B_KIN as int + (B_FORCE as int * B_INV as int / SCALE as int) * B_DT as int
                    / SCALE as int) * B_DT as int);
            crate::fixed::lemma_mag_mul_bound(vn as int, dt as int,
                B_KIN as int + (B_FORCE as int * B_INV as int / SCALE as int) * B_DT as int
                    / SCALE as int, B_DT as int);
            crate::fixed::lemma_tdiv_bound(vn as int * dt as int, SCALE as int,
                (B_KIN as int + (B_FORCE as int * B_INV as int / SCALE as int) * B_DT as int
                    / SCALE as int) * B_DT as int);
        }
        let xn = src.x[i] + muldiv(un, dt, SCALE);
        src.x.set(i, xn);
        let yn = src.y[i] + muldiv(vn, dt, SCALE);
        src.y.set(i, yn);
        i = i + 1;
    }
}

}

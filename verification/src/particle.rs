//! Structure-of-arrays particle store for one named entity, and the
//! two-stage predictor-corrector updates that advance it.

use crate::fixed::{mag, muldiv, tdiv, SCALE};
use crate::history::TangHistory;
use vstd::prelude::*;

verus! {

/// Largest admitted magnitude for positions, velocities and angular
/// velocities (one million physical units).
pub const B_KIN: i64 = 1_000_000_000_000;

/// Largest admitted contact or search radius (one thousand physical units).
pub const B_RAD: i64 = 1_000_000_000;

/// Largest admitted mass or moment of inertia.
pub const B_MASS: i64 = 1_000_000_000_000;

/// Largest admitted inverse mass or inverse inertia (smallest movable mass is
/// one thousandth of a unit).
pub const B_INV: i64 = 1_000_000_000;

/// Largest admitted accumulated force or torque component.
pub const B_FORCE: i64 = 1_000_000_000_000_000;

/// Largest admitted time step (one physical time unit).
pub const B_DT: i64 = 1_000_000;

/// Half-step position update: `p0 + vel * dtb2 / SCALE`.
pub open spec fn step_pos(p0: int, vel: int, dtt: int) -> int {
    p0 + tdiv(vel * dtt, SCALE as int)
}

/// Velocity update from an accumulated force:
/// `v0 + (f * minv / SCALE) * dtt / SCALE`.
pub open spec fn step_vel(v0: int, f: int, minv: int, dtt: int) -> int {
    v0 + tdiv(tdiv(f * minv, SCALE as int) * dtt, SCALE as int)
}

/// Per-particle state of one entity (group) of grains.
///
/// All arrays have exactly `len` elements; `m_inv == 0` marks an immovable
/// boundary particle.  `x0, y0, u0, v0, omega_z0` are the step-start
/// snapshots taken by `initialize`; `tang_history` is the live tangential
/// contact memory and `tang_history0` its step-start copy.
pub struct DemDiscrete {
    pub len: usize,
    pub m: Vec<i64>,
    pub x: Vec<i64>,
    pub y: Vec<i64>,
    pub u: Vec<i64>,
    pub v: Vec<i64>,
    pub omega_z: Vec<i64>,
    pub x0: Vec<i64>,
    pub y0: Vec<i64>,
    pub u0: Vec<i64>,
    pub v0: Vec<i64>,
    pub omega_z0: Vec<i64>,
    pub inertia: Vec<i64>,
    pub h: Vec<i64>,
    pub m_inv: Vec<i64>,
    pub i_inv: Vec<i64>,
    pub rad: Vec<i64>,
    pub fx: Vec<i64>,
    pub fy: Vec<i64>,
    pub tauz: Vec<i64>,
    pub id: usize,
    pub name: String,
    pub tang_history: TangHistory,
    pub tang_history0: TangHistory,
}

impl DemDiscrete {
    /// Structural invariant: every array holds exactly `len` values and the
    /// contact memories are well formed.
    pub open spec fn wf(&self) -> bool {
        &&& self.m@.len() == self.len
        &&& self.x@.len() == self.len
        &&& self.y@.len() == self.len
        &&& self.u@.len() == self.len
        &&& self.v@.len() == self.len
        &&& self.omega_z@.len() == self.len
        &&& self.x0@.len() == self.len
        &&& self.y0@.len() == self.len
        &&& self.u0@.len() == self.len
        &&& self.v0@.len() == self.len
        &&& self.omega_z0@.len() == self.len
        &&& self.inertia@.len() == self.len
        &&& self.h@.len() == self.len
        &&& self.m_inv@.len() == self.len
        &&& self.i_inv@.len() == self.len
        &&& self.rad@.len() == self.len
        &&& self.fx@.len() == self.len
        &&& self.fy@.len() == self.len
        &&& self.tauz@.len() == self.len
        &&& self.tang_history.wf()
        &&& self.tang_history0.wf()
    }

    /// Kinematic fields of particle `i` are inside the fixed-point working
    /// range.
    pub open spec fn kin_ok_at(&self, i: int) -> bool {
        &&& mag(self.x@[i] as int) <= B_KIN as int
        &&& mag(self.y@[i] as int) <= B_KIN as int
        &&& mag(self.u@[i] as int) <= B_KIN as int
        &&& mag(self.v@[i] as int) <= B_KIN as int
        &&& mag(self.omega_z@[i] as int) <= B_KIN as int
        &&& mag(self.x0@[i] as int) <= B_KIN as int
        &&& mag(self.y0@[i] as int) <= B_KIN as int
        &&& mag(self.u0@[i] as int) <= B_KIN as int
        &&& mag(self.v0@[i] as int) <= B_KIN as int
        &&& mag(self.omega_z0@[i] as int) <= B_KIN as int
        &&& 0 <= self.m@[i] <= B_MASS
        &&& 0 <= self.inertia@[i] <= B_MASS
        &&& 0 <= self.m_inv@[i] <= B_INV
        &&& 0 <= self.i_inv@[i] <= B_INV
        &&& 0 <= self.h@[i] <= B_RAD
        &&& 0 <= self.rad@[i] <= B_RAD
    }

    /// Kinematic fields are inside the fixed-point working range.
    pub open spec fn kin_bounded(&self) -> bool {
        forall|i: int| 0 <= i < self.len ==> #[trigger] self.kin_ok_at(i)
    }

    /// Forces and torques of particle `i` are inside the working range.
    pub open spec fn force_ok_at(&self, i: int) -> bool {
        &&& mag(self.fx@[i] as int) <= B_FORCE as int
        &&& mag(self.fy@[i] as int) <= B_FORCE as int
        &&& mag(self.tauz@[i] as int) <= B_FORCE as int
    }

    /// Accumulated forces and torques are inside the working range.
    pub open spec fn forces_bounded(&self) -> bool {
        forall|i: int| 0 <= i < self.len ==> #[trigger] self.force_ok_at(i)
    }

    /// A fresh store of `len` particles, every scalar zero, no live contact.
    pub fn new(len: usize, id: usize, name: String) -> (r: DemDiscrete)
        ensures
            r.wf(),
            r.len == len,
            r.id == id,
            r.name == name,
            forall|i: int| 0 <= i < len ==> {
                &&& #[trigger] r.x@[i] == 0i64
                &&& r.y@[i] == 0i64
                &&& r.u@[i] == 0i64
                &&& r.v@[i] == 0i64
                &&& r.omega_z@[i] == 0i64
                &&& r.x0@[i] == 0i64
                &&& r.y0@[i] == 0i64
                &&& r.u0@[i] == 0i64
                &&& r.v0@[i] == 0i64
                &&& r.omega_z0@[i] == 0i64
                &&& r.m@[i] == 0i64
                &&& r.inertia@[i] == 0i64
                &&& r.h@[i] == 0i64
                &&& r.m_inv@[i] == 0i64
                &&& r.i_inv@[i] == 0i64
                &&& r.rad@[i] == 0i64
                &&& r.fx@[i] == 0i64
                &&& r.fy@[i] == 0i64
                &&& r.tauz@[i] == 0i64
            },
            r.tang_history@ == Map::<(usize, usize, usize), (i64, i64)>::empty(),
            r.tang_history0@ == Map::<(usize, usize, usize), (i64, i64)>::empty(),
            r.kin_bounded(),
            r.forces_bounded(),
    {
        DemDiscrete {
            len,
            id,
            name,
            m: vec![0i64; len],
            x: vec![0i64; len],
            y: vec![0i64; len],
            u: vec![0i64; len],
            v: vec![0i64; len],
            omega_z: vec![0i64; len],
            x0: vec![0i64; len],
            y0: vec![0i64; len],
            u0: vec![0i64; len],
            v0: vec![0i64; len],
            omega_z0: vec![0i64; len],
            inertia: vec![0i64; len],
            h: vec![0i64; len],
            m_inv: vec![0i64; len],
            i_inv: vec![0i64; len],
            rad: vec![0i64; len],
            fx: vec![0i64; len],
            fy: vec![0i64; len],
            tauz: vec![0i64; len],
            tang_history: TangHistory::new(),
            tang_history0: TangHistory::new(),
        }
    }

    /// Snapshot the step-start state: `x0, y0, u0, v0, omega_z0` take the
    /// current kinematic values; nothing else changes.
    #[verifier::loop_isolation(false)]
    pub fn initialize(&mut self)
        requires
            old(self).wf(),
        ensures
            final(self).wf(),
            final(self).len == old(self).len,
            forall|i: int| 0 <= i < old(self).len ==> {
                &&& #[trigger] final(self).x0@[i] == old(self).x@[i]
                &&& final(self).y0@[i] == old(self).y@[i]
                &&& final(self).u0@[i] == old(self).u@[i]
                &&& final(self).v0@[i] == old(self).v@[i]
                &&& final(self).omega_z0@[i] == old(self).omega_z@[i]
            },
            final(self).x == old(self).x,
            final(self).y == old(self).y,
            final(self).u == old(self).u,
            final(self).v == old(self).v,
            final(self).omega_z == old(self).omega_z,
            final(self).m == old(self).m,
            final(self).inertia == old(self).inertia,
            final(self).h == old(self).h,
            final(self).m_inv == old(self).m_inv,
            final(self).i_inv == old(self).i_inv,
            final(self).rad == old(self).rad,
            final(self).fx == old(self).fx,
            final(self).fy == old(self).fy,
            final(self).tauz == old(self).tauz,
            final(self).id == old(self).id,
            final(self).name == old(self).name,
            final(self).tang_history == old(self).tang_history,
            final(self).tang_history0 == old(self).tang_history0,
    {
        let n = self.len;
        let mut i: usize = 0;
        while i < n
            invariant
                0 <= i <= n,
                self.len == old(self).len,
                self.x0@.len() == n,
                self.y0@.len() == n,
                self.u0@.len() == n,
                self.v0@.len() == n,
                self.omega_z0@.len() == n,
                forall|k: int| 0 <= k < i ==> {
                    &&& #[trigger] self.x0@[k] == old(self).x@[k]
                    &&& self.y0@[k] == old(self).y@[k]
                    &&& self.u0@[k] == old(self).u@[k]
                    &&& self.v0@[k] == old(self).v@[k]
                    &&& self.omega_z0@[k] == old(self).omega_z@[k]
                },
                self.x == old(self).x,
                self.y == old(self).y,
                self.u == old(self).u,
                self.v == old(self).v,
                self.omega_z == old(self).omega_z,
                self.m == old(self).m,
                self.inertia == old(self).inertia,
                self.h == old(self).h,
                self.m_inv == old(self).m_inv,
                self.i_inv == old(self).i_inv,
                self.rad == old(self).rad,
                self.fx == old(self).fx,
                self.fy == old(self).fy,
                self.tauz == old(self).tauz,
                self.id == old(self).id,
                self.name == old(self).name,
                self.tang_history == old(self).tang_history,
                self.tang_history0 == old(self).tang_history0,
            decreases n - i,
        {
            let xv = self.x[i];
            self.x0.set(i, xv);
            let yv = self.y[i];
            self.y0.set(i, yv);
            let uv = self.u[i];
            self.u0.set(i, uv);
            let vv = self.v[i];
            self.v0.set(i, vv);
            let wv = self.omega_z[i];
            self.omega_z0.set(i, wv);
            i = i + 1;
        }
    }

    /// Advance position, velocity and angular velocity from the step-start
    /// snapshots over the interval `dtt`, using the accumulated forces.
    #[verifier::loop_isolation(false)]
    fn advance(&mut self, dtt: i64)
        requires
            old(self).wf(),
            old(self).kin_bounded(),
            old(self).forces_bounded(),
            0 < dtt <= B_DT,
        ensures
            final(self).wf(),
            final(self).len == old(self).len,
            forall|i: int| 0 <= i < old(self).len ==> {
                &&& #[trigger] final(self).x@[i] as int
                    == step_pos(old(self).x0@[i] as int, old(self).u@[i] as int, dtt as int)
                &&& final(self).y@[i] as int
                    == step_pos(old(self).y0@[i] as int, old(self).v@[i] as int, dtt as int)
                &&& final(self).u@[i] as int
                    == step_vel(old(self).u0@[i] as int, old(self).fx@[i] as int,
                        old(self).m_inv@[i] as int, dtt as int)
                &&& final(self).v@[i] as int
                    == step_vel(old(self).v0@[i] as int, old(self).fy@[i] as int,
                        old(self).m_inv@[i] as int, dtt as int)
                &&& final(self).omega_z@[i] as int
                    == step_vel(old(self).omega_z0@[i] as int, old(self).tauz@[i] as int,
                        old(self).i_inv@[i] as int, dtt as int)
            },
            final(self).x0 == old(self).x0,
            final(self).y0 == old(self).y0,
            final(self).u0 == old(self).u0,
            final(self).v0 == old(self).v0,
            final(self).omega_z0 == old(self).omega_z0,
            final(self).m == old(self).m,
            final(self).inertia == old(self).inertia,
            final(self).h == old(self).h,
            final(self).m_inv == old(self).m_inv,
            final(self).i_inv == old(self).i_inv,
            final(self).rad == old(self).rad,
            final(self).fx == old(self).fx,
            final(self).fy == old(self).fy,
            final(self).tauz == old(self).tauz,
            final(self).id == old(self).id,
            final(self).name == old(self).name,
            final(self).tang_history == old(self).tang_history,
            final(self).tang_history0 == old(self).tang_history0,
    {
        let n = self.len;
        let mut i: usize = 0;
        while i < n
            invariant
                0 <= i <= n,
                self.len == old(self).len,
                self.x@.len() == n,
                self.y@.len() == n,
                self.u@.len() == n,
                self.v@.len() == n,
                self.omega_z@.len() == n,
                forall|k: int| 0 <= k < i ==> #[trigger] self.x@[k] as int
                    == step_pos(old(self).x0@[k] as int, old(self).u@[k] as int, dtt as int),
                forall|k: int| 0 <= k < i ==> #[trigger] self.y@[k] as int
                    == step_pos(old(self).y0@[k] as int, old(self).v@[k] as int, dtt as int),
                forall|k: int| 0 <= k < i ==> #[trigger] self.u@[k] as int
                    == step_vel(old(self).u0@[k] as int, old(self).fx@[k] as int,
                        old(self).m_inv@[k] as int, dtt as int),
                forall|k: int| 0 <= k < i ==> #[trigger] self.v@[k] as int
                    == step_vel(old(self).v0@[k] as int, old(self).fy@[k] as int,
                        old(self).m_inv@[k] as int, dtt as int),
                forall|k: int| 0 <= k < i ==> #[trigger] self.omega_z@[k] as int
                    == step_vel(old(self).omega_z0@[k] as int, old(self).tauz@[k] as int,
                        old(self).i_inv@[k] as int, dtt as int),
                forall|k: int| i <= k < n ==> #[trigger] self.x@[k] == old(self).x@[k],
                forall|k: int| i <= k < n ==> #[trigger] self.y@[k] == old(self).y@[k],
                forall|k: int| i <= k < n ==> #[trigger] self.u@[k] == old(self).u@[k],
                forall|k: int| i <= k < n ==> #[trigger] self.v@[k] == old(self).v@[k],
                forall|k: int| i <= k < n ==> #[trigger] self.omega_z@[k] == old(self).omega_z@[k],
                self.x0 == old(self).x0,
                self.y0 == old(self).y0,
                self.u0 == old(self).u0,
                self.v0 == old(self).v0,
                self.omega_z0 == old(self).omega_z0,
                self.m == old(self).m,
                self.inertia == old(self).inertia,
                self.h == old(self).h,
                self.m_inv == old(self).m_inv,
                self.i_inv == old(self).i_inv,
                self.rad == old(self).rad,
                self.fx == old(self).fx,
                self.fy == old(self).fy,
                self.tauz == old(self).tauz,
                self.id == old(self).id,
                self.name == old(self).name,
                self.tang_history == old(self).tang_history,
                self.tang_history0 == old(self).tang_history0,
            decreases n - i,
        {
            proof {
                assert(old(self).kin_ok_at(i as int));
                assert(old(self).force_ok_at(i as int));
                assert(self.x@[i as int] == old(self).x@[i as int]);
                crate::fixed::lemma_mag_mul_bound(self.u@[i as int] as int, dtt as int,
                    B_KIN as int, B_DT as int);
                crate::fixed::lemma_mag_mul_bound(self.v@[i as int] as int, dtt as int,
                    B_KIN as int, B_DT as int);
                crate::fixed::lemma_tdiv_bound(self.u@[i as int] as int * dtt as int,
                    SCALE as int, B_KIN as int * B_DT as int);
                crate::fixed::lemma_tdiv_bound(self.v@[i as int] as int * dtt as int,
                    SCALE as int, B_KIN as int * B_DT as int);
            }
            let xn = self.x0[i] + muldiv(self.u[i], dtt, SCALE);
            self.x.set(i, xn);
            let yn = self.y0[i] + muldiv(self.v[i], dtt, SCALE);
            self.y.set(i, yn);
            proof {
                crate::fixed::lemma_mag_mul_bound(self.fx@[i as int] as int,
                    self.m_inv@[i as int] as int, B_FORCE as int, B_INV as int);
                crate::fixed::lemma_tdiv_bound(
                    self.fx@[i as int] as int * self.m_inv@[i as int] as int,
                    SCALE as int, B_FORCE as int * B_INV as int);
            }
            let au = muldiv(self.fx[i], self.m_inv[i], SCALE);
            proof {
                crate::fixed::lemma_mag_mul_bound(au as int, dtt as int,
                    B_FORCE as int * B_INV as int / SCALE as int, B_DT as int);
                crate::fixed::lemma_tdiv_bound(au as int * dtt as int, SCALE as int,
                    (B_FORCE as int * B_INV as int / SCALE as int) * B_DT as int);
            }
            let un = self.u0[i] + muldiv(au, dtt, SCALE);
            self.u.set(i, un);
            proof {
                crate::fixed::lemma_mag_mul_bound(self.fy@[i as int] as int,
                    self.m_inv@[i as int] as int, B_FORCE as int, B_INV as int);
                crate::fixed::lemma_tdiv_bound(
                    self.fy@[i as int] as int * self.m_inv@[i as int] as int,
                    SCALE as int, B_FORCE as int * B_INV as int);
            }
            let av = muldiv(self.fy[i], self.m_inv[i], SCALE);
            proof {
                crate::fixed::lemma_mag_mul_bound(av as int, dtt as int,
                    B_FORCE as int * B_INV as int / SCALE as int, B_DT as int);
                crate::fixed::lemma_tdiv_bound(av as int * dtt as int, SCALE as int,
                    (B_FORCE as int * B_INV as int / SCALE as int) * B_DT as int);
            }
            let vn = self.v0[i] + muldiv(av, dtt, SCALE);
            self.v.set(i, vn);
            proof {
                crate::fixed::lemma_mag_mul_bound(self.tauz@[i as int] as int,
                    self.i_inv@[i as int] as int, B_FORCE as int, B_INV as int);
                crate::fixed::lemma_tdiv_bound(
                    self.tauz@[i as int] as int * self.i_inv@[i as int] as int,
                    SCALE as int, B_FORCE as int * B_INV as int);
            }
            let aw = muldiv(self.tauz[i], self.i_inv[i], SCALE);
            proof {
                crate::fixed::lemma_mag_mul_bound(aw as int, dtt as int,
                    B_FORCE as int * B_INV as int / SCALE as int, B_DT as int);
                crate::fixed::lemma_tdiv_bound(aw as int * dtt as int, SCALE as int,
                    (B_FORCE as int * B_INV as int / SCALE as int) * B_DT as int);
            }
            let wn = self.omega_z0[i] + muldiv(aw, dtt, SCALE);
            self.omega_z.set(i, wn);
            i = i + 1;
        }
    }

    /// Half-step predictor: positions and velocities move from the snapshot
    /// over `dt / 2` under the forces accumulated at the step-start state.
    pub fn stage1(&mut self, dt: i64)
        requires
            old(self).wf(),
            old(self).kin_bounded(),
            old(self).forces_bounded(),
            0 < dt <= B_DT,
            2 <= dt,
        ensures
            final(self).wf(),
            final(self).len == old(self).len,
            forall|i: int| 0 <= i < old(self).len ==> {
                &&& #[trigger] final(self).x@[i] as int
                    == step_pos(old(self).x0@[i] as int, old(self).u@[i] as int,
                        tdiv(dt as int, 2))
                &&& final(self).y@[i] as int
                    == step_pos(old(self).y0@[i] as int, old(self).v@[i] as int,
                        tdiv(dt as int, 2))
                &&& final(self).u@[i] as int
                    == step_vel(old(self).u0@[i] as int, old(self).fx@[i] as int,
                        old(self).m_inv@[i] as int, tdiv(dt as int, 2))
                &&& final(self).v@[i] as int
                    == step_vel(old(self).v0@[i] as int, old(self).fy@[i] as int,
                        old(self).m_inv@[i] as int, tdiv(dt as int, 2))
                &&& final(self).omega_z@[i] as int
                    == step_vel(old(self).omega_z0@[i] as int, old(self).tauz@[i] as int,
                        old(self).i_inv@[i] as int, tdiv(dt as int, 2))
            },
            final(self).x0 == old(self).x0,
            final(self).y0 == old(self).y0,
            final(self).u0 == old(self).u0,
            final(self).v0 == old(self).v0,
            final(self).omega_z0 == old(self).omega_z0,
            final(self).m == old(self).m,
            final(self).inertia == old(self).inertia,
            final(self).h == old(self).h,
            final(self).m_inv == old(self).m_inv,
            final(self).i_inv == old(self).i_inv,
            final(self).rad == old(self).rad,
            final(self).fx == old(self).fx,
            final(self).fy == old(self).fy,
            final(self).tauz == old(self).tauz,
            final(self).id == old(self).id,
            final(self).name == old(self).name,
            final(self).tang_history == old(self).tang_history,
            final(self).tang_history0 == old(self).tang_history0,
    {
        let dtb2 = muldiv(dt, 1, 2);
        self.advance(dtb2);
    }

    /// Full-step corrector: positions and velocities move from the snapshot
    /// over the whole of `dt` under the forces recomputed at the half step.
    pub fn stage2(&mut self, dt: i64)
        requires
            old(self).wf(),
            old(self).kin_bounded(),
            old(self).forces_bounded(),
            0 < dt <= B_DT,
        ensures
            final(self).wf(),
            final(self).len == old(self).len,
            forall|i: int| 0 <= i < old(self).len ==> {
                &&& #[trigger] final(self).x@[i] as int
                    == step_pos(old(self).x0@[i] as int, old(self).u@[i] as int, dt as int)
                &&& final(self).y@[i] as int
                    == step_pos(old(self).y0@[i] as int, old(self).v@[i] as int, dt as int)
                &&& final(self).u@[i] as int
                    == step_vel(old(self).u0@[i] as int, old(self).fx@[i] as int,
                        old(self).m_inv@[i] as int, dt as int)
                &&& final(self).v@[i] as int
                    == step_vel(old(self).v0@[i] as int, old(self).fy@[i] as int,
                        old(self).m_inv@[i] as int, dt as int)
                &&& final(self).omega_z@[i] as int
                    == step_vel(old(self).omega_z0@[i] as int, old(self).tauz@[i] as int,
                        old(self).i_inv@[i] as int, dt as int)
            },
            final(self).x0 == old(self).x0,
            final(self).y0 == old(self).y0,
            final(self).u0 == old(self).u0,
            final(self).v0 == old(self).v0,
            final(self).omega_z0 == old(self).omega_z0,
            final(self).m == old(self).m,
            final(self).inertia == old(self).inertia,
            final(self).h == old(self).h,
            final(self).m_inv == old(self).m_inv,
            final(self).i_inv == old(self).i_inv,
            final(self).rad == old(self).rad,
            final(self).fx == old(self).fx,
            final(self).fy == old(self).fy,
            final(self).tauz == old(self).tauz,
            final(self).id == old(self).id,
            final(self).name == old(self).name,
            final(self).tang_history == old(self).tang_history,
            final(self).tang_history0 == old(self).tang_history0,
    {
        self.advance(dt);
    }
}

/// With no accumulated force and no velocity, one whole predictor-corrector
/// cycle returns every position to its step-start value: the integrator is
/// drift-free at rest.
pub proof fn lemma_integrator_rest_fixed_point(p0: int, vel0: int, f: int, minv: int, dt: int)
    requires
        f == 0,
        vel0 == 0,
        dt > 0,
    ensures
        step_vel(vel0, f, minv, tdiv(dt, 2)) == 0,
        step_pos(p0, step_vel(vel0, f, minv, tdiv(dt, 2)), dt) == p0,
{
    assert(tdiv(0 * minv, SCALE as int) == 0);
    assert(step_vel(vel0, f, minv, tdiv(dt, 2)) == 0);
    assert(tdiv(0 * dt, SCALE as int) == 0);
}

}

//! Run configuration and the error taxonomy.
//!
//! Invalid configurations are rejected here, before any stepping; a
//! degenerate grid is reported by the grid builder itself.

use crate::fixed::mag;
use crate::particle::B_DT;
use vstd::prelude::*;

verus! {

/// Largest admitted normal or tangential stiffness (ten thousand units).
pub const B_KN: i64 = 10_000_000_000;

/// Largest admitted friction coefficient (two).
pub const B_MU: i64 = 2_000_000;

/// Largest admitted grid-cell scale factor (one thousand).
pub const B_SCALE_FACTOR: i64 = 1_000_000_000;

/// Largest admitted gravity component (one thousand units).
pub const B_GRAV: i64 = 1_000_000_000;

/// What can go wrong before or while building a simulation step.
#[derive(Clone, Copy, Debug, PartialEq, Eq, Structural)]
pub enum DemError {
    /// The interaction scale resolved to a non-positive cell size: no
    /// particles, or every search radius zero.
    DegenerateGrid,
    /// The time step is not positive or is beyond the working range.
    InvalidDt,
    /// The normal stiffness is not positive or is beyond the working range.
    InvalidKn,
    /// The friction coefficient is negative or beyond the working range.
    InvalidMu,
    /// The grid scale factor is not positive or is beyond the working range.
    InvalidScale,
    /// A gravity component is beyond the working range.
    InvalidGravity,
    /// The bounding box and cell size would ask for more cells than the
    /// machine limit admits.
    GridTooLarge,
}

/// Validated configuration surface of the core: time step, normal stiffness,
/// friction coefficient, grid scale factor and gravity.
#[derive(Clone, Copy, Debug, PartialEq, Eq, Structural)]
pub struct DemConfig {
    pub dt: i64,
    pub kn: i64,
    pub mu: i64,
    pub scale: i64,
    pub gx: i64,
    pub gy: i64,
}

/// The admissible parameter ranges.
pub open spec fn config_valid(dt: i64, kn: i64, mu: i64, scale: i64, gx: i64, gy: i64) -> bool {
    &&& 2 <= dt <= B_DT
    &&& 0 < kn <= B_KN
    &&& 0 <= mu <= B_MU
    &&& 0 < scale <= B_SCALE_FACTOR
    &&& mag(gx as int) <= B_GRAV as int
    &&& mag(gy as int) <= B_GRAV as int
}

impl DemConfig {
    /// Accept exactly the parameters in range; report the first offending
    /// parameter, checked in the order `dt`, `kn`, `mu`, `scale`, gravity.
    pub fn new(dt: i64, kn: i64, mu: i64, scale: i64, gx: i64, gy: i64) -> (r: Result<
        DemConfig,
        DemError,
    >)
        ensures
            r is Ok <==> config_valid(dt, kn, mu, scale, gx, gy),
            r matches Ok(c) ==> c == (DemConfig { dt, kn, mu, scale, gx, gy }),
            r matches Err(e) ==> (e == DemError::InvalidDt <==> !(2 <= dt <= B_DT)),
            r matches Err(e) ==> e == DemError::InvalidKn
                ==> (2 <= dt <= B_DT) && !(0 < kn <= B_KN),
            r matches Err(e) ==> e == DemError::InvalidMu
                ==> (0 < kn <= B_KN) && !(0 <= mu <= B_MU),
            r matches Err(e) ==> e == DemError::InvalidScale
                ==> (0 <= mu <= B_MU) && !(0 < scale <= B_SCALE_FACTOR),
            r matches Err(e) ==> e == DemError::InvalidGravity
                ==> (0 < scale <= B_SCALE_FACTOR)
                    && !(mag(gx as int) <= B_GRAV as int && mag(gy as int) <= B_GRAV as int),
    {
        if dt < 2 || dt > B_DT {
            Err(DemError::InvalidDt)
        } else if kn <= 0 || kn > B_KN {
            Err(DemError::InvalidKn)
        } else if mu < 0 || mu > B_MU {
            Err(DemError::InvalidMu)
        } else if scale <= 0 || scale > B_SCALE_FACTOR {
            Err(DemError::InvalidScale)
        } else if gx < -B_GRAV || gx > B_GRAV || gy < -B_GRAV || gy > B_GRAV {
            Err(DemError::InvalidGravity)
        } else {
            Ok(DemConfig { dt, kn, mu, scale, gx, gy })
        }
    }
}

}

//! Configuration validation: invalid parameters are rejected before any
//! stepping, each with its own report.

use dem::config::{DemConfig, DemError};

fn fix(v: f64) -> i64 {
    (v * 1_000_000.0).round() as i64
}

#[test]
fn test_config_accepts_valid() {
    let c = DemConfig::new(fix(1e-4), fix(1e4), fix(0.5), fix(2.), 0, -fix(9.81)).unwrap();
    assert_eq!(fix(1e-4), c.dt);
    assert_eq!(fix(1e4), c.kn);
    assert_eq!(fix(0.5), c.mu);
    assert_eq!(fix(2.), c.scale);
    assert_eq!(0, c.gx);
    assert_eq!(-fix(9.81), c.gy);
}

#[test]
fn test_config_rejects_bad_dt() {
    assert_eq!(Err(DemError::InvalidDt), DemConfig::new(0, fix(1e4), 0, fix(2.), 0, 0));
    assert_eq!(Err(DemError::InvalidDt), DemConfig::new(-fix(1.), fix(1e4), 0, fix(2.), 0, 0));
}

#[test]
fn test_config_rejects_bad_kn() {
    assert_eq!(Err(DemError::InvalidKn), DemConfig::new(fix(1e-4), 0, 0, fix(2.), 0, 0));
    assert_eq!(Err(DemError::InvalidKn), DemConfig::new(fix(1e-4), -fix(1.), 0, fix(2.), 0, 0));
}

#[test]
fn test_config_rejects_bad_mu() {
    assert_eq!(
        Err(DemError::InvalidMu),
        DemConfig::new(fix(1e-4), fix(1e4), -fix(0.1), fix(2.), 0, 0)
    );
}

#[test]
fn test_config_rejects_bad_scale() {
    assert_eq!(Err(DemError::InvalidScale), DemConfig::new(fix(1e-4), fix(1e4), 0, 0, 0, 0));
}

#[test]
fn test_config_rejects_bad_gravity() {
    assert_eq!(
        Err(DemError::InvalidGravity),
        DemConfig::new(fix(1e-4), fix(1e4), 0, fix(2.), fix(2000.), 0)
    );
}

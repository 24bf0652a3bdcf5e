//! Read-out interface for output sinks.
//!
//! The core performs no I/O itself: a sink asks a store to record its state
//! under a file name, and what writing means is the sink's concern.

use crate::particle::DemDiscrete;
use vstd::prelude::*;

verus! {

/// A particle store that an output sink can ask to record its state.
pub trait DumpData {
    fn save_data(&self, file_name: &str);
}

impl DumpData for DemDiscrete {
    fn save_data(&self, file_name: &str) {
    }
}

}

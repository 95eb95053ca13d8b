//! Monitors of a simulation.

use crate::simulation::{Event, SimulationMonitor};
use vstd::prelude::*;

verus! {

/// A monitor that takes no note of anything.
#[derive(Clone, Copy, Debug, PartialEq, Eq, Default)]
pub struct DummyMonitor;

impl SimulationMonitor for DummyMonitor {
    fn register_event(&self, event: Event) {
    }
}

} // verus!

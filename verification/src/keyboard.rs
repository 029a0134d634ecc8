//! What a key press does to the simulation, where that is a matter of counters
//! alone.

use crate::sim::{DebugParams, Simulation, SimulationView};
use vstd::prelude::*;

verus! {

/// Pauses a simulation that runs, and lets a paused one run freely.
pub fn pause(sim: &mut Simulation)
    ensures
        final(sim)@ == (SimulationView {
            debug: DebugParams {
                frames_to_show: if old(sim)@.debug.frames_to_show == 0 {
                    u32::MAX
                } else {
                    0
                },
                ..old(sim)@.debug
            },
            ..old(sim)@
        }),
{
    if sim.frames_to_advance() == 0 {
        sim.set_frames_to_show(u32::MAX);
    } else {
        sim.set_frames_to_show(0);
    }
}

} // verus!

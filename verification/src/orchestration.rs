//! How the host schedules the planner's passes against its own work.

use vstd::prelude::*;

verus! {

/// The orchestration styles a host may run the planning passes under.
#[derive(Debug)]
pub enum OrchestrateFor {
    /// Passes are scheduled independently, to maximise parallel processing;
    /// an agent may take a few cycles to get a full sequence.
    ParallelProcessing,
    /// Passes are chained, so each cycle hands every agent a full sequence.
    FasterResponse,
    /// No built-in orchestration: the host wires the passes up itself.
    Custom,
}

impl Default for OrchestrateFor {
    fn default() -> (r: Self)
        ensures
            r is ParallelProcessing,
    {
        OrchestrateFor::ParallelProcessing
    }
}

} // verus!

//! The event vocabulary the planner shares with its host.

use vstd::prelude::*;

verus! {

/// Marks an agent's current plan as no longer valid. The host's event layer
/// carries this to drop the agent's plan, current task and state, so the
/// next cycle plans afresh.
#[derive(Debug)]
pub struct HtnPlanInvalidated;

} // verus!

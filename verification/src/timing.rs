//! The advisory wall-clock budget: how the planner asks whether the time
//! slice granted to one planning pass has run out. The answer only stops
//! the pass early; no contract rests on it.

use vstd::prelude::*;

verus! {

#[verifier::external_type_specification]
#[verifier::external_body]
pub struct ExInstant(std::time::Instant);

/// Relies on `std::time::Instant::now`. Nothing is promised of the reading:
/// the budget it serves is advisory.
#[verifier::external_body]
pub fn instant_now() -> (r: std::time::Instant) {
    std::time::Instant::now()
}

/// Relies on `Instant::elapsed`. Nothing is promised of the reading: the
/// budget it serves is advisory.
#[verifier::external_body]
pub fn instant_elapsed(start: &std::time::Instant) -> (r: core::time::Duration) {
    start.elapsed()
}

/// Relies on `Duration`'s `ge` comparison. Nothing is promised of the
/// answer: the budget it serves is advisory.
#[verifier::external_body]
pub fn duration_at_least(a: &core::time::Duration, b: &core::time::Duration) -> (r: bool) {
    *a >= *b
}

/// Whether the granted budget, if any, has been spent since `start`: with
/// no budget granted, it never is.
pub fn budget_exhausted(start: &std::time::Instant, budget: &Option<core::time::Duration>) -> (r:
    bool)
    ensures
        budget is None ==> r == false,
{
    match budget {
        Some(limit) => {
            let spent = instant_elapsed(start);
            duration_at_least(&spent, limit)
        },
        None => false,
    }
}

} // verus!

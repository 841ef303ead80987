//! The default goal: always valid, at its configured priority.
use vstd::prelude::*;
use crate::goap::goap_planner::GoapPlannerWorkingFacts;

verus! {

/// The default goal may always be pursued.
pub fn is_valid(_current_facts: &GoapPlannerWorkingFacts) -> (r: bool)
    ensures
        r,
{
    true
}

/// The default goal keeps the priority it was configured with.
pub fn priority(original_priority: u32) -> (r: u32)
    ensures
        r == original_priority,
{
    original_priority
}

} // verus!

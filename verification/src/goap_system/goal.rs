//! Goals as an agent holds them.
use vstd::prelude::*;
use crate::goap::goap_planner::GoapPlannerWorkingFacts;

verus! {

/// A goal an agent may pursue: its identifier, name, base priority, the
/// facts it wants to hold, and the behaviour that judges it.
pub struct GGoal<T> {
    pub id: usize,
    pub name: String,
    pub priority: u32,
    pub desired_state: GoapPlannerWorkingFacts,
    pub goal: T,
}

/// How a kind of goal judges whether it may be pursued and how urgent it is.
pub trait GoapGoal {
    fn is_valid(&self, current_facts: &GoapPlannerWorkingFacts) -> bool;

    fn priority(&self, original_priority: u32) -> u32;
}

} // verus!

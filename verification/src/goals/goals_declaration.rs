//! The kinds of goal an agent can be given.
use vstd::prelude::*;
use crate::goals::default_goal;
use crate::goap::goap_planner::{FactsView, GoapPlannerWorkingFacts};
use crate::goap_system::goal::GoapGoal;

verus! {

/// The kinds of goal.
#[derive(PartialEq, Eq, Structural, Clone, Copy, Debug)]
pub enum Goals {
    DefaultGoal,
}

impl Goals {
    /// The number that names the goal.
    pub open spec fn index_of(self) -> i64 {
        match self {
            Goals::DefaultGoal => 1,
        }
    }

    /// The goal a number names, if any.
    pub open spec fn from_index_of(index: i64) -> Option<Goals> {
        if index == 1 {
            Some(Goals::DefaultGoal)
        } else {
            None
        }
    }

    /// The number that names the goal.
    pub fn to_index(&self) -> (r: i64)
        ensures
            r == self.index_of(),
    {
        match self {
            Goals::DefaultGoal => 1,
        }
    }

    /// The goal a number names; `None` for any number but 1.
    pub fn from_index(index: i64) -> (r: Option<Goals>)
        ensures
            r == Goals::from_index_of(index),
    {
        if index == 1 {
            Some(Goals::DefaultGoal)
        } else {
            None
        }
    }

    /// Whether the goal may be pursued in a state.
    pub open spec fn valid_in(self, _state: FactsView) -> bool {
        match self {
            Goals::DefaultGoal => true,
        }
    }

    /// The priority of the goal, given the priority it was configured with.
    pub open spec fn priority_from(self, original_priority: u32) -> u32 {
        match self {
            Goals::DefaultGoal => original_priority,
        }
    }
}

impl GoapGoal for Goals {
    fn is_valid(&self, current_facts: &GoapPlannerWorkingFacts) -> (r: bool)
        ensures
            r == self.valid_in(current_facts@),
    {
        match self {
            Goals::DefaultGoal => default_goal::is_valid(current_facts),
        }
    }

    fn priority(&self, original_priority: u32) -> (r: u32)
        ensures
            r == self.priority_from(original_priority),
    {
        match self {
            Goals::DefaultGoal => default_goal::priority(original_priority),
        }
    }
}

/// Reading back the number of a goal gives the goal.
pub proof fn lemma_goals_index_round_trip(goal: Goals)
    ensures
        Goals::from_index_of(goal.index_of()) == Some(goal),
{
}

} // verus!

//! Actions as an agent holds them.
use vstd::prelude::*;
use crate::goap::goap_planner::{Action, FactsView, GoapPlannerWorkingFacts};

verus! {

/// What performing an action reports back.
#[derive(PartialEq, Eq, Structural, Clone, Copy, Debug)]
pub enum ActionResultEnum {
    Continue,
    ContinueAndUpdateSensors,
    Finished,
    FinishAndUpdateSensors,
}

/// An action an agent may plan with: its identifier, name, base cost, the
/// behaviour that performs it, and the facts before and after.
pub struct GAction<T> {
    pub id: usize,
    pub name: String,
    pub cost: u32,
    pub action: T,
    pub pre_conditions: GoapPlannerWorkingFacts,
    pub post_conditions: GoapPlannerWorkingFacts,
}

impl<T> Action for GAction<T> {
    open spec fn id_of(&self) -> usize {
        self.id
    }

    open spec fn preconditions_of(&self) -> FactsView {
        self.pre_conditions@
    }

    open spec fn post_conditions_of(&self) -> FactsView {
        self.post_conditions@
    }

    fn get_id(&self) -> (r: usize) {
        self.id
    }

    fn get_name(&self) -> (r: String)
        ensures
            r@ == self.name@,
    {
        self.name.clone()
    }

    fn get_preconditions(&self) -> (r: &GoapPlannerWorkingFacts) {
        &self.pre_conditions
    }

    fn get_post_conditions(&self) -> (r: &GoapPlannerWorkingFacts) {
        &self.post_conditions
    }
}

} // verus!

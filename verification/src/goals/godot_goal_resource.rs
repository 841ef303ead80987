//! Goals as a resource describes them, and their conversion into goals an
//! agent holds.
use vstd::prelude::*;
use crate::actions::godot_action_resource::{optional_pairs_facts, pairs_facts, pairs_to_planner_facts};
use crate::goals::goals_declaration::Goals;
use crate::goap::goap_planner::GoapPlannerWorkingFacts;
use crate::goap_system::goal::GGoal;

verus! {

/// A goal as a resource describes it.
pub struct GoalResource {
    pub goal: Option<Goals>,
    pub priority: u32,
    pub name: String,
    pub desired_state: Option<Vec<(String, bool)>>,
}

impl GoalResource {
    /// The facts of an optional list of pairs; an absent or empty list gives
    /// no facts.
    pub fn option_dict_to_planner_facts(&self, dict: Option<&Vec<(String, bool)>>) -> (r: GoapPlannerWorkingFacts)
        ensures
            r@ == match dict {
                Some(pairs) => pairs_facts(pairs@),
                None => Map::<Seq<char>, bool>::empty(),
            },
    {
        match dict {
            Some(pairs) => {
                if pairs.len() != 0 {
                    pairs_to_planner_facts(pairs)
                } else {
                    let facts = GoapPlannerWorkingFacts::new();
                    assert(pairs@.map_values(|p: (String, bool)| (p.0@, p.1)) =~= Seq::<(Seq<char>, bool)>::empty());
                    facts
                }
            },
            None => GoapPlannerWorkingFacts::new(),
        }
    }

    /// The goal an agent holds, under the identifier `id`.
    pub fn to_goap_goal(&self, id: usize) -> (r: GGoal<Goals>)
        requires
            self.goal is Some,
        ensures
            r.id == id,
            r.name@ == self.name@,
            r.priority == self.priority,
            Some(r.goal) == self.goal,
            r.desired_state@ == optional_pairs_facts(self.desired_state),
    {
        let desired_state = self.option_dict_to_planner_facts(self.desired_state.as_ref());
        GGoal {
            id,
            name: self.name.clone(),
            priority: self.priority,
            desired_state,
            goal: self.goal.unwrap(),
        }
    }
}

} // verus!

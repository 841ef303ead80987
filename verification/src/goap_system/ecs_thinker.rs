//! The planning state of an agent, and searches over its actions and goals.
use vstd::prelude::*;
use crate::actions::actions_declaration::Actions;
use crate::actions::godot_action_resource::{ActionResource, optional_pairs_facts};
use crate::goals::goals_declaration::Goals;
use crate::goals::godot_goal_resource::GoalResource;
use crate::goap::goap_planner::GoapPlannerWorkingFacts;
use crate::goap_system::action::GAction;
use crate::goap_system::goal::GGoal;

verus! {

/// What a thinker will do on its next update.
#[derive(PartialEq, Eq, Structural, Clone, Copy, Debug)]
pub enum ThinkerActionState {
    /// Thinker will recalculate the current goal ASAP. By default Thinker
    /// should recalculate goals every time when the world state change.
    ShouldUpdate,
    /// Thinker has some plan and will execute it ASAP.
    Executing,
}

/// Some action of `actions` has the identifier `id`.
pub open spec fn has_action_with_id(actions: Seq<GAction<Actions>>, id: usize) -> bool {
    exists|j: int| 0 <= j < actions.len() && actions[j].id == id
}

/// No two goals share an identifier.
pub open spec fn goal_ids_distinct(goals: Seq<GGoal<Goals>>) -> bool {
    forall|i: int, j: int| 0 <= i < goals.len() && 0 <= j < goals.len() && i != j ==> #[trigger] goals[i].id != #[trigger] goals[j].id
}

/// A plan an agent may hold: none, or a non-empty list of identifiers of
/// its actions.
pub open spec fn plan_ok(plan: Option<Vec<usize>>, actions: Seq<GAction<Actions>>) -> bool {
    match plan {
        None => true,
        Some(p) => p@.len() > 0 && forall|k: int| 0 <= k < p@.len() ==> has_action_with_id(actions, #[trigger] p@[k]),
    }
}

/// A plan an agent can take its next step from: none, or a non-empty list
/// whose first identifier names one of its actions.
pub open spec fn head_known(plan: Option<Vec<usize>>, actions: Seq<GAction<Actions>>) -> bool {
    match plan {
        None => true,
        Some(p) => p@.len() > 0 && has_action_with_id(actions, p@[0]),
    }
}

/// The planning state of an agent: the facts it holds about itself, the
/// goal and plan it is pursuing, the actions and goals it may use, and what
/// it will do next.
pub struct GoapThinker {
    pub actor_state: GoapPlannerWorkingFacts,
    pub current_goal: Option<usize>,
    pub current_plan: Option<Vec<usize>>,
    pub actions_available: Vec<GAction<Actions>>,
    pub goals_available: Vec<GGoal<Goals>>,
    pub state: ThinkerActionState,
}

impl GoapThinker {
    /// The thinker's invariant: goal identifiers are distinct, and a current
    /// plan is never empty and names only actions the thinker has.
    pub open spec fn wf(&self) -> bool {
        &&& goal_ids_distinct(self.goals_available@)
        &&& plan_ok(self.current_plan, self.actions_available@)
    }

    /// A thinker with the actions and goals of its resources, numbered in
    /// order from 0, no facts, no goal and no plan, that will plan on its
    /// first update.
    pub fn from_resources(actions: &Vec<ActionResource>, goals: &Vec<GoalResource>) -> (r: GoapThinker)
        requires
            forall|i: int| 0 <= i < actions@.len() ==> (#[trigger] actions@[i]).action is Some,
            forall|i: int| 0 <= i < goals@.len() ==> (#[trigger] goals@[i]).goal is Some,
        ensures
            r.wf(),
            r.actor_state@ == Map::<Seq<char>, bool>::empty(),
            r.current_goal is None,
            r.current_plan is None,
            r.state == ThinkerActionState::ShouldUpdate,
            r.actions_available@.len() == actions@.len(),
            forall|i: int| 0 <= i < actions@.len() ==> {
                let a = #[trigger] r.actions_available@[i];
                &&& a.id == i
                &&& a.name@ == actions@[i].name@
                &&& a.cost == actions@[i].cost
                &&& Some(a.action) == actions@[i].action
                &&& a.pre_conditions@ == optional_pairs_facts(actions@[i].pre_conditions)
                &&& a.post_conditions@ == optional_pairs_facts(actions@[i].post_conditions)
            },
            r.goals_available@.len() == goals@.len(),
            forall|i: int| 0 <= i < goals@.len() ==> {
                let g = #[trigger] r.goals_available@[i];
                &&& g.id == i
                &&& g.name@ == goals@[i].name@
                &&& g.priority == goals@[i].priority
                &&& Some(g.goal) == goals@[i].goal
                &&& g.desired_state@ == optional_pairs_facts(goals@[i].desired_state)
            },
    {
        let mut action_entities: Vec<GAction<Actions>> = Vec::new();
        let mut action_id: usize = 0;
        while action_id < actions.len()
            invariant
                forall|i: int| 0 <= i < actions@.len() ==> (#[trigger] actions@[i]).action is Some,
                action_id <= actions@.len(),
                action_entities@.len() == action_id,
                forall|i: int| 0 <= i < action_id ==> {
                    let a = #[trigger] action_entities@[i];
                    &&& a.id == i
                    &&& a.name@ == actions@[i].name@
                    &&& a.cost == actions@[i].cost
                    &&& Some(a.action) == actions@[i].action
                    &&& a.pre_conditions@ == optional_pairs_facts(actions@[i].pre_conditions)
                    &&& a.post_conditions@ == optional_pairs_facts(actions@[i].post_conditions)
                },
            decreases actions@.len() - action_id,
        {
            let goap_action = actions[action_id].to_goap_action(action_id);
            action_entities.push(goap_action);
            action_id = action_id + 1;
        }
        let mut goal_entities: Vec<GGoal<Goals>> = Vec::new();
        let mut goal_id: usize = 0;
        while goal_id < goals.len()
            invariant
                forall|i: int| 0 <= i < goals@.len() ==> (#[trigger] goals@[i]).goal is Some,
                goal_id <= goals@.len(),
                goal_entities@.len() == goal_id,
                forall|i: int| 0 <= i < goal_id ==> {
                    let g = #[trigger] goal_entities@[i];
                    &&& g.id == i
                    &&& g.name@ == goals@[i].name@
                    &&& g.priority == goals@[i].priority
                    &&& Some(g.goal) == goals@[i].goal
                    &&& g.desired_state@ == optional_pairs_facts(goals@[i].desired_state)
                },
            decreases goals@.len() - goal_id,
        {
            let goap_goal = goals[goal_id].to_goap_goal(goal_id);
            goal_entities.push(goap_goal);
            goal_id = goal_id + 1;
        }
        let r = GoapThinker {
            actor_state: GoapPlannerWorkingFacts::new(),
            current_goal: None,
            current_plan: None,
            actions_available: action_entities,
            goals_available: goal_entities,
            state: ThinkerActionState::ShouldUpdate,
        };
        assert(goal_ids_distinct(r.goals_available@)) by {
            assert forall|i: int, j: int| 0 <= i < r.goals_available@.len() && 0 <= j < r.goals_available@.len() && i != j
                implies #[trigger] r.goals_available@[i].id != #[trigger] r.goals_available@[j].id by {
                assert(r.goals_available@[i].id == i);
                assert(r.goals_available@[j].id == j);
            }
        }
        r
    }
}

/// The first object for which `condition` holds, if any.
pub fn search_by_function<T>(objects: &Vec<T>, condition: impl Fn(&T) -> bool) -> (r: Option<&T>)
    requires
        forall|i: int| 0 <= i < objects@.len() ==> call_requires(condition, (&objects@[i],)),
    ensures
        match r {
            Some(found) => exists|i: int| 0 <= i < objects@.len() && *found == objects@[i]
                && call_ensures(condition, (&objects@[i],), true)
                && forall|j: int| 0 <= j < i ==> call_ensures(condition, (&objects@[j],), false),
            None => forall|i: int| 0 <= i < objects@.len() ==> call_ensures(condition, (&objects@[i],), false),
        },
{
    let n = objects.len();
    let mut i: usize = 0;
    while i < n
        invariant
            n == objects@.len(),
            i <= n,
            forall|k: int| 0 <= k < objects@.len() ==> call_requires(condition, (&objects@[k],)),
            forall|j: int| 0 <= j < i ==> call_ensures(condition, (&objects@[j],), false),
        decreases n - i,
    {
        let object = &objects[i];
        if condition(object) {
            return Some(object);
        }
        i = i + 1;
    }
    None
}

/// The first object for which `condition` holds, if any, for changing.
/// (The condition reads the object; it is not handed a mutable reference.)
pub fn search_by_function_mut<T>(objects: &mut Vec<T>, condition: impl Fn(&T) -> bool) -> (r: Option<&mut T>)
    requires
        forall|i: int| 0 <= i < old(objects)@.len() ==> call_requires(condition, (&old(objects)@[i],)),
    ensures
        match r {
            Some(found) => exists|i: int| 0 <= i < old(objects)@.len() && *found == old(objects)@[i]
                && final(objects)@ == old(objects)@.update(i, *final(found))
                && call_ensures(condition, (&old(objects)@[i],), true)
                && forall|j: int| 0 <= j < i ==> call_ensures(condition, (&old(objects)@[j],), false),
            None => final(objects)@ == old(objects)@
                && forall|i: int| 0 <= i < old(objects)@.len() ==> call_ensures(condition, (&old(objects)@[i],), false),
        },
{
    let n = objects.len();
    let mut i: usize = 0;
    while i < n
        invariant
            n == objects@.len(),
            objects@ == old(objects)@,
            i <= n,
            forall|k: int| 0 <= k < objects@.len() ==> call_requires(condition, (&objects@[k],)),
            forall|j: int| 0 <= j < i ==> call_ensures(condition, (&objects@[j],), false),
        decreases n - i,
    {
        if condition(&objects[i]) {
            return Some(&mut objects[i]);
        }
        i = i + 1;
    }
    None
}

} // verus!

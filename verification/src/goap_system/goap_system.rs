//! An agent's planning cycle: choose the most urgent goal that is not yet
//! reached, plan for it, and step through the plan as its actions finish.
use vstd::prelude::*;
use crate::actions::actions_declaration::Actions;
use crate::components::agent_components::{Inventory, inventory_facts};
use crate::goals::goals_declaration::Goals;
use crate::goap::goap_planner::{
    ActionSpec, FactsView, GoapPlannerWorkingFacts, PlanNodeView, action_specs, agrees, astar_path, costs_cover_goal_facts,
    is_cheapest_plan, is_valid_plan, path_action_ids, plan, plan_ids, preconditions_countable, satisfies, search_fits,
};
use crate::goap_system::action::GAction;
use crate::goap_system::ecs_thinker::{
    GoapThinker, ThinkerActionState, goal_ids_distinct, has_action_with_id, head_known, plan_ok, search_by_function,
};
use crate::goap_system::goal::{GGoal, GoapGoal};
use crate::string_map::entry_view;

verus! {

/// The state a thinker plans from: its own facts, overridden by the global
/// facts, overridden by the facts of its inventory when it has one.
pub open spec fn planning_state_of(actor: FactsView, global: FactsView, inventory: Option<Map<Seq<char>, u32>>) -> FactsView {
    match inventory {
        Some(items) => actor.union_prefer_right(global).union_prefer_right(inventory_facts(items)),
        None => actor.union_prefer_right(global),
    }
}

/// The planning state layers the facts: every fact of the inventory holds
/// with the inventory's value; every other global fact holds with its
/// global value, whether or not the actor names it; every remaining fact of
/// the actor holds with the actor's value; and no other fact is there.
pub proof fn lemma_planning_state_layers(
    actor: FactsView,
    global: FactsView,
    inventory: Option<Map<Seq<char>, u32>>,
    name: Seq<char>,
)
    ensures
        match inventory {
            Some(items) => {
                &&& planning_state_of(actor, global, inventory).contains_key(name) <==> (actor.contains_key(name)
                    || global.contains_key(name) || inventory_facts(items).contains_key(name))
                &&& inventory_facts(items).contains_key(name)
                    ==> planning_state_of(actor, global, inventory)[name] == inventory_facts(items)[name]
                &&& !inventory_facts(items).contains_key(name) && global.contains_key(name)
                    ==> planning_state_of(actor, global, inventory)[name] == global[name]
                &&& !inventory_facts(items).contains_key(name) && !global.contains_key(name) && actor.contains_key(name)
                    ==> planning_state_of(actor, global, inventory)[name] == actor[name]
            },
            None => {
                &&& planning_state_of(actor, global, inventory).contains_key(name) <==> (actor.contains_key(name)
                    || global.contains_key(name))
                &&& global.contains_key(name) ==> planning_state_of(actor, global, inventory)[name] == global[name]
                &&& !global.contains_key(name) && actor.contains_key(name)
                    ==> planning_state_of(actor, global, inventory)[name] == actor[name]
            },
        },
{
}

/// The state a thinker plans from.
pub fn planning_state(
    actor_state: &GoapPlannerWorkingFacts,
    global_facts: &GoapPlannerWorkingFacts,
    inventory: Option<&Inventory>,
) -> (r: GoapPlannerWorkingFacts)
    ensures
        r@ == planning_state_of(actor_state@, global_facts@, match inventory {
            Some(i) => Some(i.items@),
            None => None,
        }),
{
    let mut initial_state = actor_state.duplicate();
    initial_state.extend(global_facts);
    match inventory {
        Some(i) => {
            let inventory_state = i.to_state();
            initial_state.extend(&inventory_state);
        },
        None => {},
    }
    initial_state
}

/// A goal's desired state already holds: every fact it wants holds, where
/// a fact wanted false also counts as holding when the state lacks it.
pub open spec fn desired_state_reached(desired: FactsView, state: FactsView) -> bool {
    forall|name: Seq<char>| #[trigger] desired.contains_key(name) ==>
        agrees(state, desired, name) || (!desired[name] && !state.contains_key(name))
}

/// A goal's desired state counts as reached only when every fact it names
/// holds: a single fact that the state lacks while it is wanted true, or
/// holds with the other value, keeps the goal unreached.
pub proof fn lemma_one_unmet_fact_keeps_goal_unreached(desired: FactsView, state: FactsView, name: Seq<char>)
    requires
        desired.contains_key(name),
        if state.contains_key(name) { state[name] != desired[name] } else { desired[name] },
    ensures
        !desired_state_reached(desired, state),
{
}

/// When every fact a goal names holds in the state (a fact wanted false may
/// also be absent), its desired state is reached.
pub proof fn lemma_every_fact_held_reaches_goal(desired: FactsView, state: FactsView)
    requires
        forall|name: Seq<char>| #[trigger] desired.contains_key(name) ==>
            (state.contains_key(name) && state[name] == desired[name]) || (!desired[name] && !state.contains_key(name)),
    ensures
        desired_state_reached(desired, state),
{
}

/// Whether a goal's desired state already holds.
pub fn is_desired_state_reached(desired: &GoapPlannerWorkingFacts, state: &GoapPlannerWorkingFacts) -> (r: bool)
    ensures
        r == desired_state_reached(desired@, state@),
{
    let es = desired.as_entries();
    let ghost ds = desired.entry_seq();
    proof {
        crate::string_map::lemma_entries_map(ds);
    }
    let n = es.len();
    let mut i: usize = 0;
    while i < n
        invariant
            n == es@.len(),
            es@.map_values(|e: (String, bool)| entry_view(e)) == ds,
            ds == desired.entry_seq(),
            desired@ == crate::string_map::entries_map(ds),
            forall|j: int| 0 <= j < ds.len() ==> #[trigger] desired@.contains_key(ds[j].0) && desired@[ds[j].0] == ds[j].1,
            forall|name: Seq<char>| #[trigger] desired@.contains_key(name) ==> exists|j: int| 0 <= j < ds.len() && ds[j].0 == name,
            i <= n,
            forall|j: int| 0 <= j < i ==>
                agrees(state@, desired@, #[trigger] ds[j].0) || (!ds[j].1 && !state@.contains_key(ds[j].0)),
        decreases n - i,
    {
        let value = es[i].1;
        proof {
            assert(ds[i as int] == entry_view(es@[i as int]));
            assert(desired@.contains_key(ds[i as int].0) && desired@[ds[i as int].0] == ds[i as int].1);
        }
        let ok = match state.get(es[i].0.as_str()) {
            Some(current) => *current == value,
            None => !value,
        };
        if !ok {
            proof {
                assert(!(agrees(state@, desired@, ds[i as int].0) || (!desired@[ds[i as int].0] && !state@.contains_key(ds[i as int].0))));
            }
            return false;
        }
        i = i + 1;
    }
    proof {
        assert forall|name: Seq<char>| #[trigger] desired@.contains_key(name) implies
            agrees(state@, desired@, name) || (!desired@[name] && !state@.contains_key(name)) by {
            let j = choose|j: int| 0 <= j < ds.len() && ds[j].0 == name;
            assert(agrees(state@, desired@, ds[j].0) || (!ds[j].1 && !state@.contains_key(ds[j].0)));
        }
    }
    true
}

/// A goal may be chosen in a state: its desired state does not hold yet,
/// and it says it may be pursued.
pub open spec fn goal_eligible(goal: GGoal<Goals>, state: FactsView) -> bool {
    !desired_state_reached(goal.desired_state@, state) && goal.goal.valid_in(state)
}

/// A goal's priority, as its kind computes it.
pub open spec fn goal_priority(goal: GGoal<Goals>) -> u32 {
    goal.goal.priority_from(goal.priority)
}

/// The goal at index `i` is the one to pursue: eligible, of positive
/// priority, of the highest priority among eligible goals, and the first
/// such.
pub open spec fn is_best_goal(goals: Seq<GGoal<Goals>>, state: FactsView, i: int) -> bool {
    &&& 0 <= i < goals.len()
    &&& goal_eligible(goals[i], state)
    &&& goal_priority(goals[i]) > 0
    &&& forall|j: int| 0 <= j < goals.len() && #[trigger] goal_eligible(goals[j], state)
        ==> goal_priority(goals[j]) <= goal_priority(goals[i])
    &&& forall|j: int| 0 <= j < i && #[trigger] goal_eligible(goals[j], state)
        ==> goal_priority(goals[j]) < goal_priority(goals[i])
}

/// The goal to pursue, by identifier: the first eligible goal of the
/// highest positive priority, if any.
pub fn select_goal(goals: &Vec<GGoal<Goals>>, state: &GoapPlannerWorkingFacts) -> (r: Option<usize>)
    ensures
        match r {
            Some(id) => exists|i: int| #[trigger] is_best_goal(goals@, state@, i) && goals@[i].id == id,
            None => forall|i: int| 0 <= i < goals@.len() && #[trigger] goal_eligible(goals@[i], state@)
                ==> goal_priority(goals@[i]) == 0,
        },
{
    let mut best_goal: Option<usize> = None;
    let mut highest_priority: u32 = 0;
    let ghost mut best_index: int = 0;
    let n = goals.len();
    let mut i: usize = 0;
    while i < n
        invariant
            n == goals@.len(),
            i <= n,
            best_goal is None ==> highest_priority == 0,
            best_goal is None ==> forall|j: int| 0 <= j < i && #[trigger] goal_eligible(goals@[j], state@)
                ==> goal_priority(goals@[j]) == 0,
            best_goal is Some ==> {
                &&& 0 <= best_index < i
                &&& best_goal == Some(goals@[best_index].id)
                &&& goal_eligible(goals@[best_index], state@)
                &&& goal_priority(goals@[best_index]) == highest_priority
                &&& highest_priority > 0
                &&& forall|j: int| 0 <= j < i && #[trigger] goal_eligible(goals@[j], state@)
                    ==> goal_priority(goals@[j]) <= highest_priority
                &&& forall|j: int| 0 <= j < best_index && #[trigger] goal_eligible(goals@[j], state@)
                    ==> goal_priority(goals@[j]) < highest_priority
            },
        decreases n - i,
    {
        let goal_entity = &goals[i];
        if is_desired_state_reached(&goal_entity.desired_state, state) {
            i = i + 1;
            continue;
        }
        if !goal_entity.goal.is_valid(state) {
            i = i + 1;
            continue;
        }
        let priority = goal_entity.goal.priority(goal_entity.priority);
        if priority > highest_priority {
            best_goal = Some(goal_entity.id);
            highest_priority = priority;
            proof {
                best_index = i as int;
            }
        }
        i = i + 1;
    }
    proof {
        if best_goal is Some {
            assert(is_best_goal(goals@, state@, best_index));
        }
    }
    best_goal
}

/// Planning offers each action at the cost given for this planning step:
/// the i-th offered action is the i-th action of the thinker, with its
/// identifier and conditions, at the i-th given cost (not at the cost it was
/// configured with).
pub proof fn lemma_offered_at_given_costs(actions: Seq<GAction<Actions>>, costs: Seq<u32>, i: int)
    requires
        costs.len() == actions.len(),
        0 <= i < actions.len(),
    ensures
        costed_specs(actions, costs).len() == actions.len(),
        costed_specs(actions, costs)[i].cost == costs[i],
        costed_specs(actions, costs)[i].id == actions[i].id,
        costed_specs(actions, costs)[i].pre == actions[i].pre_conditions@,
        costed_specs(actions, costs)[i].post == actions[i].post_conditions@,
{
}

/// The offered actions with the costs the planner is to use for them.
pub open spec fn costed_specs(actions: Seq<GAction<Actions>>, costs: Seq<u32>) -> Seq<ActionSpec> {
    Seq::new(actions.len(), |i: int| ActionSpec {
        id: actions[i].id,
        pre: actions[i].pre_conditions@,
        post: actions[i].post_conditions@,
        cost: costs[i],
    })
}

/// Pairs each action with its cost.
fn costed_actions<'a>(actions: &'a Vec<GAction<Actions>>, costs: &Vec<u32>) -> (r: Vec<(&'a GAction<Actions>, u32)>)
    requires
        costs@.len() == actions@.len(),
    ensures
        action_specs(r@) == costed_specs(actions@, costs@),
{
    let mut allowed: Vec<(&'a GAction<Actions>, u32)> = Vec::new();
    let n = actions.len();
    let mut i: usize = 0;
    while i < n
        invariant
            n == actions@.len(),
            costs@.len() == n,
            i <= n,
            allowed@.len() == i,
            forall|j: int| 0 <= j < i ==> *(#[trigger] allowed@[j]).0 == actions@[j] && allowed@[j].1 == costs@[j],
        decreases n - i,
    {
        allowed.push((&actions[i], costs[i]));
        i = i + 1;
    }
    assert(action_specs(allowed@) =~= costed_specs(actions@, costs@));
    allowed
}

/// What planning for a thinker asks: every goal's desired state, and every
/// action's preconditions, can be counted in a `u32`.
pub open spec fn planning_fits_for(thinker: GoapThinker, costs: Seq<u32>) -> bool {
    &&& forall|i: int| 0 <= i < thinker.goals_available@.len() ==> {
        &&& (#[trigger] thinker.goals_available@[i]).desired_state@.dom().finite()
        &&& thinker.goals_available@[i].desired_state@.len() <= u32::MAX
    }
    &&& preconditions_countable(costed_specs(thinker.actions_available@, costs))
}

/// Whether a thinker may plan with these costs.
pub fn planning_fits(thinker: &GoapThinker, costs: &Vec<u32>) -> (r: bool)
    requires
        costs@.len() == thinker.actions_available@.len(),
    ensures
        r == planning_fits_for(*thinker, costs@),
{
    let n = thinker.goals_available.len();
    let mut i: usize = 0;
    while i < n
        invariant
            n == thinker.goals_available@.len(),
            i <= n,
            forall|j: int| 0 <= j < i ==> {
                &&& (#[trigger] thinker.goals_available@[j]).desired_state@.dom().finite()
                &&& thinker.goals_available@[j].desired_state@.len() <= u32::MAX
            },
        decreases n - i,
    {
        if thinker.goals_available[i].desired_state.len() > 0xFFFF_FFFF {
            return false;
        }
        i = i + 1;
    }
    let allowed = costed_actions(&thinker.actions_available, costs);
    let nothing = GoapPlannerWorkingFacts::new();
    search_fits(&nothing, &allowed)
}

/// The goal at index `i` is the first with identifier `id`.
pub open spec fn is_first_with_id(goals: Seq<GGoal<Goals>>, id: usize, i: int) -> bool {
    &&& 0 <= i < goals.len()
    &&& goals[i].id == id
    &&& forall|j: int| 0 <= j < i ==> (#[trigger] goals[j]).id != id
}

/// What planning left as the current plan: the plan from `state` to `goal`
/// that the planner's search found, or else the plan held before, when the
/// search found that none exists.  When every action costs at least as
/// much as the goal facts it sets, the plan found is a cheapest one.
pub open spec fn planned_for(
    before: Option<Vec<usize>>,
    after: Option<Vec<usize>>,
    state: FactsView,
    goal: FactsView,
    specs: Seq<ActionSpec>,
) -> bool {
    ||| {
        &&& after matches Some(ids)
        &&& exists|steps: Seq<int>| #[trigger] is_valid_plan(state, goal, specs, steps) && ids@ == plan_ids(specs, steps)
        &&& astar_path((PlanNodeView { state: state, action: None }), goal, specs) matches Some(p)
        &&& ids@ == path_action_ids(p)
        &&& costs_cover_goal_facts(goal, specs) ==> exists|steps: Seq<int>|
            #[trigger] is_cheapest_plan(state, goal, specs, steps) && ids@ == plan_ids(specs, steps)
    }
    ||| {
        &&& after == before
        &&& forall|steps: Seq<int>| !#[trigger] is_valid_plan(state, goal, specs, steps)
        &&& astar_path((PlanNodeView { state: state, action: None }), goal, specs) is None
    }
}

/// A state that satisfies a goal has reached it.
proof fn lemma_satisfied_is_reached(state: FactsView, desired: FactsView)
    requires
        satisfies(state, desired),
    ensures
        desired_state_reached(desired, state),
{
}

/// What `goap_plan_system` does to a thinker: when a goal is chosen (`r`
/// is its identifier), it is the best goal, the thinker starts executing it
/// and holds the plan the planner's search found for the first goal with
/// that identifier (or the plan it held, when the search found none); a
/// newly held plan names only the thinker's actions.  When no goal is
/// chosen, no eligible goal has a positive priority and the thinker is
/// unchanged.  The thinker's invariant is kept.
pub open spec fn plan_system_step(before: GoapThinker, after: GoapThinker, r: Option<usize>, state: FactsView, costs: Seq<u32>) -> bool {
    &&& before.wf() ==> after.wf()
    &&& after.actor_state == before.actor_state
    &&& after.actions_available == before.actions_available
    &&& after.goals_available == before.goals_available
    &&& match r {
            Some(id) => {
                &&& exists|i: int| #[trigger] is_best_goal(before.goals_available@, state, i)
                    && before.goals_available@[i].id == id
                &&& after.state == ThinkerActionState::Executing
                &&& after.current_goal == Some(id)
                &&& exists|i: int| #[trigger] is_first_with_id(before.goals_available@, id, i)
                    && planned_for(
                        before.current_plan,
                        after.current_plan,
                        state,
                        before.goals_available@[i].desired_state@,
                        costed_specs(before.actions_available@, costs),
                    )
            },
            None => {
                &&& forall|i: int| 0 <= i < before.goals_available@.len()
                    && #[trigger] goal_eligible(before.goals_available@[i], state)
                    ==> goal_priority(before.goals_available@[i]) == 0
                &&& after.state == before.state
                &&& after.current_goal == before.current_goal
                &&& after.current_plan == before.current_plan
            },
        }
    &&& after.current_plan != before.current_plan ==> (after.current_plan matches Some(p)
        && forall|k: int| 0 <= k < p@.len() ==> has_action_with_id(after.actions_available@, #[trigger] p@[k]))
}

/// Chooses the goal to pursue from `initial_state` and plans for it with
/// the actions at `costs`.  When a goal is chosen, the thinker starts
/// executing it and holds the plan found, if any; the chosen goal's
/// identifier is returned.  When none is chosen, the thinker is unchanged.
pub fn goap_plan_system(thinker: &mut GoapThinker, initial_state: &GoapPlannerWorkingFacts, costs: &Vec<u32>) -> (r: Option<usize>)
    requires
        costs@.len() == old(thinker).actions_available@.len(),
        planning_fits_for(*old(thinker), costs@),
    ensures
        plan_system_step(*old(thinker), *final(thinker), r, initial_state@, costs@),
{
    let best_goal = select_goal(&thinker.goals_available, initial_state);
    match best_goal {
        None => None,
        Some(g) => {
            let ghost goals = thinker.goals_available@;
            let ghost best = choose|i: int| #[trigger] is_best_goal(goals, initial_state@, i) && goals[i].id == g;
            thinker.state = ThinkerActionState::Executing;
            thinker.current_goal = Some(g);
            let has_id = |goal: &GGoal<Goals>| -> (b: bool)
                ensures
                    b == (goal.id == g),
                {
                    goal.id == g
                };
            let found = search_by_function(&thinker.goals_available, has_id);
            proof {
                if found is None {
                    assert(goals[best].id == g);
                }
            }
            let goal = found.unwrap();
            let ghost first = choose|i: int| 0 <= i < goals.len() && *goal == goals[i]
                && goals[i].id == g
                && forall|j: int| 0 <= j < i ==> goals[j].id != g;
            proof {
                assert(is_first_with_id(goals, g, first));
            }
            let allowed = costed_actions(&thinker.actions_available, costs);
            let ghost specs = costed_specs(thinker.actions_available@, costs@);
            proof {
                assert(goal.desired_state@.len() <= u32::MAX);
                assert(goal.desired_state@.dom().finite());
            }
            let goap_plan = plan(initial_state, &goal.desired_state, &allowed);
            match goap_plan {
                Some(p) => {
                    proof {
                        let steps = choose|steps: Seq<int>| #[trigger] is_valid_plan(initial_state@, goal.desired_state@, specs, steps)
                            && p@ == plan_ids(specs, steps);
                        if goal_ids_distinct(goals) && steps.len() == 0 {
                            assert(first == best);
                            assert(steps =~= Seq::<int>::empty());
                            lemma_satisfied_is_reached(initial_state@, goal.desired_state@);
                        }
                        assert forall|k: int| 0 <= k < p@.len() implies has_action_with_id(thinker.actions_available@, #[trigger] p@[k]) by {
                            assert(0 <= steps[k] < specs.len());
                            assert(thinker.actions_available@[steps[k]].id == p@[k]);
                        }
                    }
                    thinker.current_plan = Some(p);
                },
                None => {},
            }
            Some(g)
        },
    }
}

/// The action a thinker is to perform (and whose blackboard entries are
/// cleared before it plans again): the first of its actions with the
/// identifier at the head of its plan.
pub fn current_action(thinker: &GoapThinker) -> (r: Option<&GAction<Actions>>)
    requires
        head_known(thinker.current_plan, thinker.actions_available@),
    ensures
        match thinker.current_plan {
            None => r is None,
            Some(p) => r matches Some(a) && exists|i: int| 0 <= i < thinker.actions_available@.len()
                && *a == thinker.actions_available@[i]
                && a.id == p@[0]
                && forall|j: int| 0 <= j < i ==> (#[trigger] thinker.actions_available@[j]).id != p@[0],
        },
{
    match &thinker.current_plan {
        None => None,
        Some(p) => {
            let head = p[0];
            let has_id = |action: &GAction<Actions>| -> (b: bool)
                ensures
                    b == (action.id == head),
                {
                    action.id == head
                };
            let found = search_by_function(&thinker.actions_available, has_id);
            proof {
                if found is None {
                    assert(has_action_with_id(thinker.actions_available@, p@[0]));
                    let j = choose|j: int| 0 <= j < thinker.actions_available@.len() && thinker.actions_available@[j].id == p@[0];
                    assert(false);
                }
            }
            found
        },
    }
}

/// What `goap_execute_action_system` does to a thinker after it has tried
/// its current action (`performed` tells whether the action is done): with
/// no plan, the thinker asks to plan again; an action not yet done leaves
/// the thinker as it was; a done action leaves the plan, and the last one
/// of a plan makes the thinker plan again.  Afterwards the thinker holds a
/// non-empty plan or asks to plan again, and its invariant is kept.
pub open spec fn execution_step(before: GoapThinker, after: GoapThinker, performed: bool) -> bool {
    &&& before.wf() ==> after.wf()
    &&& plan_ok(before.current_plan, before.actions_available@) ==> plan_ok(after.current_plan, after.actions_available@)
    &&& after.state == ThinkerActionState::Executing ==> after.current_plan is Some
    &&& after.current_plan is None ==> after.state == ThinkerActionState::ShouldUpdate
    &&& after.current_plan matches Some(q) ==> q@.len() > 0
    &&& after.actor_state == before.actor_state
    &&& after.actions_available == before.actions_available
    &&& after.goals_available == before.goals_available
    &&& after.current_goal == before.current_goal
    &&& match before.current_plan {
        None => after.current_plan is None && after.state == ThinkerActionState::ShouldUpdate,
        Some(p) => if !performed {
            after.current_plan == before.current_plan && after.state == before.state
        } else if p@.len() == 1 {
            after.current_plan is None && after.state == ThinkerActionState::ShouldUpdate
        } else {
            after.current_plan matches Some(q) && q@ == p@.drop_first() && after.state == before.state
        },
    }
}

/// Stepping through a plan: an action not yet done changes nothing; a
/// finished action that is not the last of the plan is taken off the front
/// of the plan and the thinker keeps the state it had (an executing thinker
/// goes on executing); the last action of a plan leaves no plan and the
/// thinker asks to plan again.
pub proof fn lemma_plan_steps(before: GoapThinker, after: GoapThinker, p: Vec<usize>, performed: bool)
    requires
        before.current_plan == Some(p),
        execution_step(before, after, performed),
    ensures
        !performed ==> after.current_plan == before.current_plan && after.state == before.state,
        performed && p@.len() > 1 ==> after.state == before.state
            && (after.current_plan matches Some(q) && q@ == p@.subrange(1, p@.len() as int)),
        performed && p@.len() == 1 ==> after.current_plan is None
            && after.state == ThinkerActionState::ShouldUpdate,
{
    if performed && p@.len() > 1 {
        assert(p@.drop_first() =~= p@.subrange(1, p@.len() as int));
    }
}

/// The law of an agent's frame: a thinker that keeps its invariant, planned
/// for when it asks to (as `goap_plan_system` leaves it) or left as it is
/// while it executes, and then stepped once (as
/// `goap_execute_action_system` leaves it), keeps its invariant; afterwards
/// it holds a non-empty plan whose first action it has, or it has no plan
/// and asks to plan again.
pub proof fn lemma_frame_law(
    start: GoapThinker,
    planned: GoapThinker,
    after: GoapThinker,
    chosen: Option<usize>,
    state: FactsView,
    costs: Seq<u32>,
    performed: bool,
)
    requires
        start.wf(),
        start.state == ThinkerActionState::ShouldUpdate ==> plan_system_step(start, planned, chosen, state, costs),
        start.state == ThinkerActionState::Executing ==> planned == start,
        execution_step(planned, after, performed),
    ensures
        after.wf(),
        head_known(after.current_plan, after.actions_available@),
        after.current_plan is None ==> after.state == ThinkerActionState::ShouldUpdate,
        after.current_plan matches Some(p) ==> p@.len() > 0,
{
}

/// Whether a thinker can take its next step: it has no plan, or the first
/// identifier of its plan names one of its actions.
pub fn head_is_known(thinker: &GoapThinker) -> (r: bool)
    ensures
        r == head_known(thinker.current_plan, thinker.actions_available@),
{
    match &thinker.current_plan {
        None => true,
        Some(p) => {
            if p.len() == 0 {
                return false;
            }
            let head = p[0];
            let n = thinker.actions_available.len();
            let mut i: usize = 0;
            while i < n
                invariant
                    n == thinker.actions_available@.len(),
                    i <= n,
                    thinker.current_plan == Some(*p),
                    p@.len() > 0,
                    head == p@[0],
                    forall|j: int| 0 <= j < i ==> (#[trigger] thinker.actions_available@[j]).id != head,
                decreases n - i,
            {
                if thinker.actions_available[i].id == head {
                    assert(has_action_with_id(thinker.actions_available@, p@[0])) by {
                        assert(thinker.actions_available@[i as int].id == p@[0]);
                    }
                    return true;
                }
                i = i + 1;
            }
            false
        },
    }
}

/// Advances a thinker after it has tried its current action: when the
/// action is done it leaves the plan, and a finished plan (or no plan at
/// all) makes the thinker plan again.
pub fn goap_execute_action_system(thinker: &mut GoapThinker, performed: bool)
    requires
        head_known(old(thinker).current_plan, old(thinker).actions_available@),
    ensures
        execution_step(*old(thinker), *final(thinker), performed),
{
    match thinker.current_plan.take() {
        Some(mut p) => {
            if performed {
                let ghost before = p@;
                p.remove(0);
                if p.len() == 0 {
                    thinker.current_plan = None;
                    thinker.state = ThinkerActionState::ShouldUpdate;
                } else {
                    proof {
                        assert(p@ =~= before.drop_first());
                        if plan_ok(old(thinker).current_plan, old(thinker).actions_available@) {
                            assert forall|k: int| 0 <= k < p@.len() implies has_action_with_id(thinker.actions_available@, #[trigger] p@[k]) by {
                                assert(p@[k] == before[k + 1]);
                            }
                        }
                    }
                    thinker.current_plan = Some(p);
                }
            } else {
                thinker.current_plan = Some(p);
            }
        },
        None => {
            thinker.state = ThinkerActionState::ShouldUpdate;
        },
    }
}

} // verus!

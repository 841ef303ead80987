use godot_rust_goap_ecs::actions::actions_declaration::Actions;
use godot_rust_goap_ecs::actions::godot_action_resource::ActionResource;
use godot_rust_goap_ecs::components::agent_components::Inventory;
use godot_rust_goap_ecs::goals::goals_declaration::Goals;
use godot_rust_goap_ecs::goals::godot_goal_resource::GoalResource;
use godot_rust_goap_ecs::goap::goap_planner::GoapPlannerWorkingFacts;
use godot_rust_goap_ecs::goap_system::ecs_thinker::{
    search_by_function, search_by_function_mut, GoapThinker, ThinkerActionState,
};
use godot_rust_goap_ecs::goap_system::goap_system::{
    current_action, goap_execute_action_system, goap_plan_system, head_is_known, is_desired_state_reached, planning_fits,
    planning_state, select_goal,
};
use godot_rust_goap_ecs::string_map::StringMap;

fn facts(pairs: &[(&str, bool)]) -> GoapPlannerWorkingFacts {
    let mut f = GoapPlannerWorkingFacts::new();
    for (k, v) in pairs {
        f.insert(k.to_string(), *v);
    }
    f
}

fn pairs(p: &[(&str, bool)]) -> Option<Vec<(String, bool)>> {
    Some(p.iter().map(|(k, v)| (k.to_string(), *v)).collect())
}

fn wood_thinker() -> GoapThinker {
    let actions = vec![
        ActionResource {
            action: Some(Actions::ChopTree),
            cost: 2,
            name: "chop".to_string(),
            pre_conditions: None,
            post_conditions: pairs(&[("has_wood", true)]),
        },
        ActionResource {
            action: Some(Actions::BuildFirepit),
            cost: 1,
            name: "build".to_string(),
            pre_conditions: pairs(&[("has_wood", true)]),
            post_conditions: pairs(&[("is_firepit_burning", true)]),
        },
    ];
    let goals = vec![
        GoalResource { goal: Some(Goals::DefaultGoal), priority: 1, name: "idle".to_string(), desired_state: pairs(&[("rested", true)]) },
        GoalResource {
            goal: Some(Goals::DefaultGoal),
            priority: 5,
            name: "warm".to_string(),
            desired_state: pairs(&[("is_firepit_burning", true)]),
        },
    ];
    GoapThinker::from_resources(&actions, &goals)
}

#[test]
fn from_resources_numbers_actions_and_goals() {
    let thinker = wood_thinker();
    assert_eq!(thinker.actions_available.len(), 2);
    assert_eq!(thinker.actions_available[0].id, 0);
    assert_eq!(thinker.actions_available[1].id, 1);
    assert_eq!(thinker.actions_available[1].action, Actions::BuildFirepit);
    assert_eq!(thinker.actions_available[1].pre_conditions, facts(&[("has_wood", true)]));
    assert_eq!(thinker.goals_available[1].id, 1);
    assert_eq!(thinker.goals_available[1].priority, 5);
    assert_eq!(thinker.state, ThinkerActionState::ShouldUpdate);
    assert_eq!(thinker.current_plan, None);
    assert_eq!(thinker.current_goal, None);
}

#[test]
fn select_goal_takes_the_highest_priority_goal_not_reached() {
    let thinker = wood_thinker();
    assert_eq!(select_goal(&thinker.goals_available, &GoapPlannerWorkingFacts::new()), Some(1));
    assert_eq!(select_goal(&thinker.goals_available, &facts(&[("is_firepit_burning", true)])), Some(0));
    assert_eq!(
        select_goal(&thinker.goals_available, &facts(&[("is_firepit_burning", true), ("rested", true)])),
        None
    );
}

#[test]
fn a_goal_wanting_a_fact_false_is_reached_when_the_fact_is_absent() {
    assert!(is_desired_state_reached(&facts(&[("scared", false)]), &GoapPlannerWorkingFacts::new()));
    assert!(is_desired_state_reached(&facts(&[("scared", false)]), &facts(&[("scared", false)])));
    assert!(!is_desired_state_reached(&facts(&[("scared", false)]), &facts(&[("scared", true)])));
    assert!(!is_desired_state_reached(&facts(&[("warm", true)]), &GoapPlannerWorkingFacts::new()));
}

#[test]
fn planning_state_layers_actor_global_and_inventory_facts() {
    let mut items = StringMap::new();
    items.insert("wood".to_string(), 3u32);
    let inventory = Inventory { max_weight: 5, items };
    let state = planning_state(
        &facts(&[("a", true), ("b", true)]),
        &facts(&[("b", false), ("has_wood", false)]),
        Some(&inventory),
    );
    assert_eq!(state, facts(&[("a", true), ("b", false), ("has_wood", true)]));
    let without = planning_state(&facts(&[("a", true)]), &facts(&[("a", false)]), None);
    assert_eq!(without, facts(&[("a", false)]));
}

#[test]
fn the_thinker_plans_then_executes_its_plan() {
    let mut thinker = wood_thinker();
    let initial = planning_state(&thinker.actor_state, &GoapPlannerWorkingFacts::new(), None);
    let costs = vec![2u32, 1];
    assert!(planning_fits(&thinker, &costs));
    let goal = goap_plan_system(&mut thinker, &initial, &costs);
    assert_eq!(goal, Some(1));
    assert_eq!(thinker.state, ThinkerActionState::Executing);
    assert_eq!(thinker.current_goal, Some(1));
    assert_eq!(thinker.current_plan, Some(vec![0, 1]));
    assert_eq!(current_action(&thinker).map(|a| a.name.clone()), Some("chop".to_string()));

    goap_execute_action_system(&mut thinker, false);
    assert_eq!(thinker.current_plan, Some(vec![0, 1]));
    assert_eq!(thinker.state, ThinkerActionState::Executing);

    goap_execute_action_system(&mut thinker, true);
    assert_eq!(thinker.current_plan, Some(vec![1]));
    assert_eq!(current_action(&thinker).map(|a| a.id), Some(1));

    goap_execute_action_system(&mut thinker, true);
    assert_eq!(thinker.current_plan, None);
    assert_eq!(thinker.state, ThinkerActionState::ShouldUpdate);
    assert!(current_action(&thinker).is_none());

    goap_execute_action_system(&mut thinker, true);
    assert_eq!(thinker.state, ThinkerActionState::ShouldUpdate);
}

#[test]
fn no_goal_leaves_the_thinker_as_it_was() {
    let mut thinker = wood_thinker();
    let initial = facts(&[("is_firepit_burning", true), ("rested", true)]);
    let costs = vec![2u32, 1];
    assert_eq!(goap_plan_system(&mut thinker, &initial, &costs), None);
    assert_eq!(thinker.state, ThinkerActionState::ShouldUpdate);
    assert_eq!(thinker.current_plan, None);
    assert_eq!(thinker.current_goal, None);
}

#[test]
fn an_unreachable_goal_is_chosen_without_a_plan() {
    let mut thinker = wood_thinker();
    let initial = facts(&[("is_firepit_burning", true)]);
    let costs = vec![2u32, 1];
    assert_eq!(goap_plan_system(&mut thinker, &initial, &costs), Some(0));
    assert_eq!(thinker.state, ThinkerActionState::Executing);
    assert_eq!(thinker.current_plan, None);
    goap_execute_action_system(&mut thinker, false);
    assert_eq!(thinker.state, ThinkerActionState::ShouldUpdate);
}

#[test]
fn search_by_function_finds_the_first_match() {
    let values = vec![3, 8, 5, 8];
    assert_eq!(search_by_function(&values, |v: &i32| *v > 4), Some(&8));
    assert_eq!(search_by_function(&values, |v: &i32| *v > 10), None);
    let mut values = vec![1, 2, 3];
    if let Some(found) = search_by_function_mut(&mut values, |v: &i32| *v == 2) {
        *found = 20;
    }
    assert_eq!(values, vec![1, 20, 3]);
    assert!(search_by_function_mut(&mut values, |v: &i32| *v == 7).is_none());
}

#[test]
fn head_is_known_checks_the_first_step_of_the_plan() {
    let mut thinker = wood_thinker();
    assert!(head_is_known(&thinker));
    thinker.current_plan = Some(vec![1, 7]);
    assert!(head_is_known(&thinker));
    thinker.current_plan = Some(vec![7, 1]);
    assert!(!head_is_known(&thinker));
    thinker.current_plan = Some(vec![]);
    assert!(!head_is_known(&thinker));
}

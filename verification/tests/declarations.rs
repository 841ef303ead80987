use godot_rust_goap_ecs::actions::actions_declaration::Actions;
use godot_rust_goap_ecs::actions::build_firepit::{firepit_is_burning, firepit_step, FirepitStep};
use godot_rust_goap_ecs::actions::gathering::{gather_step, GatherStep};
use godot_rust_goap_ecs::actions::godot_action_resource::ActionResource;
use godot_rust_goap_ecs::components::agent_components::Inventory;
use godot_rust_goap_ecs::ecs::add_resource;
use godot_rust_goap_ecs::goals::goals_declaration::Goals;
use godot_rust_goap_ecs::goals::godot_goal_resource::GoalResource;
use godot_rust_goap_ecs::goap::example_sensors::apply_object_sighting;
use godot_rust_goap_ecs::goap::goap_planner::GoapPlannerWorkingFacts;
use godot_rust_goap_ecs::goap_system::ecs_thinker::{GoapThinker, ThinkerActionState};
use godot_rust_goap_ecs::string_map::StringMap;

#[test]
fn action_numbers_round_trip() {
    let all = [
        Actions::FindTree,
        Actions::ChopTree,
        Actions::CollectWood,
        Actions::BuildFirepit,
        Actions::FindFood,
        Actions::FindCover,
        Actions::CalmDown,
    ];
    for a in all {
        assert_eq!(Actions::from_index(a.to_index()), Some(a));
    }
    assert_eq!(Actions::FindCover.to_index(), 5);
    assert_eq!(Actions::FindFood.to_index(), 6);
    assert_eq!(Actions::from_index(0), None);
    assert_eq!(Actions::from_index(8), None);
    assert_eq!(Goals::from_index(Goals::DefaultGoal.to_index()), Some(Goals::DefaultGoal));
    assert_eq!(Goals::from_index(2), None);
}

#[test]
fn resources_become_actions_and_goals() {
    let resource = ActionResource {
        action: Some(Actions::FindFood),
        cost: 3,
        name: "find food".to_string(),
        pre_conditions: Some(vec![("hungry".to_string(), true), ("hungry".to_string(), false)]),
        post_conditions: Some(vec![]),
    };
    let action = resource.to_goap_action(4);
    assert_eq!(action.id, 4);
    assert_eq!(action.cost, 3);
    assert_eq!(action.name, "find food");
    assert_eq!(action.action, Actions::FindFood);
    assert_eq!(action.pre_conditions.get("hungry"), Some(&false));
    assert!(action.post_conditions.is_empty());
    assert!(resource.option_dict_to_planner_facts(None).is_empty());

    let goal = GoalResource { goal: Some(Goals::DefaultGoal), priority: 2, name: "g".to_string(), desired_state: None };
    let g = goal.to_goap_goal(9);
    assert_eq!(g.id, 9);
    assert_eq!(g.priority, 2);
    assert!(g.desired_state.is_empty());
}

#[test]
fn resources_are_filed_by_name() {
    let mut resources: StringMap<Vec<u32>> = StringMap::new();
    add_resource(&mut resources, "FirePitPosition".to_string(), 1);
    add_resource(&mut resources, "FirePitPosition".to_string(), 2);
    add_resource(&mut resources, "Other".to_string(), 3);
    assert_eq!(resources.get("FirePitPosition"), Some(&vec![1, 2]));
    assert_eq!(resources.get("Other"), Some(&vec![3]));
    assert_eq!(resources.len(), 2);
}

#[test]
fn gathering_seeks_waits_or_finishes() {
    let mut items = StringMap::new();
    items.insert("wood".to_string(), 0u32);
    items.insert("food".to_string(), 2u32);
    let inventory = Inventory { max_weight: 1, items };
    assert_eq!(gather_step(&inventory, "wood", true), GatherStep::Seek);
    assert_eq!(gather_step(&inventory, "food", false), GatherStep::Done);
    assert_eq!(gather_step(&inventory, "stone", true), GatherStep::Wait);
    assert_eq!(gather_step(&inventory, "stone", false), GatherStep::Seek);
}

#[test]
fn firepit_burning_is_read_from_global_facts() {
    let mut facts = GoapPlannerWorkingFacts::new();
    assert!(!firepit_is_burning(&facts));
    facts.insert("is_firepit_burning".to_string(), false);
    assert!(!firepit_is_burning(&facts));
    facts.insert("is_firepit_burning".to_string(), true);
    assert!(firepit_is_burning(&facts));
}

#[test]
fn building_a_firepit_heads_there_then_crafts_on_arrival() {
    assert_eq!(firepit_step(false, false, false), FirepitStep::HeadThere);
    assert_eq!(firepit_step(false, true, true), FirepitStep::HeadThere);
    assert_eq!(firepit_step(true, false, false), FirepitStep::CarryOn);
    assert_eq!(firepit_step(true, true, true), FirepitStep::CarryOn);
    assert_eq!(firepit_step(true, true, false), FirepitStep::Craft);
}

#[test]
fn sightings_set_see_facts_and_ask_for_planning_when_counts_change() {
    let mut thinker = GoapThinker::from_resources(&vec![], &vec![]);
    thinker.state = ThinkerActionState::Executing;
    apply_object_sighting(&mut thinker, &"tree".to_string(), None, 2);
    assert_eq!(thinker.actor_state.get("see_tree"), Some(&true));
    assert_eq!(thinker.state, ThinkerActionState::Executing);
    apply_object_sighting(&mut thinker, &"tree".to_string(), Some(2), 2);
    assert_eq!(thinker.state, ThinkerActionState::Executing);
    apply_object_sighting(&mut thinker, &"tree".to_string(), Some(2), 0);
    assert_eq!(thinker.actor_state.get("see_tree"), Some(&false));
    assert_eq!(thinker.state, ThinkerActionState::ShouldUpdate);
}

use godot_rust_goap_ecs::goap::goap_planner::{path_actions, plan, search_fits, GoapPlannerWorkingFacts, PlanNode};
use godot_rust_goap_ecs::goap_system::action::GAction;

fn facts(pairs: &[(&str, bool)]) -> GoapPlannerWorkingFacts {
    let mut f = GoapPlannerWorkingFacts::new();
    for (k, v) in pairs {
        f.insert(k.to_string(), *v);
    }
    f
}

fn action(id: usize, name: &str, pre: GoapPlannerWorkingFacts, post: GoapPlannerWorkingFacts) -> GAction<()> {
    GAction { id, name: name.to_string(), cost: 0, action: (), pre_conditions: pre, post_conditions: post }
}

#[test]
fn test_goap_planner() {
    let actions = vec![
        action(1, "A to B", GoapPlannerWorkingFacts::new(), facts(&[("A", true)])),
        action(2, "B to win", facts(&[("A", true)]), facts(&[("Win", true)])),
        action(3, "C to win", GoapPlannerWorkingFacts::new(), facts(&[("Win", true)])),
    ];
    let initial_state = GoapPlannerWorkingFacts::new();
    let desired_state = facts(&[("Win", true)]);
    let actions_refs_with_cost: Vec<(&GAction<()>, u32)> = actions
        .iter()
        .enumerate()
        .map(|(iteration_count, action)| (action, (iteration_count as u32 + 1).pow(2)))
        .collect();
    assert!(search_fits(&desired_state, &actions_refs_with_cost));
    let result = plan(&initial_state, &desired_state, &actions_refs_with_cost);
    assert_eq!(result, Some(vec![1, 2]));
}

#[test]
fn plan_takes_the_direct_action_when_it_is_cheaper() {
    let actions = vec![
        action(1, "A to B", GoapPlannerWorkingFacts::new(), facts(&[("A", true)])),
        action(2, "B to win", facts(&[("A", true)]), facts(&[("Win", true)])),
        action(3, "C to win", GoapPlannerWorkingFacts::new(), facts(&[("Win", true)])),
    ];
    let costs = [5u32, 5, 1];
    let offered: Vec<(&GAction<()>, u32)> = actions.iter().zip(costs).collect();
    let result = plan(&GoapPlannerWorkingFacts::new(), &facts(&[("Win", true)]), &offered);
    assert_eq!(result, Some(vec![3]));
}

#[test]
fn plan_is_empty_when_goal_already_holds() {
    let a = action(7, "set x", GoapPlannerWorkingFacts::new(), facts(&[("x", true)]));
    let actions = vec![(&a, 1u32)];
    let result = plan(&facts(&[("x", true)]), &facts(&[("x", true)]), &actions);
    assert_eq!(result, Some(vec![]));
}

#[test]
fn plan_is_none_when_goal_unreachable() {
    let a = action(7, "set x", GoapPlannerWorkingFacts::new(), facts(&[("x", true)]));
    let actions = vec![(&a, 1u32)];
    let result = plan(&GoapPlannerWorkingFacts::new(), &facts(&[("y", true)]), &actions);
    assert_eq!(result, None);
}

#[test]
fn plan_respects_preconditions() {
    let actions = vec![
        action(1, "needs key", facts(&[("has_key", true)]), facts(&[("door_open", true)])),
        action(2, "get key", GoapPlannerWorkingFacts::new(), facts(&[("has_key", true)])),
    ];
    let offered: Vec<(&GAction<()>, u32)> = actions.iter().map(|a| (a, 1)).collect();
    let result = plan(&GoapPlannerWorkingFacts::new(), &facts(&[("door_open", true)]), &offered);
    assert_eq!(result, Some(vec![2, 1]));
}

#[test]
fn a_goal_fact_wanted_false_must_be_present() {
    let a = action(4, "set x false", GoapPlannerWorkingFacts::new(), facts(&[("x", false)]));
    let offered = vec![(&a, 1u32)];
    let result = plan(&GoapPlannerWorkingFacts::new(), &facts(&[("x", false)]), &offered);
    assert_eq!(result, Some(vec![4]));
}

#[test]
fn mismatch_count_counts_missing_and_different() {
    let node = PlanNode::initial(&facts(&[("a", true), ("b", false)]));
    let target = facts(&[("a", true), ("b", true), ("c", false)]);
    assert_eq!(node.mismatch_count(&target), 2);
    assert!(!node.matches_target(&target));
    assert!(node.matches_target(&facts(&[("b", false)])));
    assert_eq!(node.mismatch_count(&GoapPlannerWorkingFacts::new()), 0);
}

#[test]
fn child_overwrites_the_parent_state() {
    let a = action(9, "flip", GoapPlannerWorkingFacts::new(), facts(&[("a", false), ("c", true)]));
    let node = PlanNode::child(facts(&[("a", true), ("b", true)]), &a);
    assert_eq!(node.action, Some(9));
    assert_eq!(node.current_state, facts(&[("a", false), ("b", true), ("c", true)]));
}

#[test]
fn possible_next_nodes_keeps_applicable_actions_in_order() {
    let actions = vec![
        action(1, "needs a", facts(&[("a", true)]), facts(&[("x", true)])),
        action(2, "needs b", facts(&[("b", true)]), facts(&[("y", true)])),
        action(3, "free", GoapPlannerWorkingFacts::new(), facts(&[("z", true)])),
    ];
    let offered: Vec<(&GAction<()>, u32)> = actions.iter().map(|a| (a, a.id as u32 * 10)).collect();
    let node = PlanNode::initial(&facts(&[("a", true)]));
    let next = node.possible_next_nodes(&offered);
    assert_eq!(next.len(), 2);
    assert_eq!(next[0].0.action, Some(1));
    assert_eq!(next[0].1, 10);
    assert_eq!(next[0].0.current_state, facts(&[("a", true), ("x", true)]));
    assert_eq!(next[1].0.action, Some(3));
    assert_eq!(next[1].1, 30);
    let wide = node.search_successors(&offered);
    assert_eq!(wide.len(), 2);
    assert_eq!(wide[0].1, 10u64);
    assert_eq!(wide[1].0, next[1].0);
    assert_eq!(node.search_heuristic(&facts(&[("a", false), ("q", true)])), 2u64);
}

#[test]
fn plan_works_from_a_large_state_with_many_actions() {
    let mut initial = GoapPlannerWorkingFacts::new();
    for i in 0..25 {
        initial.insert(format!("fact{}", i), i % 2 == 0);
    }
    let mut actions = Vec::new();
    for i in 0..7 {
        let pre = if i == 0 { GoapPlannerWorkingFacts::new() } else { facts(&[(&format!("step{}", i - 1), true)]) };
        actions.push(action(i, "step", pre, facts(&[(&format!("step{}", i), true), ("fact1", true)])));
    }
    let offered: Vec<(&GAction<()>, u32)> = actions.iter().map(|a| (a, 2u32)).collect();
    let goal = facts(&[("step6", true), ("fact1", true)]);
    assert!(search_fits(&goal, &offered));
    assert_eq!(plan(&initial, &goal, &offered), Some(vec![0, 1, 2, 3, 4, 5, 6]));
}

#[test]
fn search_fits_accepts_ordinary_goals_and_actions() {
    let a = action(1, "noop", facts(&[("a", true)]), GoapPlannerWorkingFacts::new());
    let offered = vec![(&a, 1u32)];
    assert!(search_fits(&facts(&[("x", true), ("y", false)]), &offered));
    assert!(search_fits(&GoapPlannerWorkingFacts::new(), &Vec::<(&GAction<()>, u32)>::new()));
}

#[test]
fn plan_is_cheapest_when_costs_cover_the_goal_facts_set() {
    let actions = vec![
        action(1, "expensive direct", GoapPlannerWorkingFacts::new(), facts(&[("win", true)])),
        action(2, "cheap first step", GoapPlannerWorkingFacts::new(), facts(&[("ready", true)])),
        action(3, "cheap finish", facts(&[("ready", true)]), facts(&[("win", true)])),
    ];
    let offered: Vec<(&GAction<()>, u32)> = vec![(&actions[0], 10), (&actions[1], 1), (&actions[2], 1)];
    assert_eq!(plan(&GoapPlannerWorkingFacts::new(), &facts(&[("win", true)]), &offered), Some(vec![2, 3]));
    let offered: Vec<(&GAction<()>, u32)> = vec![(&actions[0], 1), (&actions[1], 1), (&actions[2], 1)];
    assert_eq!(plan(&GoapPlannerWorkingFacts::new(), &facts(&[("win", true)]), &offered), Some(vec![1]));
}

#[test]
fn path_actions_lists_the_actions_after_the_start() {
    let start = PlanNode::initial(&facts(&[("a", true)]));
    let first = PlanNode { current_state: facts(&[("a", true), ("b", true)]), action: Some(4) };
    let second = PlanNode { current_state: facts(&[("a", false), ("b", true)]), action: Some(2) };
    assert_eq!(path_actions(&vec![start.clone(), first, second]), vec![4, 2]);
    assert_eq!(path_actions(&vec![start]), Vec::<usize>::new());
    assert_eq!(path_actions(&Vec::new()), Vec::<usize>::new());
}

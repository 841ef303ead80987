use godot_rust_goap_ecs::components::agent_components::{Collectible, Health, Inventory};
use godot_rust_goap_ecs::string_map::StringMap;
use godot_rust_goap_ecs::systems::inventory_system::{craft_from_inventory, pick_up_item};

fn inventory(items: &[(&str, u32)]) -> Inventory {
    let mut m = StringMap::new();
    for (k, v) in items {
        m.insert(k.to_string(), *v);
    }
    Inventory { max_weight: 10, items: m }
}

#[test]
fn add_one_files_items_under_the_key_given() {
    let mut inv = inventory(&[]);
    assert_eq!(inv.add_one(&"wood".to_string()), Ok(()));
    assert_eq!(inv.items.get("wood"), Some(&1));
    assert_eq!(inv.add_one(&"wood".to_string()), Ok(()));
    assert_eq!(inv.items.get("wood"), Some(&2));
    assert_eq!(inv.items.get("Wood"), None);
    assert_eq!(inv.max_weight, 10);
}

#[test]
fn remove_one_counts_down() {
    let mut inv = inventory(&[("food", 3)]);
    assert_eq!(inv.remove_one(&"food".to_string(), &"food".to_string()), Ok(2));
    assert_eq!(inv.items.get("food"), Some(&2));
    assert_eq!(inv.remove_one(&"FOOD".to_string(), &"food".to_string()), Ok(1));
    assert_eq!(inv.remove_one(&"food".to_string(), &"food".to_string()), Ok(0));
    assert_eq!(inv.items.get("food"), None);
    assert_eq!(inv.remove_one(&"food".to_string(), &"food".to_string()), Err(()));
}

#[test]
fn remove_one_of_a_zero_count_is_an_error() {
    let mut inv = inventory(&[("food", 0)]);
    assert_eq!(inv.remove_one(&"food".to_string(), &"food".to_string()), Err(()));
    assert_eq!(inv.items.get("food"), Some(&0));
}

#[test]
fn removing_the_last_one_under_an_uppercase_name_removes_that_name() {
    let mut inv = inventory(&[("food", 1)]);
    assert_eq!(inv.remove_one(&"Food".to_string(), &"food".to_string()), Ok(0));
    assert_eq!(inv.items.get("food"), Some(&1));
}

#[test]
fn add_then_remove_gives_back_the_counts() {
    let mut inv = inventory(&[("wood", 4), ("food", 1)]);
    let before = inv.items.duplicate();
    inv.add_one(&"wood".to_string()).unwrap();
    assert_eq!(inv.remove_one(&"wood".to_string(), &"wood".to_string()), Ok(4));
    assert_eq!(inv.items, before);
    inv.add_one(&"stone".to_string()).unwrap();
    assert_eq!(inv.remove_one(&"stone".to_string(), &"stone".to_string()), Ok(0));
    assert_eq!(inv.items, before);
}

#[test]
fn to_state_says_which_items_are_held() {
    let inv = inventory(&[("wood", 2), ("food", 0)]);
    let state = inv.to_state();
    assert_eq!(state.get("has_wood"), Some(&true));
    assert_eq!(state.get("has_food"), Some(&false));
    assert_eq!(state.get("has_stone"), None);
    assert_eq!(state.len(), 2);
}

#[test]
fn health_takes_damage_and_regenerates() {
    let mut hp = Health { max: 10, current: 10, suffer: 0 };
    hp.take_hit();
    hp.take_hit();
    assert_eq!(hp.suffer, 2);
    hp.regenerate(1);
    assert_eq!(hp.suffer, 1);
    hp.update_health();
    assert_eq!(hp.current, 9);
    assert_eq!(hp.suffer, 0);
    assert!(!hp.is_dead());
    hp.suffer = 9;
    hp.update_health();
    assert_eq!(hp.current, 0);
    assert!(hp.is_dead());
}

#[test]
fn picking_up_an_item_counts_it_and_marks_it() {
    let mut inv = inventory(&[]);
    let mut item = Collectible { weight: 1, item_name: "Mushroom".to_string(), picked: false };
    assert!(pick_up_item(&mut inv, &mut item, &"mushroom".to_string()));
    assert!(item.picked);
    assert_eq!(inv.items.get("mushroom"), Some(&1));
}

#[test]
fn a_full_count_refuses_the_pick_up() {
    let mut inv = inventory(&[("mushroom", u32::MAX)]);
    let mut item = Collectible { weight: 1, item_name: "mushroom".to_string(), picked: false };
    assert!(!pick_up_item(&mut inv, &mut item, &"mushroom".to_string()));
    assert!(!item.picked);
    assert_eq!(inv.items.get("mushroom"), Some(&u32::MAX));
}

#[test]
fn crafting_a_firepit_takes_one_wood() {
    let mut inv = inventory(&[("wood", 2)]);
    assert!(craft_from_inventory(&mut inv, &"firepit".to_string()));
    assert_eq!(inv.items.get("wood"), Some(&1));
    assert!(craft_from_inventory(&mut inv, &"firepit".to_string()));
    assert_eq!(inv.items.get("wood"), Some(&0));
    assert!(!craft_from_inventory(&mut inv, &"firepit".to_string()));
    assert_eq!(inv.items.get("wood"), Some(&0));
    assert!(!craft_from_inventory(&mut inventory(&[("wood", 3)]), &"eat_food".to_string()));
    assert!(!craft_from_inventory(&mut inventory(&[]), &"firepit".to_string()));
}

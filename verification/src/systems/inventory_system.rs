//! What picking up an item and crafting do to an inventory.
use vstd::prelude::*;
use crate::components::agent_components::{Collectible, Inventory, added_one};

verus! {

/// Puts a collectible item into an inventory, filed under `key` (the
/// item's name in lowercase, as the engine's `to_lower` gives it), and marks
/// it picked.  When the inventory already holds as many of the item as a
/// count can record, it leaves both as they are and returns false.
pub fn pick_up_item(inventory: &mut Inventory, item: &mut Collectible, key: &String) -> (r: bool)
    ensures
        r == !(old(inventory).items@.contains_key(key@) && old(inventory).items@[key@] == u32::MAX),
        r ==> final(item).picked,
        r ==> final(inventory).items@ == added_one(old(inventory).items@, key@),
        !r ==> final(item).picked == old(item).picked && final(inventory).items@ == old(inventory).items@,
        final(item).item_name == old(item).item_name,
        final(item).weight == old(item).weight,
        final(inventory).max_weight == old(inventory).max_weight,
{
    match inventory.items.get(key.as_str()) {
        Some(count) => {
            if *count == u32::MAX {
                return false;
            }
        },
        None => {},
    }
    let _ = inventory.add_one(key);
    item.picked = true;
    true
}

/// Crafting: a `firepit` takes one `wood` from the inventory, when there is
/// some.  Returns true when the item is to be created.
pub fn craft_from_inventory(inventory: &mut Inventory, craft_target: &String) -> (r: bool)
    ensures
        r == (craft_target@ == "firepit"@ && old(inventory).items@.contains_key("wood"@)
            && old(inventory).items@["wood"@] != 0),
        r ==> final(inventory).items@ == old(inventory).items@.insert("wood"@, (old(inventory).items@["wood"@] - 1) as u32),
        !r ==> final(inventory).items@ == old(inventory).items@,
        final(inventory).max_weight == old(inventory).max_weight,
{
    let firepit = String::from_str("firepit");
    if *craft_target == firepit {
        match inventory.items.get("wood") {
            None => false,
            Some(count) => {
                if *count == 0 {
                    return false;
                }
                let next = *count - 1;
                inventory.items.insert(String::from_str("wood"), next);
                true
            },
        }
    } else {
        false
    }
}

} // verus!

//! The decision of the gathering actions (finding food, getting wood): go
//! for the item, wait for a pick-up already under way, or finish.
use vstd::prelude::*;
use crate::components::agent_components::Inventory;

verus! {

/// What a gathering action does next.
#[derive(PartialEq, Eq, Structural, Clone, Copy, Debug)]
pub enum GatherStep {
    /// Head for the closest item of the kind.
    Seek,
    /// A pick-up is already under way.
    Wait,
    /// The inventory holds the item: the action is done.
    Done,
}

/// The next step of gathering `item`: an inventory without the item seeks
/// one unless a pick-up is pending; one that holds none of it seeks one;
/// one that holds some is done.
pub fn gather_step(inventory: &Inventory, item: &str, pickup_pending: bool) -> (r: GatherStep)
    ensures
        r == (if !inventory.items@.contains_key(item@) {
            if pickup_pending { GatherStep::Wait } else { GatherStep::Seek }
        } else if inventory.items@[item@] == 0 {
            GatherStep::Seek
        } else {
            GatherStep::Done
        }),
{
    match inventory.items.get(item) {
        None => {
            if pickup_pending {
                GatherStep::Wait
            } else {
                GatherStep::Seek
            }
        },
        Some(count) => {
            if *count == 0 {
                GatherStep::Seek
            } else {
                GatherStep::Done
            }
        },
    }
}

} // verus!

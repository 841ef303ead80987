//! Building a firepit: done as soon as the world says one is burning;
//! until then, head for the firepit's place and craft it on arrival.
use vstd::prelude::*;
use crate::goap::goap_planner::GoapPlannerWorkingFacts;

verus! {

/// True when the global facts say a firepit is burning.
pub fn firepit_is_burning(global_facts: &GoapPlannerWorkingFacts) -> (r: bool)
    ensures
        r == (global_facts@.contains_key("is_firepit_burning"@) && global_facts@["is_firepit_burning"@]),
{
    match global_facts.get("is_firepit_burning") {
        None => false,
        Some(is_firepit_burning) => *is_firepit_burning,
    }
}

/// What an agent building a firepit does next, while none burns.
#[derive(PartialEq, Eq, Structural, Clone, Copy, Debug)]
pub enum FirepitStep {
    /// It has no destination yet: head for the firepit's place.
    HeadThere,
    /// It has arrived and is not waiting: craft the firepit where it stands
    /// and stop moving.
    Craft,
    /// It is on its way, or waiting: carry on.
    CarryOn,
}

/// The next step of building a firepit: an agent without a destination
/// heads for the firepit's place; one that has arrived at its destination
/// and is not waiting crafts; any other carries on.
pub fn firepit_step(heading: bool, arrived: bool, waiting: bool) -> (r: FirepitStep)
    ensures
        r == (if !heading {
            FirepitStep::HeadThere
        } else if arrived && !waiting {
            FirepitStep::Craft
        } else {
            FirepitStep::CarryOn
        }),
{
    if !heading {
        FirepitStep::HeadThere
    } else if arrived && !waiting {
        FirepitStep::Craft
    } else {
        FirepitStep::CarryOn
    }
}

} // verus!

//! What a sensor's sighting of objects changes in an agent's planning state.
use vstd::prelude::*;
use crate::goap_system::ecs_thinker::{GoapThinker, ThinkerActionState};

verus! {

/// The name of the fact that says whether an agent sees objects of a group
/// (named in lowercase).
pub open spec fn see_fact(group: Seq<char>) -> Seq<char> {
    "see_"@ + group
}

/// Records a sighting of the objects of a group, named by `group_key` (the
/// group's name in lowercase, as the engine's `to_lower` gives it): the
/// agent now sees them when at least one was found, and it plans again when
/// the number found differs from the number remembered.
pub fn apply_object_sighting(
    thinker: &mut GoapThinker,
    group_key: &String,
    remembered: Option<usize>,
    found: usize,
)
    ensures
        final(thinker).actor_state@ == old(thinker).actor_state@.insert(see_fact(group_key@), found > 0),
        final(thinker).state == (if remembered is Some && remembered != Some(found) {
            ThinkerActionState::ShouldUpdate
        } else {
            old(thinker).state
        }),
        final(thinker).current_goal == old(thinker).current_goal,
        final(thinker).current_plan == old(thinker).current_plan,
        final(thinker).actions_available == old(thinker).actions_available,
        final(thinker).goals_available == old(thinker).goals_available,
        old(thinker).wf() ==> final(thinker).wf(),
{
    match remembered {
        Some(count) => {
            if count != found {
                thinker.state = ThinkerActionState::ShouldUpdate;
            }
        },
        None => {},
    }
    let mut fact = String::from_str("see_");
    fact.append(group_key.as_str());
    thinker.actor_state.insert(fact, found > 0);
}

} // verus!

//! The kinds of action an agent can be given, and the numbers that name
//! them in the engine's resources.
use vstd::prelude::*;

verus! {

/// The kinds of action.
#[derive(PartialEq, Eq, Structural, Clone, Copy, Debug)]
pub enum Actions {
    FindTree,
    ChopTree,
    CollectWood,
    BuildFirepit,
    FindFood,
    FindCover,
    CalmDown,
}

impl Actions {
    /// The number that names the action.
    pub open spec fn index_of(self) -> i64 {
        match self {
            Actions::FindTree => 1,
            Actions::ChopTree => 2,
            Actions::CollectWood => 3,
            Actions::BuildFirepit => 4,
            Actions::FindCover => 5,
            Actions::FindFood => 6,
            Actions::CalmDown => 7,
        }
    }

    /// The action a number names, if any.
    pub open spec fn from_index_of(index: i64) -> Option<Actions> {
        if index == 1 {
            Some(Actions::FindTree)
        } else if index == 2 {
            Some(Actions::ChopTree)
        } else if index == 3 {
            Some(Actions::CollectWood)
        } else if index == 4 {
            Some(Actions::BuildFirepit)
        } else if index == 5 {
            Some(Actions::FindCover)
        } else if index == 6 {
            Some(Actions::FindFood)
        } else if index == 7 {
            Some(Actions::CalmDown)
        } else {
            None
        }
    }

    /// The number that names the action.
    pub fn to_index(&self) -> (r: i64)
        ensures
            r == self.index_of(),
    {
        match self {
            Actions::FindTree => 1,
            Actions::ChopTree => 2,
            Actions::CollectWood => 3,
            Actions::BuildFirepit => 4,
            Actions::FindCover => 5,
            Actions::FindFood => 6,
            Actions::CalmDown => 7,
        }
    }

    /// The action a number names; `None` for a number outside 1 to 7.
    pub fn from_index(index: i64) -> (r: Option<Actions>)
        ensures
            r == Actions::from_index_of(index),
    {
        match index {
            1 => Some(Actions::FindTree),
            2 => Some(Actions::ChopTree),
            3 => Some(Actions::CollectWood),
            4 => Some(Actions::BuildFirepit),
            5 => Some(Actions::FindCover),
            6 => Some(Actions::FindFood),
            7 => Some(Actions::CalmDown),
            _ => None,
        }
    }
}

/// The kinds of action in the order the editor lists them, each at its
/// number: 0 is no action, then FindTree, ChopTree, CollectWood,
/// BuildFirepit, FindCover, FindFood, CalmDown.
pub open spec fn editor_action_list() -> Seq<Option<Actions>> {
    seq![
        None,
        Some(Actions::FindTree),
        Some(Actions::ChopTree),
        Some(Actions::CollectWood),
        Some(Actions::BuildFirepit),
        Some(Actions::FindCover),
        Some(Actions::FindFood),
        Some(Actions::CalmDown),
    ]
}

/// Actions are numbered as the editor lists them: every action's number is
/// its place in the editor's list, and every number of the list names the
/// action at that place (other numbers name none).
pub proof fn lemma_actions_numbered_as_listed(action: Actions, index: i64)
    ensures
        0 < action.index_of() < editor_action_list().len(),
        editor_action_list()[action.index_of() as int] == Some(action),
        0 <= index < editor_action_list().len() ==> Actions::from_index_of(index) == editor_action_list()[index as int],
        (index < 0 || index >= editor_action_list().len()) ==> Actions::from_index_of(index) is None,
{
}

/// Reading back the number of an action gives the action.
pub proof fn lemma_actions_index_round_trip(action: Actions)
    ensures
        Actions::from_index_of(action.index_of()) == Some(action),
{
}

/// A number that names an action is that action's number, and the numbers
/// that name actions are exactly 1 to 7.
pub proof fn lemma_actions_from_index_inverse(index: i64)
    ensures
        Actions::from_index_of(index) matches Some(action) ==> action.index_of() == index,
        Actions::from_index_of(index) is Some <==> 1 <= index <= 7,
{
}

} // verus!

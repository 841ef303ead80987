//! Actions as a resource describes them, and their conversion into actions
//! the planner uses.
use vstd::prelude::*;
use crate::actions::actions_declaration::Actions;
use crate::goap::goap_planner::{FactsView, GoapPlannerWorkingFacts};
use crate::goap_system::action::GAction;
use crate::string_map::entries_map;

verus! {

/// The facts that a list of name and value pairs gives, later pairs
/// overriding earlier ones with the same name.
pub open spec fn pairs_facts(pairs: Seq<(String, bool)>) -> FactsView {
    entries_map(pairs.map_values(|p: (String, bool)| (p.0@, p.1)))
}

/// The facts of an optional list of pairs: none at all when absent.
pub open spec fn optional_pairs_facts(pairs: Option<Vec<(String, bool)>>) -> FactsView {
    match pairs {
        Some(p) => pairs_facts(p@),
        None => Map::empty(),
    }
}

/// Builds planner facts from name and value pairs.
pub fn pairs_to_planner_facts(pairs: &Vec<(String, bool)>) -> (r: GoapPlannerWorkingFacts)
    ensures
        r@ == pairs_facts(pairs@),
{
    let ghost views = pairs@.map_values(|p: (String, bool)| (p.0@, p.1));
    let mut facts = GoapPlannerWorkingFacts::new();
    let n = pairs.len();
    let mut i: usize = 0;
    assert(views.take(0) =~= Seq::<(Seq<char>, bool)>::empty());
    while i < n
        invariant
            n == pairs@.len(),
            views == pairs@.map_values(|p: (String, bool)| (p.0@, p.1)),
            i <= n,
            facts@ == entries_map(views.take(i as int)),
        decreases n - i,
    {
        let name = pairs[i].0.clone();
        let value = pairs[i].1;
        proof {
            assert(views.take(i + 1).drop_last() =~= views.take(i as int));
            assert(views[i as int] == (pairs@[i as int].0@, pairs@[i as int].1));
        }
        facts.insert(name, value);
        i = i + 1;
    }
    assert(views.take(n as int) =~= views);
    facts
}

/// An action as a resource describes it.
pub struct ActionResource {
    pub action: Option<Actions>,
    pub cost: u32,
    pub name: String,
    pub pre_conditions: Option<Vec<(String, bool)>>,
    pub post_conditions: Option<Vec<(String, bool)>>,
}

impl ActionResource {
    /// The facts of an optional list of pairs; an absent or empty list gives
    /// no facts.
    pub fn option_dict_to_planner_facts(&self, dict: Option<&Vec<(String, bool)>>) -> (r: GoapPlannerWorkingFacts)
        ensures
            r@ == match dict {
                Some(pairs) => pairs_facts(pairs@),
                None => Map::<Seq<char>, bool>::empty(),
            },
    {
        match dict {
            Some(pairs) => {
                if pairs.len() != 0 {
                    pairs_to_planner_facts(pairs)
                } else {
                    let facts = GoapPlannerWorkingFacts::new();
                    assert(pairs@.map_values(|p: (String, bool)| (p.0@, p.1)) =~= Seq::<(Seq<char>, bool)>::empty());
                    facts
                }
            },
            None => GoapPlannerWorkingFacts::new(),
        }
    }

    /// The action the planner uses, under the identifier `id`.
    pub fn to_goap_action(&self, id: usize) -> (r: GAction<Actions>)
        requires
            self.action is Some,
        ensures
            r.id == id,
            r.name@ == self.name@,
            r.cost == self.cost,
            Some(r.action) == self.action,
            r.pre_conditions@ == optional_pairs_facts(self.pre_conditions),
            r.post_conditions@ == optional_pairs_facts(self.post_conditions),
    {
        let pre_conditions = self.option_dict_to_planner_facts(self.pre_conditions.as_ref());
        let post_conditions = self.option_dict_to_planner_facts(self.post_conditions.as_ref());
        GAction {
            id,
            name: self.name.clone(),
            cost: self.cost,
            action: self.action.unwrap(),
            pre_conditions,
            post_conditions,
        }
    }
}

} // verus!

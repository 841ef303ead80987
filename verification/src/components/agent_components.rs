//! Components of entities: health, movement and damage figures, items that
//! can be collected, and inventories.
use vstd::prelude::*;
use crate::goap::goap_planner::{FactsView, GoapPlannerWorkingFacts};
use crate::string_map::{StringMap, entries_map, entry_view, lemma_entries_map_take};

verus! {

/// An item that can be picked up.
pub struct Collectible {
    pub weight: i32,
    pub item_name: String,
    pub picked: bool,
}

/// The name of the fact that says whether an inventory holds an item.
pub open spec fn has_fact(item: Seq<char>) -> Seq<char> {
    "has_"@ + item
}

/// The facts an inventory contributes to planning: for each item name,
/// `has_<name>` is true exactly when the count is not zero.
pub open spec fn inventory_facts(items: Map<Seq<char>, u32>) -> FactsView {
    Map::new(
        |name: Seq<char>| exists|item: Seq<char>| items.contains_key(item) && name == has_fact(item),
        |name: Seq<char>| items[choose|item: Seq<char>| items.contains_key(item) && name == has_fact(item)] != 0,
    )
}

proof fn lemma_has_fact_injective(a: Seq<char>, b: Seq<char>)
    ensures
        has_fact(a) == has_fact(b) ==> a == b,
{
    if has_fact(a) == has_fact(b) {
        let p = "has_"@;
        assert(a =~= has_fact(a).subrange(p.len() as int, has_fact(a).len() as int));
        assert(b =~= has_fact(b).subrange(p.len() as int, has_fact(b).len() as int));
    }
}

proof fn lemma_inventory_facts_insert(items: Map<Seq<char>, u32>, item: Seq<char>, count: u32)
    ensures
        inventory_facts(items.insert(item, count)) == inventory_facts(items).insert(has_fact(item), count != 0),
{
    let m2 = items.insert(item, count);
    let lhs = inventory_facts(m2);
    let rhs = inventory_facts(items).insert(has_fact(item), count != 0);
    assert forall|name: Seq<char>| lhs.contains_key(name) <==> rhs.contains_key(name) by {
        if lhs.contains_key(name) {
            let k = choose|k: Seq<char>| m2.contains_key(k) && name == has_fact(k);
            if k != item {
                assert(items.contains_key(k) && name == has_fact(k));
            }
        }
        if rhs.contains_key(name) && name != has_fact(item) {
            let k = choose|k: Seq<char>| items.contains_key(k) && name == has_fact(k);
            assert(m2.contains_key(k) && name == has_fact(k));
        }
        if name == has_fact(item) {
            assert(m2.contains_key(item) && name == has_fact(item));
        }
    }
    assert forall|name: Seq<char>| lhs.contains_key(name) implies lhs[name] == rhs[name] by {
        let k = choose|k: Seq<char>| m2.contains_key(k) && name == has_fact(k);
        lemma_has_fact_injective(k, item);
        if name == has_fact(item) {
            assert(k == item);
        } else {
            let k1 = choose|k1: Seq<char>| items.contains_key(k1) && name == has_fact(k1);
            lemma_has_fact_injective(k, k1);
        }
    }
    assert(lhs =~= rhs);
}

/// The items an agent carries: item name to count.
pub struct Inventory {
    pub max_weight: i32,
    pub items: StringMap<u32>,
}

/// The counts after adding one of an item, filed under `key`.
pub open spec fn added_one(items: Map<Seq<char>, u32>, key: Seq<char>) -> Map<Seq<char>, u32> {
    items.insert(key, if items.contains_key(key) { (items[key] + 1) as u32 } else { 1u32 })
}

/// The outcome of taking one item away: the count is looked up under `key`
/// (the lowercase form of the name); an absent or zero count is an error
/// and changes nothing; a count of one removes the entry stored under the
/// name as given (`name`); a larger count goes down by one.
pub open spec fn removed_one(items: Map<Seq<char>, u32>, key: Seq<char>, name: Seq<char>) -> (Result<u32, ()>, Map<Seq<char>, u32>) {
    if !items.contains_key(key) || items[key] == 0 {
        (Err(()), items)
    } else if items[key] == 1 {
        (Ok(0u32), items.remove(name))
    } else {
        (Ok((items[key] - 1) as u32), items.insert(key, (items[key] - 1) as u32))
    }
}

/// Adding one of an item under a key and then taking one away under that
/// same key (as the name too, as for a name already in lowercase) gives
/// back the counts one started from, when the count was absent or positive
/// (and below the largest count).
pub proof fn lemma_add_then_remove_one(items: Map<Seq<char>, u32>, key: Seq<char>)
    requires
        items.contains_key(key) ==> 0 < items[key] < u32::MAX,
    ensures
        removed_one(added_one(items, key), key, key).1 == items,
        removed_one(added_one(items, key), key, key).0 == Ok::<u32, ()>(
            if items.contains_key(key) { items[key] } else { 0u32 }),
{
    let added = added_one(items, key);
    if items.contains_key(key) {
        assert(added.insert(key, items[key]) =~= items);
    } else {
        assert(added.remove(key) =~= items);
    }
}

impl Inventory {
    /// Adds one of the item, filed under `key`: the item's name in
    /// lowercase, as the engine's `to_lower` gives it (the caller lowers
    /// the name).
    pub fn add_one(&mut self, key: &String) -> (r: Result<(), ()>)
        requires
            old(self).items@.contains_key(key@) ==> old(self).items@[key@] < u32::MAX,
        ensures
            r == Ok::<(), ()>(()),
            final(self).max_weight == old(self).max_weight,
            final(self).items@ == added_one(old(self).items@, key@),
    {
        match self.items.get(key.as_str()) {
            None => {
                self.items.insert(key.clone(), 1);
                Ok(())
            },
            Some(count) => {
                let next = *count + 1;
                self.items.insert(key.clone(), next);
                Ok(())
            },
        }
    }

    /// Takes one of the item away.  The count is looked up under `key`, the
    /// item's name in lowercase as the engine's `to_lower` gives it; when
    /// the last one goes, the entry is removed under the name as given.
    pub fn remove_one(&mut self, item_name: &String, key: &String) -> (r: Result<u32, ()>)
        ensures
            final(self).max_weight == old(self).max_weight,
            (r, final(self).items@) == removed_one(old(self).items@, key@, item_name@),
    {
        match self.items.get(key.as_str()) {
            None => Err(()),
            Some(count) => {
                let current_amount = *count;
                if current_amount == 1 {
                    let _ = self.items.remove(item_name.as_str());
                    return Ok(0u32);
                } else if current_amount == 0 {
                    return Err(());
                }
                self.items.insert(key.clone(), current_amount - 1);
                Ok(current_amount - 1)
            },
        }
    }

    /// The planning facts of the inventory: `has_<item>` for every item,
    /// true when its count is not zero.
    pub fn to_state(&self) -> (r: GoapPlannerWorkingFacts)
        ensures
            r@ == inventory_facts(self.items@),
    {
        let es = self.items.as_entries();
        let ghost s = self.items.entry_seq();
        let n = es.len();
        let mut state = GoapPlannerWorkingFacts::new();
        let mut i: usize = 0;
        proof {
            assert(s.take(0) =~= Seq::<(Seq<char>, u32)>::empty());
            assert(inventory_facts(entries_map(s.take(0))) =~= Map::<Seq<char>, bool>::empty());
        }
        while i < n
            invariant
                n == es@.len(),
                es@.map_values(|e: (String, u32)| entry_view(e)) == s,
                s == self.items.entry_seq(),
                i <= n,
                state@ == inventory_facts(entries_map(s.take(i as int))),
            decreases n - i,
        {
            let mut name = String::from_str("has_");
            name.append(es[i].0.as_str());
            let count = es[i].1;
            proof {
                assert(s[i as int] == entry_view(es@[i as int]));
                lemma_entries_map_take(s, i as int);
                lemma_inventory_facts_insert(entries_map(s.take(i as int)), s[i as int].0, s[i as int].1);
            }
            state.insert(name, count != 0);
            i = i + 1;
        }
        assert(s.take(n as int) =~= s);
        state
    }
}

/// Hit points: the most, the current, and the damage taken since the last
/// update.
pub struct Health {
    pub max: i32,
    pub current: i32,
    pub suffer: i32,
}

impl Health {
    /// Applies the damage taken: it comes off the current hit points, and
    /// the tally starts again from zero.
    pub fn update_health(&mut self)
        requires
            i32::MIN <= old(self).current - old(self).suffer <= i32::MAX,
        ensures
            final(self).current == old(self).current - old(self).suffer,
            final(self).suffer == 0,
            final(self).max == old(self).max,
    {
        self.current = self.current - self.suffer;
        self.suffer = 0;
    }

    /// Records one hit.
    pub fn take_hit(&mut self)
        requires
            old(self).suffer < i32::MAX,
        ensures
            final(self).suffer == old(self).suffer + 1,
            final(self).current == old(self).current,
            final(self).max == old(self).max,
    {
        self.suffer = self.suffer + 1;
    }

    /// Regenerates `amount` hit points, counted against the damage taken.
    pub fn regenerate(&mut self, amount: i32)
        requires
            i32::MIN <= old(self).suffer - amount <= i32::MAX,
        ensures
            final(self).suffer == old(self).suffer - amount,
            final(self).current == old(self).current,
            final(self).max == old(self).max,
    {
        self.suffer = self.suffer - amount;
    }

    /// True when the entity has no hit points left.
    pub fn is_dead(&self) -> (r: bool)
        ensures
            r == (self.current <= 0),
    {
        self.current <= 0
    }
}

/// How fast an entity moves.
pub struct Speed {
    pub max: i32,
    pub acceleration: i32,
}

/// How hard an entity hits.
pub struct Damage {
    pub damage: i32,
}

} // verus!

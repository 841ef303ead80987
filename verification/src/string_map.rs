//! A map from names to values, kept as a vector of entries sorted by name.
//!
//! The sorted layout is canonical: two maps hold the same entries exactly
//! when they have the same view, so the derived `Eq` and `Hash` agree with
//! map equality.
use vstd::prelude::*;
use crate::key_order::{name_lt, name_less, lemma_name_lt_asymmetric, lemma_name_lt_implies_distinct, lemma_name_lt_transitive, lemma_name_lt_total, lemma_name_lt_irreflexive};

verus! {

/// The map that a sequence of entries describes; later entries win.
pub open spec fn entries_map<V>(s: Seq<(Seq<char>, V)>) -> Map<Seq<char>, V>
    decreases s.len(),
{
    if s.len() == 0 {
        Map::empty()
    } else {
        entries_map(s.drop_last()).insert(s.last().0, s.last().1)
    }
}

/// The names of the entries strictly increase.
pub open spec fn keys_sorted<V>(s: Seq<(Seq<char>, V)>) -> bool {
    forall|i: int, j: int| 0 <= i < j < s.len() ==> name_lt(#[trigger] s[i].0, #[trigger] s[j].0)
}

/// No name occurs twice.
pub open spec fn keys_distinct<V>(s: Seq<(Seq<char>, V)>) -> bool {
    forall|i: int, j: int| 0 <= i < s.len() && 0 <= j < s.len() && i != j ==> #[trigger] s[i].0 != #[trigger] s[j].0
}

pub proof fn lemma_sorted_distinct<V>(s: Seq<(Seq<char>, V)>)
    requires
        keys_sorted(s),
    ensures
        keys_distinct(s),
{
    assert forall|i: int, j: int| 0 <= i < s.len() && 0 <= j < s.len() && i != j implies #[trigger] s[i].0 != #[trigger] s[j].0 by {
        if i < j {
            lemma_name_lt_implies_distinct(s[i].0, s[j].0);
        } else {
            lemma_name_lt_implies_distinct(s[j].0, s[i].0);
        }
    }
}

/// Facts about the map of entries with distinct names: which names it
/// holds, what they map to, and how many there are.
pub proof fn lemma_entries_map<V>(s: Seq<(Seq<char>, V)>)
    requires
        keys_distinct(s),
    ensures
        entries_map(s).dom().finite(),
        entries_map(s).len() == s.len(),
        forall|i: int| 0 <= i < s.len() ==> #[trigger] entries_map(s).contains_key(s[i].0) && entries_map(s)[s[i].0] == s[i].1,
        forall|k: Seq<char>| #[trigger] entries_map(s).contains_key(k) ==> exists|i: int| 0 <= i < s.len() && s[i].0 == k,
    decreases s.len(),
{
    if s.len() > 0 {
        let t = s.drop_last();
        assert(keys_distinct(t));
        lemma_entries_map(t);
        let last = s.last();
        assert(!entries_map(t).contains_key(last.0)) by {
            if entries_map(t).contains_key(last.0) {
                let i = choose|i: int| 0 <= i < t.len() && t[i].0 == last.0;
                assert(s[i].0 == s[s.len() - 1].0);
            }
        }
        assert forall|i: int| 0 <= i < s.len() implies #[trigger] entries_map(s).contains_key(s[i].0) && entries_map(s)[s[i].0] == s[i].1 by {
            if i < s.len() - 1 {
                assert(s[i] == t[i]);
                assert(s[i].0 != s[s.len() - 1].0);
            }
        }
        assert forall|k: Seq<char>| #[trigger] entries_map(s).contains_key(k) implies exists|i: int| 0 <= i < s.len() && s[i].0 == k by {
            if k != last.0 {
                let i = choose|i: int| 0 <= i < t.len() && t[i].0 == k;
                assert(s[i] == t[i]);
            } else {
                assert(s[s.len() - 1].0 == k);
            }
        }
    }
}

/// Taking one more entry adds that entry to the map.
pub proof fn lemma_entries_map_take<V>(s: Seq<(Seq<char>, V)>, i: int)
    requires
        0 <= i < s.len(),
    ensures
        entries_map(s.take(i + 1)) == entries_map(s.take(i)).insert(s[i].0, s[i].1),
{
    assert(s.take(i + 1).drop_last() =~= s.take(i));
}

/// The layout is canonical: two sorted entry sequences that describe the
/// same map are the same sequence.
pub proof fn lemma_sorted_entries_determined<V>(a: Seq<(Seq<char>, V)>, b: Seq<(Seq<char>, V)>)
    requires
        keys_sorted(a),
        keys_sorted(b),
        entries_map(a) == entries_map(b),
    ensures
        a == b,
    decreases a.len(),
{
    lemma_sorted_distinct(a);
    lemma_sorted_distinct(b);
    lemma_entries_map(a);
    lemma_entries_map(b);
    if a.len() == 0 {
        assert(b.len() == 0);
        assert(a =~= b);
    } else {
        let n = a.len() as int;
        assert(b.len() == n);
        let la = a[n - 1];
        let lb = b[n - 1];
        assert(entries_map(a).contains_key(la.0));
        assert(entries_map(b).contains_key(lb.0));
        let ja = choose|j: int| 0 <= j < b.len() && b[j].0 == la.0;
        let jb = choose|j: int| 0 <= j < a.len() && a[j].0 == lb.0;
        if la.0 != lb.0 {
            assert(ja < n - 1);
            assert(jb < n - 1);
            assert(name_lt(b[ja].0, b[n - 1].0));
            assert(name_lt(a[jb].0, a[n - 1].0));
            lemma_name_lt_asymmetric(la.0, lb.0);
        }
        assert(la.0 == lb.0);
        assert(la.1 == entries_map(a)[la.0]);
        assert(lb.1 == entries_map(b)[lb.0]);
        let ta = a.drop_last();
        let tb = b.drop_last();
        assert(keys_sorted(ta));
        assert(keys_sorted(tb));
        lemma_sorted_distinct(ta);
        lemma_sorted_distinct(tb);
        lemma_entries_map(ta);
        lemma_entries_map(tb);
        assert(!entries_map(ta).contains_key(la.0)) by {
            if entries_map(ta).contains_key(la.0) {
                let j = choose|j: int| 0 <= j < ta.len() && ta[j].0 == la.0;
                assert(a[j].0 == a[n - 1].0);
            }
        }
        assert(!entries_map(tb).contains_key(lb.0)) by {
            if entries_map(tb).contains_key(lb.0) {
                let j = choose|j: int| 0 <= j < tb.len() && tb[j].0 == lb.0;
                assert(b[j].0 == b[n - 1].0);
            }
        }
        assert(entries_map(ta) =~= entries_map(a).remove(la.0));
        assert(entries_map(tb) =~= entries_map(b).remove(lb.0));
        lemma_sorted_entries_determined(ta, tb);
        assert(a =~= ta.push(la));
        assert(b =~= tb.push(lb));
    }
}

/// A map from names to values, stored sorted by name.
#[derive(PartialEq, Eq, Hash, Debug)]
pub struct StringMap<V> {
    entries: Vec<(String, V)>,
}

/// The view of a stored entry.
pub open spec fn entry_view<V>(e: (String, V)) -> (Seq<char>, V) {
    (e.0@, e.1)
}

impl<V> View for StringMap<V> {
    type V = Map<Seq<char>, V>;

    open spec fn view(&self) -> Map<Seq<char>, V> {
        entries_map(self.entry_seq())
    }
}

impl<V> StringMap<V> {
    /// The entries, by name, in their stored order.
    pub closed spec fn entry_seq(&self) -> Seq<(Seq<char>, V)> {
        self.entries@.map_values(|e: (String, V)| entry_view(e))
    }

    #[verifier::type_invariant]
    closed spec fn sorted(&self) -> bool {
        keys_sorted(self.entry_seq())
    }

    /// The empty map.
    pub fn new() -> (m: Self)
        ensures
            m@ == Map::<Seq<char>, V>::empty(),
            m.entry_seq().len() == 0,
    {
        let m = StringMap { entries: Vec::new() };
        assert(m.entry_seq() =~= Seq::<(Seq<char>, V)>::empty());
        m
    }

    /// The stored entries: sorted by name, and describing the map.
    pub fn as_entries(&self) -> (r: &Vec<(String, V)>)
        ensures
            r@.map_values(|e: (String, V)| entry_view(e)) == self.entry_seq(),
            keys_sorted(self.entry_seq()),
            keys_distinct(self.entry_seq()),
            self@ == entries_map(self.entry_seq()),
            self@.dom().finite(),
            self@.len() == r@.len(),
    {
        proof {
            use_type_invariant(self);
            lemma_sorted_distinct(self.entry_seq());
            lemma_entries_map(self.entry_seq());
        }
        &self.entries
    }

    /// A copy of the map.
    pub fn duplicate(&self) -> (r: Self)
        where V: Copy,
        ensures
            r@ == self@,
            r.entry_seq() == self.entry_seq(),
    {
        proof {
            use_type_invariant(self);
        }
        let ghost s = self.entry_seq();
        let n = self.entries.len();
        let mut entries: Vec<(String, V)> = Vec::new();
        let mut i: usize = 0;
        while i < n
            invariant
                n == self.entries@.len(),
                s == self.entry_seq(),
                i <= n,
                entries@.len() == i,
                entries@.map_values(|e: (String, V)| entry_view(e)) =~= s.take(i as int),
            decreases n - i,
        {
            let key = self.entries[i].0.clone();
            let value = self.entries[i].1;
            let ghost prev = entries@;
            entries.push((key, value));
            proof {
                assert(s[i as int] == entry_view(self.entries@[i as int]));
                assert(entries@ == prev.push((key, value)));
                let mv = entries@.map_values(|e: (String, V)| entry_view(e));
                assert forall|j: int| 0 <= j < i + 1 implies mv[j] == s.take(i + 1)[j] by {
                    if j < i {
                        assert(entries@[j] == prev[j]);
                    }
                }
                assert(mv =~= s.take(i + 1));
            }
            i = i + 1;
        }
        assert(s.take(n as int) =~= s);
        StringMap { entries }
    }

    /// Stores every entry of `other`, replacing values under the same names.
    pub fn extend(&mut self, other: &StringMap<V>)
        where V: Copy,
        ensures
            final(self)@ == old(self)@.union_prefer_right(other@),
    {
        let es = other.as_entries();
        let ghost os = other.entry_seq();
        let n = es.len();
        let mut i: usize = 0;
        assert(os.take(0) =~= Seq::<(Seq<char>, V)>::empty());
        assert(old(self)@.union_prefer_right(Map::empty()) =~= old(self)@);
        while i < n
            invariant
                n == es@.len(),
                es@.map_values(|e: (String, V)| entry_view(e)) == os,
                os == other.entry_seq(),
                i <= n,
                self@ == old(self)@.union_prefer_right(entries_map(os.take(i as int))),
            decreases n - i,
        {
            let key = es[i].0.clone();
            let value = es[i].1;
            proof {
                assert(os[i as int] == entry_view(es@[i as int]));
                lemma_entries_map_take(os, i as int);
            }
            self.insert(key, value);
            proof {
                assert(self@ =~= old(self)@.union_prefer_right(entries_map(os.take(i + 1))));
            }
            i = i + 1;
        }
        assert(os.take(n as int) =~= os);
    }

    /// The number of names in the map.
    pub fn len(&self) -> (n: usize)
        ensures
            n == self@.len(),
            self@.dom().finite(),
    {
        proof {
            use_type_invariant(self);
            lemma_sorted_distinct(self.entry_seq());
            lemma_entries_map(self.entry_seq());
        }
        self.entries.len()
    }

    /// True when the map holds no name.
    pub fn is_empty(&self) -> (b: bool)
        ensures
            b == (self@.len() == 0),
            self@.dom().finite(),
    {
        self.len() == 0
    }

    /// Index of the first entry whose name is not before `key`, and whether
    /// that entry's name is `key`.
    fn position(&self, key: &str) -> (r: (usize, bool))
        ensures
            r.0 <= self.entry_seq().len(),
            forall|j: int| 0 <= j < r.0 ==> name_lt(#[trigger] self.entry_seq()[j].0, key@),
            forall|j: int| r.0 < j < self.entry_seq().len() ==> name_lt(key@, #[trigger] self.entry_seq()[j].0),
            r.0 < self.entry_seq().len() && !r.1 ==> name_lt(key@, self.entry_seq()[r.0 as int].0),
            r.1 == (r.0 < self.entry_seq().len() && self.entry_seq()[r.0 as int].0 == key@),
    {
        proof {
            use_type_invariant(self);
        }
        let ghost s = self.entry_seq();
        let n = self.entries.len();
        let mut i: usize = 0;
        while i < n
            invariant
                n == self.entries@.len(),
                s == self.entry_seq(),
                s.len() == n,
                keys_sorted(s),
                i <= n,
                forall|j: int| 0 <= j < i ==> name_lt(#[trigger] s[j].0, key@),
            decreases n - i,
        {
            assert(s[i as int] == entry_view(self.entries@[i as int]));
            if !name_less(self.entries[i].0.as_str(), key) {
                let found = !name_less(key, self.entries[i].0.as_str());
                proof {
                    if !found {
                        assert forall|j: int| i < j < s.len() implies name_lt(key@, #[trigger] s[j].0) by {
                            lemma_name_lt_transitive(key@, s[i as int].0, s[j].0);
                        }
                    } else {
                        if s[i as int].0 != key@ {
                            lemma_name_lt_total(s[i as int].0, key@);
                        }
                        assert forall|j: int| i < j < s.len() implies name_lt(key@, #[trigger] s[j].0) by {
                            assert(name_lt(s[i as int].0, s[j].0));
                        }
                    }
                    if found == false {
                        lemma_name_lt_irreflexive(key@);
                    }
                }
                return (i, found);
            }
            i = i + 1;
        }
        (i, false)
    }

    /// The value stored under `key`, if any.
    pub fn get(&self, key: &str) -> (r: Option<&V>)
        ensures
            match r {
                Some(v) => self@.contains_key(key@) && *v == self@[key@],
                None => !self@.contains_key(key@),
            },
    {
        proof {
            use_type_invariant(self);
            lemma_sorted_distinct(self.entry_seq());
            lemma_entries_map(self.entry_seq());
        }
        let (i, found) = self.position(key);
        if found {
            proof {
                let s = self.entry_seq();
                assert(s[i as int] == entry_view(self.entries@[i as int]));
                assert(self@.contains_key(s[i as int].0));
                assert(self@[s[i as int].0] == s[i as int].1);
            }
            Some(&self.entries[i].1)
        } else {
            proof {
                if self@.contains_key(key@) {
                    let j = choose|j: int| 0 <= j < self.entry_seq().len() && self.entry_seq()[j].0 == key@;
                    lemma_name_lt_irreflexive(key@);
                }
            }
            None
        }
    }

    /// True when `key` is in the map.
    pub fn contains_key(&self, key: &str) -> (r: bool)
        ensures
            r == self@.contains_key(key@),
    {
        match self.get(key) {
            Some(_) => true,
            None => false,
        }
    }

    /// Stores `value` under `key`, replacing what was there.
    pub fn insert(&mut self, key: String, value: V)
        ensures
            final(self)@ == old(self)@.insert(key@, value),
    {
        proof {
            use_type_invariant(&*self);
        }
        let ghost old_s = self.entry_seq();
        let (i, found) = self.position(key.as_str());
        let mut entries: Vec<(String, V)> = Vec::new();
        std::mem::swap(&mut entries, &mut self.entries);
        assert(entries@.map_values(|e: (String, V)| entry_view(e)) == old_s);
        let ghost kv = key@;
        if found {
            entries.set(i, (key, value));
        } else {
            entries.insert(i, (key, value));
        }
        let ghost new_s = entries@.map_values(|e: (String, V)| entry_view(e));
        proof {
            lemma_sorted_distinct(old_s);
            lemma_entries_map(old_s);
            if found {
                assert(new_s =~= old_s.update(i as int, (kv, value)));
            } else {
                assert(new_s =~= old_s.insert(i as int, (kv, value)));
            }
            assert(keys_sorted(new_s)) by {
                assert forall|a: int, b: int| 0 <= a < b < new_s.len() implies name_lt(#[trigger] new_s[a].0, #[trigger] new_s[b].0) by {
                    if found {
                        if a == i {
                        } else if b == i {
                        } else {
                        }
                    } else {
                        if a < i && b == i {
                        } else if a == i {
                        } else if a < i && b > i {
                            assert(new_s[a] == old_s[a]);
                            assert(new_s[b] == old_s[b - 1]);
                            if a < b - 1 {
                            }
                        } else if a > i {
                            assert(new_s[a] == old_s[a - 1]);
                            assert(new_s[b] == old_s[b - 1]);
                        } else {
                            assert(new_s[a] == old_s[a]);
                            assert(new_s[b] == old_s[b]);
                        }
                    }
                }
            }
            lemma_sorted_distinct(new_s);
            lemma_entries_map(new_s);
            assert(entries_map(new_s) =~= entries_map(old_s).insert(kv, value)) by {
                assert forall|k: Seq<char>| #[trigger] entries_map(new_s).contains_key(k) implies entries_map(old_s).insert(kv, value).contains_key(k) by {
                    let j = choose|j: int| 0 <= j < new_s.len() && new_s[j].0 == k;
                    if k != kv {
                        if found {
                            assert(new_s[j] == old_s[j]);
                        } else if j < i {
                            assert(new_s[j] == old_s[j]);
                        } else {
                            assert(new_s[j] == old_s[j - 1]);
                        }
                    }
                }
                assert forall|k: Seq<char>| #[trigger] entries_map(old_s).insert(kv, value).contains_key(k) implies entries_map(new_s).contains_key(k) && entries_map(new_s)[k] == entries_map(old_s).insert(kv, value)[k] by {
                    if k == kv {
                        assert(new_s[i as int] == (kv, value));
                        assert(entries_map(new_s).contains_key(new_s[i as int].0));
                    } else {
                        let j = choose|j: int| 0 <= j < old_s.len() && old_s[j].0 == k;
                        assert(entries_map(old_s)[k] == old_s[j].1);
                        if found {
                            assert(j != i);
                            assert(new_s[j] == old_s[j]);
                            assert(entries_map(new_s).contains_key(new_s[j].0));
                        } else if j < i {
                            assert(new_s[j] == old_s[j]);
                            assert(entries_map(new_s).contains_key(new_s[j].0));
                        } else {
                            assert(new_s[j + 1] == old_s[j]);
                            assert(entries_map(new_s).contains_key(new_s[j + 1].0));
                        }
                    }
                }
            }
        }
        self.entries = entries;
    }

    /// Removes `key` from the map, if it is there, and returns the value it
    /// had.
    pub fn remove(&mut self, key: &str) -> (r: Option<V>)
        ensures
            final(self)@ == old(self)@.remove(key@),
            match r {
                Some(v) => old(self)@.contains_key(key@) && v == old(self)@[key@],
                None => !old(self)@.contains_key(key@),
            },
    {
        proof {
            use_type_invariant(&*self);
        }
        let ghost old_s = self.entry_seq();
        let (i, found) = self.position(key);
        proof {
            lemma_sorted_distinct(old_s);
            lemma_entries_map(old_s);
        }
        if found {
            let mut entries: Vec<(String, V)> = Vec::new();
            std::mem::swap(&mut entries, &mut self.entries);
            assert(entries@.map_values(|e: (String, V)| entry_view(e)) == old_s);
            let removed = entries.remove(i);
            assert(old_s[i as int] == entry_view(removed));
            let ghost new_s = entries@.map_values(|e: (String, V)| entry_view(e));
            proof {
                assert(new_s =~= old_s.remove(i as int));
                assert(keys_sorted(new_s)) by {
                    assert forall|a: int, b: int| 0 <= a < b < new_s.len() implies name_lt(#[trigger] new_s[a].0, #[trigger] new_s[b].0) by {
                        if a < i && b >= i {
                            assert(new_s[a] == old_s[a]);
                            assert(new_s[b] == old_s[b + 1]);
                        } else if a >= i {
                            assert(new_s[a] == old_s[a + 1]);
                            assert(new_s[b] == old_s[b + 1]);
                        } else {
                            assert(new_s[a] == old_s[a]);
                            assert(new_s[b] == old_s[b]);
                        }
                    }
                }
                lemma_sorted_distinct(new_s);
                lemma_entries_map(new_s);
                assert(entries_map(new_s) =~= entries_map(old_s).remove(key@)) by {
                    assert forall|k: Seq<char>| #[trigger] entries_map(new_s).contains_key(k) implies entries_map(old_s).remove(key@).contains_key(k) by {
                        let j = choose|j: int| 0 <= j < new_s.len() && new_s[j].0 == k;
                        if j < i {
                            assert(new_s[j] == old_s[j]);
                        } else {
                            assert(new_s[j] == old_s[j + 1]);
                        }
                    }
                    assert forall|k: Seq<char>| #[trigger] entries_map(old_s).remove(key@).contains_key(k) implies entries_map(new_s).contains_key(k) && entries_map(new_s)[k] == entries_map(old_s)[k] by {
                        let j = choose|j: int| 0 <= j < old_s.len() && old_s[j].0 == k;
                        if j < i {
                            assert(new_s[j] == old_s[j]);
                        } else {
                            assert(j != i);
                            assert(new_s[j - 1] == old_s[j]);
                        }
                    }
                }
            }
            self.entries = entries;
            Some(removed.1)
        } else {
            proof {
                assert(!entries_map(old_s).contains_key(key@)) by {
                    if entries_map(old_s).contains_key(key@) {
                        let j = choose|j: int| 0 <= j < old_s.len() && old_s[j].0 == key@;
                        lemma_name_lt_irreflexive(key@);
                    }
                }
                assert(entries_map(old_s).remove(key@) =~= entries_map(old_s));
            }
            None
        }
    }
}

impl<V: Clone> Clone for StringMap<V> {
    /// Clones every entry; the names, and so their order, are kept.
    fn clone(&self) -> (r: Self)
        ensures
            r.entry_seq().len() == self.entry_seq().len(),
            forall|i: int| 0 <= i < self.entry_seq().len() ==> #[trigger] r.entry_seq()[i].0 == self.entry_seq()[i].0
                && cloned::<V>(self.entry_seq()[i].1, r.entry_seq()[i].1),
    {
        proof {
            use_type_invariant(self);
        }
        let ghost s = self.entry_seq();
        let n = self.entries.len();
        let mut entries: Vec<(String, V)> = Vec::new();
        let mut i: usize = 0;
        while i < n
            invariant
                n == self.entries@.len(),
                s == self.entry_seq(),
                keys_sorted(s),
                i <= n,
                entries@.len() == i,
                forall|j: int| 0 <= j < i ==> #[trigger] entries@[j].0@ == s[j].0 && cloned::<V>(s[j].1, entries@[j].1),
            decreases n - i,
        {
            let key = self.entries[i].0.clone();
            let value = self.entries[i].1.clone();
            proof {
                assert(s[i as int] == entry_view(self.entries@[i as int]));
            }
            entries.push((key, value));
            i = i + 1;
        }
        let r = StringMap { entries };
        proof {
            let rs = r.entry_seq();
            assert forall|a: int, b: int| 0 <= a < b < rs.len() implies name_lt(#[trigger] rs[a].0, #[trigger] rs[b].0) by {
                assert(rs[a].0 == entries@[a].0@);
                assert(rs[b].0 == entries@[b].0@);
            }
            assert forall|j: int| 0 <= j < s.len() implies #[trigger] rs[j].0 == s[j].0 && cloned::<V>(s[j].1, rs[j].1) by {
                assert(rs[j] == entry_view(entries@[j]));
            }
        }
        r
    }
}

} // verus!

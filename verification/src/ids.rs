//! Ordered maps and sets keyed by text identifiers.
//!
//! Entries are kept in strictly ascending key order, so walking a map by index visits the keys in
//! a fixed, deterministic order.

use crate::text;
use vstd::prelude::*;

verus! {

/// A map from text to `V`.
pub struct IdMap<V> {
    entries: Vec<(String, V)>,
}

/// Whether the keys of `entries` ascend strictly.
spec fn ascending<V>(entries: Seq<(String, V)>) -> bool {
    forall|i: int, j: int|
        #![trigger entries[i], entries[j]]
        0 <= i < j < entries.len() ==> text::text_lt(entries[i].0@, entries[j].0@)
}

spec fn entry_map<V>(entries: Seq<(String, V)>) -> Map<Seq<char>, V> {
    Map::new(
        |k: Seq<char>| exists|i: int| 0 <= i < entries.len() && (#[trigger] entries[i]).0@ == k,
        |k: Seq<char>| entries[choose|i: int| 0 <= i < entries.len() && (#[trigger] entries[i]).0@ == k].1,
    )
}

proof fn entry_map_at<V>(entries: Seq<(String, V)>, i: int)
    requires
        ascending(entries),
        0 <= i < entries.len(),
    ensures
        entry_map(entries).dom().contains(entries[i].0@),
        entry_map(entries)[entries[i].0@] == entries[i].1,
{
    let k = entries[i].0@;
    let j = choose|j: int| 0 <= j < entries.len() && (#[trigger] entries[j]).0@ == k;
    assert(entries[j].0@ == k);
    text::text_lt_irreflexive(k);
    if i < j {
        assert(text::text_lt(entries[i].0@, entries[j].0@));
    } else if j < i {
        assert(text::text_lt(entries[j].0@, entries[i].0@));
    }
}

impl<V> View for IdMap<V> {
    type V = Map<Seq<char>, V>;

    closed spec fn view(&self) -> Map<Seq<char>, V> {
        entry_map(self.entries@)
    }
}

impl<V: DeepView> DeepView for IdMap<V> {
    type V = Map<Seq<char>, V::V>;

    open spec fn deep_view(&self) -> Map<Seq<char>, V::V> {
        self@.map_values(|v: V| v.deep_view())
    }
}

impl<V> IdMap<V> {
    #[verifier::type_invariant]
    spec fn ordered(self) -> bool {
        ascending(self.entries@)
    }

    /// The keys in ascending order.
    pub closed spec fn keys(&self) -> Seq<Seq<char>> {
        self.entries@.map_values(|e: (String, V)| e.0@)
    }

    /// The empty map.
    pub fn new() -> (m: Self)
        ensures
            m@ == Map::<Seq<char>, V>::empty(),
            m.keys() == Seq::<Seq<char>>::empty(),
    {
        let m = IdMap { entries: Vec::new() };
        assert(m@ =~= Map::<Seq<char>, V>::empty());
        assert(m.keys() =~= Seq::<Seq<char>>::empty());
        m
    }

    /// The keys list the domain, in strictly ascending order.
    proof fn keys_list_domain(&self)
        requires
            ascending(self.entries@),
        ensures
            forall|i: int|
                0 <= i < self.keys().len() ==> self@.dom().contains(#[trigger] self.keys()[i]),
            forall|k: Seq<char>| self@.dom().contains(k) ==> self.keys().contains(k),
            forall|i: int, j: int|
                0 <= i < j < self.keys().len() ==> text::text_lt(#[trigger] self.keys()[i], #[trigger] self.keys()[j]),
    {
        assert forall|k: Seq<char>| self@.dom().contains(k) implies self.keys().contains(k) by {
            let i = choose|i: int|
                0 <= i < self.entries@.len() && (#[trigger] self.entries@[i]).0@ == k;
            assert(self.keys()[i] == k);
        }
        assert forall|i: int| 0 <= i < self.keys().len() implies self@.dom().contains(
            #[trigger] self.keys()[i],
        ) by {
            entry_map_at(self.entries@, i);
        }
        assert forall|i: int, j: int| 0 <= i < j < self.keys().len() implies text::text_lt(
            #[trigger] self.keys()[i],
            #[trigger] self.keys()[j],
        ) by {
            assert(text::text_lt(self.entries@[i].0@, self.entries@[j].0@));
        }
    }

    /// The number of entries.
    pub fn len(&self) -> (n: usize)
        ensures
            n == self.keys().len(),
            self@.dom().finite(),
            n == self@.dom().len(),
            forall|i: int|
                0 <= i < self.keys().len() ==> self@.dom().contains(#[trigger] self.keys()[i]),
            forall|k: Seq<char>| self@.dom().contains(k) ==> self.keys().contains(k),
            forall|i: int, j: int|
                0 <= i < j < self.keys().len() ==> text::text_lt(#[trigger] self.keys()[i], #[trigger] self.keys()[j]),
    {
        proof {
            use_type_invariant(self);
            self.keys_list_domain();
            assert forall|i: int, j: int| 0 <= i < j < self.keys().len() implies self.keys()[i]
                != self.keys()[j] by {
                text::text_lt_irreflexive(self.keys()[i]);
            }
            self.keys().unique_seq_to_set();
            assert(self.keys().to_set() =~= self@.dom());
        }
        self.entries.len()
    }

    /// The key at a position.
    pub fn key_at(&self, i: usize) -> (k: &String)
        requires
            i < self.keys().len(),
        ensures
            k@ == self.keys()[i as int],
            self@.dom().contains(k@),
    {
        proof {
            use_type_invariant(self);
            entry_map_at(self.entries@, i as int);
        }
        &self.entries[i].0
    }

    /// The value at a position.
    pub fn value_at(&self, i: usize) -> (v: &V)
        requires
            i < self.keys().len(),
        ensures
            self@.dom().contains(self.keys()[i as int]),
            *v == self@[self.keys()[i as int]],
    {
        proof {
            use_type_invariant(self);
            entry_map_at(self.entries@, i as int);
        }
        &self.entries[i].1
    }

    /// The position of the first entry whose key is not before `key`, and whether it is `key`.
    fn find(&self, key: &str) -> (r: (usize, bool))
        requires
            ascending(self.entries@),
        ensures
            r.0 <= self.entries.len(),
            forall|i: int| 0 <= i < r.0 ==> text::text_lt((#[trigger] self.entries@[i]).0@, key@),
            r.1 ==> r.0 < self.entries.len() && self.entries@[r.0 as int].0@ == key@,
            !r.1 ==> forall|i: int| r.0 <= i < self.entries.len() ==> text::text_lt(key@, (#[trigger] self.entries@[i]).0@),
            r.1 == self@.dom().contains(key@),
            r.1 ==> self@[key@] == self.entries@[r.0 as int].1,
    {
        let mut i: usize = 0;
        while i < self.entries.len() && text::text_before(self.entries[i].0.as_str(), key)
            invariant
                i <= self.entries.len(),
                forall|k: int| 0 <= k < i ==> text::text_lt((#[trigger] self.entries@[k]).0@, key@),
            decreases self.entries.len() - i,
        {
            i += 1;
        }
        let found = i < self.entries.len() && text::text_eq(self.entries[i].0.as_str(), key);
        proof {
            if found {
                entry_map_at(self.entries@, i as int);
            } else {
                assert forall|k: int| i <= k < self.entries.len() implies text::text_lt(
                    key@,
                    (#[trigger] self.entries@[k]).0@,
                ) by {
                    text::text_lt_total(self.entries@[i as int].0@, key@);
                    if k > i {
                        text::text_lt_transitive(key@, self.entries@[i as int].0@, self.entries@[k].0@);
                    }
                }
                if self@.dom().contains(key@) {
                    let k = choose|k: int|
                        0 <= k < self.entries@.len() && (#[trigger] self.entries@[k]).0@ == key@;
                    assert(self.entries@[k].0@ == key@);
                    text::text_lt_irreflexive(key@);
                    assert(k < i || k >= i);
                }
            }
        }
        (i, found)
    }

    /// Whether `key` has a value.
    pub fn contains(&self, key: &str) -> (r: bool)
        ensures
            r == self@.dom().contains(key@),
    {
        proof {
            use_type_invariant(self);
        }
        self.find(key).1
    }

    /// The value of `key`, if it has one.
    pub fn get(&self, key: &str) -> (r: Option<&V>)
        ensures
            match r {
                Some(v) => self@.dom().contains(key@) && *v == self@[key@],
                None => !self@.dom().contains(key@),
            },
    {
        proof {
            use_type_invariant(self);
        }
        let (i, found) = self.find(key);
        if found {
            Some(&self.entries[i].1)
        } else {
            None
        }
    }

    /// Gives `key` the value `value`.
    pub fn insert(&mut self, key: String, value: V)
        ensures
            final(self)@ == old(self)@.insert(key@, value),
    {
        proof {
            use_type_invariant(&*self);
        }
        let (i, found) = self.find(key.as_str());
        let mut entries: Vec<(String, V)> = Vec::new();
        std::mem::swap(&mut entries, &mut self.entries);
        let ghost before = entries@;
        let ghost k0 = key@;
        if found {
            entries.set(i, (key, value));
            proof {
                assert(entries@ == before.update(i as int, entries@[i as int]));
                assert(ascending(entries@));
            }
        } else {
            entries.insert(i, (key, value));
            proof {
                assert forall|a: int, b: int| 0 <= a < b < entries@.len() implies text::text_lt(
                    (#[trigger] entries@[a]).0@,
                    (#[trigger] entries@[b]).0@,
                ) by {
                    let x = if a < i { a } else { a - 1 };
                    let y = if b < i { b } else { b - 1 };
                    if a != i { assert(entries@[a] == before[x]); }
                    if b != i { assert(entries@[b] == before[y]); }
                }
            }
        }
        proof {
            assert forall|k: Seq<char>| #![auto] entry_map(entries@).dom().contains(k)
                <==> entry_map(before).insert(k0, value).dom().contains(k) by {
                if entry_map(entries@).dom().contains(k) {
                    let a = choose|a: int| 0 <= a < entries@.len() && (#[trigger] entries@[a]).0@ == k;
                    if a != i {
                        let x = if found || a < i { a } else { a - 1 };
                        assert(entries@[a] == before[x]);
                    }
                }
                if k == k0 {
                    assert(entries@[i as int].0@ == k0);
                } else if entry_map(before).dom().contains(k) {
                    let x = choose|x: int| 0 <= x < before.len() && (#[trigger] before[x]).0@ == k;
                    let a = if found || x < i { x } else { x + 1 };
                    assert(entries@[a] == before[x]);
                }
            }
            assert forall|k: Seq<char>| #![auto] entry_map(entries@).dom().contains(k)
                implies entry_map(entries@)[k] == entry_map(before).insert(k0, value)[k] by {
                let a = choose|a: int| 0 <= a < entries@.len() && (#[trigger] entries@[a]).0@ == k;
                entry_map_at(entries@, a);
                if k == k0 {
                    entry_map_at(entries@, i as int);
                } else {
                    let x = if found || a < i { a } else { a - 1 };
                    assert(entries@[a] == before[x]);
                    entry_map_at(before, x);
                }
            }
            assert(entry_map(entries@) =~= entry_map(before).insert(k0, value));
        }
        self.entries = entries;
    }

    /// Takes `key` and its value out, and gives the value back.
    pub fn remove(&mut self, key: &str) -> (r: Option<V>)
        ensures
            final(self)@ == old(self)@.remove(key@),
            match r {
                Some(v) => old(self)@.dom().contains(key@) && v == old(self)@[key@],
                None => !old(self)@.dom().contains(key@),
            },
    {
        proof {
            use_type_invariant(&*self);
        }
        let (i, found) = self.find(key);
        if !found {
            assert(self@.remove(key@) =~= self@);
            return None;
        }
        let mut entries: Vec<(String, V)> = Vec::new();
        std::mem::swap(&mut entries, &mut self.entries);
        let ghost before = entries@;
        let taken = entries.remove(i);
        proof {
            assert forall|a: int, b: int| 0 <= a < b < entries@.len() implies text::text_lt(
                (#[trigger] entries@[a]).0@,
                (#[trigger] entries@[b]).0@,
            ) by {
                let x = if a < i { a } else { a + 1 };
                let y = if b < i { b } else { b + 1 };
                assert(entries@[a] == before[x]);
                assert(entries@[b] == before[y]);
            }
            text::text_lt_irreflexive(key@);
            assert forall|k: Seq<char>| #![auto] entry_map(entries@).dom().contains(k)
                <==> entry_map(before).remove(key@).dom().contains(k) by {
                if entry_map(entries@).dom().contains(k) {
                    let a = choose|a: int| 0 <= a < entries@.len() && (#[trigger] entries@[a]).0@ == k;
                    let x = if a < i { a } else { a + 1 };
                    assert(entries@[a] == before[x]);
                    assert(before[x].0@ == k);
                    if x < i {
                        assert(text::text_lt(before[x].0@, before[i as int].0@));
                    } else {
                        assert(text::text_lt(before[i as int].0@, before[x].0@));
                    }
                }
                if k != key@ && entry_map(before).dom().contains(k) {
                    let x = choose|x: int| 0 <= x < before.len() && (#[trigger] before[x]).0@ == k;
                    let a = if x < i { x } else { x - 1 };
                    assert(entries@[a] == before[x]);
                }
            }
            assert forall|k: Seq<char>| #![auto] entry_map(entries@).dom().contains(k)
                implies entry_map(entries@)[k] == entry_map(before).remove(key@)[k] by {
                let a = choose|a: int| 0 <= a < entries@.len() && (#[trigger] entries@[a]).0@ == k;
                entry_map_at(entries@, a);
                let x = if a < i { a } else { a + 1 };
                assert(entries@[a] == before[x]);
                entry_map_at(before, x);
            }
            assert(entry_map(entries@) =~= entry_map(before).remove(key@));
        }
        self.entries = entries;
        Some(taken.1)
    }
}

impl IdMap<u64> {
    /// A copy of the map.
    pub fn copy(&self) -> (r: Self)
        ensures
            r@ == self@,
    {
        proof {
            use_type_invariant(self);
        }
        let mut entries: Vec<(String, u64)> = Vec::new();
        let mut i: usize = 0;
        while i < self.entries.len()
            invariant
                i <= self.entries.len(),
                entries.len() == i,
                forall|k: int| 0 <= k < i ==> (#[trigger] entries@[k]).0@ == self.entries@[k].0@,
                forall|k: int| 0 <= k < i ==> (#[trigger] entries@[k]).1 == self.entries@[k].1,
            decreases self.entries.len() - i,
        {
            entries.push((self.entries[i].0.clone(), self.entries[i].1));
            i += 1;
        }
        proof {
            assert forall|a: int, b: int| 0 <= a < b < entries@.len() implies text::text_lt(
                (#[trigger] entries@[a]).0@,
                (#[trigger] entries@[b]).0@,
            ) by {
                assert(text::text_lt(self.entries@[a].0@, self.entries@[b].0@));
            }
            assert forall|k: Seq<char>|
                #![auto]
                entry_map(entries@).dom().contains(k) <==> entry_map(self.entries@).dom().contains(
                    k,
                ) by {
                if entry_map(entries@).dom().contains(k) {
                    let a = choose|a: int| 0 <= a < entries@.len() && (#[trigger] entries@[a]).0@ == k;
                    assert(self.entries@[a].0@ == k);
                }
                if entry_map(self.entries@).dom().contains(k) {
                    let a = choose|a: int|
                        0 <= a < self.entries@.len() && (#[trigger] self.entries@[a]).0@ == k;
                    assert(entries@[a].0@ == k);
                }
            }
            assert forall|k: Seq<char>|
                #![auto]
                entry_map(entries@).dom().contains(k) implies entry_map(entries@)[k] == entry_map(
                self.entries@,
            )[k] by {
                let a = choose|a: int| 0 <= a < entries@.len() && (#[trigger] entries@[a]).0@ == k;
                entry_map_at(entries@, a);
                entry_map_at(self.entries@, a);
            }
            assert(entry_map(entries@) =~= entry_map(self.entries@));
        }
        IdMap { entries }
    }
}

/// A set of texts.
pub struct IdSet {
    members: IdMap<u64>,
}

impl View for IdSet {
    type V = Set<Seq<char>>;

    closed spec fn view(&self) -> Set<Seq<char>> {
        self.members@.dom()
    }
}

impl IdSet {
    /// The empty set.
    pub fn new() -> (s: Self)
        ensures
            s@ == Set::<Seq<char>>::empty(),
    {
        let s = IdSet { members: IdMap::new() };
        assert(s@ =~= Set::<Seq<char>>::empty());
        s
    }

    /// Takes `member` in.
    pub fn insert(&mut self, member: String)
        ensures
            final(self)@ == old(self)@.insert(member@),
    {
        let ghost before = self.members@;
        let ghost m = member@;
        self.members.insert(member, 0);
        assert(self.members@.dom() =~= before.dom().insert(m));
    }

    /// Whether `member` is in.
    pub fn contains(&self, member: &str) -> (r: bool)
        ensures
            r == self@.contains(member@),
    {
        self.members.contains(member)
    }

    /// The number of members.
    pub fn len(&self) -> (n: usize)
        ensures
            self@.finite(),
            n == self@.len(),
    {
        self.members.len()
    }

    /// The members in ascending order.
    pub fn listed(&self) -> (r: Vec<String>)
        ensures
            forall|i: int, j: int|
                0 <= i < j < r.deep_view().len() ==> text::text_lt(
                    #[trigger] r.deep_view()[i],
                    #[trigger] r.deep_view()[j],
                ),
            r.deep_view().to_set() == self@,
    {
        let n: usize = self.members.len();
        let ghost keys = self.members.keys();
        let mut r: Vec<String> = Vec::new();
        let mut i: usize = 0;
        while i < n
            invariant
                i <= n,
                n == keys.len(),
                keys == self.members.keys(),
                r.len() == i,
                forall|k: int| 0 <= k < i ==> (#[trigger] r@[k])@ == keys[k],
                forall|k: int| 0 <= k < i ==> self@.contains(#[trigger] keys[k]),
            decreases n - i,
        {
            r.push(self.members.key_at(i).clone());
            i += 1;
        }
        assert(r.deep_view() =~= keys);
        assert forall|k: Seq<char>| self@.contains(k) == keys.contains(k) by {
            if keys.contains(k) {
                assert(self@.contains(keys[keys.index_of(k)]));
            }
        }
        assert(keys.to_set() =~= self@);
        r
    }

    /// A copy of the set.
    pub fn copy(&self) -> (r: Self)
        ensures
            r@ == self@,
    {
        IdSet { members: self.members.copy() }
    }
}

} // verus!

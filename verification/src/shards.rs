//! Ordered maps keyed by shard.
//!
//! Entries are kept in strictly ascending key order, so walking a map by index visits the shards
//! in order.

use crate::model::ShardId;
use vstd::prelude::*;

verus! {

/// A map from shards to `V`.
pub struct ShardMap<V> {
    entries: Vec<(ShardId, V)>,
}

/// Whether the keys of `entries` ascend strictly.
spec fn ascending<V>(entries: Seq<(ShardId, V)>) -> bool {
    forall|i: int, j: int|
        #![trigger entries[i], entries[j]]
        0 <= i < j < entries.len() ==> entries[i].0 < entries[j].0
}

spec fn entry_map<V>(entries: Seq<(ShardId, V)>) -> Map<ShardId, V> {
    Map::new(
        |k: ShardId| exists|i: int| 0 <= i < entries.len() && (#[trigger] entries[i]).0 == k,
        |k: ShardId|
            entries[choose|i: int| 0 <= i < entries.len() && (#[trigger] entries[i]).0 == k].1,
    )
}

proof fn entry_map_at<V>(entries: Seq<(ShardId, V)>, i: int)
    requires
        ascending(entries),
        0 <= i < entries.len(),
    ensures
        entry_map(entries).dom().contains(entries[i].0),
        entry_map(entries)[entries[i].0] == entries[i].1,
{
    let k = entries[i].0;
    let j = choose|j: int| 0 <= j < entries.len() && (#[trigger] entries[j]).0 == k;
    assert(entries[j].0 == k);
}

impl<V> View for ShardMap<V> {
    type V = Map<ShardId, V>;

    closed spec fn view(&self) -> Map<ShardId, V> {
        entry_map(self.entries@)
    }
}

impl<V: DeepView> DeepView for ShardMap<V> {
    type V = Map<ShardId, V::V>;

    open spec fn deep_view(&self) -> Map<ShardId, V::V> {
        self@.map_values(|v: V| v.deep_view())
    }
}

impl<V> ShardMap<V> {
    #[verifier::type_invariant]
    spec fn ordered(self) -> bool {
        ascending(self.entries@)
    }

    /// The keys in ascending order.
    pub closed spec fn keys(&self) -> Seq<ShardId> {
        self.entries@.map_values(|e: (ShardId, V)| e.0)
    }

    /// The empty map.
    pub fn new() -> (m: Self)
        ensures
            m@ == Map::<ShardId, V>::empty(),
    {
        let m = ShardMap { entries: Vec::new() };
        assert(m@ =~= Map::<ShardId, V>::empty());
        m
    }

    /// The number of entries.
    pub fn len(&self) -> (n: usize)
        ensures
            n == self.keys().len(),
            forall|i: int|
                0 <= i < self.keys().len() ==> self@.dom().contains(#[trigger] self.keys()[i]),
            forall|k: ShardId| self@.dom().contains(k) ==> self.keys().contains(k),
            forall|i: int, j: int|
                0 <= i < j < self.keys().len() ==> #[trigger] self.keys()[i]
                    < #[trigger] self.keys()[j],
    {
        proof {
            use_type_invariant(self);
            assert forall|k: ShardId| self@.dom().contains(k) implies self.keys().contains(k) by {
                let i = choose|i: int|
                    0 <= i < self.entries@.len() && (#[trigger] self.entries@[i]).0 == k;
                assert(self.keys()[i] == k);
            }
            assert forall|i: int| 0 <= i < self.keys().len() implies self@.dom().contains(
                #[trigger] self.keys()[i],
            ) by {
                entry_map_at(self.entries@, i);
            }
            assert forall|i: int, j: int| 0 <= i < j < self.keys().len() implies #[trigger] self.keys()[i]
                < #[trigger] self.keys()[j] by {
                assert(self.entries@[i].0 < self.entries@[j].0);
            }
        }
        self.entries.len()
    }

    /// The entry at a position.
    pub fn value_at(&self, i: usize) -> (v: &V)
        requires
            i < self.keys().len(),
        ensures
            self@.dom().contains(self.keys()[i as int]),
            *v == self@[self.keys()[i as int]],
    {
        proof {
            use_type_invariant(self);
            entry_map_at(self.entries@, i as int);
        }
        &self.entries[i].1
    }

    fn find(&self, key: ShardId) -> (r: (usize, bool))
        requires
            ascending(self.entries@),
        ensures
            r.0 <= self.entries.len(),
            forall|i: int| 0 <= i < r.0 ==> (#[trigger] self.entries@[i]).0 < key,
            r.1 ==> r.0 < self.entries.len() && self.entries@[r.0 as int].0 == key,
            !r.1 ==> forall|i: int|
                r.0 <= i < self.entries.len() ==> key < (#[trigger] self.entries@[i]).0,
            r.1 == self@.dom().contains(key),
            r.1 ==> self@[key] == self.entries@[r.0 as int].1,
    {
        let mut i: usize = 0;
        while i < self.entries.len() && self.entries[i].0 < key
            invariant
                i <= self.entries.len(),
                forall|k: int| 0 <= k < i ==> (#[trigger] self.entries@[k]).0 < key,
            decreases self.entries.len() - i,
        {
            i += 1;
        }
        let found = i < self.entries.len() && self.entries[i].0 == key;
        proof {
            if found {
                entry_map_at(self.entries@, i as int);
            } else {
                assert forall|k: int| i <= k < self.entries.len() implies key < (
                #[trigger] self.entries@[k]).0 by {
                    if k > i {
                        assert(self.entries@[i as int].0 < self.entries@[k].0);
                    }
                }
                if self@.dom().contains(key) {
                    let k = choose|k: int|
                        0 <= k < self.entries@.len() && (#[trigger] self.entries@[k]).0 == key;
                    assert(self.entries@[k].0 == key);
                    assert(k < i || k >= i);
                }
            }
        }
        (i, found)
    }

    /// The value of `key`, if it has one.
    pub fn get(&self, key: ShardId) -> (r: Option<&V>)
        ensures
            match r {
                Some(v) => self@.dom().contains(key) && *v == self@[key],
                None => !self@.dom().contains(key),
            },
    {
        proof {
            use_type_invariant(self);
        }
        let (i, found) = self.find(key);
        if found {
            Some(&self.entries[i].1)
        } else {
            None
        }
    }

    /// Gives `key` the value `value`.
    pub fn insert(&mut self, key: ShardId, value: V)
        ensures
            final(self)@ == old(self)@.insert(key, value),
    {
        proof {
            use_type_invariant(&*self);
        }
        let (i, found) = self.find(key);
        let mut entries: Vec<(ShardId, V)> = Vec::new();
        std::mem::swap(&mut entries, &mut self.entries);
        let ghost before = entries@;
        if found {
            entries.set(i, (key, value));
            assert(ascending(entries@));
        } else {
            entries.insert(i, (key, value));
            proof {
                assert forall|a: int, b: int| 0 <= a < b < entries@.len() implies (
                #[trigger] entries@[a]).0 < (#[trigger] entries@[b]).0 by {
                    if a != i {
                        assert(entries@[a] == before[if a < i { a } else { a - 1 }]);
                    }
                    if b != i {
                        assert(entries@[b] == before[if b < i { b } else { b - 1 }]);
                    }
                }
            }
        }
        proof {
            assert forall|k: ShardId| #![auto] entry_map(entries@).dom().contains(k)
                <==> entry_map(before).insert(key, value).dom().contains(k) by {
                if entry_map(entries@).dom().contains(k) {
                    let a = choose|a: int| 0 <= a < entries@.len() && (#[trigger] entries@[a]).0 == k;
                    if a != i {
                        assert(entries@[a] == before[if found || a < i { a } else { a - 1 }]);
                    }
                }
                if k == key {
                    assert(entries@[i as int].0 == key);
                } else if entry_map(before).dom().contains(k) {
                    let x = choose|x: int| 0 <= x < before.len() && (#[trigger] before[x]).0 == k;
                    let a = if found || x < i { x } else { x + 1 };
                    assert(entries@[a] == before[x]);
                }
            }
            assert forall|k: ShardId| #![auto] entry_map(entries@).dom().contains(k)
                implies entry_map(entries@)[k] == entry_map(before).insert(key, value)[k] by {
                let a = choose|a: int| 0 <= a < entries@.len() && (#[trigger] entries@[a]).0 == k;
                entry_map_at(entries@, a);
                if k == key {
                    entry_map_at(entries@, i as int);
                } else {
                    let x = if found || a < i { a } else { a - 1 };
                    assert(entries@[a] == before[x]);
                    entry_map_at(before, x);
                }
            }
            assert(entry_map(entries@) =~= entry_map(before).insert(key, value));
        }
        self.entries = entries;
    }
}

} // verus!

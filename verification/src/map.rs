//! Maps over fixed key shapes.

pub mod entry;
pub mod storage;

use vstd::prelude::*;
use crate::iter::{Iter, KeyIter};
use crate::key::{Composite, Key, Ordinal, Unit};
use crate::map::entry::Entry;
use crate::map::storage::array::ArrayMapStorage;
use crate::map::storage::boolean::BooleanMapStorage;
use crate::map::storage::composite::CompositeStorage;
use crate::map::storage::option::OptionStorage;
use crate::map::storage::unit::UnitMapStorage;
use crate::map::storage::MapStorage;
use crate::model::{
    as_map, entries, entry_refs, insert_all, key_seq, lemma_as_map_insert, lemma_as_map_len,
    lemma_as_map_remove,
    lemma_as_map_vacant, occupied, saturate, vacant, value_refs,
};

verus! {

/// The binding of a key shape to the map storage built for it.
pub trait MapKey<V>: Key {
    /// The storage that holds one slot per inhabitant of `Self`.
    type Storage: MapStorage<Self, V>;
}

impl<V> MapKey<V> for Unit {
    type Storage = UnitMapStorage<V>;
}

impl<V> MapKey<V> for bool {
    type Storage = BooleanMapStorage<V>;
}

impl<K: MapKey<V>, V> MapKey<V> for Option<K> {
    type Storage = OptionStorage<K, V>;
}

impl<V, const N: usize> MapKey<V> for Ordinal<N> {
    type Storage = ArrayMapStorage<Ordinal<N>, V, N>;
}

impl<B: MapKey<V>, V> MapKey<V> for Composite<bool, B> {
    type Storage = CompositeStorage<bool, B, V, 2>;
}

impl<B: MapKey<V>, V, const N: usize> MapKey<V> for Composite<Ordinal<N>, B> {
    type Storage = CompositeStorage<Ordinal<N>, B, V, N>;
}

/// A map with one slot per inhabitant of the key type.
///
/// Every operation is handed to the storage that the key shape is bound to.
#[derive(Clone, PartialEq, Eq)]
pub struct FixedMap<K: MapKey<V>, V> {
    storage: K::Storage,
}

impl<K: MapKey<V>, V> View for FixedMap<K, V> {
    type V = Map<K, V>;

    /// The associations as a mathematical map.
    open spec fn view(&self) -> Map<K, V> {
        as_map::<K, V>(self.slots())
    }
}

impl<K: MapKey<V>, V> FixedMap<K, V> {
    /// One optional value per inhabitant of the key shape, in slot order.
    pub closed spec fn slots(&self) -> Seq<Option<V>> {
        self.storage.slots()
    }

    /// There is exactly one slot per key.
    pub proof fn lemma_slots_len(&self)
        ensures
            self.slots().len() == K::shape_len(),
    {
        self.storage.lemma_slots_len();
    }

    /// An empty map.
    pub fn new() -> (m: Self)
        ensures
            m.slots() == vacant::<V>(K::shape_len()),
            m@ == Map::<K, V>::empty(),
    {
        proof {
            lemma_as_map_vacant::<K, V>();
        }
        FixedMap { storage: K::Storage::empty() }
    }

    /// Number of keys that have a value.
    pub fn len(&self) -> (n: usize)
        ensures
            self@.dom().finite(),
            n == saturate(self@.len()),
            n == saturate(occupied(self.slots())),
    {
        proof {
            self.storage.lemma_slots_len();
            lemma_as_map_len::<K, V>(self.slots());
        }
        self.storage.len()
    }

    /// Whether no key has a value.
    pub fn is_empty(&self) -> (b: bool)
        ensures
            b == (self@.len() == 0),
            b == (occupied(self.slots()) == 0),
    {
        proof {
            self.storage.lemma_slots_len();
            lemma_as_map_len::<K, V>(self.slots());
        }
        self.storage.is_empty()
    }

    /// Associates `key` with `value` and returns the value it replaces.
    pub fn insert(&mut self, key: K, value: V) -> (prev: Option<V>)
        ensures
            key.slot() < K::shape_len(),
            prev == old(self)@.get(key),
            final(self)@ == old(self)@.insert(key, value),
            final(self).slots() == old(self).slots().update(key.slot() as int, Some(value)),
    {
        let prev = self.storage.insert(key, value);
        proof {
            old(self).storage.lemma_slots_len();
            lemma_as_map_insert::<K, V>(old(self).slots(), key, value);
        }
        prev
    }

    /// Whether `key` has a value.
    pub fn contains_key(&self, key: K) -> (b: bool)
        ensures
            b == self@.contains_key(key),
    {
        proof {
            self.storage.lemma_slots_len();
        }
        self.storage.contains_key(key)
    }

    /// The value of `key`.
    pub fn get(&self, key: K) -> (r: Option<&V>)
        ensures
            r == match self@.get(key) {
                Some(v) => Some(&v),
                None => None,
            },
    {
        proof {
            self.storage.lemma_slots_len();
        }
        self.storage.get(key)
    }

    /// The value of `key`, for writing. What the caller leaves behind the
    /// reference is the value of `key` afterwards.
    pub fn get_mut(&mut self, key: K) -> (r: Option<&mut V>)
        ensures
            match old(self)@.get(key) {
                Some(v) => r is Some && *r->0 == v && final(self)@ == old(self)@.insert(
                    key,
                    *final(r->0),
                ) && final(self).slots() == old(self).slots().update(
                    key.slot() as int,
                    Some(*final(r->0)),
                ),
                None => r is None && final(self).slots() == old(self).slots(),
            },
    {
        proof {
            self.storage.lemma_slots_len();
            assert forall|v: V| key.slot() < K::shape_len() implies #[trigger] as_map::<K, V>(
                self.slots().update(key.slot() as int, Some(v)),
            ) == self@.insert(key, v) by {
                lemma_as_map_insert::<K, V>(self.slots(), key, v);
            }
        }
        self.storage.get_mut(key)
    }

    /// Removes `key` and returns the value it had.
    pub fn remove(&mut self, key: K) -> (prev: Option<V>)
        ensures
            key.slot() < K::shape_len(),
            prev == old(self)@.get(key),
            final(self)@ == old(self)@.remove(key),
            final(self).slots() == old(self).slots().update(key.slot() as int, None),
    {
        let prev = self.storage.remove(key);
        proof {
            old(self).storage.lemma_slots_len();
            lemma_as_map_remove::<K, V>(old(self).slots(), key);
        }
        prev
    }

    /// Calls `func` on every association and removes those for which it
    /// answers `false`. A key that stays keeps the value `func` left it.
    pub fn retain<F: Fn(K, &mut V) -> bool>(&mut self, func: F)
        requires
            forall|i: int, r: &mut V|
                0 <= i < old(self).slots().len() && old(self).slots()[i] == Some(*r)
                    ==> #[trigger] func.requires((K::key_at(i as nat), r)),
        ensures
            final(self).slots().len() == old(self).slots().len(),
            forall|i: int|
                #![trigger final(self).slots()[i]]
                0 <= i < old(self).slots().len() ==> match old(self).slots()[i] {
                    None => final(self).slots()[i] is None,
                    Some(v0) => exists|r: &mut V, keep: bool|
                        *r == v0 && #[trigger] func.ensures((K::key_at(i as nat), r), keep)
                            && final(self).slots()[i] == if keep {
                            Some(*final(r))
                        } else {
                            None::<V>
                        },
                },
    {
        self.storage.retain(func)
    }

    /// Removes every key.
    pub fn clear(&mut self)
        ensures
            final(self).slots() == vacant::<V>(K::shape_len()),
            final(self)@ == Map::<K, V>::empty(),
    {
        proof {
            lemma_as_map_vacant::<K, V>();
        }
        self.storage.clear()
    }

    /// The associations in ascending slot order.
    pub fn iter(&self) -> (r: Iter<(K, &V)>)
        ensures
            r.remaining() == entry_refs::<K, V>(self.slots()),
    {
        self.storage.iter()
    }

    /// The keys that have a value, in ascending slot order.
    pub fn keys(&self) -> (r: <K::Storage as MapStorage<K, V>>::Keys)
        ensures
            r.remaining() == key_seq::<K, V>(self.slots()),
    {
        self.storage.keys()
    }

    /// The values in ascending slot order of their keys.
    pub fn values(&self) -> (r: Iter<&V>)
        ensures
            r.remaining() == value_refs::<K, V>(self.slots()),
    {
        self.storage.values()
    }

    /// Calls `func` on every association; each key keeps the value `func`
    /// left it.
    pub fn iter_mut<F: Fn(K, &mut V)>(&mut self, func: F)
        requires
            forall|i: int, r: &mut V|
                0 <= i < old(self).slots().len() && old(self).slots()[i] == Some(*r)
                    ==> #[trigger] func.requires((K::key_at(i as nat), r)),
        ensures
            final(self).slots().len() == old(self).slots().len(),
            forall|i: int|
                #![trigger final(self).slots()[i]]
                0 <= i < old(self).slots().len() ==> match old(self).slots()[i] {
                    None => final(self).slots()[i] is None,
                    Some(v0) => exists|r: &mut V|
                        *r == v0 && #[trigger] func.ensures((K::key_at(i as nat), r), ())
                            && final(self).slots()[i] == Some(*final(r)),
                },
    {
        self.storage.iter_mut(func)
    }

    /// Calls `func` on every value; each key keeps the value `func` left it.
    pub fn values_mut<F: Fn(&mut V)>(&mut self, func: F)
        requires
            forall|i: int, r: &mut V|
                #![trigger old(self).slots()[i], func.requires((r,))]
                0 <= i < old(self).slots().len() && old(self).slots()[i] == Some(*r)
                    ==> func.requires((r,)),
        ensures
            final(self).slots().len() == old(self).slots().len(),
            forall|i: int|
                #![trigger final(self).slots()[i]]
                0 <= i < old(self).slots().len() ==> match old(self).slots()[i] {
                    None => final(self).slots()[i] is None,
                    Some(v0) => exists|r: &mut V|
                        *r == v0 && #[trigger] func.ensures((r,), ()) && final(self).slots()[i]
                            == Some(*final(r)),
                },
    {
        self.storage.values_mut(func)
    }

    /// The associations in ascending slot order, by value.
    pub fn into_iter(self) -> (r: Vec<(K, V)>)
        ensures
            r@ == entries::<K, V>(self.slots()),
    {
        self.storage.into_iter()
    }

    /// The map that results from inserting the pairs of `items` in turn into
    /// an empty map.
    pub fn from_entries(items: Vec<(K, V)>) -> (m: Self)
        ensures
            m.slots() == insert_all::<K, V>(vacant::<V>(K::shape_len()), items@),
    {
        let mut items = items;
        let ghost src = items@;
        let mut back: Vec<(K, V)> = Vec::new();
        while items.len() > 0
            invariant
                items@ == src.take(items@.len() as int),
                items@.len() <= src.len(),
                back@.len() == src.len() - items@.len(),
                forall|j: int| 0 <= j < back@.len() ==> back@[j] == src[src.len() - 1 - j],
            decreases items@.len(),
        {
            let ghost n = items@.len() as int;
            let e = items.pop().unwrap();
            back.push(e);
            assert(items@ =~= src.take(n - 1));
        }
        let mut m = Self::new();
        let ghost done = 0int;
        while back.len() > 0
            invariant
                back@.len() == src.len() - done,
                0 <= done <= src.len(),
                forall|j: int| 0 <= j < back@.len() ==> back@[j] == src[src.len() - 1 - j],
                m.slots() == insert_all::<K, V>(vacant::<V>(K::shape_len()), src.take(done)),
            decreases back@.len(),
        {
            let e = back.pop().unwrap();
            assert(src.take(done + 1).drop_last() =~= src.take(done));
            m.insert(e.0, e.1);
            proof {
                done = done + 1;
            }
        }
        assert(src.take(src.len() as int) =~= src);
        m
    }

    /// The value of `key`, after storing `value` if the key had none. The
    /// slot is looked up once. What the caller leaves behind the reference is
    /// the value of `key` afterwards: for a key that was absent the map ends
    /// up as `insert(key, value)` followed by a write through `get_mut(key)`
    /// leaves it.
    pub fn get_or_insert(&mut self, key: K, value: V) -> (r: &mut V)
        ensures
            key.slot() < K::shape_len(),
            *r == match old(self)@.get(key) {
                Some(v) => v,
                None => value,
            },
            final(self)@ == old(self)@.insert(key, *final(r)),
            final(self).slots() == old(self).slots().update(
                key.slot() as int,
                Some(*final(r)),
            ),
    {
        proof {
            self.storage.lemma_slots_len();
            assert forall|v: V| key.slot() < K::shape_len() implies #[trigger] as_map::<K, V>(
                self.slots().update(key.slot() as int, Some(v)),
            ) == self@.insert(key, v) by {
                lemma_as_map_insert::<K, V>(self.slots(), key, v);
            }
        }
        self.storage.entry(key).or_insert(value)
    }

    /// Looks the slot of `key` up once and hands it out as an entry. The
    /// content of the slot when the entry is given up is what the map holds
    /// for `key` afterwards; every other key is unchanged.
    pub fn entry(&mut self, key: K) -> (e: Entry<'_, K, V>)
        ensures
            match e {
                Entry::Occupied(o) => o.key == key && *o.inner is Some && *o.inner == old(
                    self,
                )@.get(key) && final(self).slots() == old(self).slots().update(
                    key.slot() as int,
                    *final(o.inner),
                ),
                Entry::Vacant(v) => v.key == key && *v.inner is None && old(self)@.get(key)
                    is None && final(self).slots() == old(self).slots().update(
                    key.slot() as int,
                    *final(v.inner),
                ),
            },
    {
        proof {
            self.storage.lemma_slots_len();
        }
        self.storage.entry(key)
    }
}

} // verus!

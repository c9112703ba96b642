//! The capability contract of map storages.

pub mod array;
pub mod boolean;
pub mod composite;
pub mod option;
pub mod unit;

use vstd::prelude::*;
use crate::iter::{Iter, KeyIter};
use crate::key::Key;
use crate::map::entry::Entry;
use crate::model::{entries, entry_refs, key_seq, occupied, saturate, vacant, value_refs};

verus! {

/// The backing storage of a map: one optional slot per inhabitant of `K`.
///
/// Every contract is stated over `slots()`, where the slot of `key` stands
/// at position `key.slot()`. A call that takes a key also tells its caller
/// that the key lies in the domain, as every key held by running code does.
pub trait MapStorage<K: Key, V>: Sized {
    /// Traversal over the present keys.
    type Keys: KeyIter<K>;

    /// One optional value per inhabitant of the key shape, in slot order.
    spec fn slots(&self) -> Seq<Option<V>>;

    /// There is exactly one slot per key.
    proof fn lemma_slots_len(&self)
        ensures
            self.slots().len() == K::shape_len(),
    ;

    /// A storage in which every slot is absent.
    fn empty() -> (s: Self)
        ensures
            s.slots() == vacant::<V>(K::shape_len()),
    ;

    /// Number of occupied slots.
    fn len(&self) -> (n: usize)
        ensures
            n == saturate(occupied(self.slots())),
    ;

    /// Whether no slot is occupied.
    fn is_empty(&self) -> (b: bool)
        ensures
            b == (occupied(self.slots()) == 0),
    ;

    /// Stores `value` in the slot of `key` and returns what the slot held.
    fn insert(&mut self, key: K, value: V) -> (prev: Option<V>)
        ensures
            key.slot() < K::shape_len(),
            prev == old(self).slots()[key.slot() as int],
            final(self).slots() == old(self).slots().update(key.slot() as int, Some(value)),
    ;

    /// Whether the slot of `key` is occupied.
    fn contains_key(&self, key: K) -> (b: bool)
        ensures
            key.slot() < K::shape_len(),
            b == (self.slots()[key.slot() as int] is Some),
    ;

    /// The value in the slot of `key`.
    fn get(&self, key: K) -> (r: Option<&V>)
        ensures
            key.slot() < K::shape_len(),
            r == match self.slots()[key.slot() as int] {
                Some(v) => Some(&v),
                None => None,
            },
    ;

    /// The value in the slot of `key`, for writing. What the caller leaves
    /// behind the reference is what the slot ends up with.
    fn get_mut(&mut self, key: K) -> (r: Option<&mut V>)
        ensures
            key.slot() < K::shape_len(),
            match old(self).slots()[key.slot() as int] {
                Some(v) => r is Some && *r->0 == v && final(self).slots() == old(
                    self,
                ).slots().update(key.slot() as int, Some(*final(r->0))),
                None => r is None && final(self).slots() == old(self).slots(),
            },
    ;

    /// Empties the slot of `key` and returns what it held.
    fn remove(&mut self, key: K) -> (prev: Option<V>)
        ensures
            key.slot() < K::shape_len(),
            prev == old(self).slots()[key.slot() as int],
            final(self).slots() == old(self).slots().update(key.slot() as int, None),
    ;

    /// Calls `func` on every present association and empties the slots for
    /// which it answers `false`. A slot that stays keeps the value `func`
    /// left in it. `func` has to accept the associations that are present.
    fn retain<F: Fn(K, &mut V) -> bool>(&mut self, func: F)
        requires
            forall|i: int, r: &mut V|
                0 <= i < old(self).slots().len() && old(self).slots()[i] == Some(*r)
                    ==> #[trigger] func.requires((K::key_at(i as nat), r)),
        ensures
            final(self).slots().len() == old(self).slots().len(),
            forall|i: int|
                #![trigger final(self).slots()[i]]
                0 <= i < old(self).slots().len() ==> match old(self).slots()[i] {
                    None => final(self).slots()[i] is None,
                    Some(v0) => exists|r: &mut V, keep: bool|
                        *r == v0 && #[trigger] func.ensures((K::key_at(i as nat), r), keep)
                            && final(self).slots()[i] == if keep {
                            Some(*final(r))
                        } else {
                            None::<V>
                        },
                },
    ;

    /// Empties every slot.
    fn clear(&mut self)
        ensures
            final(self).slots() == vacant::<V>(K::shape_len()),
    ;

    /// The present associations in ascending slot order.
    fn iter(&self) -> (r: Iter<(K, &V)>)
        ensures
            r.remaining() == entry_refs::<K, V>(self.slots()),
    ;

    /// The present keys in ascending slot order.
    fn keys(&self) -> (r: Self::Keys)
        ensures
            r.remaining() == key_seq::<K, V>(self.slots()),
    ;

    /// The present values in ascending slot order.
    fn values(&self) -> (r: Iter<&V>)
        ensures
            r.remaining() == value_refs::<K, V>(self.slots()),
    ;

    /// Calls `func` on every present association; each slot keeps the value
    /// `func` left in it.
    fn iter_mut<F: Fn(K, &mut V)>(&mut self, func: F)
        requires
            forall|i: int, r: &mut V|
                0 <= i < old(self).slots().len() && old(self).slots()[i] == Some(*r)
                    ==> #[trigger] func.requires((K::key_at(i as nat), r)),
        ensures
            final(self).slots().len() == old(self).slots().len(),
            forall|i: int|
                #![trigger final(self).slots()[i]]
                0 <= i < old(self).slots().len() ==> match old(self).slots()[i] {
                    None => final(self).slots()[i] is None,
                    Some(v0) => exists|r: &mut V|
                        *r == v0 && #[trigger] func.ensures((K::key_at(i as nat), r), ())
                            && final(self).slots()[i] == Some(*final(r)),
                },
    ;

    /// Calls `func` on every present value; each slot keeps the value `func`
    /// left in it.
    fn values_mut<F: Fn(&mut V)>(&mut self, func: F)
        requires
            forall|i: int, r: &mut V|
                #![trigger old(self).slots()[i], func.requires((r,))]
                0 <= i < old(self).slots().len() && old(self).slots()[i] == Some(*r)
                    ==> func.requires((r,)),
        ensures
            final(self).slots().len() == old(self).slots().len(),
            forall|i: int|
                #![trigger final(self).slots()[i]]
                0 <= i < old(self).slots().len() ==> match old(self).slots()[i] {
                    None => final(self).slots()[i] is None,
                    Some(v0) => exists|r: &mut V|
                        *r == v0 && #[trigger] func.ensures((r,), ()) && final(self).slots()[i]
                            == Some(*final(r)),
                },
    ;

    /// The present associations in ascending slot order, by value.
    fn into_iter(self) -> (r: Vec<(K, V)>)
        ensures
            r@ == entries::<K, V>(self.slots()),
    ;

    /// Looks the slot of `key` up once and hands it out as an entry. The
    /// content of the slot when the entry is given up is what the storage
    /// holds for `key` afterwards; every other slot is unchanged.
    fn entry(&mut self, key: K) -> (e: Entry<'_, K, V>)
        ensures
            key.slot() < K::shape_len(),
            match e {
                Entry::Occupied(o) => o.key == key && *o.inner is Some && *o.inner == old(
                    self,
                ).slots()[key.slot() as int] && final(self).slots() == old(self).slots().update(
                    key.slot() as int,
                    *final(o.inner),
                ),
                Entry::Vacant(v) => v.key == key && *v.inner is None && old(
                    self,
                ).slots()[key.slot() as int] is None && final(self).slots() == old(
                    self,
                ).slots().update(key.slot() as int, *final(v.inner)),
            },
    ;
}

} // verus!

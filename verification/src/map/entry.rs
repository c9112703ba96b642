//! Handles bound to one resolved slot.
//!
//! An entry is acquired with a single slot lookup and holds the slot itself.
//! Every operation on the handle reads or writes that slot directly; the key
//! is never mapped to a slot again. The slot's content when the handle is
//! dropped is the content the storage ends up with.

use vstd::prelude::*;

verus! {

/// A handle on a slot that held no value when it was acquired.
pub struct Vacant<'a, K, V> {
    /// The key the entry was acquired for.
    pub key: K,
    /// The slot of that key.
    pub inner: &'a mut Option<V>,
}

/// A handle on a slot that holds a value.
pub struct Occupied<'a, K, V> {
    /// The key the entry was acquired for.
    pub key: K,
    /// The slot of that key.
    pub inner: &'a mut Option<V>,
}

/// The slot of one key, seen as either occupied or vacant.
pub enum Entry<'a, K, V> {
    /// The slot holds a value.
    Occupied(Occupied<'a, K, V>),
    /// The slot is empty.
    Vacant(Vacant<'a, K, V>),
}

impl<'a, K: Copy, V> Vacant<'a, K, V> {
    /// The key this entry was acquired for.
    pub fn key(&self) -> (k: K)
        ensures
            k == self.key,
    {
        self.key
    }

    /// Stores `value` in the slot and returns a reference to it.
    pub fn insert(self, value: V) -> (r: &'a mut V)
        ensures
            *r == value,
            *final(self.inner) == Some(*final(r)),
    {
        self.inner.insert(value)
    }
}

impl<'a, K: Copy, V> Occupied<'a, K, V> {
    /// The slot holds a value, as it does for every handle that `entry`
    /// returned.
    pub open spec fn wf(&self) -> bool {
        *self.inner is Some
    }

    /// The value in the slot.
    pub open spec fn value(&self) -> V {
        (*self.inner)->0
    }

    /// The key this entry was acquired for.
    pub fn key(&self) -> (k: K)
        ensures
            k == self.key,
    {
        self.key
    }

    /// The value in the slot.
    pub fn get(&self) -> (r: &V)
        requires
            self.wf(),
        ensures
            *r == self.value(),
    {
        self.inner.as_ref().unwrap()
    }

    /// The value in the slot, for writing.
    pub fn get_mut(&mut self) -> (r: &mut V)
        requires
            old(self).wf(),
        ensures
            *r == old(self).value(),
            final(self).key == old(self).key,
            *final(self).inner == Some(*final(r)),
            *final(final(self).inner) == *final(old(self).inner),
    {
        self.inner.as_mut().unwrap()
    }

    /// Gives up the handle for a reference to the value, which lives as long
    /// as the borrow of the storage.
    pub fn into_mut(self) -> (r: &'a mut V)
        requires
            self.wf(),
        ensures
            *r == (*old(self.inner))->0,
            *final(self.inner) == Some(*final(r)),
    {
        self.inner.as_mut().unwrap()
    }

    /// Replaces the value in place and returns the previous one.
    pub fn insert(&mut self, value: V) -> (prev: V)
        requires
            old(self).wf(),
        ensures
            prev == old(self).value(),
            final(self).key == old(self).key,
            *final(self).inner == Some(value),
            *final(final(self).inner) == *final(old(self).inner),
    {
        let prev = self.inner.take().unwrap();
        *self.inner = Some(value);
        prev
    }

    /// Empties the slot and returns the value it held.
    pub fn remove(self) -> (v: V)
        requires
            self.wf(),
        ensures
            v == (*old(self.inner))->0,
            *final(self.inner) is None,
    {
        self.inner.take().unwrap()
    }
}

impl<'a, K: Copy, V> Entry<'a, K, V> {
    /// The key this entry was acquired for.
    pub open spec fn spec_key(&self) -> K {
        match self {
            Entry::Occupied(o) => o.key,
            Entry::Vacant(v) => v.key,
        }
    }

    /// An occupied entry holds a value.
    pub open spec fn wf(&self) -> bool {
        match self {
            Entry::Occupied(o) => o.wf(),
            Entry::Vacant(v) => *v.inner is None,
        }
    }

    /// The key this entry was acquired for.
    pub fn key(&self) -> (k: K)
        ensures
            k == self.spec_key(),
    {
        match self {
            Entry::Occupied(o) => o.key(),
            Entry::Vacant(v) => v.key(),
        }
    }

    /// The value of the slot, after storing `default` if the slot was vacant.
    pub fn or_insert(self, default: V) -> (r: &'a mut V)
        requires
            self.wf(),
        ensures
            match self {
                Entry::Occupied(o) => *r == (*o.inner)->0 && *final(o.inner) == Some(
                    *final(r),
                ),
                Entry::Vacant(v) => *r == default && *final(v.inner) == Some(*final(r)),
            },
    {
        match self {
            Entry::Occupied(o) => o.into_mut(),
            Entry::Vacant(v) => v.insert(default),
        }
    }
}

} // verus!

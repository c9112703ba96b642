//! Sets over fixed key shapes.

pub mod storage;
pub mod word;

use core::marker::PhantomData;
use vstd::prelude::*;
use crate::iter::Iter;
use crate::key::Key;
use crate::laws::{lemma_difference, lemma_intersection, lemma_union};
use crate::model::{
    as_set, lemma_as_set_insert, lemma_as_set_len, lemma_as_set_remove, member_keys, none_present,
    present, saturate,
};
use crate::set::storage::{SetAlgebra, SetStorage};

verus! {

/// A set with one presence flag per inhabitant of the key type, kept in the
/// storage `S`.
pub struct FixedSet<K, S> {
    storage: S,
    key: PhantomData<K>,
}

impl<K: Key, S: SetStorage<K>> View for FixedSet<K, S> {
    type V = Set<K>;

    /// The present keys as a mathematical set.
    open spec fn view(&self) -> Set<K> {
        as_set::<K>(self.members())
    }
}

impl<K: Key, S: SetStorage<K>> FixedSet<K, S> {
    /// One presence flag per inhabitant of the key shape, in slot order.
    pub closed spec fn members(&self) -> Seq<bool> {
        self.storage.members()
    }

    /// There is exactly one flag per key.
    pub proof fn lemma_members_len(&self)
        ensures
            self.members().len() == K::shape_len(),
    {
        self.storage.lemma_members_len();
    }

    /// An empty set.
    pub fn new() -> (s: Self)
        requires
            S::supported(),
        ensures
            s.members() == none_present(K::shape_len()),
            s@ == Set::<K>::empty(),
    {
        let s = FixedSet { storage: S::empty(), key: PhantomData };
        assert(s@ =~= Set::<K>::empty());
        s
    }

    /// Number of present keys.
    pub fn len(&self) -> (n: usize)
        requires
            S::supported(),
        ensures
            self@.finite(),
            n == saturate(self@.len()),
            n == saturate(present(self.members())),
    {
        proof {
            self.storage.lemma_members_len();
            lemma_as_set_len::<K>(self.members());
        }
        self.storage.len()
    }

    /// Whether no key is present.
    pub fn is_empty(&self) -> (b: bool)
        requires
            S::supported(),
        ensures
            b == (self@.len() == 0),
            b == (present(self.members()) == 0),
    {
        proof {
            self.storage.lemma_members_len();
            lemma_as_set_len::<K>(self.members());
        }
        self.storage.is_empty()
    }

    /// Adds `key`. Answers `true` when the key was absent before, `false`
    /// when it was present already.
    pub fn insert(&mut self, key: K) -> (fresh: bool)
        requires
            S::supported(),
        ensures
            key.slot() < K::shape_len(),
            fresh == !old(self)@.contains(key),
            final(self)@ == old(self)@.insert(key),
            final(self).members() == old(self).members().update(key.slot() as int, true),
    {
        let fresh = self.storage.insert(key);
        proof {
            old(self).storage.lemma_members_len();
            lemma_as_set_insert::<K>(old(self).members(), key);
        }
        fresh
    }

    /// Whether `key` is present.
    pub fn contains(&self, key: K) -> (b: bool)
        requires
            S::supported(),
        ensures
            b == self@.contains(key),
    {
        proof {
            self.storage.lemma_members_len();
        }
        self.storage.contains(key)
    }

    /// Removes `key`. Answers whether it was present before.
    pub fn remove(&mut self, key: K) -> (was: bool)
        requires
            S::supported(),
        ensures
            key.slot() < K::shape_len(),
            was == old(self)@.contains(key),
            final(self)@ == old(self)@.remove(key),
            final(self).members() == old(self).members().update(key.slot() as int, false),
    {
        let was = self.storage.remove(key);
        proof {
            old(self).storage.lemma_members_len();
            lemma_as_set_remove::<K>(old(self).members(), key);
        }
        was
    }

    /// Calls `func` on every present key and removes those for which it
    /// answers `false`: a key that was present is present afterwards exactly
    /// when that was the answer of `func` for it.
    pub fn retain<F: Fn(K) -> bool>(&mut self, func: F)
        requires
            S::supported(),
            forall|i: int|
                0 <= i < old(self).members().len() && old(self).members()[i]
                    ==> #[trigger] func.requires((K::key_at(i as nat),)),
        ensures
            final(self).members().len() == old(self).members().len(),
            forall|i: int|
                #![trigger final(self).members()[i]]
                0 <= i < old(self).members().len() ==> if old(self).members()[i] {
                    func.ensures((K::key_at(i as nat),), final(self).members()[i])
                } else {
                    !final(self).members()[i]
                },
    {
        self.storage.retain(func)
    }

    /// Removes every key.
    pub fn clear(&mut self)
        requires
            S::supported(),
        ensures
            final(self).members() == none_present(K::shape_len()),
            final(self)@ == Set::<K>::empty(),
    {
        self.storage.clear();
        assert(self@ =~= Set::<K>::empty());
    }

    /// The present keys in ascending slot order.
    pub fn iter(&self) -> (r: Iter<K>)
        requires
            S::supported(),
        ensures
            r.remaining() == member_keys::<K>(self.members()),
    {
        self.storage.iter()
    }
}

impl<K: Key, S: SetAlgebra<K>> FixedSet<K, S> {
    /// The set of the keys present in `self` or in `other`.
    pub fn union(&self, other: &Self) -> (r: Self)
        requires
            S::supported(),
        ensures
            r@ == self@.union(other@),
            forall|k: K| r@.contains(k) == (self@.contains(k) || other@.contains(k)),
    {
        let r = FixedSet { storage: self.storage.union(&other.storage), key: PhantomData };
        proof {
            self.storage.lemma_members_len();
            other.storage.lemma_members_len();
            lemma_union::<K>(self.members(), other.members(), r.members());
        }
        r
    }

    /// The set of the keys present in `self` and in `other`.
    pub fn intersection(&self, other: &Self) -> (r: Self)
        requires
            S::supported(),
        ensures
            r@ == self@.intersect(other@),
            forall|k: K| r@.contains(k) == (self@.contains(k) && other@.contains(k)),
    {
        let r = FixedSet { storage: self.storage.intersection(&other.storage), key: PhantomData };
        proof {
            self.storage.lemma_members_len();
            other.storage.lemma_members_len();
            lemma_intersection::<K>(self.members(), other.members(), r.members());
        }
        r
    }

    /// The set of the keys present in `self` and not in `other`.
    pub fn difference(&self, other: &Self) -> (r: Self)
        requires
            S::supported(),
        ensures
            r@ == self@.difference(other@),
            forall|k: K| r@.contains(k) == (self@.contains(k) && !other@.contains(k)),
    {
        let r = FixedSet { storage: self.storage.difference(&other.storage), key: PhantomData };
        proof {
            self.storage.lemma_members_len();
            other.storage.lemma_members_len();
            lemma_difference::<K>(self.members(), other.members(), r.members());
        }
        r
    }
}

} // verus!

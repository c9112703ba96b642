//! The capability contract of set storages.

pub mod bitset;
pub mod mapped;

use vstd::prelude::*;
use crate::iter::Iter;
use crate::key::Key;
use crate::model::{member_keys, none_present, present, saturate};

verus! {

/// The backing storage of a set: one presence flag per inhabitant of `K`.
///
/// Every contract is stated over `members()`, where the flag of `key` stands
/// at position `key.slot()`. A call that takes a key also tells its caller
/// that the key lies in the domain, as every key held by running code does.
pub trait SetStorage<K: Key>: Sized {
    /// Whether this storage type has room for every inhabitant of `K`. A
    /// storage is only ever used for a key shape that it supports.
    spec fn supported() -> bool;

    /// One presence flag per inhabitant of the key shape, in slot order.
    spec fn members(&self) -> Seq<bool>;

    /// There is exactly one flag per key.
    proof fn lemma_members_len(&self)
        ensures
            self.members().len() == K::shape_len(),
    ;

    /// A storage in which no key is present.
    fn empty() -> (s: Self)
        requires
            Self::supported(),
        ensures
            s.members() == none_present(K::shape_len()),
    ;

    /// Number of present keys.
    fn len(&self) -> (n: usize)
        requires
            Self::supported(),
        ensures
            n == saturate(present(self.members())),
    ;

    /// Whether no key is present.
    fn is_empty(&self) -> (b: bool)
        requires
            Self::supported(),
        ensures
            b == (present(self.members()) == 0),
    ;

    /// Marks `key` present. Answers `true` when the key was absent before,
    /// `false` when it was present already.
    fn insert(&mut self, key: K) -> (fresh: bool)
        requires
            Self::supported(),
        ensures
            key.slot() < K::shape_len(),
            fresh == !old(self).members()[key.slot() as int],
            final(self).members() == old(self).members().update(key.slot() as int, true),
    ;

    /// Whether `key` is present.
    fn contains(&self, key: K) -> (b: bool)
        requires
            Self::supported(),
        ensures
            key.slot() < K::shape_len(),
            b == self.members()[key.slot() as int],
    ;

    /// Marks `key` absent. Answers whether it was present before.
    fn remove(&mut self, key: K) -> (was: bool)
        requires
            Self::supported(),
        ensures
            key.slot() < K::shape_len(),
            was == old(self).members()[key.slot() as int],
            final(self).members() == old(self).members().update(key.slot() as int, false),
    ;

    /// Calls `func` on every present key and marks absent those for which
    /// it answers `false`: a key that was present is present afterwards
    /// exactly when that was the answer of `func` for it.
    fn retain<F: Fn(K) -> bool>(&mut self, func: F)
        requires
            Self::supported(),
            forall|i: int|
                0 <= i < old(self).members().len() && old(self).members()[i]
                    ==> #[trigger] func.requires((K::key_at(i as nat),)),
        ensures
            final(self).members().len() == old(self).members().len(),
            forall|i: int|
                #![trigger final(self).members()[i]]
                0 <= i < old(self).members().len() ==> if old(self).members()[i] {
                    func.ensures((K::key_at(i as nat),), final(self).members()[i])
                } else {
                    !final(self).members()[i]
                },
    ;

    /// Marks every key absent.
    fn clear(&mut self)
        requires
            Self::supported(),
        ensures
            final(self).members() == none_present(K::shape_len()),
    ;

    /// The present keys in ascending slot order.
    fn iter(&self) -> (r: Iter<K>)
        requires
            Self::supported(),
        ensures
            r.remaining() == member_keys::<K>(self.members()),
    ;
}

/// Set storages that combine two sets in one step.
pub trait SetAlgebra<K: Key>: SetStorage<K> {
    /// The keys present in `self` or in `other`.
    fn union(&self, other: &Self) -> (r: Self)
        requires
            Self::supported(),
        ensures
            r.members().len() == self.members().len(),
            forall|i: int|
                0 <= i < self.members().len() ==> #[trigger] r.members()[i] == (self.members()[i]
                    || other.members()[i]),
    ;

    /// The keys present in `self` and in `other`.
    fn intersection(&self, other: &Self) -> (r: Self)
        requires
            Self::supported(),
        ensures
            r.members().len() == self.members().len(),
            forall|i: int|
                0 <= i < self.members().len() ==> #[trigger] r.members()[i] == (self.members()[i]
                    && other.members()[i]),
    ;

    /// The keys present in `self` and not in `other`.
    fn difference(&self, other: &Self) -> (r: Self)
        requires
            Self::supported(),
        ensures
            r.members().len() == self.members().len(),
            forall|i: int|
                0 <= i < self.members().len() ==> #[trigger] r.members()[i] == (self.members()[i]
                    && !other.members()[i]),
    ;
}

} // verus!

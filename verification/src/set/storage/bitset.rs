//! Set storage that packs one presence bit per inhabitant into a machine
//! word.

use core::marker::PhantomData;
use vstd::prelude::*;
use crate::iter::Iter;
use crate::key::{Key, PlainKey};
use crate::model::{
    lemma_member_keys_push, lemma_present_push, lemma_present_zero, member_keys, none_present,
    present,
};
use crate::set::storage::{SetAlgebra, SetStorage};
use crate::set::word::Word;

verus! {

/// Set storage for a key with `N` inhabitants in the bits of one word `W`.
///
/// The bit at position `i` is the presence flag of the key at slot `i`. The
/// storage supports a key shape when the word has a bit for every
/// inhabitant.
pub struct BitsetStorage<K, W, const N: usize> {
    bits: W,
    key: PhantomData<K>,
}

impl<K: PlainKey<N>, W: Word, const N: usize> BitsetStorage<K, W, N> {
    /// The model of the first `i + 1` flags in terms of the first `i`.
    proof fn lemma_step(&self, i: int)
        requires
            0 <= i < N,
        ensures
            self.members().take(i + 1) == self.members().take(i).push(self.bits.bit(i as nat)),
            present(self.members().take(i + 1)) == present(self.members().take(i)) + (
            if self.bits.bit(i as nat) {
                1nat
            } else {
                0nat
            }),
            member_keys::<K>(self.members().take(i + 1)) == (if self.bits.bit(i as nat) {
                member_keys::<K>(self.members().take(i)).push(K::key_at(i as nat))
            } else {
                member_keys::<K>(self.members().take(i))
            }),
    {
        let flag = self.bits.bit(i as nat);
        assert(self.members().take(i + 1) =~= self.members().take(i).push(flag));
        lemma_present_push(self.members().take(i), flag);
        lemma_member_keys_push::<K>(self.members().take(i), flag);
    }
}

impl<K: PlainKey<N>, W: Word, const N: usize> SetStorage<K> for BitsetStorage<K, W, N> {
    open spec fn supported() -> bool {
        N <= W::width()
    }

    closed spec fn members(&self) -> Seq<bool> {
        Seq::new(N as nat, |i: int| self.bits.bit(i as nat))
    }

    proof fn lemma_members_len(&self) {
        K::lemma_shape_len();
    }

    fn empty() -> (s: Self) {
        proof {
            K::lemma_shape_len();
        }
        let s = BitsetStorage { bits: W::zero(), key: PhantomData };
        assert(s.members() =~= none_present(N as nat));
        s
    }

    fn len(&self) -> (n: usize) {
        let mut n: usize = 0;
        let mut i: usize = 0;
        while i < N
            invariant
                i <= N <= W::width(),
                n == present(self.members().take(i as int)),
                n <= i,
            decreases N - i,
        {
            proof {
                self.lemma_step(i as int);
            }
            if self.bits.test(i) {
                n = n + 1;
            }
            i = i + 1;
        }
        assert(self.members().take(N as int) =~= self.members());
        n
    }

    fn is_empty(&self) -> (b: bool) {
        let mut i: usize = 0;
        while i < N
            invariant
                i <= N <= W::width(),
                forall|j: int| 0 <= j < i ==> !self.members()[j],
            decreases N - i,
        {
            if self.bits.test(i) {
                proof {
                    lemma_present_zero(self.members());
                    assert(self.members()[i as int]);
                }
                return false;
            }
            i = i + 1;
        }
        proof {
            lemma_present_zero(self.members());
        }
        true
    }

    fn insert(&mut self, key: K) -> (fresh: bool) {
        proof {
            K::lemma_shape_len();
        }
        let i = key.index();
        let fresh = !self.bits.test(i);
        self.bits = self.bits.with(i);
        assert(self.members() =~= old(self).members().update(i as int, true));
        fresh
    }

    fn contains(&self, key: K) -> (b: bool) {
        proof {
            K::lemma_shape_len();
        }
        let i = key.index();
        self.bits.test(i)
    }

    fn remove(&mut self, key: K) -> (was: bool) {
        proof {
            K::lemma_shape_len();
        }
        let i = key.index();
        let was = self.bits.test(i);
        self.bits = self.bits.without(i);
        assert(self.members() =~= old(self).members().update(i as int, false));
        was
    }

    fn retain<F: Fn(K) -> bool>(&mut self, func: F) {
        let mut i: usize = 0;
        while i < N
            invariant
                i <= N <= W::width(),
                forall|j: int|
                    0 <= j < N && old(self).members()[j] ==> #[trigger] func.requires(
                        (K::key_at(j as nat),),
                    ),
                forall|j: int| i <= j < N ==> self.members()[j] == old(self).members()[j],
                forall|j: int|
                    #![trigger self.members()[j]]
                    0 <= j < i ==> if old(self).members()[j] {
                        func.ensures((K::key_at(j as nat),), self.members()[j])
                    } else {
                        !self.members()[j]
                    },
            decreases N - i,
        {
            let ghost prev = self.members();
            let ghost key = K::key_at(i as nat);
            let mut keep = true;
            if self.bits.test(i) {
                if let Some(k) = K::from_index(i) {
                    proof {
                        let at = i as int;
                        assert(self.members()[at] == old(self).members()[at]);
                        assert(func.requires((K::key_at(at as nat),)));
                    }
                    keep = func(k);
                }
            }
            if !keep {
                self.bits = self.bits.without(i);
            }
            assert forall|j: int| #![trigger self.members()[j]] 0 <= j < i + 1 implies if old(
                self,
            ).members()[j] {
                func.ensures((K::key_at(j as nat),), self.members()[j])
            } else {
                !self.members()[j]
            } by {
                if j == i {
                    if prev[j] {
                        assert(func.ensures((key,), keep));
                        assert(self.members()[j] == keep);
                    }
                } else {
                    assert(self.members()[j] == prev[j]);
                }
            }
            assert forall|j: int| i + 1 <= j < N implies self.members()[j] == old(
                self,
            ).members()[j] by {
                assert(self.members()[j] == prev[j]);
            }
            i = i + 1;
        }
    }

    fn clear(&mut self) {
        proof {
            K::lemma_shape_len();
        }
        self.bits = W::zero();
        assert(self.members() =~= none_present(N as nat));
    }

    fn iter(&self) -> (r: Iter<K>) {
        let mut items: Vec<K> = Vec::new();
        let mut i: usize = 0;
        while i < N
            invariant
                i <= N <= W::width(),
                items@ == member_keys::<K>(self.members().take(i as int)),
            decreases N - i,
        {
            proof {
                self.lemma_step(i as int);
            }
            if self.bits.test(i) {
                if let Some(k) = K::from_index(i) {
                    items.push(k);
                }
            }
            i = i + 1;
        }
        assert(self.members().take(N as int) =~= self.members());
        Iter::new(items)
    }
}

impl<K: PlainKey<N>, W: Word, const N: usize> SetAlgebra<K> for BitsetStorage<K, W, N> {
    fn union(&self, other: &Self) -> (r: Self) {
        BitsetStorage { bits: self.bits.or(other.bits), key: PhantomData }
    }

    fn intersection(&self, other: &Self) -> (r: Self) {
        BitsetStorage { bits: self.bits.and(other.bits), key: PhantomData }
    }

    fn difference(&self, other: &Self) -> (r: Self) {
        BitsetStorage { bits: self.bits.and_not(other.bits), key: PhantomData }
    }
}

} // verus!

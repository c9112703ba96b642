//! Storage for plain enumerations: a dense array with one slot per variant,
//! indexed by the variant's position.

use core::marker::PhantomData;
use vstd::prelude::*;
use crate::iter::Iter;
use crate::key::{Key, PlainKey};
use crate::map::entry::{Entry, Occupied, Vacant};
use crate::map::storage::MapStorage;
use crate::model::{
    entries, lemma_entries_push, lemma_occupied_push, lemma_occupied_zero, occupied, vacant,
};

verus! {

/// Taken on trust of `core::array::from_fn`, which the standard library
/// documents as building an array of `N` elements by calling `f` with each
/// index in turn: when `f` accepts every index below `N`, the element at
/// each index of the array is a value that `f` returns for that index.
pub assume_specification<T, const N: usize, F>[ core::array::from_fn::<T, N, F> ](f: F) -> (a:
    [T; N])
    where
        F: FnMut(usize) -> T,
    requires
        forall|i: usize| i < N ==> call_requires(f, (i,)),
    ensures
        forall|i: int| 0 <= i < N ==> call_ensures(f, (i as usize,), #[trigger] a@[i]),
;

/// Map storage for a key with `N` inhabitants, as an array of `N` optional
/// slots.
pub struct ArrayMapStorage<K, V, const N: usize> {
    data: [Option<V>; N],
    key: PhantomData<K>,
}

impl<K: PlainKey<N>, V, const N: usize> ArrayMapStorage<K, V, N> {
    /// The model of the first `i + 1` slots in terms of the first `i`.
    proof fn lemma_step(&self, i: int)
        requires
            0 <= i < N,
        ensures
            self.data@.take(i + 1) == self.data@.take(i).push(self.data@[i]),
            occupied(self.data@.take(i + 1)) == occupied(self.data@.take(i)) + (if self.data@[i]
                is Some {
                1nat
            } else {
                0nat
            }),
            entries::<K, V>(self.data@.take(i + 1)) == (match self.data@[i] {
                Some(v) => entries::<K, V>(self.data@.take(i)).push((K::key_at(i as nat), v)),
                None => entries::<K, V>(self.data@.take(i)),
            }),
    {
        assert(self.data@.take(i + 1) =~= self.data@.take(i).push(self.data@[i]));
        lemma_occupied_push(self.data@.take(i), self.data@[i]);
        lemma_entries_push::<K, V>(self.data@.take(i), self.data@[i]);
    }
}

impl<K: PlainKey<N>, V, const N: usize> MapStorage<K, V> for ArrayMapStorage<K, V, N> {
    type Keys = Iter<K>;

    closed spec fn slots(&self) -> Seq<Option<V>> {
        self.data@
    }

    proof fn lemma_slots_len(&self) {
        K::lemma_shape_len();
    }

    fn empty() -> (s: Self) {
        proof {
            K::lemma_shape_len();
        }
        let absent = |i: usize| -> (r: Option<V>)
            ensures
                r is None,
            {
                None
            };
        let s = ArrayMapStorage { data: core::array::from_fn(absent), key: PhantomData };
        assert(s.slots() =~= vacant::<V>(N as nat));
        s
    }

    fn len(&self) -> (n: usize) {
        let mut n: usize = 0;
        let mut i: usize = 0;
        while i < N
            invariant
                i <= N,
                n == occupied(self.data@.take(i as int)),
                n <= i,
            decreases N - i,
        {
            proof {
                self.lemma_step(i as int);
            }
            if self.data[i].is_some() {
                n = n + 1;
            }
            i = i + 1;
        }
        assert(self.data@.take(N as int) =~= self.data@);
        n
    }

    fn is_empty(&self) -> (b: bool) {
        let mut i: usize = 0;
        while i < N
            invariant
                i <= N,
                forall|j: int| 0 <= j < i ==> self.data@[j] is None,
            decreases N - i,
        {
            if self.data[i].is_some() {
                proof {
                    lemma_occupied_zero(self.data@);
                }
                return false;
            }
            i = i + 1;
        }
        proof {
            lemma_occupied_zero(self.data@);
        }
        true
    }

    fn insert(&mut self, key: K, value: V) -> (prev: Option<V>) {
        proof {
            K::lemma_shape_len();
        }
        let i = key.index();
        let prev = self.data[i].take();
        self.data[i] = Some(value);
        assert(self.slots() =~= old(self).slots().update(i as int, Some(value)));
        prev
    }

    fn contains_key(&self, key: K) -> (b: bool) {
        proof {
            K::lemma_shape_len();
        }
        let i = key.index();
        self.data[i].is_some()
    }

    fn get(&self, key: K) -> (r: Option<&V>) {
        proof {
            K::lemma_shape_len();
        }
        let i = key.index();
        self.data[i].as_ref()
    }

    fn get_mut(&mut self, key: K) -> (r: Option<&mut V>) {
        proof {
            K::lemma_shape_len();
        }
        let i = key.index();
        self.data[i].as_mut()
    }

    fn remove(&mut self, key: K) -> (prev: Option<V>) {
        proof {
            K::lemma_shape_len();
        }
        let i = key.index();
        let prev = self.data[i].take();
        assert(self.slots() =~= old(self).slots().update(i as int, None));
        prev
    }

    fn retain<F: Fn(K, &mut V) -> bool>(&mut self, func: F) {
        let mut i: usize = 0;
        while i < N
            invariant
                i <= N,
                forall|j: int, r: &mut V|
                    0 <= j < N && old(self).data@[j] == Some(*r) ==> #[trigger] func.requires(
                        (K::key_at(j as nat), r),
                    ),
                forall|j: int| i <= j < N ==> self.data@[j] == old(self).data@[j],
                forall|j: int|
                    #![trigger self.data@[j]]
                    0 <= j < i ==> match old(self).data@[j] {
                        None => self.data@[j] is None,
                        Some(v0) => exists|r: &mut V, keep: bool|
                            *r == v0 && #[trigger] func.ensures((K::key_at(j as nat), r), keep)
                                && self.data@[j] == if keep {
                                Some(*final(r))
                            } else {
                                None::<V>
                            },
                    },
            decreases N - i,
        {
            let ghost prev = self.data@;
            let ghost key = K::key_at(i as nat);
            let mut keep = true;
            if let Some(k) = K::from_index(i) {
                proof {
                    let at = i as int;
                    assert forall|r: &mut V| self.data@[at] == Some(*r) implies func.requires(
                        (k, r),
                    ) by {
                        assert(func.requires((K::key_at(at as nat), r)));
                    }
                }
                if let Some(v) = self.data[i].as_mut() {
                    keep = func(k, v);
                }
            }
            if !keep {
                self.data[i] = None;
            }
            assert forall|j: int|
                #![trigger self.data@[j]]
                0 <= j < i + 1 implies match old(self).data@[j] {
                None => self.data@[j] is None,
                Some(v0) => exists|r: &mut V, keep: bool|
                    *r == v0 && #[trigger] func.ensures((K::key_at(j as nat), r), keep)
                        && self.data@[j] == if keep {
                        Some(*final(r))
                    } else {
                        None::<V>
                    },
            } by {
                if j == i {
                    if let Some(v0) = prev[j] {
                        let after = self.data@[j];
                        let (r, kept) = choose|r: &mut V, kept: bool|
                            *r == v0 && #[trigger] func.ensures((key, r), kept) && after == if kept {
                                Some(*final(r))
                            } else {
                                None::<V>
                            };
                        assert(func.ensures((K::key_at(j as nat), r), kept));
                    }
                } else {
                    assert(self.data@[j] == prev[j]);
                }
            }
            i = i + 1;
        }
    }

    fn clear(&mut self) {
        proof {
            K::lemma_shape_len();
        }
        let mut i: usize = 0;
        while i < N
            invariant
                i <= N,
                forall|j: int| 0 <= j < i ==> self.data@[j] is None,
            decreases N - i,
        {
            self.data[i] = None;
            i = i + 1;
        }
        assert(self.slots() =~= vacant::<V>(N as nat));
    }

    fn iter(&self) -> (r: Iter<(K, &V)>) {
        let mut items: Vec<(K, &V)> = Vec::new();
        let mut i: usize = 0;
        while i < N
            invariant
                i <= N,
                items@ == entries::<K, V>(self.data@.take(i as int)).map_values(
                    |e: (K, V)| (e.0, &e.1),
                ),
            decreases N - i,
        {
            proof {
                self.lemma_step(i as int);
            }
            if let Some(k) = K::from_index(i) {
                if let Some(v) = &self.data[i] {
                    items.push((k, v));
                }
            }
            assert(items@ =~= entries::<K, V>(self.data@.take(i + 1)).map_values(
                |e: (K, V)| (e.0, &e.1),
            ));
            i = i + 1;
        }
        assert(self.data@.take(N as int) =~= self.data@);
        Iter::new(items)
    }

    fn keys(&self) -> (r: Iter<K>) {
        let mut items: Vec<K> = Vec::new();
        let mut i: usize = 0;
        while i < N
            invariant
                i <= N,
                items@ == entries::<K, V>(self.data@.take(i as int)).map_values(|e: (K, V)| e.0),
            decreases N - i,
        {
            proof {
                self.lemma_step(i as int);
            }
            if let Some(k) = K::from_index(i) {
                if self.data[i].is_some() {
                    items.push(k);
                }
            }
            assert(items@ =~= entries::<K, V>(self.data@.take(i + 1)).map_values(
                |e: (K, V)| e.0,
            ));
            i = i + 1;
        }
        assert(self.data@.take(N as int) =~= self.data@);
        Iter::new(items)
    }

    fn values(&self) -> (r: Iter<&V>) {
        let mut items: Vec<&V> = Vec::new();
        let mut i: usize = 0;
        while i < N
            invariant
                i <= N,
                items@ == entries::<K, V>(self.data@.take(i as int)).map_values(
                    |e: (K, V)| &e.1,
                ),
            decreases N - i,
        {
            proof {
                self.lemma_step(i as int);
            }
            if let Some(v) = &self.data[i] {
                items.push(v);
            }
            assert(items@ =~= entries::<K, V>(self.data@.take(i + 1)).map_values(
                |e: (K, V)| &e.1,
            ));
            i = i + 1;
        }
        assert(self.data@.take(N as int) =~= self.data@);
        Iter::new(items)
    }

    fn iter_mut<F: Fn(K, &mut V)>(&mut self, func: F) {
        let mut i: usize = 0;
        while i < N
            invariant
                i <= N,
                forall|j: int, r: &mut V|
                    0 <= j < N && old(self).data@[j] == Some(*r) ==> #[trigger] func.requires(
                        (K::key_at(j as nat), r),
                    ),
                forall|j: int| i <= j < N ==> self.data@[j] == old(self).data@[j],
                forall|j: int|
                    #![trigger self.data@[j]]
                    0 <= j < i ==> match old(self).data@[j] {
                        None => self.data@[j] is None,
                        Some(v0) => exists|r: &mut V|
                            *r == v0 && #[trigger] func.ensures((K::key_at(j as nat), r), ())
                                && self.data@[j] == Some(*final(r)),
                    },
            decreases N - i,
        {
            let ghost prev = self.data@;
            let ghost key = K::key_at(i as nat);
            if let Some(k) = K::from_index(i) {
                proof {
                    let at = i as int;
                    assert forall|r: &mut V| self.data@[at] == Some(*r) implies func.requires(
                        (k, r),
                    ) by {
                        assert(func.requires((K::key_at(at as nat), r)));
                    }
                }
                if let Some(v) = self.data[i].as_mut() {
                    func(k, v);
                }
            }
            assert forall|j: int|
                #![trigger self.data@[j]]
                0 <= j < i + 1 implies match old(self).data@[j] {
                None => self.data@[j] is None,
                Some(v0) => exists|r: &mut V|
                    *r == v0 && #[trigger] func.ensures((K::key_at(j as nat), r), ())
                        && self.data@[j] == Some(*final(r)),
            } by {
                if j == i {
                    if let Some(v0) = prev[j] {
                        let after = self.data@[j];
                        let r = choose|r: &mut V|
                            *r == v0 && #[trigger] func.ensures((key, r), ()) && after == Some(
                                *final(r),
                            );
                        assert(func.ensures((K::key_at(j as nat), r), ()));
                    }
                } else {
                    assert(self.data@[j] == prev[j]);
                }
            }
            i = i + 1;
        }
    }

    fn values_mut<F: Fn(&mut V)>(&mut self, func: F) {
        let mut i: usize = 0;
        while i < N
            invariant
                i <= N,
                forall|j: int, r: &mut V|
                    #![trigger old(self).data@[j], func.requires((r,))]
                    0 <= j < N && old(self).data@[j] == Some(*r) ==> func.requires((r,)),
                forall|j: int| i <= j < N ==> self.data@[j] == old(self).data@[j],
                forall|j: int|
                    #![trigger self.data@[j]]
                    0 <= j < i ==> match old(self).data@[j] {
                        None => self.data@[j] is None,
                        Some(v0) => exists|r: &mut V|
                            *r == v0 && #[trigger] func.ensures((r,), ()) && self.data@[j] == Some(
                                *final(r),
                            ),
                    },
            decreases N - i,
        {
            assert(self.data@[i as int] == old(self).data@[i as int]);
            if let Some(v) = self.data[i].as_mut() {
                func(v);
            }
            i = i + 1;
        }
    }

    fn into_iter(self) -> (r: Vec<(K, V)>) {
        let mut data = self.data;
        let mut items: Vec<(K, V)> = Vec::new();
        let mut i: usize = 0;
        while i < N
            invariant
                i <= N,
                forall|j: int| i <= j < N ==> data@[j] == self.data@[j],
                items@ == entries::<K, V>(self.data@.take(i as int)),
            decreases N - i,
        {
            proof {
                self.lemma_step(i as int);
            }
            if let Some(k) = K::from_index(i) {
                if let Some(v) = data[i].take() {
                    items.push((k, v));
                }
            }
            i = i + 1;
        }
        assert(self.data@.take(N as int) =~= self.data@);
        items
    }

    fn entry(&mut self, key: K) -> (e: Entry<'_, K, V>) {
        proof {
            K::lemma_shape_len();
        }
        let i = key.index();
        if self.data[i].is_some() {
            Entry::Occupied(Occupied { key, inner: &mut self.data[i] })
        } else {
            Entry::Vacant(Vacant { key, inner: &mut self.data[i] })
        }
    }
}

} // verus!

//! Storage for optional keys: the storage of the inner shape plus one extra
//! slot for the absent marker.

use vstd::prelude::*;
use crate::iter::{Iter, KeyIter};
use crate::key::Key;
use crate::map::entry::{Entry, Occupied, Vacant};
use crate::map::storage::MapStorage;
use crate::map::MapKey;
use crate::model::{
    entries, lemma_entries_push, lemma_entries_rekey, lemma_occupied_push, lemma_saturate_add,
    occupied, vacant,
};

verus! {

/// Map storage for `Option<K>` keys.
///
/// A key `Some(k)` is routed into the storage of `K`; the key `None` has a
/// slot of its own, which comes last.
#[derive(Clone, PartialEq, Eq)]
pub struct OptionStorage<K: MapKey<V>, V> {
    some: K::Storage,
    none: Option<V>,
}

/// The associations of `inner` under the keys `Some(k)`.
fn lift_entries<'a, K: Copy, V>(inner: Iter<(K, &'a V)>) -> (items: Vec<(Option<K>, &'a V)>)
    ensures
        items@ == inner.remaining().map_values(|e: (K, &'a V)| (Some(e.0), e.1)),
{
    let mut inner = inner;
    let ghost src = inner.remaining();
    let mut items: Vec<(Option<K>, &'a V)> = Vec::new();
    loop
        invariant
            items@.len() <= src.len(),
            inner.remaining() == src.skip(items@.len() as int),
            items@ == src.take(items@.len() as int).map_values(
                |e: (K, &'a V)| (Some(e.0), e.1),
            ),
        ensures
            items@.len() == src.len(),
        decreases inner.remaining().len(),
    {
        let ghost n = items@.len() as int;
        match inner.next() {
            Some(e) => {
                items.push((Some(e.0), e.1));
                assert(src.skip(n).drop_first() =~= src.skip(n + 1));
                assert(src.take(n + 1) =~= src.take(n).push(src[n]));
                assert(items@ =~= src.take(n + 1).map_values(
                    |e: (K, &'a V)| (Some(e.0), e.1),
                ));
            },
            None => {
                break ;
            },
        }
    }
    assert(src.take(src.len() as int) =~= src);
    items
}

/// The keys of `inner`, each wrapped in `Some`.
fn lift_keys<K: Copy, I: KeyIter<K>>(inner: I) -> (items: Vec<Option<K>>)
    ensures
        items@ == inner.remaining().map_values(|k: K| Some(k)),
{
    let mut inner = inner;
    let ghost src = inner.remaining();
    let mut items: Vec<Option<K>> = Vec::new();
    loop
        invariant
            items@.len() <= src.len(),
            inner.remaining() == src.skip(items@.len() as int),
            items@ == src.take(items@.len() as int).map_values(|k: K| Some(k)),
        ensures
            items@.len() == src.len(),
        decreases inner.remaining().len(),
    {
        let ghost n = items@.len() as int;
        match inner.next() {
            Some(k) => {
                items.push(Some(k));
                assert(src.skip(n).drop_first() =~= src.skip(n + 1));
                assert(src.take(n + 1) =~= src.take(n).push(src[n]));
                assert(items@ =~= src.take(n + 1).map_values(|k: K| Some(k)));
            },
            None => {
                break ;
            },
        }
    }
    assert(src.take(src.len() as int) =~= src);
    items
}

/// The pairs of `inner` under the keys `Some(k)`, in the same order.
fn lift_pairs<K: Copy, V>(inner: Vec<(K, V)>) -> (items: Vec<(Option<K>, V)>)
    ensures
        items@ == inner@.map_values(|e: (K, V)| (Some(e.0), e.1)),
{
    let mut inner = inner;
    let ghost src = inner@;
    let mut back: Vec<(Option<K>, V)> = Vec::new();
    while inner.len() > 0
        invariant
            inner@ == src.take(inner@.len() as int),
            inner@.len() <= src.len(),
            back@.len() == src.len() - inner@.len(),
            forall|j: int|
                0 <= j < back@.len() ==> back@[j] == (
                    Some(src[src.len() - 1 - j].0),
                    src[src.len() - 1 - j].1,
                ),
        decreases inner@.len(),
    {
        let ghost n = inner@.len() as int;
        let e = inner.pop().unwrap();
        back.push((Some(e.0), e.1));
        assert(inner@ =~= src.take(n - 1));
    }
    let ghost mid = back@;
    let mut items: Vec<(Option<K>, V)> = Vec::new();
    while back.len() > 0
        invariant
            mid.len() == src.len(),
            back@ == mid.take(back@.len() as int),
            back@.len() <= mid.len(),
            items@.len() == mid.len() - back@.len(),
            forall|j: int| 0 <= j < items@.len() ==> items@[j] == mid[mid.len() - 1 - j],
        decreases back@.len(),
    {
        let ghost n = back@.len() as int;
        let e = back.pop().unwrap();
        items.push(e);
        assert(back@ =~= mid.take(n - 1));
    }
    assert(items@ =~= src.map_values(|e: (K, V)| (Some(e.0), e.1)));
    items
}

impl<K: MapKey<V>, V> OptionStorage<K, V> {
    /// The associations of the model in terms of the two parts.
    proof fn lemma_layout(&self)
        ensures
            self.some.slots().len() == K::shape_len(),
            self.slots() == self.some.slots().push(self.none),
            entries::<Option<K>, V>(self.slots()) == entries::<K, V>(self.some.slots()).map_values(
                |e: (K, V)| (Some(e.0), e.1),
            ) + (match self.none {
                Some(v) => seq![(None::<K>, v)],
                None => Seq::<(Option<K>, V)>::empty(),
            }),
            occupied(self.slots()) == occupied(self.some.slots()) + (if self.none is Some {
                1nat
            } else {
                0nat
            }),
    {
        let inner = self.some.slots();
        self.some.lemma_slots_len();
        lemma_entries_push::<Option<K>, V>(inner, self.none);
        lemma_occupied_push(inner, self.none);
        lemma_entries_rekey::<K, Option<K>, V>(inner, |k: K| Some(k));
        assert(entries::<Option<K>, V>(self.slots()) =~= entries::<K, V>(inner).map_values(
            |e: (K, V)| (Some(e.0), e.1),
        ) + (match self.none {
            Some(v) => seq![(None::<K>, v)],
            None => Seq::<(Option<K>, V)>::empty(),
        }));
    }
}

impl<K: MapKey<V>, V> Default for OptionStorage<K, V> {
    fn default() -> (s: Self)
        ensures
            s.slots() == vacant::<V>(K::shape_len() + 1),
    {
        Self::empty()
    }
}

impl<K: MapKey<V>, V> MapStorage<Option<K>, V> for OptionStorage<K, V> {
    type Keys = Iter<Option<K>>;

    closed spec fn slots(&self) -> Seq<Option<V>> {
        self.some.slots().push(self.none)
    }

    proof fn lemma_slots_len(&self) {
        self.some.lemma_slots_len();
    }

    fn empty() -> (s: Self) {
        let s = Self { some: K::Storage::empty(), none: None };
        assert(s.slots() =~= vacant::<V>(K::shape_len() + 1));
        s
    }

    fn len(&self) -> (n: usize) {
        proof {
            self.lemma_layout();
            lemma_saturate_add(
                occupied(self.some.slots()),
                if self.none is Some {
                    1nat
                } else {
                    0nat
                },
            );
        }
        let none: usize = if self.none.is_some() {
            1
        } else {
            0
        };
        self.some.len().saturating_add(none)
    }

    fn is_empty(&self) -> (b: bool) {
        proof {
            self.lemma_layout();
        }
        self.some.is_empty() && self.none.is_none()
    }

    fn insert(&mut self, key: Option<K>, value: V) -> (prev: Option<V>) {
        proof {
            self.some.lemma_slots_len();
        }
        match key {
            Some(k) => {
                let prev = self.some.insert(k, value);
                assert(self.slots() =~= old(self).slots().update(k.slot() as int, Some(value)));
                prev
            },
            None => {
                let prev = self.none.take();
                self.none = Some(value);
                assert(self.slots() =~= old(self).slots().update(
                    K::shape_len() as int,
                    Some(value),
                ));
                prev
            },
        }
    }

    fn contains_key(&self, key: Option<K>) -> (b: bool) {
        proof {
            self.some.lemma_slots_len();
        }
        match key {
            Some(k) => {
                self.some.contains_key(k)
            },
            None => self.none.is_some(),
        }
    }

    fn get(&self, key: Option<K>) -> (r: Option<&V>) {
        proof {
            self.some.lemma_slots_len();
        }
        match key {
            Some(k) => {
                self.some.get(k)
            },
            None => self.none.as_ref(),
        }
    }

    fn get_mut(&mut self, key: Option<K>) -> (r: Option<&mut V>) {
        proof {
            self.some.lemma_slots_len();
        }
        match key {
            Some(k) => {
                self.some.get_mut(k)
            },
            None => self.none.as_mut(),
        }
    }

    fn remove(&mut self, key: Option<K>) -> (prev: Option<V>) {
        proof {
            self.some.lemma_slots_len();
        }
        match key {
            Some(k) => {
                let prev = self.some.remove(k);
                assert(self.slots() =~= old(self).slots().update(k.slot() as int, None));
                prev
            },
            None => {
                let prev = self.none.take();
                assert(self.slots() =~= old(self).slots().update(K::shape_len() as int, None));
                prev
            },
        }
    }

    fn retain<F: Fn(Option<K>, &mut V) -> bool>(&mut self, func: F) {
        proof {
            self.some.lemma_slots_len();
        }
        let fr = &func;
        let lifted = |k: K, v: &mut V| -> (keep: bool)
            requires
                forall|r: &mut V| *r == *v ==> #[trigger] fr.requires((Some(k), r)),
            ensures
                exists|r: &mut V|
                    *r == *old(v) && *final(r) == *final(v) && #[trigger] fr.ensures(
                        (Some(k), r),
                        keep,
                    ),
            {
                fr(Some(k), v)
            };
        proof {
            assert forall|i: int, r: &mut V|
                0 <= i < self.some.slots().len() && self.some.slots()[i] == Some(
                    *r,
                ) implies #[trigger] lifted.requires((K::key_at(i as nat), r)) by {
                assert forall|q: &mut V| *q == *r implies #[trigger] fr.requires(
                    (Some(K::key_at(i as nat)), q),
                ) by {
                    assert(self.slots()[i] == Some(*q));
                    assert(func.requires((Option::<K>::key_at(i as nat), q)));
                }
            }
            assert forall|r: &mut V| self.none == Some(*r) implies func.requires(
                (None::<K>, r),
            ) by {
                let at = K::shape_len() as int;
                assert(self.slots()[at] == self.none);
                assert(func.requires((Option::<K>::key_at(at as nat), r)));
            }
        }
        self.some.retain(lifted);
        if let Some(v) = self.none.as_mut() {
            if !func(None, v) {
                self.none = None;
            }
        }
        assert forall|i: int|
            #![trigger self.slots()[i]]
            0 <= i < old(self).slots().len() implies match old(self).slots()[i] {
            None => self.slots()[i] is None,
            Some(v0) => exists|r: &mut V, keep: bool|
                *r == v0 && #[trigger] func.ensures((Option::<K>::key_at(i as nat), r), keep)
                    && self.slots()[i] == if keep {
                    Some(*final(r))
                } else {
                    None::<V>
                },
        } by {
            if i < K::shape_len() {
                let after = self.some.slots()[i];
                if let Some(v0) = old(self).some.slots()[i] {
                    let (r, keep) = choose|r: &mut V, keep: bool|
                        *r == v0 && #[trigger] lifted.ensures((K::key_at(i as nat), r), keep)
                            && after == if keep {
                            Some(*final(r))
                        } else {
                            None::<V>
                        };
                    let r2 = choose|r2: &mut V|
                        *r2 == *r && *final(r2) == *final(r) && #[trigger] fr.ensures(
                            (Some(K::key_at(i as nat)), r2),
                            keep,
                        );
                    assert(func.ensures((Option::<K>::key_at(i as nat), r2), keep));
                }
            } else {
                assert(Option::<K>::key_at(i as nat) == None::<K>);
            }
        }
    }

    fn clear(&mut self) {
        self.some.clear();
        self.none = None;
        assert(self.slots() =~= vacant::<V>(K::shape_len() + 1));
    }

    fn iter(&self) -> (r: Iter<(Option<K>, &V)>) {
        let mut items = lift_entries(self.some.iter());
        if let Some(v) = &self.none {
            items.push((None, v));
        }
        proof {
            self.lemma_layout();
            assert(items@ =~= entries::<Option<K>, V>(self.slots()).map_values(
                |e: (Option<K>, V)| (e.0, &e.1),
            ));
        }
        Iter::new(items)
    }

    fn keys(&self) -> (r: Iter<Option<K>>) {
        let mut items = lift_keys(self.some.keys());
        if self.none.is_some() {
            items.push(None);
        }
        proof {
            self.lemma_layout();
            assert(items@ =~= entries::<Option<K>, V>(self.slots()).map_values(
                |e: (Option<K>, V)| e.0,
            ));
        }
        Iter::new(items)
    }

    fn values(&self) -> (r: Iter<&V>) {
        let mut items = self.some.values().collect();
        if let Some(v) = &self.none {
            items.push(v);
        }
        proof {
            self.lemma_layout();
            assert(items@ =~= entries::<Option<K>, V>(self.slots()).map_values(
                |e: (Option<K>, V)| &e.1,
            ));
        }
        Iter::new(items)
    }

    fn iter_mut<F: Fn(Option<K>, &mut V)>(&mut self, func: F) {
        proof {
            self.some.lemma_slots_len();
        }
        let fr = &func;
        let lifted = |k: K, v: &mut V|
            requires
                forall|r: &mut V| *r == *v ==> #[trigger] fr.requires((Some(k), r)),
            ensures
                exists|r: &mut V|
                    *r == *old(v) && *final(r) == *final(v) && #[trigger] fr.ensures(
                        (Some(k), r),
                        (),
                    ),
            {
                fr(Some(k), v)
            };
        proof {
            assert forall|i: int, r: &mut V|
                0 <= i < self.some.slots().len() && self.some.slots()[i] == Some(
                    *r,
                ) implies #[trigger] lifted.requires((K::key_at(i as nat), r)) by {
                assert forall|q: &mut V| *q == *r implies #[trigger] fr.requires(
                    (Some(K::key_at(i as nat)), q),
                ) by {
                    assert(self.slots()[i] == Some(*q));
                    assert(func.requires((Option::<K>::key_at(i as nat), q)));
                }
            }
            assert forall|r: &mut V| self.none == Some(*r) implies func.requires(
                (None::<K>, r),
            ) by {
                let at = K::shape_len() as int;
                assert(self.slots()[at] == self.none);
                assert(func.requires((Option::<K>::key_at(at as nat), r)));
            }
        }
        self.some.iter_mut(lifted);
        if let Some(v) = self.none.as_mut() {
            func(None, v);
        }
        assert forall|i: int|
            #![trigger self.slots()[i]]
            0 <= i < old(self).slots().len() implies match old(self).slots()[i] {
            None => self.slots()[i] is None,
            Some(v0) => exists|r: &mut V|
                *r == v0 && #[trigger] func.ensures((Option::<K>::key_at(i as nat), r), ())
                    && self.slots()[i] == Some(*final(r)),
        } by {
            if i < K::shape_len() {
                let after = self.some.slots()[i];
                if let Some(v0) = old(self).some.slots()[i] {
                    let r = choose|r: &mut V|
                        *r == v0 && #[trigger] lifted.ensures((K::key_at(i as nat), r), ())
                            && after == Some(*final(r));
                    let r2 = choose|r2: &mut V|
                        *r2 == *r && *final(r2) == *final(r) && #[trigger] fr.ensures(
                            (Some(K::key_at(i as nat)), r2),
                            (),
                        );
                    assert(func.ensures((Option::<K>::key_at(i as nat), r2), ()));
                }
            } else {
                assert(Option::<K>::key_at(i as nat) == None::<K>);
            }
        }
    }

    fn values_mut<F: Fn(&mut V)>(&mut self, func: F) {
        proof {
            self.some.lemma_slots_len();
        }
        let fr = &func;
        proof {
            assert forall|i: int, r: &mut V|
                #![trigger self.some.slots()[i], fr.requires((r,))]
                0 <= i < self.some.slots().len() && self.some.slots()[i] == Some(
                    *r,
                ) implies fr.requires((r,)) by {
                assert(self.slots()[i] == Some(*r));
                assert(func.requires((r,)));
            }
            assert forall|r: &mut V| self.none == Some(*r) implies func.requires((r,)) by {
                let at = K::shape_len() as int;
                assert(self.slots()[at] == self.none);
            }
        }
        self.some.values_mut(fr);
        if let Some(v) = self.none.as_mut() {
            func(v);
        }
    }

    fn into_iter(self) -> (r: Vec<(Option<K>, V)>) {
        proof {
            self.lemma_layout();
        }
        let mut items = lift_pairs(self.some.into_iter());
        if let Some(v) = self.none {
            items.push((None, v));
        }
        assert(items@ =~= entries::<Option<K>, V>(self.slots()));
        items
    }

    fn entry(&mut self, key: Option<K>) -> (e: Entry<'_, Option<K>, V>) {
        proof {
            self.some.lemma_slots_len();
        }
        match key {
            Some(k) => {
                match self.some.entry(k) {
                    Entry::Occupied(o) => Entry::Occupied(Occupied { key, inner: o.inner }),
                    Entry::Vacant(v) => Entry::Vacant(Vacant { key, inner: v.inner }),
                }
            },
            None => {
                if self.none.is_some() {
                    Entry::Occupied(Occupied { key, inner: &mut self.none })
                } else {
                    Entry::Vacant(Vacant { key, inner: &mut self.none })
                }
            },
        }
    }
}

} // verus!

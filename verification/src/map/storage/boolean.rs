//! Storage for the boolean shape: one slot for `true`, one for `false`.

use vstd::prelude::*;
use crate::iter::{Iter, KeyIter};
use crate::key::Key;
use crate::map::entry::{Entry, Occupied, Vacant};
use crate::map::storage::MapStorage;
use crate::model::{entries, lemma_entries_push, lemma_occupied_push, occupied, vacant};

verus! {

const TRUE_BIT: u8 = 0b10;

const FALSE_BIT: u8 = 0b01;

/// Map storage for `bool` keys.
#[derive(Clone, Copy, PartialEq, Eq)]
pub struct BooleanMapStorage<V> {
    t: Option<V>,
    f: Option<V>,
}

/// The keys that a pair of presence bits stands for, `true` first.
pub open spec fn bit_keys(bits: u8) -> Seq<bool> {
    (if bits & 0b10 != 0 {
        seq![true]
    } else {
        Seq::<bool>::empty()
    }) + (if bits & 0b01 != 0 {
        seq![false]
    } else {
        Seq::<bool>::empty()
    })
}

/// Traversal over the present keys of a [`BooleanMapStorage`].
pub struct Keys {
    bits: u8,
}

impl Clone for Keys {
    fn clone(&self) -> (r: Keys)
        ensures
            r.remaining() == self.remaining(),
    {
        Keys { bits: self.bits }
    }
}

impl Keys {
    /// The keys still to come, front first.
    pub closed spec fn remaining(&self) -> Seq<bool> {
        bit_keys(self.bits)
    }

    /// Takes the first remaining key.
    pub fn next(&mut self) -> (k: Option<bool>)
        ensures
            old(self).remaining().len() == 0 ==> k is None && final(self).remaining()
                == old(self).remaining(),
            old(self).remaining().len() > 0 ==> k == Some(old(self).remaining().first())
                && final(self).remaining() == old(self).remaining().drop_first(),
    {
        let bits = self.bits;
        if self.bits & TRUE_BIT != 0 {
            self.bits &= !TRUE_BIT;
            assert((bits & !0b10u8) & 0b10 == 0 && (bits & !0b10u8) & 0b01 == bits & 0b01)
                by (bit_vector);
            assert(self.remaining() =~= old(self).remaining().drop_first());
            return Some(true);
        }
        if self.bits & FALSE_BIT != 0 {
            self.bits &= !FALSE_BIT;
            assert((bits & !0b01u8) & 0b01 == 0 && (bits & !0b01u8) & 0b10 == bits & 0b10)
                by (bit_vector);
            assert(self.remaining() =~= old(self).remaining().drop_first());
            return Some(false);
        }
        None
    }

    /// Bounds on the number of keys still to come: both are exact.
    pub fn size_hint(&self) -> (r: (usize, Option<usize>))
        ensures
            r.0 == self.remaining().len(),
            r.1 == Some(r.0),
    {
        let len = self.len();
        (len, Some(len))
    }

    /// Takes the last remaining key.
    pub fn next_back(&mut self) -> (k: Option<bool>)
        ensures
            old(self).remaining().len() == 0 ==> k is None && final(self).remaining()
                == old(self).remaining(),
            old(self).remaining().len() > 0 ==> k == Some(old(self).remaining().last())
                && final(self).remaining() == old(self).remaining().drop_last(),
    {
        let bits = self.bits;
        if self.bits & FALSE_BIT != 0 {
            self.bits &= !FALSE_BIT;
            assert((bits & !0b01u8) & 0b01 == 0 && (bits & !0b01u8) & 0b10 == bits & 0b10)
                by (bit_vector);
            assert(self.remaining() =~= old(self).remaining().drop_last());
            return Some(false);
        }
        if self.bits & TRUE_BIT != 0 {
            self.bits &= !TRUE_BIT;
            assert((bits & !0b10u8) & 0b10 == 0 && (bits & !0b10u8) & 0b01 == bits & 0b01)
                by (bit_vector);
            assert(self.remaining() =~= old(self).remaining().drop_last());
            return Some(true);
        }
        None
    }

    /// Number of keys still to come.
    pub fn len(&self) -> (n: usize)
        ensures
            n == self.remaining().len(),
    {
        let t: usize = if self.bits & TRUE_BIT != 0 {
            1
        } else {
            0
        };
        let f: usize = if self.bits & FALSE_BIT != 0 {
            1
        } else {
            0
        };
        t + f
    }
}

impl KeyIter<bool> for Keys {
    open spec fn remaining(&self) -> Seq<bool> {
        Keys::remaining(self)
    }

    fn next(&mut self) -> (k: Option<bool>) {
        Keys::next(self)
    }

    fn next_back(&mut self) -> (k: Option<bool>) {
        Keys::next_back(self)
    }

    fn len(&self) -> (n: usize) {
        Keys::len(self)
    }
}

impl<V> BooleanMapStorage<V> {
    /// The two slots laid out as the model has them.
    proof fn lemma_layout(&self)
        ensures
            self.slots() == Seq::<Option<V>>::empty().push(self.t).push(self.f),
            entries::<bool, V>(self.slots()) == (match self.t {
                Some(v) => seq![(true, v)],
                None => Seq::<(bool, V)>::empty(),
            }) + (match self.f {
                Some(v) => seq![(false, v)],
                None => Seq::<(bool, V)>::empty(),
            }),
            occupied(self.slots()) == (if self.t is Some {
                1nat
            } else {
                0nat
            }) + (if self.f is Some {
                1nat
            } else {
                0nat
            }),
    {
        let e = Seq::<Option<V>>::empty();
        assert(self.slots() =~= e.push(self.t).push(self.f));
        lemma_entries_push::<bool, V>(e, self.t);
        lemma_entries_push::<bool, V>(e.push(self.t), self.f);
        lemma_occupied_push(e, self.t);
        lemma_occupied_push(e.push(self.t), self.f);
        assert(entries::<bool, V>(self.slots()) =~= (match self.t {
            Some(v) => seq![(true, v)],
            None => Seq::<(bool, V)>::empty(),
        }) + (match self.f {
            Some(v) => seq![(false, v)],
            None => Seq::<(bool, V)>::empty(),
        }));
    }
}

impl<V> MapStorage<bool, V> for BooleanMapStorage<V> {
    type Keys = Keys;

    closed spec fn slots(&self) -> Seq<Option<V>> {
        seq![self.t, self.f]
    }

    proof fn lemma_slots_len(&self) {
    }

    fn empty() -> (s: Self) {
        let s = Self { t: None, f: None };
        assert(s.slots() =~= vacant::<V>(2));
        s
    }

    fn len(&self) -> (n: usize) {
        proof {
            self.lemma_layout();
        }
        let t: usize = if self.t.is_some() {
            1
        } else {
            0
        };
        let f: usize = if self.f.is_some() {
            1
        } else {
            0
        };
        t.saturating_add(f)
    }

    fn is_empty(&self) -> (b: bool) {
        proof {
            self.lemma_layout();
        }
        self.t.is_none() && self.f.is_none()
    }

    fn insert(&mut self, key: bool, value: V) -> (prev: Option<V>) {
        if key {
            let prev = self.t.take();
            self.t = Some(value);
            assert(self.slots() =~= old(self).slots().update(0, Some(value)));
            prev
        } else {
            let prev = self.f.take();
            self.f = Some(value);
            assert(self.slots() =~= old(self).slots().update(1, Some(value)));
            prev
        }
    }

    fn contains_key(&self, key: bool) -> (b: bool) {
        if key {
            self.t.is_some()
        } else {
            self.f.is_some()
        }
    }

    fn get(&self, key: bool) -> (r: Option<&V>) {
        if key {
            self.t.as_ref()
        } else {
            self.f.as_ref()
        }
    }

    fn get_mut(&mut self, key: bool) -> (r: Option<&mut V>) {
        if key {
            self.t.as_mut()
        } else {
            self.f.as_mut()
        }
    }

    fn remove(&mut self, key: bool) -> (prev: Option<V>) {
        if key {
            let prev = self.t.take();
            assert(self.slots() =~= old(self).slots().update(0, None));
            prev
        } else {
            let prev = self.f.take();
            assert(self.slots() =~= old(self).slots().update(1, None));
            prev
        }
    }

    fn retain<F: Fn(bool, &mut V) -> bool>(&mut self, func: F) {
        proof {
            assert forall|r: &mut V| self.t == Some(*r) implies func.requires((true, r)) by {
                assert(self.slots()[0] == self.t);
                assert(func.requires((bool::key_at(0int as nat), r)));
            }
            assert forall|r: &mut V| self.f == Some(*r) implies func.requires((false, r)) by {
                assert(self.slots()[1] == self.f);
                assert(func.requires((bool::key_at(1int as nat), r)));
            }
        }
        if let Some(t) = self.t.as_mut() {
            if !func(true, t) {
                self.t = None;
            }
        }
        if let Some(f) = self.f.as_mut() {
            if !func(false, f) {
                self.f = None;
            }
        }
        assert forall|i: int| #![trigger self.slots()[i]] 0 <= i < 2 implies match old(
            self,
        ).slots()[i] {
            None => self.slots()[i] is None,
            Some(v0) => exists|r: &mut V, keep: bool|
                *r == v0 && #[trigger] func.ensures((bool::key_at(i as nat), r), keep)
                    && self.slots()[i] == if keep {
                    Some(*final(r))
                } else {
                    None::<V>
                },
        } by {
            let key = i == 0;
            let before = if key { old(self).t } else { old(self).f };
            let after = if key { self.t } else { self.f };
            if let Some(v0) = before {
                let (r, keep) = choose|r: &mut V, keep: bool|
                    *r == v0 && #[trigger] func.ensures((key, r), keep) && after == if keep {
                        Some(*final(r))
                    } else {
                        None::<V>
                    };
                assert(func.ensures((bool::key_at(i as nat), r), keep));
            }
        }
    }

    fn clear(&mut self) {
        self.t = None;
        self.f = None;
        assert(self.slots() =~= vacant::<V>(2));
    }

    fn iter(&self) -> (r: Iter<(bool, &V)>) {
        let mut items: Vec<(bool, &V)> = Vec::new();
        if let Some(v) = &self.t {
            items.push((true, v));
        }
        if let Some(v) = &self.f {
            items.push((false, v));
        }
        proof {
            self.lemma_layout();
            assert(items@ =~= entries::<bool, V>(self.slots()).map_values(
                |e: (bool, V)| (e.0, &e.1),
            ));
        }
        Iter::new(items)
    }

    fn keys(&self) -> (r: Keys) {
        let t: u8 = if self.t.is_some() {
            TRUE_BIT
        } else {
            0
        };
        let f: u8 = if self.f.is_some() {
            FALSE_BIT
        } else {
            0
        };
        let r = Keys { bits: t | f };
        proof {
            self.lemma_layout();
            assert((0b10u8 | 0b01u8) & 0b10 != 0 && (0b10u8 | 0b01u8) & 0b01 != 0 && (0b10u8 | 0u8)
                & 0b10 != 0 && (0b10u8 | 0u8) & 0b01 == 0 && (0u8 | 0b01u8) & 0b10 == 0 && (0u8
                | 0b01u8) & 0b01 != 0 && (0u8 | 0u8) & 0b10 == 0 && (0u8 | 0u8) & 0b01 == 0)
                by (bit_vector);
            assert(r.remaining() =~= entries::<bool, V>(self.slots()).map_values(
                |e: (bool, V)| e.0,
            ));
        }
        r
    }

    fn values(&self) -> (r: Iter<&V>) {
        let mut items: Vec<&V> = Vec::new();
        if let Some(v) = &self.t {
            items.push(v);
        }
        if let Some(v) = &self.f {
            items.push(v);
        }
        proof {
            self.lemma_layout();
            assert(items@ =~= entries::<bool, V>(self.slots()).map_values(|e: (bool, V)| &e.1));
        }
        Iter::new(items)
    }

    fn iter_mut<F: Fn(bool, &mut V)>(&mut self, func: F) {
        proof {
            assert forall|r: &mut V| self.t == Some(*r) implies func.requires((true, r)) by {
                assert(self.slots()[0] == self.t);
                assert(func.requires((bool::key_at(0int as nat), r)));
            }
            assert forall|r: &mut V| self.f == Some(*r) implies func.requires((false, r)) by {
                assert(self.slots()[1] == self.f);
                assert(func.requires((bool::key_at(1int as nat), r)));
            }
        }
        if let Some(t) = self.t.as_mut() {
            func(true, t);
        }
        if let Some(f) = self.f.as_mut() {
            func(false, f);
        }
        assert forall|i: int| #![trigger self.slots()[i]] 0 <= i < 2 implies match old(
            self,
        ).slots()[i] {
            None => self.slots()[i] is None,
            Some(v0) => exists|r: &mut V|
                *r == v0 && #[trigger] func.ensures((bool::key_at(i as nat), r), ())
                    && self.slots()[i] == Some(*final(r)),
        } by {
            let key = i == 0;
            let before = if key { old(self).t } else { old(self).f };
            let after = if key { self.t } else { self.f };
            if let Some(v0) = before {
                let r = choose|r: &mut V|
                    *r == v0 && #[trigger] func.ensures((key, r), ()) && after == Some(*final(r));
                assert(func.ensures((bool::key_at(i as nat), r), ()));
            }
        }
    }

    fn values_mut<F: Fn(&mut V)>(&mut self, func: F) {
        proof {
            assert(self.slots()[0] == self.t && self.slots()[1] == self.f);
        }
        if let Some(t) = self.t.as_mut() {
            func(t);
        }
        if let Some(f) = self.f.as_mut() {
            func(f);
        }
    }

    fn into_iter(self) -> (r: Vec<(bool, V)>) {
        proof {
            self.lemma_layout();
        }
        let mut items: Vec<(bool, V)> = Vec::new();
        if let Some(v) = self.t {
            items.push((true, v));
        }
        if let Some(v) = self.f {
            items.push((false, v));
        }
        assert(items@ =~= entries::<bool, V>(self.slots()));
        items
    }

    fn entry(&mut self, key: bool) -> (e: Entry<'_, bool, V>) {
        if key {
            if self.t.is_some() {
                Entry::Occupied(Occupied { key, inner: &mut self.t })
            } else {
                Entry::Vacant(Vacant { key, inner: &mut self.t })
            }
        } else {
            if self.f.is_some() {
                Entry::Occupied(Occupied { key, inner: &mut self.f })
            } else {
                Entry::Vacant(Vacant { key, inner: &mut self.f })
            }
        }
    }
}

} // verus!

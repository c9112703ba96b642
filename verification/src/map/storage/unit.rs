//! Storage for the unit shape: a single optional slot.

use vstd::prelude::*;
use crate::iter::Iter;
use crate::key::{Key, Unit};
use crate::map::entry::{Entry, Occupied, Vacant};
use crate::map::storage::MapStorage;
use crate::model::{entries, lemma_entries_push, lemma_occupied_push, occupied, vacant};

verus! {

/// Map storage for the key with exactly one inhabitant.
#[derive(Clone, Copy, PartialEq, Eq)]
pub struct UnitMapStorage<V> {
    value: Option<V>,
}

impl<V> UnitMapStorage<V> {
    /// The single slot laid out as the model has it.
    proof fn lemma_layout(&self)
        ensures
            self.slots() == Seq::<Option<V>>::empty().push(self.value),
            entries::<Unit, V>(self.slots()) == (match self.value {
                Some(v) => seq![(Unit, v)],
                None => Seq::<(Unit, V)>::empty(),
            }),
            occupied(self.slots()) == (if self.value is Some {
                1nat
            } else {
                0nat
            }),
    {
        let e = Seq::<Option<V>>::empty();
        assert(self.slots() =~= e.push(self.value));
        lemma_entries_push::<Unit, V>(e, self.value);
        lemma_occupied_push(e, self.value);
        assert(entries::<Unit, V>(self.slots()) =~= (match self.value {
            Some(v) => seq![(Unit, v)],
            None => Seq::<(Unit, V)>::empty(),
        }));
    }
}

impl<V> MapStorage<Unit, V> for UnitMapStorage<V> {
    type Keys = Iter<Unit>;

    closed spec fn slots(&self) -> Seq<Option<V>> {
        seq![self.value]
    }

    proof fn lemma_slots_len(&self) {
    }

    fn empty() -> (s: Self) {
        let s = Self { value: None };
        assert(s.slots() =~= vacant::<V>(1));
        s
    }

    fn len(&self) -> (n: usize) {
        proof {
            self.lemma_layout();
        }
        if self.value.is_some() {
            1
        } else {
            0
        }
    }

    fn is_empty(&self) -> (b: bool) {
        proof {
            self.lemma_layout();
        }
        self.value.is_none()
    }

    fn insert(&mut self, key: Unit, value: V) -> (prev: Option<V>) {
        let prev = self.value.take();
        self.value = Some(value);
        assert(self.slots() =~= old(self).slots().update(0, Some(value)));
        prev
    }

    fn contains_key(&self, key: Unit) -> (b: bool) {
        self.value.is_some()
    }

    fn get(&self, key: Unit) -> (r: Option<&V>) {
        self.value.as_ref()
    }

    fn get_mut(&mut self, key: Unit) -> (r: Option<&mut V>) {
        self.value.as_mut()
    }

    fn remove(&mut self, key: Unit) -> (prev: Option<V>) {
        let prev = self.value.take();
        assert(self.slots() =~= old(self).slots().update(0, None));
        prev
    }

    fn retain<F: Fn(Unit, &mut V) -> bool>(&mut self, func: F) {
        proof {
            assert forall|r: &mut V| self.value == Some(*r) implies func.requires((Unit, r)) by {
                assert(self.slots()[0] == self.value);
                assert(func.requires((Unit::key_at(0int as nat), r)));
            }
        }
        if let Some(v) = self.value.as_mut() {
            if !func(Unit, v) {
                self.value = None;
            }
        }
        assert forall|i: int| #![trigger self.slots()[i]] 0 <= i < 1 implies match old(
            self,
        ).slots()[i] {
            None => self.slots()[i] is None,
            Some(v0) => exists|r: &mut V, keep: bool|
                *r == v0 && #[trigger] func.ensures((Unit::key_at(i as nat), r), keep)
                    && self.slots()[i] == if keep {
                    Some(*final(r))
                } else {
                    None::<V>
                },
        } by {
            let after = self.value;
            if let Some(v0) = old(self).value {
                let (r, keep) = choose|r: &mut V, keep: bool|
                    *r == v0 && #[trigger] func.ensures((Unit, r), keep) && after == if keep {
                        Some(*final(r))
                    } else {
                        None::<V>
                    };
                assert(func.ensures((Unit::key_at(i as nat), r), keep));
            }
        }
    }

    fn clear(&mut self) {
        self.value = None;
        assert(self.slots() =~= vacant::<V>(1));
    }

    fn iter(&self) -> (r: Iter<(Unit, &V)>) {
        let mut items: Vec<(Unit, &V)> = Vec::new();
        if let Some(v) = &self.value {
            items.push((Unit, v));
        }
        proof {
            self.lemma_layout();
            assert(items@ =~= entries::<Unit, V>(self.slots()).map_values(
                |e: (Unit, V)| (e.0, &e.1),
            ));
        }
        Iter::new(items)
    }

    fn keys(&self) -> (r: Iter<Unit>) {
        let mut items: Vec<Unit> = Vec::new();
        if self.value.is_some() {
            items.push(Unit);
        }
        proof {
            self.lemma_layout();
            assert(items@ =~= entries::<Unit, V>(self.slots()).map_values(|e: (Unit, V)| e.0));
        }
        Iter::new(items)
    }

    fn values(&self) -> (r: Iter<&V>) {
        let mut items: Vec<&V> = Vec::new();
        if let Some(v) = &self.value {
            items.push(v);
        }
        proof {
            self.lemma_layout();
            assert(items@ =~= entries::<Unit, V>(self.slots()).map_values(|e: (Unit, V)| &e.1));
        }
        Iter::new(items)
    }

    fn iter_mut<F: Fn(Unit, &mut V)>(&mut self, func: F) {
        proof {
            assert forall|r: &mut V| self.value == Some(*r) implies func.requires((Unit, r)) by {
                assert(self.slots()[0] == self.value);
                assert(func.requires((Unit::key_at(0int as nat), r)));
            }
        }
        if let Some(v) = self.value.as_mut() {
            func(Unit, v);
        }
        assert forall|i: int| #![trigger self.slots()[i]] 0 <= i < 1 implies match old(
            self,
        ).slots()[i] {
            None => self.slots()[i] is None,
            Some(v0) => exists|r: &mut V|
                *r == v0 && #[trigger] func.ensures((Unit::key_at(i as nat), r), ())
                    && self.slots()[i] == Some(*final(r)),
        } by {
            let after = self.value;
            if let Some(v0) = old(self).value {
                let r = choose|r: &mut V|
                    *r == v0 && #[trigger] func.ensures((Unit, r), ()) && after == Some(*final(r));
                assert(func.ensures((Unit::key_at(i as nat), r), ()));
            }
        }
    }

    fn values_mut<F: Fn(&mut V)>(&mut self, func: F) {
        proof {
            assert(self.slots()[0] == self.value);
        }
        if let Some(v) = self.value.as_mut() {
            func(v);
        }
    }

    fn into_iter(self) -> (r: Vec<(Unit, V)>) {
        proof {
            self.lemma_layout();
        }
        let mut items: Vec<(Unit, V)> = Vec::new();
        if let Some(v) = self.value {
            items.push((Unit, v));
        }
        assert(items@ =~= entries::<Unit, V>(self.slots()));
        items
    }

    fn entry(&mut self, key: Unit) -> (e: Entry<'_, Unit, V>) {
        if self.value.is_some() {
            Entry::Occupied(Occupied { key, inner: &mut self.value })
        } else {
            Entry::Vacant(Vacant { key, inner: &mut self.value })
        }
    }
}

} // verus!

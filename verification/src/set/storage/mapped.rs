//! Set storage as the value-less analogue of a map storage: a key is present
//! when its slot holds the unit value.

use core::marker::PhantomData;
use vstd::prelude::*;
use crate::iter::{Iter, KeyIter};
use crate::key::Key;
use crate::map::storage::MapStorage;
use crate::model::{entries, key_seq, marks, none_present, vacant};
use crate::set::storage::SetStorage;

verus! {

/// Set storage over the map storage `S` with unit values.
pub struct MapSetStorage<K, S> {
    inner: S,
    key: PhantomData<K>,
}

impl<K: Key, S: MapStorage<K, ()>> MapSetStorage<K, S> {
    /// The flags, seen as unit slots, are the slots of the map storage.
    proof fn lemma_marks(&self)
        ensures
            marks(self.members()) == self.inner.slots(),
    {
        assert forall|i: int| 0 <= i < self.inner.slots().len() implies marks(self.members())[i]
            == self.inner.slots()[i] by {
            if let Some(unit) = self.inner.slots()[i] {
                assert(unit == ());
            }
        }
        assert(marks(self.members()) =~= self.inner.slots());
    }
}

/// The remaining keys of `inner`, front first.
fn drain<K: Copy, I: KeyIter<K>>(inner: I) -> (items: Vec<K>)
    ensures
        items@ == inner.remaining(),
{
    let mut inner = inner;
    let ghost src = inner.remaining();
    let mut items: Vec<K> = Vec::new();
    loop
        invariant
            items@.len() <= src.len(),
            inner.remaining() == src.skip(items@.len() as int),
            items@ == src.take(items@.len() as int),
        ensures
            items@.len() == src.len(),
        decreases inner.remaining().len(),
    {
        let ghost n = items@.len() as int;
        match inner.next() {
            Some(k) => {
                items.push(k);
                assert(src.skip(n).drop_first() =~= src.skip(n + 1));
                assert(items@ =~= src.take(n + 1));
            },
            None => {
                break ;
            },
        }
    }
    assert(src.take(src.len() as int) =~= src);
    items
}

impl<K: Key, S: MapStorage<K, ()>> SetStorage<K> for MapSetStorage<K, S> {
    open spec fn supported() -> bool {
        true
    }

    closed spec fn members(&self) -> Seq<bool> {
        self.inner.slots().map_values(|slot: Option<()>| slot is Some)
    }

    proof fn lemma_members_len(&self) {
        self.inner.lemma_slots_len();
    }

    fn empty() -> (s: Self) {
        let s = MapSetStorage { inner: S::empty(), key: PhantomData };
        assert(s.members() =~= none_present(K::shape_len()));
        s
    }

    fn len(&self) -> (n: usize) {
        proof {
            self.lemma_marks();
        }
        self.inner.len()
    }

    fn is_empty(&self) -> (b: bool) {
        proof {
            self.lemma_marks();
        }
        self.inner.is_empty()
    }

    fn insert(&mut self, key: K) -> (fresh: bool) {
        proof {
            self.inner.lemma_slots_len();
        }
        let prev = self.inner.insert(key, ());
        assert(self.members() =~= old(self).members().update(key.slot() as int, true));
        prev.is_none()
    }

    fn contains(&self, key: K) -> (b: bool) {
        proof {
            self.inner.lemma_slots_len();
        }
        self.inner.contains_key(key)
    }

    fn remove(&mut self, key: K) -> (was: bool) {
        proof {
            self.inner.lemma_slots_len();
        }
        let prev = self.inner.remove(key);
        assert(self.members() =~= old(self).members().update(key.slot() as int, false));
        prev.is_some()
    }

    fn retain<F: Fn(K) -> bool>(&mut self, func: F) {
        let fr = &func;
        let by_key = |k: K, v: &mut ()| -> (keep: bool)
            requires
                fr.requires((k,)),
            ensures
                fr.ensures((k,), keep),
            {
                fr(k)
            };
        proof {
            assert forall|i: int, r: &mut ()|
                0 <= i < self.inner.slots().len() && self.inner.slots()[i] == Some(
                    *r,
                ) implies #[trigger] by_key.requires((K::key_at(i as nat), r)) by {
                assert(self.members()[i]);
                assert(func.requires((K::key_at(i as nat),)));
            }
        }
        self.inner.retain(by_key);
        assert forall|i: int|
            #![trigger self.members()[i]]
            0 <= i < old(self).members().len() implies if old(self).members()[i] {
            func.ensures((K::key_at(i as nat),), self.members()[i])
        } else {
            !self.members()[i]
        } by {
            let after = self.inner.slots()[i];
            if let Some(v0) = old(self).inner.slots()[i] {
                let (r, keep) = choose|r: &mut (), keep: bool|
                    *r == v0 && #[trigger] by_key.ensures((K::key_at(i as nat), r), keep) && after
                        == if keep {
                        Some(*final(r))
                    } else {
                        None::<()>
                    };
                assert(fr.ensures((K::key_at(i as nat),), keep));
                assert(self.members()[i] == keep);
            }
        }
    }

    fn clear(&mut self) {
        self.inner.clear();
        assert(self.members() =~= none_present(K::shape_len()));
    }

    fn iter(&self) -> (r: Iter<K>) {
        proof {
            self.lemma_marks();
        }
        Iter::new(drain(self.inner.keys()))
    }
}

} // verus!

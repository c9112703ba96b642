//! Storage for composite keys: a dense array with one inner storage per
//! outer key. The outer key selects the inner storage, which is handed the
//! inner key.

use core::marker::PhantomData;
use vstd::prelude::*;
use crate::iter::{Iter, KeyIter};
use crate::key::{lemma_join, lemma_split, Composite, Key, PlainKey};
use crate::map::entry::{Entry, Occupied, Vacant};
use crate::map::storage::MapStorage;
use crate::map::MapKey;
use crate::model::{
    entries, lemma_entries_row, lemma_occupied_concat, lemma_occupied_zero, lemma_saturate_add,
    occupied, vacant,
};

verus! {

/// Map storage for `Composite<A, B>` keys, where `A` has `N` inhabitants.
///
/// Iteration is outer-major: the associations of the first outer key come
/// first, in the order of the inner storage.
pub struct CompositeStorage<A, B: MapKey<V>, V, const N: usize> {
    parts: [B::Storage; N],
    outer: PhantomData<A>,
}

/// The slots of the inner storages laid end to end.
pub open spec fn flat<K: Key, V, S: MapStorage<K, V>>(parts: Seq<S>) -> Seq<Option<V>>
    decreases parts.len(),
{
    if parts.len() == 0 {
        Seq::empty()
    } else {
        flat::<K, V, S>(parts.drop_last()) + parts.last().slots()
    }
}

/// Every inner storage contributes as many slots as the inner shape has
/// inhabitants, and position `i` falls into row `i / l` at column `i % l`.
pub proof fn lemma_flat<K: Key, V, S: MapStorage<K, V>>(parts: Seq<S>)
    ensures
        flat::<K, V, S>(parts).len() == parts.len() * K::shape_len(),
        forall|o: int, j: int|
            0 <= o < parts.len() && 0 <= j < K::shape_len() ==> flat::<K, V, S>(parts)[o
                * K::shape_len() + j] == #[trigger] parts[o].slots()[j],
    decreases parts.len(),
{
    let l = K::shape_len();
    if parts.len() > 0 {
        let init = parts.drop_last();
        lemma_flat::<K, V, S>(init);
        parts.last().lemma_slots_len();
        assert(parts.len() * l == init.len() * l + l) by (nonlinear_arith)
            requires
                parts.len() == init.len() + 1,
        ;
        assert forall|o: int, j: int| 0 <= o < parts.len() && 0 <= j < l implies flat::<K, V, S>(
            parts,
        )[o * l + j] == #[trigger] parts[o].slots()[j] by {
            if o < init.len() {
                lemma_join(o as nat, j as nat, init.len(), l);
                assert(init[o] == parts[o]);
            }
        }
    } else {
        assert(parts.len() * l == 0) by (nonlinear_arith)
            requires
                parts.len() == 0,
        ;
    }
}

/// Changing a single slot of one inner storage changes that slot of the
/// whole and no other.
pub proof fn lemma_flat_update<K: Key, V, S: MapStorage<K, V>>(
    parts: Seq<S>,
    after: Seq<S>,
    o: int,
    j: int,
)
    requires
        0 <= o < parts.len() == after.len(),
        0 <= j < K::shape_len(),
        forall|p: int| 0 <= p < parts.len() && p != o ==> after[p] == parts[p],
        after[o].slots() == parts[o].slots().update(j, after[o].slots()[j]),
    ensures
        flat::<K, V, S>(after) == flat::<K, V, S>(parts).update(
            o * K::shape_len() + j,
            after[o].slots()[j],
        ),
        after[o].slots() == parts[o].slots() ==> flat::<K, V, S>(after) == flat::<K, V, S>(parts),
{
    let l = K::shape_len();
    lemma_flat::<K, V, S>(parts);
    lemma_flat::<K, V, S>(after);
    lemma_join(o as nat, j as nat, parts.len(), l);
    parts[o].lemma_slots_len();
    after[o].lemma_slots_len();
    assert forall|i: int| 0 <= i < flat::<K, V, S>(parts).len() implies flat::<K, V, S>(after)[i]
        == flat::<K, V, S>(parts).update(o * l + j, after[o].slots()[j])[i] by {
        lemma_split(i as nat, parts.len(), l);
        let oi = (i as nat / l) as int;
        let ji = (i as nat % l) as int;
        assert(oi * l + ji == i);
        assert(after[oi].slots()[ji] == flat::<K, V, S>(after)[oi * l + ji]);
        assert(parts[oi].slots()[ji] == flat::<K, V, S>(parts)[oi * l + ji]);
        if oi != o {
            lemma_join(oi as nat, ji as nat, parts.len(), l);
            assert(after[oi] == parts[oi]);
        }
    }
    assert(flat::<K, V, S>(after) =~= flat::<K, V, S>(parts).update(
        o * l + j,
        after[o].slots()[j],
    ));
    if after[o].slots() == parts[o].slots() {
        assert(parts[o].slots()[j] == flat::<K, V, S>(parts)[o * l + j]);
        assert(flat::<K, V, S>(after) =~= flat::<K, V, S>(parts));
    }
}

/// Inner storages with the same slots make up the same whole.
pub proof fn lemma_flat_same<K: Key, V, S: MapStorage<K, V>>(parts: Seq<S>, after: Seq<S>)
    requires
        parts.len() == after.len(),
        forall|p: int| 0 <= p < parts.len() ==> (#[trigger] after[p]).slots() == parts[p].slots(),
    ensures
        flat::<K, V, S>(after) == flat::<K, V, S>(parts),
    decreases parts.len(),
{
    if parts.len() > 0 {
        assert forall|p: int| 0 <= p < parts.drop_last().len() implies (
        #[trigger] after.drop_last()[p]).slots() == parts.drop_last()[p].slots() by {
            assert(after[p].slots() == parts[p].slots());
        }
        lemma_flat_same::<K, V, S>(parts.drop_last(), after.drop_last());
        assert(after[after.len() - 1].slots() == parts[parts.len() - 1].slots());
    }
}

/// Calls `func` on every association of one inner storage, under the outer
/// key `outer`, and empties the slots for which it answers `false`.
fn retain_row<A: Key, B: Key, V, S: MapStorage<B, V>, F: Fn(Composite<A, B>, &mut V) -> bool>(
    part: &mut S,
    outer: A,
    func: &F,
)
    requires
        forall|j: int, r: &mut V|
            0 <= j < old(part).slots().len() && old(part).slots()[j] == Some(*r)
                ==> #[trigger] func.requires((Composite { outer, inner: B::key_at(j as nat) }, r)),
    ensures
        final(part).slots().len() == old(part).slots().len(),
        forall|j: int|
            #![trigger final(part).slots()[j]]
            0 <= j < old(part).slots().len() ==> match old(part).slots()[j] {
                None => final(part).slots()[j] is None,
                Some(v0) => exists|r: &mut V, keep: bool|
                    *r == v0 && #[trigger] func.ensures(
                        (Composite { outer, inner: B::key_at(j as nat) }, r),
                        keep,
                    ) && final(part).slots()[j] == if keep {
                        Some(*final(r))
                    } else {
                        None::<V>
                    },
            },
{
    let lifted = |b: B, v: &mut V| -> (keep: bool)
        requires
            forall|r: &mut V|
                *r == *v ==> #[trigger] func.requires((Composite { outer, inner: b }, r)),
        ensures
            exists|r: &mut V|
                *r == *old(v) && *final(r) == *final(v) && #[trigger] func.ensures(
                    (Composite { outer, inner: b }, r),
                    keep,
                ),
        {
            func(Composite { outer, inner: b }, v)
        };
    assert forall|j: int, r: &mut V|
        0 <= j < part.slots().len() && part.slots()[j] == Some(*r) implies #[trigger] lifted.requires(
        (B::key_at(j as nat), r),
    ) by {
        assert forall|q: &mut V| *q == *r implies #[trigger] func.requires(
            (Composite { outer, inner: B::key_at(j as nat) }, q),
        ) by {
            assert(part.slots()[j] == Some(*q));
        }
    }
    part.retain(lifted);
    assert forall|j: int|
        #![trigger part.slots()[j]]
        0 <= j < old(part).slots().len() implies match old(part).slots()[j] {
        None => part.slots()[j] is None,
        Some(v0) => exists|r: &mut V, keep: bool|
            *r == v0 && #[trigger] func.ensures(
                (Composite { outer, inner: B::key_at(j as nat) }, r),
                keep,
            ) && part.slots()[j] == if keep {
                Some(*final(r))
            } else {
                None::<V>
            },
    } by {
        let after = part.slots()[j];
        if let Some(v0) = old(part).slots()[j] {
            let (r, keep) = choose|r: &mut V, keep: bool|
                *r == v0 && #[trigger] lifted.ensures((B::key_at(j as nat), r), keep) && after
                    == if keep {
                    Some(*final(r))
                } else {
                    None::<V>
                };
            let r2 = choose|r2: &mut V|
                *r2 == *r && *final(r2) == *final(r) && #[trigger] func.ensures(
                    (Composite { outer, inner: B::key_at(j as nat) }, r2),
                    keep,
                );
            assert(func.ensures((Composite { outer, inner: B::key_at(j as nat) }, r2), keep));
        }
    }
}

/// Calls `func` on every association of one inner storage, under the outer
/// key `outer`.
fn visit_row<A: Key, B: Key, V, S: MapStorage<B, V>, F: Fn(Composite<A, B>, &mut V)>(
    part: &mut S,
    outer: A,
    func: &F,
)
    requires
        forall|j: int, r: &mut V|
            0 <= j < old(part).slots().len() && old(part).slots()[j] == Some(*r)
                ==> #[trigger] func.requires((Composite { outer, inner: B::key_at(j as nat) }, r)),
    ensures
        final(part).slots().len() == old(part).slots().len(),
        forall|j: int|
            #![trigger final(part).slots()[j]]
            0 <= j < old(part).slots().len() ==> match old(part).slots()[j] {
                None => final(part).slots()[j] is None,
                Some(v0) => exists|r: &mut V|
                    *r == v0 && #[trigger] func.ensures(
                        (Composite { outer, inner: B::key_at(j as nat) }, r),
                        (),
                    ) && final(part).slots()[j] == Some(*final(r)),
            },
{
    let lifted = |b: B, v: &mut V|
        requires
            forall|r: &mut V|
                *r == *v ==> #[trigger] func.requires((Composite { outer, inner: b }, r)),
        ensures
            exists|r: &mut V|
                *r == *old(v) && *final(r) == *final(v) && #[trigger] func.ensures(
                    (Composite { outer, inner: b }, r),
                    (),
                ),
        {
            func(Composite { outer, inner: b }, v)
        };
    assert forall|j: int, r: &mut V|
        0 <= j < part.slots().len() && part.slots()[j] == Some(*r) implies #[trigger] lifted.requires(
        (B::key_at(j as nat), r),
    ) by {
        assert forall|q: &mut V| *q == *r implies #[trigger] func.requires(
            (Composite { outer, inner: B::key_at(j as nat) }, q),
        ) by {
            assert(part.slots()[j] == Some(*q));
        }
    }
    part.iter_mut(lifted);
    assert forall|j: int|
        #![trigger part.slots()[j]]
        0 <= j < old(part).slots().len() implies match old(part).slots()[j] {
        None => part.slots()[j] is None,
        Some(v0) => exists|r: &mut V|
            *r == v0 && #[trigger] func.ensures(
                (Composite { outer, inner: B::key_at(j as nat) }, r),
                (),
            ) && part.slots()[j] == Some(*final(r)),
    } by {
        let after = part.slots()[j];
        if let Some(v0) = old(part).slots()[j] {
            let r = choose|r: &mut V|
                *r == v0 && #[trigger] lifted.ensures((B::key_at(j as nat), r), ()) && after
                    == Some(*final(r));
            let r2 = choose|r2: &mut V|
                *r2 == *r && *final(r2) == *final(r) && #[trigger] func.ensures(
                    (Composite { outer, inner: B::key_at(j as nat) }, r2),
                    (),
                );
            assert(func.ensures((Composite { outer, inner: B::key_at(j as nat) }, r2), ()));
        }
    }
}

/// Appends the associations of `inner` to `items`, each under the outer key
/// `outer`.
fn append_entries<'a, A: Copy, B: Copy, V>(
    items: &mut Vec<(Composite<A, B>, &'a V)>,
    inner: Iter<(B, &'a V)>,
    outer: A,
)
    ensures
        final(items)@ == old(items)@ + inner.remaining().map_values(
            |e: (B, &'a V)| (Composite { outer, inner: e.0 }, e.1),
        ),
{
    let mut inner = inner;
    let ghost src = inner.remaining();
    let ghost done = 0int;
    loop
        invariant
            0 <= done <= src.len(),
            inner.remaining() == src.skip(done),
            items@ == old(items)@ + src.take(done).map_values(
                |e: (B, &'a V)| (Composite { outer, inner: e.0 }, e.1),
            ),
        ensures
            done == src.len(),
        decreases inner.remaining().len(),
    {
        match inner.next() {
            Some(e) => {
                items.push((Composite { outer, inner: e.0 }, e.1));
                proof {
                    assert(src.skip(done).drop_first() =~= src.skip(done + 1));
                    assert(src.take(done + 1) =~= src.take(done).push(src[done]));
                    assert(items@ =~= old(items)@ + src.take(done + 1).map_values(
                        |e: (B, &'a V)| (Composite { outer, inner: e.0 }, e.1),
                    ));
                    done = done + 1;
                }
            },
            None => {
                break ;
            },
        }
    }
    assert(src.take(src.len() as int) =~= src);
}

/// Appends the keys of `inner` to `items`, each under the outer key `outer`.
fn append_keys<A: Copy, B: Copy, I: KeyIter<B>>(
    items: &mut Vec<Composite<A, B>>,
    inner: I,
    outer: A,
)
    ensures
        final(items)@ == old(items)@ + inner.remaining().map_values(
            |k: B| Composite { outer, inner: k },
        ),
{
    let mut inner = inner;
    let ghost src = inner.remaining();
    let ghost done = 0int;
    loop
        invariant
            0 <= done <= src.len(),
            inner.remaining() == src.skip(done),
            items@ == old(items)@ + src.take(done).map_values(
                |k: B| Composite { outer, inner: k },
            ),
        ensures
            done == src.len(),
        decreases inner.remaining().len(),
    {
        match inner.next() {
            Some(k) => {
                items.push(Composite { outer, inner: k });
                proof {
                    assert(src.skip(done).drop_first() =~= src.skip(done + 1));
                    assert(src.take(done + 1) =~= src.take(done).push(src[done]));
                    assert(items@ =~= old(items)@ + src.take(done + 1).map_values(
                        |k: B| Composite { outer, inner: k },
                    ));
                    done = done + 1;
                }
            },
            None => {
                break ;
            },
        }
    }
    assert(src.take(src.len() as int) =~= src);
}

/// Appends the pairs of `inner` to `items`, each under the outer key
/// `outer`, in the same order.
fn append_pairs<A: Copy, B: Copy, V>(
    items: &mut Vec<(Composite<A, B>, V)>,
    inner: Vec<(B, V)>,
    outer: A,
)
    ensures
        final(items)@ == old(items)@ + inner@.map_values(
            |e: (B, V)| (Composite { outer, inner: e.0 }, e.1),
        ),
{
    let mut inner = inner;
    let ghost src = inner@;
    let mut back: Vec<(B, V)> = Vec::new();
    while inner.len() > 0
        invariant
            inner@ == src.take(inner@.len() as int),
            inner@.len() <= src.len(),
            back@.len() == src.len() - inner@.len(),
            forall|j: int| 0 <= j < back@.len() ==> back@[j] == src[src.len() - 1 - j],
        decreases inner@.len(),
    {
        let ghost n = inner@.len() as int;
        let e = inner.pop().unwrap();
        back.push(e);
        assert(inner@ =~= src.take(n - 1));
    }
    let ghost done = 0int;
    while back.len() > 0
        invariant
            0 <= done <= src.len(),
            back@.len() == src.len() - done,
            forall|j: int| 0 <= j < back@.len() ==> back@[j] == src[src.len() - 1 - j],
            items@ == old(items)@ + src.take(done).map_values(
                |e: (B, V)| (Composite { outer, inner: e.0 }, e.1),
            ),
        decreases back@.len(),
    {
        let e = back.pop().unwrap();
        items.push((Composite { outer, inner: e.0 }, e.1));
        proof {
            assert(src.take(done + 1) =~= src.take(done).push(src[done]));
            assert(items@ =~= old(items)@ + src.take(done + 1).map_values(
                |e: (B, V)| (Composite { outer, inner: e.0 }, e.1),
            ));
            done = done + 1;
        }
    }
    assert(src.take(src.len() as int) =~= src);
}

impl<A: PlainKey<N>, B: MapKey<V>, V, const N: usize> CompositeStorage<A, B, V, N> {
    /// The associations of the first `o + 1` rows in terms of the first `o`.
    proof fn lemma_step(parts: Seq<B::Storage>, o: int)
        requires
            0 <= o < parts.len(),
        ensures
            flat::<B, V, B::Storage>(parts.take(o + 1)) == flat::<B, V, B::Storage>(parts.take(o))
                + parts[o].slots(),
            entries::<Composite<A, B>, V>(flat::<B, V, B::Storage>(parts.take(o + 1)))
                == entries::<Composite<A, B>, V>(flat::<B, V, B::Storage>(parts.take(o)))
                + entries::<B, V>(parts[o].slots()).map_values(
                |e: (B, V)| (Composite { outer: A::key_at(o as nat), inner: e.0 }, e.1),
            ),
    {
        assert(parts.take(o + 1).drop_last() =~= parts.take(o));
        lemma_flat::<B, V, B::Storage>(parts.take(o));
        parts[o].lemma_slots_len();
        lemma_entries_row::<A, B, V>(
            flat::<B, V, B::Storage>(parts.take(o)),
            parts[o].slots(),
            o as nat,
        );
    }

    /// The slot of a key of the domain is its column in the row of its
    /// outer key.
    proof fn lemma_locate(&self, key: Composite<A, B>)
        requires
            key.outer.slot() < N,
            key.inner.slot() < B::shape_len(),
        ensures
            self.slots().len() == N * B::shape_len(),
            key.slot() == key.outer.slot() * B::shape_len() + key.inner.slot(),
            key.slot() < Composite::<A, B>::shape_len(),
            self.slots()[key.slot() as int] == self.parts@[key.outer.slot() as int].slots()[key.inner.slot() as int],
    {
        A::lemma_shape_len();
        lemma_flat::<B, V, B::Storage>(self.parts@);
        lemma_join(key.outer.slot(), key.inner.slot(), N as nat, B::shape_len());
    }
}

impl<A: PlainKey<N>, B: MapKey<V>, V, const N: usize> MapStorage<
    Composite<A, B>,
    V,
> for CompositeStorage<A, B, V, N> {
    type Keys = Iter<Composite<A, B>>;

    closed spec fn slots(&self) -> Seq<Option<V>> {
        flat::<B, V, B::Storage>(self.parts@)
    }

    proof fn lemma_slots_len(&self) {
        A::lemma_shape_len();
        lemma_flat::<B, V, B::Storage>(self.parts@);
    }

    fn empty() -> (s: Self) {
        let part = |i: usize| -> (r: B::Storage)
            ensures
                r.slots() == vacant::<V>(B::shape_len()),
            {
                B::Storage::empty()
            };
        let s: Self = CompositeStorage { parts: core::array::from_fn(part), outer: PhantomData };
        proof {
            A::lemma_shape_len();
            lemma_flat::<B, V, B::Storage>(s.parts@);
            let l = B::shape_len();
            assert forall|i: int| 0 <= i < s.slots().len() implies s.slots()[i] is None by {
                lemma_split(i as nat, N as nat, l);
                let o = (i as nat / l) as int;
                let j = (i as nat % l) as int;
                assert(o * l + j == i);
                assert(s.parts@[o].slots()[j] == s.slots()[o * l + j]);
            }
            assert(s.slots() =~= vacant::<V>(Composite::<A, B>::shape_len()));
        }
        s
    }

    fn len(&self) -> (n: usize) {
        let mut n: usize = 0;
        let mut o: usize = 0;
        while o < N
            invariant
                o <= N,
                n == crate::model::saturate(
                    occupied(flat::<B, V, B::Storage>(self.parts@.take(o as int))),
                ),
            decreases N - o,
        {
            proof {
                let before = self.parts@.take(o as int);
                let now = self.parts@.take(o + 1);
                assert(now.drop_last() =~= before);
                lemma_occupied_concat(
                    flat::<B, V, B::Storage>(before),
                    self.parts@[o as int].slots(),
                );
                lemma_saturate_add(
                    occupied(flat::<B, V, B::Storage>(before)),
                    occupied(self.parts@[o as int].slots()),
                );
            }
            n = n.saturating_add(self.parts[o].len());
            o = o + 1;
        }
        assert(self.parts@.take(N as int) =~= self.parts@);
        n
    }

    fn is_empty(&self) -> (b: bool) {
        let mut o: usize = 0;
        while o < N
            invariant
                o <= N,
                forall|p: int, j: int|
                    0 <= p < o && 0 <= j < B::shape_len() ==> (#[trigger] self.parts@[p].slots()[j])
                        is None,
            decreases N - o,
        {
            proof {
                lemma_occupied_zero(self.parts@[o as int].slots());
                self.parts@[o as int].lemma_slots_len();
            }
            if !self.parts[o].is_empty() {
                proof {
                    let part = self.parts@[o as int].slots();
                    let j = choose|j: int| 0 <= j < part.len() && !(part[j] is None);
                    lemma_flat::<B, V, B::Storage>(self.parts@);
                    lemma_join(o as nat, j as nat, N as nat, B::shape_len());
                    lemma_occupied_zero(self.slots());
                    assert(self.slots()[o * B::shape_len() + j] == part[j]);
                }
                return false;
            }
            o = o + 1;
        }
        proof {
            lemma_flat::<B, V, B::Storage>(self.parts@);
            lemma_occupied_zero(self.slots());
            let l = B::shape_len();
            assert forall|i: int| 0 <= i < self.slots().len() implies self.slots()[i] is None by {
                lemma_split(i as nat, N as nat, l);
                let p = (i as nat / l) as int;
                let j = (i as nat % l) as int;
                assert(p * l + j == i);
                assert(self.parts@[p].slots()[j] == self.slots()[p * l + j]);
            }
        }
        true
    }

    fn insert(&mut self, key: Composite<A, B>, value: V) -> (prev: Option<V>) {
        let o = key.outer.index();
        let prev = self.parts[o].insert(key.inner, value);
        proof {
            old(self).lemma_locate(key);
            old(self).parts@[o as int].lemma_slots_len();
            lemma_flat_update::<B, V, B::Storage>(
                old(self).parts@,
                self.parts@,
                o as int,
                key.inner.slot() as int,
            );
        }
        prev
    }

    fn contains_key(&self, key: Composite<A, B>) -> (b: bool) {
        let o = key.outer.index();
        let b = self.parts[o].contains_key(key.inner);
        proof {
            self.lemma_locate(key);
        }
        b
    }

    fn get(&self, key: Composite<A, B>) -> (r: Option<&V>) {
        let o = key.outer.index();
        let r = self.parts[o].get(key.inner);
        proof {
            self.lemma_locate(key);
        }
        r
    }

    fn get_mut(&mut self, key: Composite<A, B>) -> (r: Option<&mut V>) {
        let o = key.outer.index();
        proof {
            A::lemma_shape_len();
            lemma_flat::<B, V, B::Storage>(self.parts@);
            if key.inner.slot() < B::shape_len() {
                lemma_join(key.outer.slot(), key.inner.slot(), N as nat, B::shape_len());
            }
            self.parts@[o as int].lemma_slots_len();
            let j = key.inner.slot() as int;
            let parts = self.parts@;
            assert forall|after: Seq<B::Storage>|
                j < B::shape_len() && after.len() == parts.len() && (forall|p: int|
                    0 <= p < parts.len() && p != o ==> after[p] == parts[p]) && after[o as int].slots()
                    == parts[o as int].slots().update(
                    j,
                    after[o as int].slots()[j],
                ) implies #[trigger] flat::<B, V, B::Storage>(after) == flat::<B, V, B::Storage>(
                parts,
            ).update(o * B::shape_len() + j, after[o as int].slots()[j]) && (after[o as int].slots()
                == parts[o as int].slots() ==> flat::<B, V, B::Storage>(after) == flat::<
                B,
                V,
                B::Storage,
            >(parts)) by {
                lemma_flat_update::<B, V, B::Storage>(parts, after, o as int, j);
            }
            assert forall|after: Seq<B::Storage>|
                after.len() == parts.len() && (forall|p: int|
                    0 <= p < parts.len() && p != o ==> after[p] == parts[p]) && after[o as int].slots()
                    == parts[o as int].slots() implies #[trigger] flat::<B, V, B::Storage>(after)
                == flat::<B, V, B::Storage>(parts) by {
                lemma_flat_same::<B, V, B::Storage>(parts, after);
            }
        }
        self.parts[o].get_mut(key.inner)
    }

    fn remove(&mut self, key: Composite<A, B>) -> (prev: Option<V>) {
        let o = key.outer.index();
        let prev = self.parts[o].remove(key.inner);
        proof {
            old(self).lemma_locate(key);
            old(self).parts@[o as int].lemma_slots_len();
            lemma_flat_update::<B, V, B::Storage>(
                old(self).parts@,
                self.parts@,
                o as int,
                key.inner.slot() as int,
            );
        }
        prev
    }

    fn clear(&mut self) {
        let mut o: usize = 0;
        while o < N
            invariant
                o <= N,
                forall|p: int|
                    0 <= p < o ==> (#[trigger] self.parts@[p]).slots() == vacant::<V>(
                        B::shape_len(),
                    ),
            decreases N - o,
        {
            self.parts[o].clear();
            o = o + 1;
        }
        proof {
            A::lemma_shape_len();
            lemma_flat::<B, V, B::Storage>(self.parts@);
            let l = B::shape_len();
            assert forall|i: int| 0 <= i < self.slots().len() implies self.slots()[i] is None by {
                lemma_split(i as nat, N as nat, l);
                let p = (i as nat / l) as int;
                let j = (i as nat % l) as int;
                assert(p * l + j == i);
                assert(self.parts@[p].slots()[j] == self.slots()[p * l + j]);
            }
            assert(self.slots() =~= vacant::<V>(Composite::<A, B>::shape_len()));
        }
    }

    fn retain<F: Fn(Composite<A, B>, &mut V) -> bool>(&mut self, func: F) {
        let fr = &func;
        proof {
            A::lemma_shape_len();
            lemma_flat::<B, V, B::Storage>(self.parts@);
            let l = B::shape_len();
            assert forall|p: int, j: int, r: &mut V|
                0 <= p < N && 0 <= j < l && self.parts@[p].slots()[j] == Some(
                    *r,
                ) implies #[trigger] fr.requires(
                (Composite { outer: A::key_at(p as nat), inner: B::key_at(j as nat) }, r),
            ) by {
                lemma_join(p as nat, j as nat, N as nat, l);
                let i = p * l + j;
                assert(self.slots()[i] == self.parts@[p].slots()[j]);
                assert(func.requires((Composite::<A, B>::key_at(i as nat), r)));
            }
        }
        let mut o: usize = 0;
        while o < N
            invariant
                o <= N,
                forall|p: int, j: int, r: &mut V|
                    o <= p < N && 0 <= j < B::shape_len() && old(self).parts@[p].slots()[j] == Some(
                        *r,
                    ) ==> #[trigger] fr.requires(
                        (Composite { outer: A::key_at(p as nat), inner: B::key_at(j as nat) }, r),
                    ),
                forall|p: int| o <= p < N ==> self.parts@[p] == old(self).parts@[p],
                forall|p: int, j: int|
                    #![trigger self.parts@[p].slots()[j]]
                    0 <= p < o && 0 <= j < B::shape_len() ==> match old(self).parts@[p].slots()[j] {
                        None => self.parts@[p].slots()[j] is None,
                        Some(v0) => exists|r: &mut V, keep: bool|
                            *r == v0 && #[trigger] fr.ensures(
                                (
                                    Composite {
                                        outer: A::key_at(p as nat),
                                        inner: B::key_at(j as nat),
                                    },
                                    r,
                                ),
                                keep,
                            ) && self.parts@[p].slots()[j] == if keep {
                                Some(*final(r))
                            } else {
                                None::<V>
                            },
                    },
            decreases N - o,
        {
            let ghost before = self.parts@;
            if let Some(a) = A::from_index(o) {
                proof {
                    let row = o as int;
                    before[row].lemma_slots_len();
                    assert forall|j: int, r: &mut V|
                        0 <= j < before[row].slots().len() && before[row].slots()[j] == Some(
                            *r,
                        ) implies #[trigger] fr.requires(
                        (Composite { outer: a, inner: B::key_at(j as nat) }, r),
                    ) by {
                        assert(fr.requires(
                            (
                                Composite {
                                    outer: A::key_at(row as nat),
                                    inner: B::key_at(j as nat),
                                },
                                r,
                            ),
                        ));
                    }
                }
                retain_row(&mut self.parts[o], a, fr);
            }
            proof {
                before[o as int].lemma_slots_len();
                assert forall|p: int, j: int|
                    #![trigger self.parts@[p].slots()[j]]
                    0 <= p < o + 1 && 0 <= j < B::shape_len() implies match old(
                        self,
                    ).parts@[p].slots()[j] {
                    None => self.parts@[p].slots()[j] is None,
                    Some(v0) => exists|r: &mut V, keep: bool|
                        *r == v0 && #[trigger] fr.ensures(
                            (
                                Composite { outer: A::key_at(p as nat), inner: B::key_at(j as nat) },
                                r,
                            ),
                            keep,
                        ) && self.parts@[p].slots()[j] == if keep {
                            Some(*final(r))
                        } else {
                            None::<V>
                        },
                } by {
                    if p != o {
                        assert(self.parts@[p] == before[p]);
                    }
                }
            }
            o = o + 1;
        }
        proof {
            A::lemma_shape_len();
            lemma_flat::<B, V, B::Storage>(self.parts@);
            lemma_flat::<B, V, B::Storage>(old(self).parts@);
            let l = B::shape_len();
            assert forall|i: int|
                #![trigger self.slots()[i]]
                0 <= i < old(self).slots().len() implies match old(self).slots()[i] {
                None => self.slots()[i] is None,
                Some(v0) => exists|r: &mut V, keep: bool|
                    *r == v0 && #[trigger] func.ensures(
                        (Composite::<A, B>::key_at(i as nat), r),
                        keep,
                    ) && self.slots()[i] == if keep {
                        Some(*final(r))
                    } else {
                        None::<V>
                    },
            } by {
                lemma_split(i as nat, N as nat, l);
                let p = (i as nat / l) as int;
                let j = (i as nat % l) as int;
                assert(p * l + j == i);
                let after = self.parts@[p].slots()[j];
                assert(old(self).parts@[p].slots()[j] == old(self).slots()[p * l + j]);
                assert(after == self.slots()[p * l + j]);
                if let Some(v0) = old(self).parts@[p].slots()[j] {
                    let (r, keep) = choose|r: &mut V, keep: bool|
                        *r == v0 && #[trigger] fr.ensures(
                            (
                                Composite { outer: A::key_at(p as nat), inner: B::key_at(j as nat) },
                                r,
                            ),
                            keep,
                        ) && after == if keep {
                            Some(*final(r))
                        } else {
                            None::<V>
                        };
                    assert(func.ensures((Composite::<A, B>::key_at(i as nat), r), keep));
                }
            }
        }
    }

    fn iter(&self) -> (r: Iter<(Composite<A, B>, &V)>) {
        let mut items: Vec<(Composite<A, B>, &V)> = Vec::new();
        let mut o: usize = 0;
        while o < N
            invariant
                o <= N,
                items@ == entries::<Composite<A, B>, V>(
                    flat::<B, V, B::Storage>(self.parts@.take(o as int)),
                ).map_values(|e: (Composite<A, B>, V)| (e.0, &e.1)),
            decreases N - o,
        {
            proof {
                Self::lemma_step(self.parts@, o as int);
            }
            if let Some(a) = A::from_index(o) {
                append_entries(&mut items, self.parts[o].iter(), a);
            }
            assert(items@ =~= entries::<Composite<A, B>, V>(
                flat::<B, V, B::Storage>(self.parts@.take(o + 1)),
            ).map_values(|e: (Composite<A, B>, V)| (e.0, &e.1)));
            o = o + 1;
        }
        assert(self.parts@.take(N as int) =~= self.parts@);
        Iter::new(items)
    }

    fn keys(&self) -> (r: Iter<Composite<A, B>>) {
        let mut items: Vec<Composite<A, B>> = Vec::new();
        let mut o: usize = 0;
        while o < N
            invariant
                o <= N,
                items@ == entries::<Composite<A, B>, V>(
                    flat::<B, V, B::Storage>(self.parts@.take(o as int)),
                ).map_values(|e: (Composite<A, B>, V)| e.0),
            decreases N - o,
        {
            proof {
                Self::lemma_step(self.parts@, o as int);
            }
            if let Some(a) = A::from_index(o) {
                append_keys(&mut items, self.parts[o].keys(), a);
            }
            assert(items@ =~= entries::<Composite<A, B>, V>(
                flat::<B, V, B::Storage>(self.parts@.take(o + 1)),
            ).map_values(|e: (Composite<A, B>, V)| e.0));
            o = o + 1;
        }
        assert(self.parts@.take(N as int) =~= self.parts@);
        Iter::new(items)
    }

    fn values(&self) -> (r: Iter<&V>) {
        let mut items: Vec<&V> = Vec::new();
        let mut o: usize = 0;
        while o < N
            invariant
                o <= N,
                items@ == entries::<Composite<A, B>, V>(
                    flat::<B, V, B::Storage>(self.parts@.take(o as int)),
                ).map_values(|e: (Composite<A, B>, V)| &e.1),
            decreases N - o,
        {
            proof {
                Self::lemma_step(self.parts@, o as int);
            }
            let mut row = self.parts[o].values().collect();
            items.append(&mut row);
            assert(items@ =~= entries::<Composite<A, B>, V>(
                flat::<B, V, B::Storage>(self.parts@.take(o + 1)),
            ).map_values(|e: (Composite<A, B>, V)| &e.1));
            o = o + 1;
        }
        assert(self.parts@.take(N as int) =~= self.parts@);
        Iter::new(items)
    }

    fn iter_mut<F: Fn(Composite<A, B>, &mut V)>(&mut self, func: F) {
        let fr = &func;
        proof {
            A::lemma_shape_len();
            lemma_flat::<B, V, B::Storage>(self.parts@);
            let l = B::shape_len();
            assert forall|p: int, j: int, r: &mut V|
                0 <= p < N && 0 <= j < l && self.parts@[p].slots()[j] == Some(
                    *r,
                ) implies #[trigger] fr.requires(
                (Composite { outer: A::key_at(p as nat), inner: B::key_at(j as nat) }, r),
            ) by {
                lemma_join(p as nat, j as nat, N as nat, l);
                let i = p * l + j;
                assert(self.slots()[i] == self.parts@[p].slots()[j]);
                assert(func.requires((Composite::<A, B>::key_at(i as nat), r)));
            }
        }
        let mut o: usize = 0;
        while o < N
            invariant
                o <= N,
                forall|p: int, j: int, r: &mut V|
                    o <= p < N && 0 <= j < B::shape_len() && old(self).parts@[p].slots()[j] == Some(
                        *r,
                    ) ==> #[trigger] fr.requires(
                        (Composite { outer: A::key_at(p as nat), inner: B::key_at(j as nat) }, r),
                    ),
                forall|p: int| o <= p < N ==> self.parts@[p] == old(self).parts@[p],
                forall|p: int, j: int|
                    #![trigger self.parts@[p].slots()[j]]
                    0 <= p < o && 0 <= j < B::shape_len() ==> match old(self).parts@[p].slots()[j] {
                        None => self.parts@[p].slots()[j] is None,
                        Some(v0) => exists|r: &mut V|
                            *r == v0 && #[trigger] fr.ensures(
                                (
                                    Composite {
                                        outer: A::key_at(p as nat),
                                        inner: B::key_at(j as nat),
                                    },
                                    r,
                                ),
                                (),
                            ) && self.parts@[p].slots()[j] == Some(*final(r)),
                    },
            decreases N - o,
        {
            let ghost before = self.parts@;
            if let Some(a) = A::from_index(o) {
                proof {
                    let row = o as int;
                    before[row].lemma_slots_len();
                    assert forall|j: int, r: &mut V|
                        0 <= j < before[row].slots().len() && before[row].slots()[j] == Some(
                            *r,
                        ) implies #[trigger] fr.requires(
                        (Composite { outer: a, inner: B::key_at(j as nat) }, r),
                    ) by {
                        assert(fr.requires(
                            (
                                Composite {
                                    outer: A::key_at(row as nat),
                                    inner: B::key_at(j as nat),
                                },
                                r,
                            ),
                        ));
                    }
                }
                visit_row(&mut self.parts[o], a, fr);
            }
            proof {
                before[o as int].lemma_slots_len();
                assert forall|p: int, j: int|
                    #![trigger self.parts@[p].slots()[j]]
                    0 <= p < o + 1 && 0 <= j < B::shape_len() implies match old(
                        self,
                    ).parts@[p].slots()[j] {
                    None => self.parts@[p].slots()[j] is None,
                    Some(v0) => exists|r: &mut V|
                        *r == v0 && #[trigger] fr.ensures(
                            (
                                Composite { outer: A::key_at(p as nat), inner: B::key_at(j as nat) },
                                r,
                            ),
                            (),
                        ) && self.parts@[p].slots()[j] == Some(*final(r)),
                } by {
                    if p != o {
                        assert(self.parts@[p] == before[p]);
                    }
                }
            }
            o = o + 1;
        }
        proof {
            A::lemma_shape_len();
            lemma_flat::<B, V, B::Storage>(self.parts@);
            lemma_flat::<B, V, B::Storage>(old(self).parts@);
            let l = B::shape_len();
            assert forall|i: int|
                #![trigger self.slots()[i]]
                0 <= i < old(self).slots().len() implies match old(self).slots()[i] {
                None => self.slots()[i] is None,
                Some(v0) => exists|r: &mut V|
                    *r == v0 && #[trigger] func.ensures(
                        (Composite::<A, B>::key_at(i as nat), r),
                        (),
                    ) && self.slots()[i] == Some(*final(r)),
            } by {
                lemma_split(i as nat, N as nat, l);
                let p = (i as nat / l) as int;
                let j = (i as nat % l) as int;
                assert(p * l + j == i);
                let after = self.parts@[p].slots()[j];
                assert(old(self).parts@[p].slots()[j] == old(self).slots()[p * l + j]);
                assert(after == self.slots()[p * l + j]);
                if let Some(v0) = old(self).parts@[p].slots()[j] {
                    let r = choose|r: &mut V|
                        *r == v0 && #[trigger] fr.ensures(
                            (
                                Composite { outer: A::key_at(p as nat), inner: B::key_at(j as nat) },
                                r,
                            ),
                            (),
                        ) && after == Some(*final(r));
                    assert(func.ensures((Composite::<A, B>::key_at(i as nat), r), ()));
                }
            }
        }
    }

    fn values_mut<F: Fn(&mut V)>(&mut self, func: F) {
        let fr = &func;
        proof {
            A::lemma_shape_len();
            lemma_flat::<B, V, B::Storage>(self.parts@);
            let l = B::shape_len();
            assert forall|p: int, j: int, r: &mut V|
                #![trigger self.parts@[p].slots()[j], fr.requires((r,))]
                0 <= p < N && 0 <= j < l && self.parts@[p].slots()[j] == Some(
                    *r,
                ) implies fr.requires((r,)) by {
                lemma_join(p as nat, j as nat, N as nat, l);
                let i = p * l + j;
                assert(self.slots()[i] == self.parts@[p].slots()[j]);
                assert(func.requires((r,)));
            }
        }
        let mut o: usize = 0;
        while o < N
            invariant
                o <= N,
                forall|p: int, j: int, r: &mut V|
                    #![trigger old(self).parts@[p].slots()[j], fr.requires((r,))]
                    o <= p < N && 0 <= j < B::shape_len() && old(self).parts@[p].slots()[j] == Some(
                        *r,
                    ) ==> fr.requires((r,)),
                forall|p: int| o <= p < N ==> self.parts@[p] == old(self).parts@[p],
                forall|p: int, j: int|
                    #![trigger self.parts@[p].slots()[j]]
                    0 <= p < o && 0 <= j < B::shape_len() ==> match old(self).parts@[p].slots()[j] {
                        None => self.parts@[p].slots()[j] is None,
                        Some(v0) => exists|r: &mut V|
                            *r == v0 && #[trigger] fr.ensures((r,), ()) && self.parts@[p].slots()[j]
                                == Some(*final(r)),
                    },
            decreases N - o,
        {
            let ghost before = self.parts@;
            proof {
                let row = o as int;
                before[row].lemma_slots_len();
                assert forall|j: int, r: &mut V|
                    #![trigger before[row].slots()[j], fr.requires((r,))]
                    0 <= j < before[row].slots().len() && before[row].slots()[j] == Some(
                        *r,
                    ) implies fr.requires((r,)) by {
                    assert(old(self).parts@[row].slots()[j] == Some(*r));
                }
            }
            self.parts[o].values_mut(fr);
            proof {
                before[o as int].lemma_slots_len();
                assert forall|p: int, j: int|
                    #![trigger self.parts@[p].slots()[j]]
                    0 <= p < o + 1 && 0 <= j < B::shape_len() implies match old(
                        self,
                    ).parts@[p].slots()[j] {
                    None => self.parts@[p].slots()[j] is None,
                    Some(v0) => exists|r: &mut V|
                        *r == v0 && #[trigger] fr.ensures((r,), ()) && self.parts@[p].slots()[j]
                            == Some(*final(r)),
                } by {
                    if p != o {
                        assert(self.parts@[p] == before[p]);
                    }
                }
            }
            o = o + 1;
        }
        proof {
            A::lemma_shape_len();
            lemma_flat::<B, V, B::Storage>(self.parts@);
            lemma_flat::<B, V, B::Storage>(old(self).parts@);
            let l = B::shape_len();
            assert forall|i: int|
                #![trigger self.slots()[i]]
                0 <= i < old(self).slots().len() implies match old(self).slots()[i] {
                None => self.slots()[i] is None,
                Some(v0) => exists|r: &mut V|
                    *r == v0 && #[trigger] func.ensures((r,), ()) && self.slots()[i] == Some(
                        *final(r),
                    ),
            } by {
                lemma_split(i as nat, N as nat, l);
                let p = (i as nat / l) as int;
                let j = (i as nat % l) as int;
                assert(p * l + j == i);
                let after = self.parts@[p].slots()[j];
                assert(old(self).parts@[p].slots()[j] == old(self).slots()[p * l + j]);
                assert(after == self.slots()[p * l + j]);
                if let Some(v0) = old(self).parts@[p].slots()[j] {
                    let r = choose|r: &mut V|
                        *r == v0 && #[trigger] fr.ensures((r,), ()) && after == Some(*final(r));
                    assert(func.ensures((r,), ()));
                }
            }
        }
    }

    fn into_iter(self) -> (r: Vec<(Composite<A, B>, V)>) {
        let mut parts = self.parts;
        let mut items: Vec<(Composite<A, B>, V)> = Vec::new();
        let mut o: usize = 0;
        while o < N
            invariant
                o <= N,
                forall|p: int| o <= p < N ==> parts@[p] == self.parts@[p],
                items@ == entries::<Composite<A, B>, V>(
                    flat::<B, V, B::Storage>(self.parts@.take(o as int)),
                ),
            decreases N - o,
        {
            proof {
                Self::lemma_step(self.parts@, o as int);
            }
            if let Some(a) = A::from_index(o) {
                let mut part = B::Storage::empty();
                core::mem::swap(&mut part, &mut parts[o]);
                append_pairs(&mut items, part.into_iter(), a);
            }
            o = o + 1;
        }
        assert(self.parts@.take(N as int) =~= self.parts@);
        items
    }

    fn entry(&mut self, key: Composite<A, B>) -> (e: Entry<'_, Composite<A, B>, V>) {
        let o = key.outer.index();
        proof {
            A::lemma_shape_len();
            lemma_flat::<B, V, B::Storage>(self.parts@);
            if key.inner.slot() < B::shape_len() {
                lemma_join(key.outer.slot(), key.inner.slot(), N as nat, B::shape_len());
            }
            self.parts@[o as int].lemma_slots_len();
            let j = key.inner.slot() as int;
            let parts = self.parts@;
            assert forall|after: Seq<B::Storage>|
                j < B::shape_len() && after.len() == parts.len() && (forall|p: int|
                    0 <= p < parts.len() && p != o ==> after[p] == parts[p]) && after[o as int].slots()
                    == parts[o as int].slots().update(
                    j,
                    after[o as int].slots()[j],
                ) implies #[trigger] flat::<B, V, B::Storage>(after) == flat::<B, V, B::Storage>(
                parts,
            ).update(o * B::shape_len() + j, after[o as int].slots()[j]) && (after[o as int].slots()
                == parts[o as int].slots() ==> flat::<B, V, B::Storage>(after) == flat::<
                B,
                V,
                B::Storage,
            >(parts)) by {
                lemma_flat_update::<B, V, B::Storage>(parts, after, o as int, j);
            }
        }
        match self.parts[o].entry(key.inner) {
            Entry::Occupied(e) => Entry::Occupied(Occupied { key, inner: e.inner }),
            Entry::Vacant(e) => Entry::Vacant(Vacant { key, inner: e.inner }),
        }
    }
}

} // verus!

//! What holds of every storage, stated over the slot model that the
//! contracts of the storages use.

use vstd::prelude::*;
use crate::iter::Iter;
use crate::key::{lemma_slot_injective, Key};
use crate::map::entry::Entry;
use crate::map::storage::MapStorage;
use crate::map::{FixedMap, MapKey};
use crate::set::storage::{SetAlgebra, SetStorage};
use crate::model::{
    as_map, as_set, entries, insert_all, lemma_entries_len, lemma_occupied_update,
    lemma_occupied_vacant, lemma_present_none, lemma_present_update, none_present, occupied,
    present, vacant,
};

verus! {

/// Inserting pairs one after another never changes the number of slots.
pub proof fn lemma_insert_all_len<K: Key, V>(slots: Seq<Option<V>>, items: Seq<(K, V)>)
    requires
        forall|j: int| 0 <= j < items.len() ==> (#[trigger] items[j]).0.slot() < slots.len(),
    ensures
        insert_all::<K, V>(slots, items).len() == slots.len(),
    decreases items.len(),
{
    if items.len() > 0 {
        let rest = items.drop_last();
        assert forall|j: int| 0 <= j < rest.len() implies (#[trigger] rest[j]).0.slot()
            < slots.len() by {
            assert(rest[j] == items[j]);
        }
        lemma_insert_all_len::<K, V>(slots, rest);
        assert(items.last() == items[items.len() - 1]);
    }
}

/// A key that was never inserted has no value: whatever pairs were inserted
/// into an empty storage, a key that is not among them is absent.
pub proof fn lemma_never_inserted_is_absent<K: Key, V>(items: Seq<(K, V)>, key: K)
    requires
        key.slot() < K::shape_len(),
        forall|j: int| 0 <= j < items.len() ==> (#[trigger] items[j]).0.slot() < K::shape_len(),
        forall|j: int| 0 <= j < items.len() ==> (#[trigger] items[j]).0 != key,
    ensures
        insert_all::<K, V>(vacant::<V>(K::shape_len()), items)[key.slot() as int] is None,
        !as_map::<K, V>(insert_all::<K, V>(vacant::<V>(K::shape_len()), items)).contains_key(key),
    decreases items.len(),
{
    lemma_insert_all_len::<K, V>(vacant::<V>(K::shape_len()), items);
    if items.len() > 0 {
        let rest = items.drop_last();
        assert forall|j: int| 0 <= j < rest.len() implies (#[trigger] rest[j]).0.slot()
            < K::shape_len() && rest[j].0 != key by {
            assert(rest[j] == items[j]);
        }
        lemma_never_inserted_is_absent::<K, V>(rest, key);
        lemma_insert_all_len::<K, V>(vacant::<V>(K::shape_len()), rest);
        let last = items.last();
        assert(last == items[items.len() - 1]);
        if last.0.slot() == key.slot() {
            lemma_slot_injective(last.0, key);
        }
    }
}

/// After `insert(key, value)` the key has that value, every other slot is
/// as it was, and the number of present keys has grown by exactly one,
/// unless the key was present already: then it is unchanged.
pub proof fn lemma_insert<K: Key, V>(slots: Seq<Option<V>>, key: K, value: V)
    requires
        slots.len() == K::shape_len(),
        key.slot() < K::shape_len(),
    ensures
        ({
            let after = slots.update(key.slot() as int, Some(value));
            &&& after[key.slot() as int] == Some(value)
            &&& as_map::<K, V>(after).get(key) == Some(value)
            &&& forall|i: int| 0 <= i < slots.len() && i != key.slot() ==> after[i] == slots[i]
            &&& slots[key.slot() as int] is None ==> occupied(after) == occupied(slots) + 1
            &&& slots[key.slot() as int] is Some ==> occupied(after) == occupied(slots)
        }),
{
    lemma_occupied_update(slots, key.slot() as int, Some(value));
}

/// `remove(key)` after `insert(key, value)` returns `value`; afterwards the
/// key is absent and the number of present keys is one less than it was
/// after the insertion.
pub proof fn lemma_insert_remove<K: Key, V>(slots: Seq<Option<V>>, key: K, value: V)
    requires
        slots.len() == K::shape_len(),
        key.slot() < K::shape_len(),
    ensures
        ({
            let inserted = slots.update(key.slot() as int, Some(value));
            let removed = inserted.update(key.slot() as int, None);
            &&& inserted[key.slot() as int] == Some(value)
            &&& removed[key.slot() as int] is None
            &&& !as_map::<K, V>(removed).contains_key(key)
            &&& occupied(removed) + 1 == occupied(inserted)
        }),
{
    let inserted = slots.update(key.slot() as int, Some(value));
    lemma_occupied_update(inserted, key.slot() as int, None);
}

/// After `clear()` no key is present: the count is zero and every key is
/// absent.
pub proof fn lemma_clear<K: Key, V>(key: K)
    requires
        key.slot() < K::shape_len(),
    ensures
        occupied(vacant::<V>(K::shape_len())) == 0,
        vacant::<V>(K::shape_len())[key.slot() as int] is None,
        !as_map::<K, V>(vacant::<V>(K::shape_len())).contains_key(key),
{
    lemma_occupied_vacant::<V>(K::shape_len());
}

/// Iteration lists exactly the present associations, each once, in strictly
/// ascending slot order.
pub proof fn lemma_entries_ordered<K: Key, V>(slots: Seq<Option<V>>)
    requires
        slots.len() <= K::shape_len(),
    ensures
        entries::<K, V>(slots).len() == occupied(slots),
        forall|a: int, b: int|
            0 <= a < b < entries::<K, V>(slots).len() ==> (#[trigger] entries::<K, V>(
                slots,
            )[a]).0.slot() < (#[trigger] entries::<K, V>(slots)[b]).0.slot(),
        forall|j: int|
            0 <= j < entries::<K, V>(slots).len() ==> (#[trigger] entries::<K, V>(
                slots,
            )[j]).0.slot() < slots.len() && slots[entries::<K, V>(slots)[j].0.slot() as int]
                == Some(entries::<K, V>(slots)[j].1),
        forall|i: int|
            0 <= i < slots.len() && (#[trigger] slots[i]) is Some ==> exists|j: int|
                0 <= j < entries::<K, V>(slots).len() && (#[trigger] entries::<K, V>(slots)[j])
                    == (K::key_at(i as nat), slots[i]->0),
    decreases slots.len(),
{
    lemma_entries_len::<K, V>(slots);
    if slots.len() > 0 {
        let init = slots.drop_last();
        let last = (slots.len() - 1) as nat;
        lemma_entries_ordered::<K, V>(init);
        K::lemma_key_at(last);
        let es = entries::<K, V>(slots);
        let ei = entries::<K, V>(init);
        assert forall|j: int| 0 <= j < es.len() implies (#[trigger] es[j]).0.slot() < slots.len()
            && slots[es[j].0.slot() as int] == Some(es[j].1) by {
            if j < ei.len() {
                assert(es[j] == ei[j]);
                assert(init[ei[j].0.slot() as int] == slots[ei[j].0.slot() as int]);
            }
        }
        assert forall|a: int, b: int| 0 <= a < b < es.len() implies (#[trigger] es[a]).0.slot() < (
        #[trigger] es[b]).0.slot() by {
            assert(es[a] == ei[a]);
            if b < ei.len() {
                assert(es[b] == ei[b]);
            }
        }
        assert forall|i: int| 0 <= i < slots.len() && (#[trigger] slots[i]) is Some implies exists|
            j: int,
        |
            0 <= j < es.len() && (#[trigger] es[j]) == (K::key_at(i as nat), slots[i]->0) by {
            if i < init.len() {
                assert(init[i] is Some);
                let j = choose|j: int|
                    0 <= j < ei.len() && (#[trigger] ei[j]) == (K::key_at(i as nat), init[i]->0);
                assert(es[j] == ei[j]);
            } else {
                assert(es[es.len() - 1] == (K::key_at(i as nat), slots[i]->0));
            }
        }
    }
}

/// Iteration is stable: two traversals of a storage that was not changed
/// in between list the same associations in the same order.
pub proof fn lemma_iter_stable<'a, K: Key, V, S: MapStorage<K, V>>(
    storage: &'a S,
    first: Iter<(K, &'a V)>,
    second: Iter<(K, &'a V)>,
)
    requires
        call_ensures(S::iter, (storage,), first),
        call_ensures(S::iter, (storage,), second),
    ensures
        first.remaining() == second.remaining(),
{
}

/// Whatever the storage, a key has no value in a storage that was just
/// created.
pub proof fn lemma_empty_then_get<'a, K: Key, V, S: MapStorage<K, V>>(
    storage: S,
    key: K,
    found: Option<&'a V>,
    contained: bool,
)
    requires
        call_ensures(S::empty, (), storage),
        call_ensures(S::get, (&storage, key), found),
        call_ensures(S::contains_key, (&storage, key), contained),
    ensures
        found is None,
        !contained,
{
}

/// Whatever the storage, inserting one key leaves every other key as it was:
/// a lookup of another key finds what it found before.
pub proof fn lemma_insert_other_key<'a, K: Key, V, S: MapStorage<K, V>>(
    storage: &mut S,
    key: K,
    value: V,
    replaced: Option<V>,
    other: K,
    before: Option<&'a V>,
    after: Option<&'a V>,
)
    requires
        other != key,
        call_ensures(S::get, (&*storage, other), before),
        call_ensures(S::insert, (storage, key, value), replaced),
        call_ensures(S::get, (&*final(storage), other), after),
    ensures
        after == before,
{
    storage.lemma_slots_len();
    if other.slot() == key.slot() {
        lemma_slot_injective(other, key);
    }
}

/// Whatever the storage, a lookup after `insert(key, value)` finds `value`,
/// the insertion hands back what the key had before, and the length has
/// grown by exactly one, unless the key was present already: then it is
/// unchanged.
pub proof fn lemma_insert_then_get<'a, K: Key, V, S: MapStorage<K, V>>(
    storage: &mut S,
    key: K,
    value: V,
    replaced: Option<V>,
    found: Option<&'a V>,
    had: bool,
)
    requires
        call_ensures(S::contains_key, (&*storage, key), had),
        call_ensures(S::insert, (storage, key, value), replaced),
        call_ensures(S::get, (&*final(storage), key), found),
    ensures
        found == Some(&value),
        had == (replaced is Some),
        !had ==> occupied(final(storage).slots()) == occupied(old(storage).slots()) + 1,
        had ==> occupied(final(storage).slots()) == occupied(old(storage).slots()),
{
    storage.lemma_slots_len();
    lemma_occupied_update(storage.slots(), key.slot() as int, Some(value));
}

/// Whatever the storage, `remove(key)` after `insert(key, value)` hands back
/// `value`; afterwards a lookup finds nothing and the length is one less
/// than it was after the insertion.
pub proof fn lemma_insert_then_remove<'a, K: Key, V, S: MapStorage<K, V>>(
    inserting: &mut S,
    removing: &mut S,
    key: K,
    value: V,
    replaced: Option<V>,
    removed: Option<V>,
    found: Option<&'a V>,
)
    requires
        call_ensures(S::insert, (inserting, key, value), replaced),
        removing.slots() == final(inserting).slots(),
        call_ensures(S::remove, (removing, key), removed),
        call_ensures(S::get, (&*final(removing), key), found),
    ensures
        removed == Some(value),
        found is None,
        occupied(final(removing).slots()) + 1 == occupied(final(inserting).slots()),
{
    inserting.lemma_slots_len();
    lemma_occupied_update(final(inserting).slots(), key.slot() as int, None);
}

/// Whatever the storage, after `clear()` the length is zero and a lookup of
/// any key finds nothing.
pub proof fn lemma_clear_then_get<'a, K: Key, V, S: MapStorage<K, V>>(
    storage: &mut S,
    key: K,
    n: usize,
    found: Option<&'a V>,
)
    requires
        call_ensures(S::clear, (storage,), ()),
        call_ensures(S::len, (&*final(storage),), n),
        call_ensures(S::get, (&*final(storage), key), found),
    ensures
        n == 0,
        found is None,
{
    lemma_occupied_vacant::<V>(K::shape_len());
}

/// The entry protocol on a vacant key is an insertion: acquiring the entry of
/// a key without a value and calling `or_insert(value)` on it hands out a
/// reference to `value`, and, when nothing else is written through that
/// reference, leaves the storage in the state in which `insert(key, value)`
/// leaves it, where `get(key)` finds `value`.
pub proof fn lemma_entry_or_insert<'a, K: Key, V, S: MapStorage<K, V>>(
    by_entry: &'a mut S,
    by_insert: &mut S,
    key: K,
    value: V,
    entry: Entry<'a, K, V>,
    stored: &'a mut V,
    replaced: Option<V>,
)
    requires
        by_entry.slots() == by_insert.slots(),
        by_entry.slots()[key.slot() as int] is None,
        call_ensures(S::entry, (by_entry, key), entry),
        call_ensures(Entry::<'a, K, V>::or_insert, (entry, value), stored),
        *final(stored) == *stored,
        call_ensures(S::insert, (by_insert, key, value), replaced),
    ensures
        *old(stored) == value,
        replaced is None,
        final(by_entry).slots() == final(by_insert).slots(),
        final(by_insert).slots()[key.slot() as int] == Some(value),
{
    by_entry.lemma_slots_len();
}

/// Writing the listed associations back into an empty storage, one insert
/// after another in iteration order, rebuilds the storage: the rebuilt
/// storage has the same slots and therefore lists the same sequence.
pub proof fn lemma_round_trip<K: Key, V>(slots: Seq<Option<V>>)
    requires
        slots.len() == K::shape_len(),
    ensures
        insert_all::<K, V>(vacant::<V>(K::shape_len()), entries::<K, V>(slots)) == slots,
        entries::<K, V>(insert_all::<K, V>(vacant::<V>(K::shape_len()), entries::<K, V>(slots)))
            == entries::<K, V>(slots),
{
    lemma_rebuild_prefix::<K, V>(slots, K::shape_len());
    assert(slots + vacant::<V>(0) =~= slots);
}

/// A map that is taken apart into its sequence of associations and built
/// again from that sequence is the map it was: it has the same associations
/// and lists them in the same order.
pub proof fn lemma_map_round_trip<K: MapKey<V>, V>(
    map: FixedMap<K, V>,
    items: Vec<(K, V)>,
    rebuilt: FixedMap<K, V>,
)
    requires
        call_ensures(FixedMap::<K, V>::into_iter, (map,), items),
        call_ensures(FixedMap::<K, V>::from_entries, (items,), rebuilt),
    ensures
        rebuilt.slots() == map.slots(),
        rebuilt@ == map@,
        entries::<K, V>(rebuilt.slots()) == items@,
{
    map.lemma_slots_len();
    lemma_round_trip::<K, V>(map.slots());
}

/// Inserting the associations listed for a prefix of the slots into `n`
/// empty slots gives that prefix, followed by empty slots.
proof fn lemma_rebuild_prefix<K: Key, V>(slots: Seq<Option<V>>, n: nat)
    requires
        slots.len() <= n == K::shape_len(),
    ensures
        insert_all::<K, V>(vacant::<V>(n), entries::<K, V>(slots)) == slots + vacant::<V>(
            (n - slots.len()) as nat,
        ),
    decreases slots.len(),
{
    if slots.len() == 0 {
        assert(slots + vacant::<V>(n) =~= vacant::<V>(n));
    } else {
        let init = slots.drop_last();
        let last = (slots.len() - 1) as nat;
        lemma_rebuild_prefix::<K, V>(init, n);
        K::lemma_key_at(last);
        let padded = init + vacant::<V>((n - init.len()) as nat);
        match slots.last() {
            Some(v) => {
                let es = entries::<K, V>(init).push((K::key_at(last), v));
                assert(es.drop_last() =~= entries::<K, V>(init));
                assert(padded.update(last as int, Some(v)) =~= slots + vacant::<V>(
                    (n - slots.len()) as nat,
                ));
            },
            None => {
                assert(padded =~= slots + vacant::<V>((n - slots.len()) as nat));
            },
        }
    }
}

/// After a set's `insert(key)` the key is present, every other flag is as
/// it was, and the number of present keys has grown by exactly one, unless
/// the key was present already: then it is unchanged.
pub proof fn lemma_set_insert<K: Key>(members: Seq<bool>, key: K)
    requires
        members.len() == K::shape_len(),
        key.slot() < K::shape_len(),
    ensures
        ({
            let after = members.update(key.slot() as int, true);
            &&& after[key.slot() as int]
            &&& as_set::<K>(after).contains(key)
            &&& forall|i: int| 0 <= i < members.len() && i != key.slot() ==> after[i] == members[i]
            &&& !members[key.slot() as int] ==> present(after) == present(members) + 1
            &&& members[key.slot() as int] ==> present(after) == present(members)
        }),
{
    lemma_present_update(members, key.slot() as int, true);
}

/// A set's `remove(key)` after `insert(key)` answers `true`; afterwards the
/// key is absent and the number of present keys is one less than it was
/// after the insertion.
pub proof fn lemma_set_insert_remove<K: Key>(members: Seq<bool>, key: K)
    requires
        members.len() == K::shape_len(),
        key.slot() < K::shape_len(),
    ensures
        ({
            let inserted = members.update(key.slot() as int, true);
            let removed = inserted.update(key.slot() as int, false);
            &&& inserted[key.slot() as int]
            &&& !removed[key.slot() as int]
            &&& !as_set::<K>(removed).contains(key)
            &&& present(removed) + 1 == present(inserted)
        }),
{
    let inserted = members.update(key.slot() as int, true);
    lemma_present_update(inserted, key.slot() as int, false);
}

/// After a set's `clear()` no key is present.
pub proof fn lemma_set_clear<K: Key>(key: K)
    requires
        key.slot() < K::shape_len(),
    ensures
        present(none_present(K::shape_len())) == 0,
        !none_present(K::shape_len())[key.slot() as int],
        !as_set::<K>(none_present(K::shape_len())).contains(key),
{
    lemma_present_none(K::shape_len());
}

/// Whatever the storage, a key belongs to the union of two sets exactly when
/// it belongs to one of them, to their intersection when it belongs to both,
/// and to their difference when it belongs to the first and not to the
/// second.
pub proof fn lemma_algebra_contains<K: Key, S: SetAlgebra<K>>(
    a: S,
    b: S,
    key: K,
    in_a: bool,
    in_b: bool,
    union: S,
    intersection: S,
    difference: S,
    in_union: bool,
    in_intersection: bool,
    in_difference: bool,
)
    requires
        call_ensures(S::contains, (&a, key), in_a),
        call_ensures(S::contains, (&b, key), in_b),
        call_ensures(S::union, (&a, &b), union),
        call_ensures(S::intersection, (&a, &b), intersection),
        call_ensures(S::difference, (&a, &b), difference),
        call_ensures(S::contains, (&union, key), in_union),
        call_ensures(S::contains, (&intersection, key), in_intersection),
        call_ensures(S::contains, (&difference, key), in_difference),
    ensures
        in_union == (in_a || in_b),
        in_intersection == (in_a && in_b),
        in_difference == (in_a && !in_b),
{
    a.lemma_members_len();
}

/// Set algebra on the flags is set algebra on the keys: a key belongs to the
/// union when it belongs to either operand.
pub proof fn lemma_union<K: Key>(a: Seq<bool>, b: Seq<bool>, r: Seq<bool>)
    requires
        a.len() == b.len() == r.len(),
        forall|i: int| 0 <= i < r.len() ==> #[trigger] r[i] == (a[i] || b[i]),
    ensures
        as_set::<K>(r) == as_set::<K>(a).union(as_set::<K>(b)),
        forall|k: K|
            as_set::<K>(r).contains(k) == (as_set::<K>(a).contains(k) || as_set::<K>(b).contains(
                k,
            )),
{
    assert(as_set::<K>(r) =~= as_set::<K>(a).union(as_set::<K>(b)));
}

/// A key belongs to the intersection when it belongs to both operands.
pub proof fn lemma_intersection<K: Key>(a: Seq<bool>, b: Seq<bool>, r: Seq<bool>)
    requires
        a.len() == b.len() == r.len(),
        forall|i: int| 0 <= i < r.len() ==> #[trigger] r[i] == (a[i] && b[i]),
    ensures
        as_set::<K>(r) == as_set::<K>(a).intersect(as_set::<K>(b)),
        forall|k: K|
            as_set::<K>(r).contains(k) == (as_set::<K>(a).contains(k) && as_set::<K>(b).contains(
                k,
            )),
{
    assert(as_set::<K>(r) =~= as_set::<K>(a).intersect(as_set::<K>(b)));
}

/// A key belongs to the difference when it belongs to the first operand and
/// not to the second.
pub proof fn lemma_difference<K: Key>(a: Seq<bool>, b: Seq<bool>, r: Seq<bool>)
    requires
        a.len() == b.len() == r.len(),
        forall|i: int| 0 <= i < r.len() ==> #[trigger] r[i] == (a[i] && !b[i]),
    ensures
        as_set::<K>(r) == as_set::<K>(a).difference(as_set::<K>(b)),
        forall|k: K|
            as_set::<K>(r).contains(k) == (as_set::<K>(a).contains(k) && !as_set::<K>(b).contains(
                k,
            )),
{
    assert(as_set::<K>(r) =~= as_set::<K>(a).difference(as_set::<K>(b)));
}

} // verus!

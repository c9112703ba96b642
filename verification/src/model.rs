//! The mathematical model of a storage: a sequence of slots.
//!
//! Slot `i` belongs to the key `K::key_at(i)`. A map storage is modelled by a
//! `Seq<Option<V>>`, one optional value per slot.

use vstd::prelude::*;
use crate::key::{lemma_join, lemma_slot_injective, Composite, Key};

verus! {

/// `n` slots, all absent.
pub open spec fn vacant<V>(n: nat) -> Seq<Option<V>> {
    Seq::new(n, |i: int| None::<V>)
}

/// Number of occupied slots.
pub open spec fn occupied<V>(slots: Seq<Option<V>>) -> nat
    decreases slots.len(),
{
    if slots.len() == 0 {
        0
    } else {
        occupied(slots.drop_last()) + if slots.last() is Some {
            1nat
        } else {
            0nat
        }
    }
}

/// A count as a machine word reports it: exact while it fits, the largest
/// word otherwise.
pub open spec fn saturate(n: nat) -> usize {
    if n <= usize::MAX {
        n as usize
    } else {
        usize::MAX
    }
}

/// The present associations in ascending slot order.
pub open spec fn entries<K: Key, V>(slots: Seq<Option<V>>) -> Seq<(K, V)>
    decreases slots.len(),
{
    if slots.len() == 0 {
        Seq::empty()
    } else {
        let rest = entries::<K, V>(slots.drop_last());
        match slots.last() {
            Some(v) => rest.push((K::key_at((slots.len() - 1) as nat), v)),
            None => rest,
        }
    }
}

/// The present associations in ascending slot order, values by reference.
pub open spec fn entry_refs<'a, K: Key, V>(slots: Seq<Option<V>>) -> Seq<(K, &'a V)> {
    entries::<K, V>(slots).map_values(|e: (K, V)| (e.0, &e.1))
}

/// The present keys in ascending slot order.
pub open spec fn key_seq<K: Key, V>(slots: Seq<Option<V>>) -> Seq<K> {
    entries::<K, V>(slots).map_values(|e: (K, V)| e.0)
}

/// The present values in ascending slot order, by reference.
pub open spec fn value_refs<'a, K: Key, V>(slots: Seq<Option<V>>) -> Seq<&'a V> {
    entries::<K, V>(slots).map_values(|e: (K, V)| &e.1)
}

/// The associations as a map from the keys of the domain to values.
pub open spec fn as_map<K: Key, V>(slots: Seq<Option<V>>) -> Map<K, V> {
    Map::new(
        |k: K| k.slot() < slots.len() && slots[k.slot() as int] is Some,
        |k: K| slots[k.slot() as int]->0,
    )
}

/// The slots after inserting each pair of `items` in turn, starting from
/// `slots`.
pub open spec fn insert_all<K: Key, V>(slots: Seq<Option<V>>, items: Seq<(K, V)>) -> Seq<Option<V>>
    decreases items.len(),
{
    if items.len() == 0 {
        slots
    } else {
        insert_all(slots, items.drop_last()).update(
            items.last().0.slot() as int,
            Some(items.last().1),
        )
    }
}

/// No slot of an empty storage is occupied.
pub proof fn lemma_occupied_vacant<V>(n: nat)
    ensures
        occupied(vacant::<V>(n)) == 0,
    decreases n,
{
    if n > 0 {
        assert(vacant::<V>(n).drop_last() =~= vacant::<V>((n - 1) as nat));
        lemma_occupied_vacant::<V>((n - 1) as nat);
    }
}

/// One more slot adds one to the count when it is occupied.
pub proof fn lemma_occupied_push<V>(slots: Seq<Option<V>>, x: Option<V>)
    ensures
        occupied(slots.push(x)) == occupied(slots) + if x is Some {
            1nat
        } else {
            0nat
        },
{
    assert(slots.push(x).drop_last() =~= slots);
}

/// Writing one slot changes the count by what that slot gains or loses.
pub proof fn lemma_occupied_update<V>(slots: Seq<Option<V>>, i: int, x: Option<V>)
    requires
        0 <= i < slots.len(),
    ensures
        occupied(slots.update(i, x)) + (if slots[i] is Some {
            1nat
        } else {
            0nat
        }) == occupied(slots) + (if x is Some {
            1nat
        } else {
            0nat
        }),
    decreases slots.len(),
{
    let after = slots.update(i, x);
    if i == slots.len() - 1 {
        assert(after.drop_last() =~= slots.drop_last());
    } else {
        assert(after.drop_last() =~= slots.drop_last().update(i, x));
        lemma_occupied_update(slots.drop_last(), i, x);
    }
}

/// No slot is occupied exactly when the count is zero.
pub proof fn lemma_occupied_zero<V>(slots: Seq<Option<V>>)
    ensures
        occupied(slots) == 0 <==> forall|i: int| 0 <= i < slots.len() ==> slots[i] is None,
    decreases slots.len(),
{
    if slots.len() > 0 {
        lemma_occupied_zero(slots.drop_last());
        if occupied(slots) == 0 {
            assert forall|i: int| 0 <= i < slots.len() implies slots[i] is None by {
                if i < slots.len() - 1 {
                    assert(slots.drop_last()[i] is None);
                }
            }
        } else if forall|i: int| 0 <= i < slots.len() ==> slots[i] is None {
            assert forall|i: int| 0 <= i < slots.drop_last().len() implies slots.drop_last()[i] is None by {
                assert(slots[i] is None);
            }
        }
    }
}

/// One more slot adds its association at the end of the listing when it is
/// occupied.
pub proof fn lemma_entries_push<K: Key, V>(slots: Seq<Option<V>>, x: Option<V>)
    ensures
        entries::<K, V>(slots.push(x)) == match x {
            Some(v) => entries::<K, V>(slots).push((K::key_at(slots.len()), v)),
            None => entries::<K, V>(slots),
        },
{
    assert(slots.push(x).drop_last() =~= slots);
}

/// The listing has one association per occupied slot.
pub proof fn lemma_entries_len<K: Key, V>(slots: Seq<Option<V>>)
    ensures
        entries::<K, V>(slots).len() == occupied(slots),
    decreases slots.len(),
{
    if slots.len() > 0 {
        lemma_entries_len::<K, V>(slots.drop_last());
    }
}

/// Two key shapes that agree on the first `slots.len()` positions up to a
/// renaming `f` list the same associations, renamed.
pub proof fn lemma_entries_rekey<K1: Key, K2: Key, V>(slots: Seq<Option<V>>, f: spec_fn(K1) -> K2)
    requires
        forall|i: nat| i < slots.len() ==> K2::key_at(i) == f(#[trigger] K1::key_at(i)),
    ensures
        entries::<K2, V>(slots) == entries::<K1, V>(slots).map_values(|e: (K1, V)| (f(e.0), e.1)),
    decreases slots.len(),
{
    let g = |e: (K1, V)| (f(e.0), e.1);
    if slots.len() > 0 {
        lemma_entries_rekey::<K1, K2, V>(slots.drop_last(), f);
        let i = (slots.len() - 1) as nat;
        assert(K2::key_at(i) == f(K1::key_at(i)));
        assert(entries::<K2, V>(slots) =~= entries::<K1, V>(slots).map_values(g));
    } else {
        assert(entries::<K2, V>(slots) =~= entries::<K1, V>(slots).map_values(g));
    }
}

/// Saturating addition of a flag to a saturated count is the saturated sum.
pub proof fn lemma_saturate_add(n: nat, m: nat)
    ensures
        saturate(n + m) == if saturate(n) + saturate(m) <= usize::MAX {
            (saturate(n) + saturate(m)) as usize
        } else {
            usize::MAX
        },
{
}

/// No key is associated in a storage whose slots are all absent.
pub proof fn lemma_as_map_vacant<K: Key, V>()
    ensures
        as_map::<K, V>(vacant::<V>(K::shape_len())) == Map::<K, V>::empty(),
{
    assert(as_map::<K, V>(vacant::<V>(K::shape_len())) =~= Map::<K, V>::empty());
}

/// Writing a value into the slot of `key` associates `key` with it and
/// leaves every other key as it was.
pub proof fn lemma_as_map_insert<K: Key, V>(slots: Seq<Option<V>>, key: K, value: V)
    requires
        slots.len() == K::shape_len(),
        key.slot() < K::shape_len(),
    ensures
        as_map::<K, V>(slots.update(key.slot() as int, Some(value))) == as_map::<K, V>(
            slots,
        ).insert(key, value),
{
    let after = slots.update(key.slot() as int, Some(value));
    assert forall|k: K|
        #![trigger as_map::<K, V>(after).contains_key(k)]
        #![trigger as_map::<K, V>(slots).insert(key, value).contains_key(k)]
        as_map::<K, V>(after).contains_key(k) == as_map::<K, V>(slots).insert(
            key,
            value,
        ).contains_key(k) && (as_map::<K, V>(after).contains_key(k) ==> as_map::<K, V>(after)[k]
            == as_map::<K, V>(slots).insert(key, value)[k]) by {
        if k.slot() == key.slot() {
            lemma_slot_injective(k, key);
        }
    }
    assert(as_map::<K, V>(after) =~= as_map::<K, V>(slots).insert(key, value));
}

/// Emptying the slot of `key` removes `key` and leaves every other key as it
/// was.
pub proof fn lemma_as_map_remove<K: Key, V>(slots: Seq<Option<V>>, key: K)
    requires
        slots.len() == K::shape_len(),
        key.slot() < K::shape_len(),
    ensures
        as_map::<K, V>(slots.update(key.slot() as int, None)) == as_map::<K, V>(slots).remove(key),
{
    let after = slots.update(key.slot() as int, None);
    assert forall|k: K|
        #![trigger as_map::<K, V>(after).contains_key(k)]
        #![trigger as_map::<K, V>(slots).remove(key).contains_key(k)]
        as_map::<K, V>(after).contains_key(k) == as_map::<K, V>(slots).remove(key).contains_key(k)
            && (as_map::<K, V>(after).contains_key(k) ==> as_map::<K, V>(after)[k] == as_map::<
            K,
            V,
        >(slots).remove(key)[k]) by {
        if k.slot() == key.slot() {
            lemma_slot_injective(k, key);
        }
    }
    assert(as_map::<K, V>(after) =~= as_map::<K, V>(slots).remove(key));
}

/// A set storage is modelled by one presence flag per slot. Seen as slots
/// that hold the unit value, the flags are a map storage without values.
pub open spec fn marks(members: Seq<bool>) -> Seq<Option<()>> {
    members.map_values(
        |present: bool|
            if present {
                Some(())
            } else {
                None
            },
    )
}

/// `n` flags, none of them set.
pub open spec fn none_present(n: nat) -> Seq<bool> {
    Seq::new(n, |i: int| false)
}

/// Number of flags that are set.
pub open spec fn present(members: Seq<bool>) -> nat {
    occupied(marks(members))
}

/// The present keys in ascending slot order.
pub open spec fn member_keys<K: Key>(members: Seq<bool>) -> Seq<K> {
    key_seq::<K, ()>(marks(members))
}

/// The present keys of the domain as a set.
pub open spec fn as_set<K: Key>(members: Seq<bool>) -> Set<K> {
    Set::new(|k: K| k.slot() < members.len() && members[k.slot() as int])
}

/// No key is present when no flag is set.
pub proof fn lemma_present_none(n: nat)
    ensures
        present(none_present(n)) == 0,
{
    assert(marks(none_present(n)) =~= vacant::<()>(n));
    lemma_occupied_vacant::<()>(n);
}

/// One more flag adds one to the count when it is set.
pub proof fn lemma_present_push(members: Seq<bool>, flag: bool)
    ensures
        present(members.push(flag)) == present(members) + if flag {
            1nat
        } else {
            0nat
        },
{
    let mark = if flag {
        Some(())
    } else {
        None
    };
    assert(marks(members.push(flag)) =~= marks(members).push(mark));
    lemma_occupied_push(marks(members), mark);
}

/// No flag is set exactly when the count is zero.
pub proof fn lemma_present_zero(members: Seq<bool>)
    ensures
        present(members) == 0 <==> forall|i: int| 0 <= i < members.len() ==> !members[i],
{
    lemma_occupied_zero(marks(members));
    if present(members) == 0 {
        assert forall|i: int| 0 <= i < members.len() implies !members[i] by {
            assert(marks(members)[i] is None);
        }
    }
}

/// Writing one flag changes the count by what that flag gains or loses.
pub proof fn lemma_present_update(members: Seq<bool>, i: int, flag: bool)
    requires
        0 <= i < members.len(),
    ensures
        present(members.update(i, flag)) + (if members[i] {
            1nat
        } else {
            0nat
        }) == present(members) + (if flag {
            1nat
        } else {
            0nat
        }),
{
    let mark = if flag {
        Some(())
    } else {
        None
    };
    assert(marks(members.update(i, flag)) =~= marks(members).update(i, mark));
    lemma_occupied_update(marks(members), i, mark);
}

/// One more flag adds its key at the end of the listing when it is set.
pub proof fn lemma_member_keys_push<K: Key>(members: Seq<bool>, flag: bool)
    ensures
        member_keys::<K>(members.push(flag)) == if flag {
            member_keys::<K>(members).push(K::key_at(members.len()))
        } else {
            member_keys::<K>(members)
        },
{
    let mark = if flag {
        Some(())
    } else {
        None
    };
    assert(marks(members.push(flag)) =~= marks(members).push(mark));
    lemma_entries_push::<K, ()>(marks(members), mark);
    assert(member_keys::<K>(members.push(flag)) =~= if flag {
        member_keys::<K>(members).push(K::key_at(members.len()))
    } else {
        member_keys::<K>(members)
    });
}

/// Setting the flag of `key` adds `key` and leaves every other key as it
/// was.
pub proof fn lemma_as_set_insert<K: Key>(members: Seq<bool>, key: K)
    requires
        members.len() == K::shape_len(),
        key.slot() < K::shape_len(),
    ensures
        as_set::<K>(members.update(key.slot() as int, true)) == as_set::<K>(members).insert(key),
{
    let after = members.update(key.slot() as int, true);
    assert forall|k: K|
        #![trigger as_set::<K>(after).contains(k)]
        #![trigger as_set::<K>(members).insert(key).contains(k)]
        as_set::<K>(after).contains(k) == as_set::<K>(members).insert(key).contains(k) by {
        if k.slot() == key.slot() {
            lemma_slot_injective(k, key);
        }
    }
    assert(as_set::<K>(after) =~= as_set::<K>(members).insert(key));
}

/// Clearing the flag of `key` removes `key` and leaves every other key as
/// it was.
pub proof fn lemma_as_set_remove<K: Key>(members: Seq<bool>, key: K)
    requires
        members.len() == K::shape_len(),
        key.slot() < K::shape_len(),
    ensures
        as_set::<K>(members.update(key.slot() as int, false)) == as_set::<K>(members).remove(key),
{
    let after = members.update(key.slot() as int, false);
    assert forall|k: K|
        #![trigger as_set::<K>(after).contains(k)]
        #![trigger as_set::<K>(members).remove(key).contains(k)]
        as_set::<K>(after).contains(k) == as_set::<K>(members).remove(key).contains(k) by {
        if k.slot() == key.slot() {
            lemma_slot_injective(k, key);
        }
    }
    assert(as_set::<K>(after) =~= as_set::<K>(members).remove(key));
}

/// The count of two runs of slots laid end to end is the sum of their
/// counts.
pub proof fn lemma_occupied_concat<V>(front: Seq<Option<V>>, back: Seq<Option<V>>)
    ensures
        occupied(front + back) == occupied(front) + occupied(back),
    decreases back.len(),
{
    if back.len() == 0 {
        assert(front + back =~= front);
    } else {
        assert((front + back).drop_last() =~= front + back.drop_last());
        lemma_occupied_concat(front, back.drop_last());
    }
}

/// Appending one row of inner slots to whole rows of a composite shape
/// lists, after what was listed before, the associations of the row under
/// the outer key of that row.
pub proof fn lemma_entries_row<A: Key, B: Key, V>(
    rows: Seq<Option<V>>,
    row: Seq<Option<V>>,
    outer: nat,
)
    requires
        rows.len() == outer * B::shape_len(),
        row.len() <= B::shape_len(),
    ensures
        entries::<Composite<A, B>, V>(rows + row) == entries::<Composite<A, B>, V>(rows)
            + entries::<B, V>(row).map_values(
            |e: (B, V)| (Composite { outer: A::key_at(outer), inner: e.0 }, e.1),
        ),
    decreases row.len(),
{
    let lift = |e: (B, V)| (Composite { outer: A::key_at(outer), inner: e.0 }, e.1);
    if row.len() == 0 {
        assert(rows + row =~= rows);
        assert(entries::<Composite<A, B>, V>(rows) + entries::<B, V>(row).map_values(lift)
            =~= entries::<Composite<A, B>, V>(rows));
    } else {
        let init = row.drop_last();
        let j = init.len();
        lemma_entries_row::<A, B, V>(rows, init, outer);
        assert(rows + row =~= (rows + init).push(row.last()));
        lemma_entries_push::<Composite<A, B>, V>(rows + init, row.last());
        lemma_join(outer, j, A::shape_len(), B::shape_len());
        assert(Composite::<A, B>::key_at((rows + init).len()) == Composite {
            outer: A::key_at(outer),
            inner: B::key_at(j),
        });
        assert(entries::<Composite<A, B>, V>(rows + row) =~= entries::<Composite<A, B>, V>(rows)
            + entries::<B, V>(row).map_values(lift));
    }
}

/// The keys of a map storage are finitely many, as many as there are
/// occupied slots.
pub proof fn lemma_as_map_len<K: Key, V>(slots: Seq<Option<V>>)
    requires
        slots.len() <= K::shape_len(),
    ensures
        as_map::<K, V>(slots).dom().finite(),
        as_map::<K, V>(slots).len() == occupied(slots),
    decreases slots.len(),
{
    if slots.len() == 0 {
        assert(as_map::<K, V>(slots).dom() =~= Set::<K>::empty());
    } else {
        let init = slots.drop_last();
        let last = (slots.len() - 1) as nat;
        lemma_as_map_len::<K, V>(init);
        K::lemma_key_at(last);
        let dom = as_map::<K, V>(slots).dom();
        let before = as_map::<K, V>(init).dom();
        if slots.last() is Some {
            assert forall|k: K| dom.contains(k) == before.insert(K::key_at(last)).contains(k) by {
                if k.slot() == last {
                    k.lemma_slot();
                }
            }
            assert(dom =~= before.insert(K::key_at(last)));
            assert(!before.contains(K::key_at(last)));
        } else {
            assert(dom =~= before);
        }
    }
}

/// The keys of a set storage are finitely many, as many as there are flags
/// set.
pub proof fn lemma_as_set_len<K: Key>(members: Seq<bool>)
    requires
        members.len() <= K::shape_len(),
    ensures
        as_set::<K>(members).finite(),
        as_set::<K>(members).len() == present(members),
{
    lemma_as_map_len::<K, ()>(marks(members));
    assert(as_set::<K>(members) =~= as_map::<K, ()>(marks(members)).dom());
}

} // verus!

use fixed_map::{Entry, FixedMap, Ordinal};

type Key = Option<Ordinal<3>>;

fn at(i: usize) -> Key {
    Some(Ordinal::new(i).unwrap())
}

fn all_keys() -> Vec<Key> {
    vec![at(0), at(1), at(2), None]
}

#[test]
fn keys_never_inserted_are_absent() {
    let mut map: FixedMap<Key, u32> = FixedMap::new();
    for k in all_keys() {
        assert_eq!(map.get(k), None);
        assert!(!map.contains_key(k));
    }
    map.insert(at(1), 5);
    map.insert(None, 6);
    assert_eq!(map.get(at(0)), None);
    assert_eq!(map.get(at(2)), None);
    assert!(!map.contains_key(at(0)));
    assert!(!map.contains_key(at(2)));
}

#[test]
fn insert_then_get_and_len() {
    let mut map: FixedMap<Key, u32> = FixedMap::new();
    let mut expected = 0;
    for k in all_keys() {
        assert_eq!(map.insert(k, 1), None);
        expected += 1;
        assert_eq!(map.len(), expected);
        assert_eq!(map.get(k), Some(&1));
        assert_eq!(map.insert(k, 2), Some(1));
        assert_eq!(map.len(), expected);
        assert_eq!(map.get(k), Some(&2));
    }
}

#[test]
fn remove_after_insert() {
    let mut map: FixedMap<Key, u32> = FixedMap::new();
    map.insert(None, 1);
    for k in all_keys() {
        map.insert(k, 7);
        let len = map.len();
        assert_eq!(map.remove(k), Some(7));
        assert_eq!(map.get(k), None);
        assert_eq!(map.len(), len - 1);
        assert_eq!(map.remove(k), None);
        assert_eq!(map.len(), len - 1);
    }
    assert!(map.is_empty());
}

#[test]
fn clear_empties_the_map() {
    let mut map: FixedMap<Key, u32> = FixedMap::new();
    for k in all_keys() {
        map.insert(k, 3);
    }
    assert_eq!(map.len(), 4);
    map.clear();
    assert_eq!(map.len(), 0);
    assert!(map.is_empty());
    for k in all_keys() {
        assert_eq!(map.get(k), None);
    }
}

#[test]
fn iteration_is_stable_and_reversible() {
    let mut map: FixedMap<Key, u32> = FixedMap::new();
    map.insert(None, 4);
    map.insert(at(2), 3);
    map.insert(at(0), 1);
    let first = map.iter().collect();
    let second = map.iter().collect();
    assert_eq!(first, vec![(at(0), &1), (at(2), &3), (None, &4)]);
    assert_eq!(first, second);
    let mut reversed = map.iter().rev().collect();
    reversed.reverse();
    assert_eq!(reversed, first);
    let mut backwards = Vec::new();
    let mut it = map.iter();
    while let Some(e) = it.next_back() {
        backwards.push(e);
    }
    assert_eq!(backwards, vec![(None, &4), (at(2), &3), (at(0), &1)]);
}

#[test]
fn entry_or_insert_on_a_vacant_key_is_insert_then_get() {
    let mut by_entry: FixedMap<Key, u32> = FixedMap::new();
    let mut by_insert: FixedMap<Key, u32> = FixedMap::new();
    for k in all_keys() {
        let through_entry = *by_entry.entry(k).or_insert(5);
        by_insert.insert(k, 5);
        assert_eq!(Some(&through_entry), by_insert.get(k));
    }
    assert_eq!(by_entry.iter().collect(), by_insert.iter().collect());
    assert_eq!(by_entry.len(), by_insert.len());
}

#[test]
fn entry_or_insert_on_an_occupied_key_keeps_the_value() {
    let mut map: FixedMap<Key, u32> = FixedMap::new();
    map.insert(at(1), 1);
    *map.entry(at(1)).or_insert(9) += 1;
    assert_eq!(map.get(at(1)), Some(&2));
    assert_eq!(map.entry(at(1)).key(), at(1));
    assert!(matches!(map.entry(at(1)), Entry::Occupied(_)));
    assert!(matches!(map.entry(at(0)), Entry::Vacant(_)));
    assert_eq!(map.len(), 1);
}

#[test]
fn get_or_insert_looks_up_once() {
    let mut map: FixedMap<Key, u32> = FixedMap::new();
    assert_eq!(*map.get_or_insert(None, 3), 3);
    assert_eq!(*map.get_or_insert(None, 4), 3);
    *map.get_or_insert(at(2), 1) += 10;
    assert_eq!(map.iter().collect(), vec![(at(2), &11), (None, &3)]);
}

#[test]
fn round_trip_through_the_entry_sequence() {
    let mut map: FixedMap<Key, u32> = FixedMap::new();
    map.insert(None, 4);
    map.insert(at(1), 2);
    map.insert(at(0), 1);
    let listed: Vec<(Key, u32)> = map.iter().collect().into_iter().map(|(k, v)| (k, *v)).collect();
    let rebuilt = FixedMap::from_entries(map.into_iter());
    let relisted: Vec<(Key, u32)> =
        rebuilt.iter().collect().into_iter().map(|(k, v)| (k, *v)).collect();
    assert_eq!(listed, vec![(at(0), 1), (at(1), 2), (None, 4)]);
    assert_eq!(relisted, listed);
}

#[test]
fn from_entries_lets_later_pairs_win() {
    let map: FixedMap<bool, u32> =
        FixedMap::from_entries(vec![(false, 1), (true, 2), (false, 3)]);
    assert_eq!(map.iter().collect(), vec![(true, &2), (false, &3)]);
    let empty: FixedMap<bool, u32> = FixedMap::from_entries(vec![]);
    assert!(empty.is_empty());
}

#[test]
fn map_retain_and_visitors() {
    let mut map: FixedMap<Key, u32> = FixedMap::new();
    for (i, k) in all_keys().into_iter().enumerate() {
        map.insert(k, i as u32);
    }
    map.iter_mut(|k, v| {
        if k.is_none() {
            *v = 100;
        }
    });
    map.values_mut(|v| *v += 1);
    map.retain(|_, v| *v % 2 == 1);
    assert_eq!(map.iter().collect(), vec![(at(0), &1), (at(2), &3), (None, &101)]);
    assert_eq!(map.keys().collect(), vec![at(0), at(2), None]);
    assert_eq!(map.values().collect(), vec![&1, &3, &101]);
    *map.get_mut(at(0)).unwrap() = 0;
    assert_eq!(map.get(at(0)), Some(&0));
    assert!(map.get_mut(at(1)).is_none());
}

#[test]
fn values_need_no_capabilities() {
    struct Opaque(u8);
    let mut map: FixedMap<bool, Opaque> = FixedMap::new();
    assert!(map.insert(true, Opaque(1)).is_none());
    assert_eq!(map.insert(true, Opaque(2)).map(|o| o.0), Some(1));
    assert_eq!(map.get(true).map(|o| o.0), Some(2));
    assert_eq!(map.remove(true).map(|o| o.0), Some(2));
    assert!(map.is_empty());
}

#[test]
fn map_clone_and_equality() {
    let mut map: FixedMap<Option<bool>, u32> = FixedMap::new();
    map.insert(None, 1);
    let mut copy = map.clone();
    assert!(copy == map);
    copy.insert(Some(true), 2);
    assert!(copy != map);
    assert_eq!(map.len(), 1);
    assert_eq!(copy.len(), 2);
}

#[test]
fn length_counts_present_keys_exactly() {
    let mut map: FixedMap<Ordinal<5>, u8> = FixedMap::new();
    assert_eq!(map.len(), 0);
    for i in 0..5 {
        map.insert(Ordinal::new(i).unwrap(), 0);
        assert_eq!(map.len(), i + 1);
        assert!(!map.is_empty());
    }
    for i in 0..5 {
        map.remove(Ordinal::new(i).unwrap());
        assert_eq!(map.len(), 4 - i);
    }
    assert!(map.is_empty());
}

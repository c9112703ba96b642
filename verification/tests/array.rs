use fixed_map::{ArrayMapStorage, Entry, MapStorage, Ordinal, PlainKey, Unit, UnitMapStorage};

type Three = Ordinal<3>;

fn at(i: usize) -> Three {
    Ordinal::new(i).unwrap()
}

fn filled() -> ArrayMapStorage<Three, u32, 3> {
    let mut s = ArrayMapStorage::empty();
    s.insert(at(2), 30);
    s.insert(at(0), 10);
    s
}

#[test]
fn ordinal_rejects_positions_outside_the_domain() {
    assert!(Ordinal::<3>::new(0).is_some());
    assert!(Ordinal::<3>::new(2).is_some());
    assert!(Ordinal::<3>::new(3).is_none());
    assert!(Ordinal::<3>::new(usize::MAX).is_none());
    assert!(Ordinal::<0>::new(0).is_none());
    assert_eq!(at(1).get(), 1);
}

#[test]
fn ordinal_index_round_trip() {
    for i in 0..3 {
        assert_eq!(at(i).index(), i);
        assert_eq!(Three::from_index(i), Some(at(i)));
    }
    assert_eq!(Three::from_index(3), None);
}

#[test]
fn boolean_index_round_trip() {
    assert_eq!(true.index(), 0);
    assert_eq!(false.index(), 1);
    assert_eq!(<bool as PlainKey<2>>::from_index(0), Some(true));
    assert_eq!(<bool as PlainKey<2>>::from_index(1), Some(false));
    assert_eq!(<bool as PlainKey<2>>::from_index(2), None);
}

#[test]
fn array_empty_has_every_slot_absent() {
    let s: ArrayMapStorage<Three, u32, 3> = ArrayMapStorage::empty();
    assert_eq!(s.len(), 0);
    assert!(s.is_empty());
    for i in 0..3 {
        assert_eq!(s.get(at(i)), None);
        assert!(!s.contains_key(at(i)));
    }
    assert_eq!(s.iter().collect(), vec![]);
}

#[test]
fn array_insert_get_remove() {
    let mut s = filled();
    assert_eq!(s.len(), 2);
    assert!(!s.is_empty());
    assert_eq!(s.get(at(0)), Some(&10));
    assert_eq!(s.get(at(1)), None);
    assert_eq!(s.get(at(2)), Some(&30));
    assert_eq!(s.insert(at(2), 31), Some(30));
    assert_eq!(s.len(), 2);
    *s.get_mut(at(0)).unwrap() += 1;
    assert!(s.get_mut(at(1)).is_none());
    assert_eq!(s.remove(at(0)), Some(11));
    assert_eq!(s.remove(at(0)), None);
    assert_eq!(s.len(), 1);
    assert_eq!(s.iter().collect(), vec![(at(2), &31)]);
}

#[test]
fn array_iterates_in_ascending_index_order() {
    let s = filled();
    assert_eq!(s.iter().collect(), vec![(at(0), &10), (at(2), &30)]);
    assert_eq!(s.keys().collect(), vec![at(0), at(2)]);
    assert_eq!(s.values().collect(), vec![&10, &30]);
    assert_eq!(s.iter().rev().collect(), vec![(at(2), &30), (at(0), &10)]);
    assert_eq!(s.into_iter(), vec![(at(0), 10), (at(2), 30)]);
}

#[test]
fn array_retain_and_visitors() {
    let mut s = filled();
    s.insert(at(1), 20);
    s.iter_mut(|k, v| *v += k.get() as u32);
    assert_eq!(s.values().collect(), vec![&10, &21, &32]);
    s.values_mut(|v| *v += 1);
    s.retain(|k, v| {
        *v *= 2;
        k.get() != 1
    });
    assert_eq!(s.iter().collect(), vec![(at(0), &22), (at(2), &66)]);
    s.clear();
    assert!(s.is_empty());
    assert_eq!(s.get(at(0)), None);
}

#[test]
fn array_entry() {
    let mut s = filled();
    match s.entry(at(1)) {
        Entry::Vacant(v) => {
            assert_eq!(v.key(), at(1));
            v.insert(20);
        }
        Entry::Occupied(_) => panic!("slot 1 is empty"),
    }
    match s.entry(at(2)) {
        Entry::Occupied(o) => {
            assert_eq!(o.key(), at(2));
            assert_eq!(o.remove(), 30);
        }
        Entry::Vacant(_) => panic!("slot 2 holds a value"),
    }
    assert_eq!(s.iter().collect(), vec![(at(0), &10), (at(1), &20)]);
}

#[test]
fn unit_storage_has_one_slot() {
    let mut s: UnitMapStorage<u32> = UnitMapStorage::empty();
    assert!(s.is_empty());
    assert_eq!(s.get(Unit), None);
    assert_eq!(s.insert(Unit, 1), None);
    assert_eq!(s.insert(Unit, 2), Some(1));
    assert_eq!(s.len(), 1);
    assert!(s.contains_key(Unit));
    *s.get_mut(Unit).unwrap() += 1;
    assert_eq!(s.iter().collect(), vec![(Unit, &3)]);
    assert_eq!(s.keys().collect(), vec![Unit]);
    assert_eq!(s.values().collect(), vec![&3]);
    s.iter_mut(|_, v| *v += 1);
    s.values_mut(|v| *v += 1);
    s.retain(|_, v| *v == 5);
    assert_eq!(s.get(Unit), Some(&5));
    match s.entry(Unit) {
        Entry::Occupied(o) => assert_eq!(o.remove(), 5),
        Entry::Vacant(_) => panic!("the slot holds a value"),
    }
    assert!(s.is_empty());
    s.insert(Unit, 7);
    s.retain(|_, _| false);
    assert_eq!(s.remove(Unit), None);
    s.insert(Unit, 8);
    assert_eq!(s.into_iter(), vec![(Unit, 8)]);
}

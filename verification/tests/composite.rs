use fixed_map::{Composite, CompositeStorage, Entry, FixedMap, MapStorage, Ordinal};

type Key = Composite<Ordinal<3>, bool>;

fn key(outer: usize, inner: bool) -> Key {
    Composite { outer: Ordinal::new(outer).unwrap(), inner }
}

fn all_keys() -> Vec<Key> {
    vec![
        key(0, true),
        key(0, false),
        key(1, true),
        key(1, false),
        key(2, true),
        key(2, false),
    ]
}

fn filled() -> CompositeStorage<Ordinal<3>, bool, u32, 3> {
    let mut s = CompositeStorage::empty();
    s.insert(key(2, true), 20);
    s.insert(key(0, false), 1);
    s.insert(key(2, false), 21);
    s
}

#[test]
fn composite_empty_has_no_key() {
    let s: CompositeStorage<Ordinal<3>, bool, u32, 3> = CompositeStorage::empty();
    assert_eq!(s.len(), 0);
    assert!(s.is_empty());
    for k in all_keys() {
        assert_eq!(s.get(k), None);
        assert!(!s.contains_key(k));
    }
    assert_eq!(s.iter().collect(), vec![]);
}

#[test]
fn composite_branches_are_independent() {
    let mut s = filled();
    assert_eq!(s.len(), 3);
    assert!(!s.is_empty());
    assert_eq!(s.get(key(0, false)), Some(&1));
    assert_eq!(s.get(key(0, true)), None);
    assert_eq!(s.get(key(1, true)), None);
    assert_eq!(s.get(key(1, false)), None);
    assert_eq!(s.get(key(2, true)), Some(&20));
    assert_eq!(s.get(key(2, false)), Some(&21));
    assert_eq!(s.insert(key(1, false), 11), None);
    assert_eq!(s.insert(key(1, false), 12), Some(11));
    assert_eq!(s.get(key(0, false)), Some(&1));
    assert_eq!(s.get(key(2, false)), Some(&21));
    assert_eq!(s.len(), 4);
    *s.get_mut(key(2, true)).unwrap() += 100;
    assert!(s.get_mut(key(1, true)).is_none());
    assert_eq!(s.remove(key(2, true)), Some(120));
    assert_eq!(s.remove(key(2, true)), None);
    assert_eq!(s.len(), 3);
    assert!(s.contains_key(key(1, false)));
}

#[test]
fn composite_iterates_outer_major() {
    let s = filled();
    assert_eq!(
        s.iter().collect(),
        vec![(key(0, false), &1), (key(2, true), &20), (key(2, false), &21)]
    );
    assert_eq!(
        s.iter().rev().collect(),
        vec![(key(2, false), &21), (key(2, true), &20), (key(0, false), &1)]
    );
    assert_eq!(
        s.keys().collect(),
        vec![key(0, false), key(2, true), key(2, false)]
    );
    assert_eq!(s.values().collect(), vec![&1, &20, &21]);
    assert_eq!(
        s.into_iter(),
        vec![(key(0, false), 1), (key(2, true), 20), (key(2, false), 21)]
    );
}

#[test]
fn composite_retain_and_visitors() {
    let mut s = filled();
    s.iter_mut(|k, v| *v += 1000 * k.outer.get() as u32);
    assert_eq!(s.values().collect(), vec![&1, &2020, &2021]);
    s.values_mut(|v| *v += 1);
    s.retain(|k, v| {
        *v += 1;
        k.inner
    });
    assert_eq!(s.iter().collect(), vec![(key(2, true), &2022)]);
    s.clear();
    assert!(s.is_empty());
    assert_eq!(s.get(key(2, true)), None);
}

#[test]
fn composite_entry() {
    let mut s = filled();
    match s.entry(key(1, true)) {
        Entry::Vacant(v) => {
            assert_eq!(v.key(), key(1, true));
            v.insert(10);
        }
        Entry::Occupied(_) => panic!("the slot is empty"),
    }
    match s.entry(key(2, false)) {
        Entry::Occupied(mut o) => {
            assert_eq!(o.key(), key(2, false));
            assert_eq!(o.insert(5), 21);
        }
        Entry::Vacant(_) => panic!("the slot holds a value"),
    }
    assert_eq!(
        s.iter().collect(),
        vec![
            (key(0, false), &1),
            (key(1, true), &10),
            (key(2, true), &20),
            (key(2, false), &5)
        ]
    );
}

#[test]
fn composite_map_with_boolean_outer_key() {
    let mut map: FixedMap<Composite<bool, Option<bool>>, u32> = FixedMap::new();
    map.insert(Composite { outer: false, inner: None }, 4);
    map.insert(Composite { outer: true, inner: Some(false) }, 1);
    map.insert(Composite { outer: false, inner: Some(true) }, 3);
    map.insert(Composite { outer: true, inner: None }, 2);
    assert_eq!(map.len(), 4);
    assert_eq!(
        map.iter().collect(),
        vec![
            (Composite { outer: true, inner: Some(false) }, &1),
            (Composite { outer: true, inner: None }, &2),
            (Composite { outer: false, inner: Some(true) }, &3),
            (Composite { outer: false, inner: None }, &4)
        ]
    );
    assert_eq!(map.get(Composite { outer: true, inner: Some(true) }), None);
}

#[test]
fn composite_of_composites() {
    type Deep = Composite<Ordinal<2>, Composite<bool, Ordinal<2>>>;
    let mut map: FixedMap<Deep, u32> = FixedMap::new();
    let at = |a: usize, b: bool, c: usize| Composite {
        outer: Ordinal::new(a).unwrap(),
        inner: Composite { outer: b, inner: Ordinal::new(c).unwrap() },
    };
    map.insert(at(1, false, 1), 7);
    map.insert(at(0, true, 1), 1);
    map.insert(at(1, true, 0), 4);
    assert_eq!(
        map.iter().collect(),
        vec![(at(0, true, 1), &1), (at(1, true, 0), &4), (at(1, false, 1), &7)]
    );
    assert_eq!(map.get(at(0, true, 0)), None);
    assert_eq!(map.remove(at(1, true, 0)), Some(4));
    assert_eq!(map.len(), 2);
}

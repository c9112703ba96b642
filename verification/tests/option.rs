use fixed_map::{Entry, MapStorage, OptionStorage};

fn filled() -> OptionStorage<bool, u32> {
    let mut s = OptionStorage::empty();
    s.insert(None, 9);
    s.insert(Some(false), 2);
    s.insert(Some(true), 1);
    s
}

#[test]
fn option_default_is_empty() {
    let s: OptionStorage<bool, u32> = Default::default();
    assert_eq!(s.len(), 0);
    assert!(s.is_empty());
    assert_eq!(s.get(None), None);
    assert_eq!(s.get(Some(true)), None);
    assert_eq!(s.get(Some(false)), None);
}

#[test]
fn option_insert_routes_by_variant() {
    let mut s: OptionStorage<bool, u32> = OptionStorage::empty();
    assert_eq!(s.insert(None, 9), None);
    assert_eq!(s.get(None), Some(&9));
    assert_eq!(s.get(Some(true)), None);
    assert_eq!(s.insert(Some(true), 1), None);
    assert_eq!(s.insert(Some(true), 5), Some(1));
    assert_eq!(s.insert(None, 8), Some(9));
    assert_eq!(s.get(Some(true)), Some(&5));
    assert_eq!(s.get(Some(false)), None);
    assert_eq!(s.get(None), Some(&8));
    assert_eq!(s.len(), 2);
    assert!(s.contains_key(None));
    assert!(s.contains_key(Some(true)));
    assert!(!s.contains_key(Some(false)));
}

#[test]
fn option_get_mut_and_remove() {
    let mut s = filled();
    *s.get_mut(None).unwrap() += 1;
    *s.get_mut(Some(false)).unwrap() += 1;
    assert_eq!(s.remove(None), Some(10));
    assert_eq!(s.remove(None), None);
    assert_eq!(s.remove(Some(false)), Some(3));
    assert_eq!(s.remove(Some(false)), None);
    assert_eq!(s.len(), 1);
    assert_eq!(s.get(Some(true)), Some(&1));
}

#[test]
fn option_iterates_inner_then_none() {
    let s = filled();
    assert_eq!(
        s.iter().collect(),
        vec![(Some(true), &1), (Some(false), &2), (None, &9)]
    );
    assert_eq!(s.keys().collect(), vec![Some(true), Some(false), None]);
    assert_eq!(s.values().collect(), vec![&1, &2, &9]);
    assert_eq!(
        s.into_iter(),
        vec![(Some(true), 1), (Some(false), 2), (None, 9)]
    );
}

#[test]
fn option_retain_visits_every_key() {
    let mut s = filled();
    s.retain(|k, v| {
        *v *= 2;
        k != Some(false)
    });
    assert_eq!(s.iter().collect(), vec![(Some(true), &2), (None, &18)]);
    s.retain(|k, _| k.is_some());
    assert_eq!(s.iter().collect(), vec![(Some(true), &2)]);
}

#[test]
fn option_iter_mut_and_values_mut() {
    let mut s = filled();
    s.iter_mut(|k, v| {
        if k.is_none() {
            *v = 0;
        }
    });
    s.values_mut(|v| *v += 1);
    assert_eq!(
        s.iter().collect(),
        vec![(Some(true), &2), (Some(false), &3), (None, &1)]
    );
}

#[test]
fn option_clear() {
    let mut s = filled();
    s.clear();
    assert!(s.is_empty());
    assert_eq!(s.iter().collect(), vec![]);
    assert_eq!(s.get(None), None);
    assert_eq!(s.get(Some(true)), None);
}

#[test]
fn option_entry_reaches_the_inner_slot() {
    let mut s: OptionStorage<bool, u32> = OptionStorage::empty();
    match s.entry(Some(false)) {
        Entry::Vacant(v) => {
            assert_eq!(v.key(), Some(false));
            v.insert(4);
        }
        Entry::Occupied(_) => panic!("nothing was inserted"),
    }
    match s.entry(None) {
        Entry::Vacant(v) => {
            assert_eq!(v.key(), None);
            v.insert(6);
        }
        Entry::Occupied(_) => panic!("nothing was inserted"),
    }
    match s.entry(Some(false)) {
        Entry::Occupied(o) => {
            assert_eq!(o.key(), Some(false));
            assert_eq!(o.get(), &4);
            *o.into_mut() += 1;
        }
        Entry::Vacant(_) => panic!("a value was inserted"),
    }
    assert_eq!(s.iter().collect(), vec![(Some(false), &5), (None, &6)]);
}

#[test]
fn nested_options() {
    let mut s: OptionStorage<Option<bool>, u32> = OptionStorage::empty();
    s.insert(None, 3);
    s.insert(Some(None), 2);
    s.insert(Some(Some(false)), 1);
    assert_eq!(s.len(), 3);
    assert_eq!(
        s.iter().collect(),
        vec![(Some(Some(false)), &1), (Some(None), &2), (None, &3)]
    );
    assert_eq!(s.get(Some(Some(true))), None);
}

#[test]
fn option_clone_and_equality() {
    let s = filled();
    let mut copy = s.clone();
    assert!(copy == s);
    copy.insert(None, 0);
    assert!(copy != s);
    assert_eq!(s.get(None), Some(&9));
    copy.insert(None, 9);
    assert!(copy == s);
    copy.remove(Some(true));
    assert!(copy != s);
}

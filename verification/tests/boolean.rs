use fixed_map::{BooleanMapStorage, Entry, KeyIter, MapStorage};

fn storage(t: Option<u32>, f: Option<u32>) -> BooleanMapStorage<u32> {
    let mut s = BooleanMapStorage::empty();
    if let Some(v) = t {
        s.insert(true, v);
    }
    if let Some(v) = f {
        s.insert(false, v);
    }
    s
}

#[test]
fn boolean_empty_has_no_key() {
    let s: BooleanMapStorage<u32> = BooleanMapStorage::empty();
    assert_eq!(s.len(), 0);
    assert!(s.is_empty());
    assert_eq!(s.get(true), None);
    assert_eq!(s.get(false), None);
    assert!(!s.contains_key(true));
    assert!(!s.contains_key(false));
}

#[test]
fn boolean_insert_returns_previous_value() {
    let mut s = BooleanMapStorage::empty();
    assert_eq!(s.insert(false, 1), None);
    assert_eq!(s.len(), 1);
    assert_eq!(s.insert(false, 2), Some(1));
    assert_eq!(s.len(), 1);
    assert_eq!(s.get(false), Some(&2));
    assert_eq!(s.get(true), None);
    assert_eq!(s.insert(true, 3), None);
    assert_eq!(s.len(), 2);
    assert!(!s.is_empty());
}

#[test]
fn boolean_get_mut_writes_the_slot() {
    let mut s = storage(Some(1), None);
    if let Some(v) = s.get_mut(true) {
        *v += 10;
    }
    assert_eq!(s.get(true), Some(&11));
    assert!(s.get_mut(false).is_none());
}

#[test]
fn boolean_remove_empties_the_slot() {
    let mut s = storage(Some(1), Some(2));
    assert_eq!(s.remove(true), Some(1));
    assert_eq!(s.remove(true), None);
    assert_eq!(s.get(true), None);
    assert_eq!(s.get(false), Some(&2));
    assert_eq!(s.len(), 1);
}

#[test]
fn boolean_retain_keeps_what_the_predicate_accepts() {
    let mut s = storage(Some(1), Some(2));
    s.retain(|k, v| {
        *v += 1;
        !k
    });
    assert_eq!(s.get(true), None);
    assert_eq!(s.get(false), Some(&3));
}

#[test]
fn boolean_clear_empties_both_slots() {
    let mut s = storage(Some(1), Some(2));
    s.clear();
    assert_eq!(s.len(), 0);
    assert_eq!(s.get(true), None);
    assert_eq!(s.get(false), None);
}

#[test]
fn boolean_iteration_forms_agree() {
    let s = storage(Some(1), Some(2));
    assert_eq!(s.iter().collect(), vec![(true, &1), (false, &2)]);
    assert_eq!(s.values().collect(), vec![&1, &2]);
    assert_eq!(s.into_iter(), vec![(true, 1), (false, 2)]);
    let only_false = storage(None, Some(2));
    assert_eq!(only_false.iter().collect(), vec![(false, &2)]);
    assert_eq!(only_false.values().collect(), vec![&2]);
    assert_eq!(only_false.into_iter(), vec![(false, 2)]);
}

#[test]
fn boolean_iter_mut_and_values_mut_write_through() {
    let mut s = storage(Some(1), Some(2));
    s.iter_mut(|k, v| {
        if k {
            *v += 10;
        } else {
            *v += 20;
        }
    });
    assert_eq!(s.iter().collect(), vec![(true, &11), (false, &22)]);
    s.values_mut(|v| *v *= 2);
    assert_eq!(s.iter().collect(), vec![(true, &22), (false, &44)]);
}

#[test]
fn keys_run_forward_true_first() {
    let s = storage(Some(1), Some(2));
    let mut keys = s.keys();
    assert_eq!(keys.len(), 2);
    assert_eq!(keys.size_hint(), (2, Some(2)));
    assert_eq!(keys.next(), Some(true));
    assert_eq!(keys.len(), 1);
    assert_eq!(keys.next(), Some(false));
    assert_eq!(keys.len(), 0);
    assert_eq!(keys.next(), None);
    assert_eq!(keys.next_back(), None);
}

#[test]
fn keys_run_backward_false_first() {
    let s = storage(Some(1), Some(2));
    let mut keys = s.keys();
    assert_eq!(keys.next_back(), Some(false));
    assert_eq!(keys.next_back(), Some(true));
    assert_eq!(keys.next_back(), None);
    assert_eq!(keys.next(), None);
}

#[test]
fn keys_meet_in_the_middle() {
    let s = storage(Some(1), Some(2));
    let mut keys = s.keys();
    assert_eq!(keys.next(), Some(true));
    assert_eq!(keys.next_back(), Some(false));
    assert_eq!(keys.next(), None);
}

#[test]
fn keys_of_a_single_key() {
    let s = storage(None, Some(2));
    let mut keys = s.keys();
    assert_eq!(keys.size_hint(), (1, Some(1)));
    assert_eq!(keys.next(), Some(false));
    assert_eq!(keys.next(), None);
    let t = storage(Some(1), None);
    let mut keys = t.keys();
    assert_eq!(keys.next_back(), Some(true));
    assert_eq!(keys.next_back(), None);
}

#[test]
fn keys_clone_is_independent() {
    let s = storage(Some(1), Some(2));
    let mut keys = s.keys();
    let mut copy = keys.clone();
    assert_eq!(keys.next(), Some(true));
    assert_eq!(copy.len(), 2);
    assert_eq!(copy.next(), Some(true));
    assert_eq!(copy.next(), Some(false));
    assert_eq!(keys.len(), 1);
}

#[test]
fn keys_through_the_traversal_trait() {
    fn drain<I: KeyIter<bool>>(mut it: I) -> Vec<bool> {
        let mut out = Vec::new();
        while let Some(k) = it.next_back() {
            out.push(k);
        }
        out
    }
    let s = storage(Some(1), Some(2));
    assert_eq!(drain(s.keys()), vec![false, true]);
}

#[test]
fn boolean_entry_occupied_and_vacant() {
    let mut s = storage(Some(1), None);
    match s.entry(true) {
        Entry::Occupied(mut o) => {
            assert_eq!(o.key(), true);
            assert_eq!(o.get(), &1);
            *o.get_mut() += 1;
            assert_eq!(o.insert(7), 2);
            assert_eq!(o.get(), &7);
        }
        Entry::Vacant(_) => panic!("the slot of true holds a value"),
    }
    assert_eq!(s.get(true), Some(&7));
    match s.entry(false) {
        Entry::Occupied(_) => panic!("the slot of false is empty"),
        Entry::Vacant(v) => {
            assert_eq!(v.key(), false);
            *v.insert(5) += 1;
        }
    }
    assert_eq!(s.get(false), Some(&6));
    match s.entry(false) {
        Entry::Occupied(o) => assert_eq!(o.remove(), 6),
        Entry::Vacant(_) => panic!("the slot of false holds a value"),
    }
    assert_eq!(s.get(false), None);
    assert_eq!(s.len(), 1);
}

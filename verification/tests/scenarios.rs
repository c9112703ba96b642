use fixed_map::{FixedMap, Ordinal};

#[derive(Clone, Copy, Debug, PartialEq, Eq)]
enum Dir {
    North,
    South,
    East,
    West,
}

fn key(d: Dir) -> Ordinal<4> {
    Ordinal::new(d as usize).unwrap()
}

#[test]
fn four_way_enumeration_scenario() {
    let mut map: FixedMap<Ordinal<4>, u32> = FixedMap::new();
    assert_eq!(map.insert(key(Dir::North), 200), None);
    assert_eq!(map.insert(key(Dir::South), 100), None);
    assert_eq!(map.get(key(Dir::North)), Some(&200));
    assert_eq!(map.get(key(Dir::East)), None);
    assert_eq!(map.get(key(Dir::West)), None);
    assert_eq!(map.len(), 2);
    assert_eq!(
        map.iter().collect(),
        vec![(key(Dir::North), &200), (key(Dir::South), &100)]
    );
}

#[test]
fn four_way_enumeration_lists_in_declaration_order_whatever_the_insertion_order() {
    let mut map: FixedMap<Ordinal<4>, u32> = FixedMap::new();
    map.insert(key(Dir::West), 4);
    map.insert(key(Dir::South), 2);
    map.insert(key(Dir::North), 1);
    assert_eq!(
        map.iter().collect(),
        vec![(key(Dir::North), &1), (key(Dir::South), &2), (key(Dir::West), &4)]
    );
    assert_eq!(
        map.keys().collect(),
        vec![key(Dir::North), key(Dir::South), key(Dir::West)]
    );
    assert_eq!(map.values().collect(), vec![&1, &2, &4]);
}

#[test]
fn boolean_scenario_reverse_iteration() {
    let mut map: FixedMap<bool, &str> = FixedMap::new();
    map.insert(true, "t");
    map.insert(false, "f");
    assert_eq!(map.iter().collect(), vec![(true, &"t"), (false, &"f")]);
    assert_eq!(map.iter().rev().collect(), vec![(false, &"f"), (true, &"t")]);
}

#[test]
fn optional_enumeration_scenario() {
    let mut map: FixedMap<Option<Ordinal<4>>, u32> = FixedMap::new();
    assert_eq!(map.insert(None, 9), None);
    assert_eq!(map.get(None), Some(&9));
    assert_eq!(map.get(Some(key(Dir::North))), None);
    assert_eq!(map.len(), 1);
}

#[test]
fn optional_enumeration_lists_inner_keys_before_the_absent_marker() {
    let mut map: FixedMap<Option<Ordinal<4>>, u32> = FixedMap::new();
    map.insert(None, 9);
    map.insert(Some(key(Dir::East)), 3);
    map.insert(Some(key(Dir::North)), 1);
    assert_eq!(
        map.iter().collect(),
        vec![
            (Some(key(Dir::North)), &1),
            (Some(key(Dir::East)), &3),
            (None, &9)
        ]
    );
    assert_eq!(
        map.iter().rev().collect(),
        vec![
            (None, &9),
            (Some(key(Dir::East)), &3),
            (Some(key(Dir::North)), &1)
        ]
    );
}

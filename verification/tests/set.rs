use fixed_map::{
    BitsetStorage, BooleanMapStorage, FixedSet, MapSetStorage, OptionStorage, Ordinal, Word,
};

type Five = Ordinal<5>;

type Bits = FixedSet<Five, BitsetStorage<Five, u8, 5>>;

type Flags = FixedSet<Option<bool>, MapSetStorage<Option<bool>, OptionStorage<bool, ()>>>;

fn at(i: usize) -> Five {
    Ordinal::new(i).unwrap()
}

fn bits(members: &[usize]) -> Bits {
    let mut s = Bits::new();
    for &i in members {
        s.insert(at(i));
    }
    s
}

fn listed(s: &Bits) -> Vec<usize> {
    s.iter().collect().into_iter().map(|k| k.get()).collect()
}

#[test]
fn bitset_insert_contains_remove() {
    let mut s = Bits::new();
    assert!(s.is_empty());
    assert_eq!(s.len(), 0);
    assert!(s.insert(at(3)));
    assert!(!s.insert(at(3)));
    assert!(s.insert(at(0)));
    assert_eq!(s.len(), 2);
    assert!(s.contains(at(0)));
    assert!(!s.contains(at(1)));
    assert!(!s.contains(at(2)));
    assert!(s.contains(at(3)));
    assert!(!s.contains(at(4)));
    assert!(s.remove(at(0)));
    assert!(!s.remove(at(0)));
    assert_eq!(listed(&s), vec![3]);
    assert!(!s.is_empty());
    s.clear();
    assert!(s.is_empty());
    assert!(!s.contains(at(3)));
}

#[test]
fn bitset_iterates_in_ascending_bit_order() {
    let s = bits(&[4, 1, 2]);
    assert_eq!(listed(&s), vec![1, 2, 4]);
    assert_eq!(s.iter().rev().collect(), vec![at(4), at(2), at(1)]);
    assert_eq!(s.len(), 3);
}

#[test]
fn bitset_retain_by_key() {
    let mut s = bits(&[0, 1, 2, 3, 4]);
    s.retain(|k| k.get() % 2 == 0);
    assert_eq!(listed(&s), vec![0, 2, 4]);
    s.retain(|_| false);
    assert!(s.is_empty());
}

#[test]
fn bitset_set_algebra() {
    let a = bits(&[0, 1, 2]);
    let b = bits(&[2, 3]);
    let union = a.union(&b);
    let intersection = a.intersection(&b);
    let difference = a.difference(&b);
    assert_eq!(listed(&union), vec![0, 1, 2, 3]);
    assert_eq!(listed(&intersection), vec![2]);
    assert_eq!(listed(&difference), vec![0, 1]);
    for i in 0..5 {
        let k = at(i);
        assert_eq!(union.contains(k), a.contains(k) || b.contains(k));
        assert_eq!(intersection.contains(k), a.contains(k) && b.contains(k));
        assert_eq!(difference.contains(k), a.contains(k) && !b.contains(k));
    }
    assert_eq!(listed(&a), vec![0, 1, 2]);
    assert_eq!(listed(&b), vec![2, 3]);
}

#[test]
fn bitset_fills_the_whole_word() {
    type Wide = FixedSet<Ordinal<64>, BitsetStorage<Ordinal<64>, u64, 64>>;
    let mut s = Wide::new();
    for i in 0..64 {
        assert!(s.insert(Ordinal::new(i).unwrap()));
    }
    assert_eq!(s.len(), 64);
    assert!(s.contains(Ordinal::new(63).unwrap()));
    assert!(s.remove(Ordinal::new(63).unwrap()));
    assert!(!s.contains(Ordinal::new(63).unwrap()));
    assert!(s.contains(Ordinal::new(62).unwrap()));
    assert_eq!(s.len(), 63);
}

#[test]
fn bitset_in_every_width() {
    let mut narrow: FixedSet<Ordinal<8>, BitsetStorage<Ordinal<8>, u8, 8>> = FixedSet::new();
    let mut short: FixedSet<Ordinal<16>, BitsetStorage<Ordinal<16>, u16, 16>> = FixedSet::new();
    let mut long: FixedSet<Ordinal<32>, BitsetStorage<Ordinal<32>, u32, 32>> = FixedSet::new();
    assert!(narrow.insert(Ordinal::new(7).unwrap()));
    assert!(short.insert(Ordinal::new(15).unwrap()));
    assert!(long.insert(Ordinal::new(31).unwrap()));
    assert!(narrow.contains(Ordinal::new(7).unwrap()));
    assert!(!narrow.contains(Ordinal::new(6).unwrap()));
    assert!(short.contains(Ordinal::new(15).unwrap()));
    assert!(!short.contains(Ordinal::new(0).unwrap()));
    assert!(long.contains(Ordinal::new(31).unwrap()));
    assert_eq!(narrow.len() + short.len() + long.len(), 3);
}

#[test]
fn words_are_bit_packs() {
    assert_eq!(<u8 as Word>::bits(), 8);
    assert_eq!(<u16 as Word>::bits(), 16);
    assert_eq!(<u32 as Word>::bits(), 32);
    assert_eq!(<u64 as Word>::bits(), 64);
    assert_eq!(<u8 as Word>::zero(), 0);
    assert_eq!(0u8.with(7), 0x80);
    assert_eq!(0xffu8.without(0), 0xfe);
    assert!(0x80u8.test(7));
    assert!(!0x80u8.test(6));
    assert_eq!(Word::or(0b0101u16, 0b0011), 0b0111);
    assert_eq!(Word::and(0b0101u32, 0b0011), 0b0001);
    assert_eq!(Word::and_not(0b0101u64, 0b0011), 0b0100);
    assert_eq!(0u64.with(63), 1 << 63);
}

#[test]
fn value_less_storage_as_a_set() {
    let mut s = Flags::new();
    assert!(s.is_empty());
    assert!(s.insert(None));
    assert!(s.insert(Some(false)));
    assert!(!s.insert(None));
    assert_eq!(s.len(), 2);
    assert!(s.contains(None));
    assert!(s.contains(Some(false)));
    assert!(!s.contains(Some(true)));
    assert_eq!(s.iter().collect(), vec![Some(false), None]);
    s.retain(|k| k.is_some());
    assert_eq!(s.iter().collect(), vec![Some(false)]);
    assert!(s.remove(Some(false)));
    assert!(!s.remove(Some(false)));
    assert!(s.is_empty());
    s.insert(Some(true));
    s.clear();
    assert_eq!(s.len(), 0);
}

#[test]
fn boolean_set() {
    let mut s: FixedSet<bool, MapSetStorage<bool, BooleanMapStorage<()>>> = FixedSet::new();
    assert!(s.insert(false));
    assert!(!s.contains(true));
    assert!(s.insert(true));
    assert_eq!(s.iter().collect(), vec![true, false]);
    assert_eq!(s.iter().rev().collect(), vec![false, true]);
}

use fixed_map::{Iter, KeyIter};

#[test]
fn iter_yields_front_to_back() {
    let mut it = Iter::new(vec![1, 2, 3]);
    assert_eq!(it.len(), 3);
    assert_eq!(it.next(), Some(1));
    assert_eq!(it.len(), 2);
    assert_eq!(it.next(), Some(2));
    assert_eq!(it.next(), Some(3));
    assert_eq!(it.next(), None);
    assert_eq!(it.next_back(), None);
    assert_eq!(it.len(), 0);
}

#[test]
fn iter_yields_back_to_front() {
    let mut it = Iter::new(vec![1, 2, 3]);
    assert_eq!(it.next_back(), Some(3));
    assert_eq!(it.next(), Some(1));
    assert_eq!(it.len(), 1);
    assert_eq!(it.next_back(), Some(2));
    assert_eq!(it.next_back(), None);
    assert_eq!(it.next(), None);
}

#[test]
fn iter_collect_and_rev() {
    assert_eq!(Iter::new(vec![1, 2, 3]).collect(), vec![1, 2, 3]);
    assert_eq!(Iter::new(vec![1, 2, 3]).rev().collect(), vec![3, 2, 1]);
    assert_eq!(Iter::new(vec![1, 2, 3]).rev().rev().collect(), vec![1, 2, 3]);
    assert_eq!(Iter::<u8>::new(vec![]).rev().collect(), vec![]);
    let mut partly = Iter::new(vec![1, 2, 3, 4]);
    partly.next();
    partly.next_back();
    assert_eq!(partly.rev().collect(), vec![3, 2]);
}

#[test]
fn iter_is_a_key_traversal() {
    fn count<I: KeyIter<u8>>(mut it: I) -> usize {
        let announced = it.len();
        let mut n = 0;
        while it.next().is_some() {
            n += 1;
        }
        assert_eq!(announced, n);
        n
    }
    assert_eq!(count(Iter::new(vec![5u8, 6, 7])), 3);
}

#[test]
fn iter_clone_restarts_from_the_same_point() {
    let mut it = Iter::new(vec![1, 2, 3]);
    it.next();
    let mut copy = it.clone();
    assert_eq!(it.next(), Some(2));
    assert_eq!(copy.len(), 2);
    assert_eq!(copy.next_back(), Some(3));
    assert_eq!(copy.next(), Some(2));
    assert_eq!(copy.next(), None);
    assert_eq!(it.collect(), vec![3]);
}

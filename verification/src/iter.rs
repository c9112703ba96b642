//! Double-ended traversal.
//!
//! Every iteration form hands out a finite sequence of items that can be
//! consumed from the front and from the back. The items still to come are
//! the model of a traversal in progress.

use vstd::prelude::*;

verus! {

/// A traversal over keys that can be consumed from both ends.
pub trait KeyIter<K>: Sized {
    /// The keys still to come, front first.
    spec fn remaining(&self) -> Seq<K>;

    /// Takes the first remaining key.
    fn next(&mut self) -> (k: Option<K>)
        ensures
            old(self).remaining().len() == 0 ==> k is None && final(self).remaining()
                == old(self).remaining(),
            old(self).remaining().len() > 0 ==> k == Some(old(self).remaining().first())
                && final(self).remaining() == old(self).remaining().drop_first(),
    ;

    /// Takes the last remaining key.
    fn next_back(&mut self) -> (k: Option<K>)
        ensures
            old(self).remaining().len() == 0 ==> k is None && final(self).remaining()
                == old(self).remaining(),
            old(self).remaining().len() > 0 ==> k == Some(old(self).remaining().last())
                && final(self).remaining() == old(self).remaining().drop_last(),
    ;

    /// Number of keys still to come.
    fn len(&self) -> (n: usize)
        ensures
            n == self.remaining().len(),
    ;
}

/// A finite sequence of items consumed from either end.
pub struct Iter<T> {
    items: Vec<T>,
    front: usize,
    back: usize,
}

impl<T> Iter<T> {
    #[verifier::type_invariant]
    spec fn inv(self) -> bool {
        self.front <= self.back <= self.items.len()
    }

    /// The items still to come, front first.
    pub closed spec fn remaining(&self) -> Seq<T> {
        self.items@.subrange(self.front as int, self.back as int)
    }
}

impl<T: Copy> Iter<T> {
    /// A traversal that yields `items` from first to last.
    pub fn new(items: Vec<T>) -> (it: Self)
        ensures
            it.remaining() == items@,
    {
        let back = items.len();
        assert(items@.subrange(0, back as int) =~= items@);
        Iter { items, front: 0, back }
    }

    /// Takes the first remaining item.
    pub fn next(&mut self) -> (item: Option<T>)
        ensures
            old(self).remaining().len() == 0 ==> item is None && final(self).remaining()
                == old(self).remaining(),
            old(self).remaining().len() > 0 ==> item == Some(old(self).remaining().first())
                && final(self).remaining() == old(self).remaining().drop_first(),
    {
        proof {
            use_type_invariant(&*self);
        }
        if self.front < self.back {
            let item = self.items[self.front];
            self.front = self.front + 1;
            assert(self.remaining() =~= old(self).remaining().drop_first());
            Some(item)
        } else {
            None
        }
    }

    /// Takes the last remaining item.
    pub fn next_back(&mut self) -> (item: Option<T>)
        ensures
            old(self).remaining().len() == 0 ==> item is None && final(self).remaining()
                == old(self).remaining(),
            old(self).remaining().len() > 0 ==> item == Some(old(self).remaining().last())
                && final(self).remaining() == old(self).remaining().drop_last(),
    {
        proof {
            use_type_invariant(&*self);
        }
        if self.front < self.back {
            self.back = self.back - 1;
            let item = self.items[self.back];
            assert(self.remaining() =~= old(self).remaining().drop_last());
            Some(item)
        } else {
            None
        }
    }

    /// Number of items still to come.
    pub fn len(&self) -> (n: usize)
        ensures
            n == self.remaining().len(),
    {
        proof {
            use_type_invariant(self);
        }
        self.back - self.front
    }

    /// The same items in the opposite order.
    pub fn rev(self) -> (r: Self)
        ensures
            r.remaining() == self.remaining().reverse(),
    {
        proof {
            use_type_invariant(&self);
        }
        let mut items: Vec<T> = Vec::new();
        let mut i = self.back;
        while i > self.front
            invariant
                self.front <= i <= self.back <= self.items.len(),
                items@.len() == self.back - i,
                forall|j: int|
                    0 <= j < items@.len() ==> items@[j] == self.items@[self.back - 1 - j],
            decreases i,
        {
            i = i - 1;
            items.push(self.items[i]);
        }
        assert(items@ =~= self.remaining().reverse());
        Iter::new(items)
    }

    /// The remaining items, front first.
    pub fn collect(self) -> (items: Vec<T>)
        ensures
            items@ == self.remaining(),
    {
        proof {
            use_type_invariant(&self);
        }
        let mut items: Vec<T> = Vec::new();
        let mut i = self.front;
        while i < self.back
            invariant
                self.front <= i <= self.back <= self.items.len(),
                items@.len() == i - self.front,
                forall|j: int| 0 <= j < items@.len() ==> items@[j] == self.items@[self.front + j],
            decreases self.back - i,
        {
            items.push(self.items[i]);
            i = i + 1;
        }
        assert(items@ =~= self.remaining());
        items
    }
}

impl<T: Copy> Clone for Iter<T> {
    /// A second traversal over the items still to come.
    fn clone(&self) -> (r: Self)
        ensures
            r.remaining() == self.remaining(),
    {
        proof {
            use_type_invariant(self);
        }
        let mut items: Vec<T> = Vec::new();
        let mut i = self.front;
        while i < self.back
            invariant
                self.front <= i <= self.back <= self.items.len(),
                items@.len() == i - self.front,
                forall|j: int| 0 <= j < items@.len() ==> items@[j] == self.items@[self.front + j],
            decreases self.back - i,
        {
            items.push(self.items[i]);
            i = i + 1;
        }
        assert(items@ =~= self.remaining());
        Iter::new(items)
    }
}

impl<K: Copy> KeyIter<K> for Iter<K> {
    open spec fn remaining(&self) -> Seq<K> {
        Iter::remaining(self)
    }

    fn next(&mut self) -> (k: Option<K>) {
        Iter::next(self)
    }

    fn next_back(&mut self) -> (k: Option<K>) {
        Iter::next_back(self)
    }

    fn len(&self) -> (n: usize) {
        Iter::len(self)
    }
}

} // verus!

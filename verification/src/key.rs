//! Key shapes.
//!
//! A key type has a finite, statically known set of inhabitants. Its shape
//! numbers them `0..shape_len()` in declaration order, and that number is the
//! position of the key's slot in every storage built for the type.

use vstd::arithmetic::div_mod::{
    lemma_fundamental_div_mod, lemma_fundamental_div_mod_converse, lemma_mod_pos_bound,
    lemma_multiply_divide_lt,
};
use vstd::prelude::*;

verus! {

/// A type whose inhabitants are in one-to-one correspondence with the slot
/// positions `0..shape_len()`.
///
/// A key lies in the domain when its slot lies inside the shape. Every key
/// that executable code can hold does; the laws speak of those keys.
pub trait Key: Copy {
    /// Number of inhabitants.
    spec fn shape_len() -> nat;

    /// Position of this key's slot.
    spec fn slot(self) -> nat;

    /// The key that owns slot `i`.
    spec fn key_at(i: nat) -> Self;

    /// No two keys of the domain share a slot.
    proof fn lemma_slot(self)
        requires
            self.slot() < Self::shape_len(),
        ensures
            Self::key_at(self.slot()) == self,
    ;

    /// Every slot inside the shape belongs to a key.
    proof fn lemma_key_at(i: nat)
        requires
            i < Self::shape_len(),
        ensures
            Self::key_at(i).slot() == i,
    ;
}

/// Two keys of the domain with the same slot are the same key.
pub proof fn lemma_slot_injective<K: Key>(a: K, b: K)
    requires
        a.slot() == b.slot(),
        a.slot() < K::shape_len(),
    ensures
        a == b,
{
    a.lemma_slot();
    b.lemma_slot();
}

/// The key of the unit shape: exactly one inhabitant.
#[derive(Clone, Copy, PartialEq, Eq, Structural, Debug, Default)]
pub struct Unit;

impl Key for Unit {
    open spec fn shape_len() -> nat {
        1
    }

    open spec fn slot(self) -> nat {
        0
    }

    open spec fn key_at(i: nat) -> Self {
        Unit
    }

    proof fn lemma_slot(self) {
    }

    proof fn lemma_key_at(i: nat) {
    }
}

/// Boolean shape: `true` comes first, then `false`.
impl Key for bool {
    open spec fn shape_len() -> nat {
        2
    }

    open spec fn slot(self) -> nat {
        if self {
            0
        } else {
            1
        }
    }

    open spec fn key_at(i: nat) -> Self {
        i == 0
    }

    proof fn lemma_slot(self) {
    }

    proof fn lemma_key_at(i: nat) {
    }
}

/// Optional wrapping: the inhabitants of the inner shape in their own order,
/// followed by the absent marker.
impl<K: Key> Key for Option<K> {
    open spec fn shape_len() -> nat {
        K::shape_len() + 1
    }

    open spec fn slot(self) -> nat {
        match self {
            Some(k) => if k.slot() < K::shape_len() {
                k.slot()
            } else {
                K::shape_len() + 1
            },
            None => K::shape_len(),
        }
    }

    open spec fn key_at(i: nat) -> Self {
        if i < K::shape_len() {
            Some(K::key_at(i))
        } else {
            None
        }
    }

    proof fn lemma_slot(self) {
        match self {
            Some(k) => k.lemma_slot(),
            None => {},
        }
    }

    proof fn lemma_key_at(i: nat) {
        if i < K::shape_len() {
            K::lemma_key_at(i);
        }
    }
}

/// Position `i` of `n` rows of `l` columns each splits into a row and a
/// column.
pub proof fn lemma_split(i: nat, n: nat, l: nat)
    requires
        i < n * l,
    ensures
        l > 0,
        i / l < n,
        i % l < l,
        (i / l) * l + i % l == i,
{
    assert(l > 0) by (nonlinear_arith)
        requires
            i < n * l,
    ;
    lemma_fundamental_div_mod(i as int, l as int);
    lemma_mod_pos_bound(i as int, l as int);
    assert(i < l * n) by (nonlinear_arith)
        requires
            i < n * l,
    ;
    lemma_multiply_divide_lt(i as int, l as int, n as int);
    assert((i / l) * l == l * (i / l)) by (nonlinear_arith);
}

/// Row `o` and column `j` of rows of `l` columns each join into one
/// position, from which both are found again.
pub proof fn lemma_join(o: nat, j: nat, n: nat, l: nat)
    requires
        j < l,
    ensures
        (o * l + j) / l == o,
        (o * l + j) % l == j,
        o < n ==> o * l + j < n * l,
        o >= n ==> o * l + j >= n * l,
{
    lemma_fundamental_div_mod_converse((o * l + j) as int, l as int, o as int, j as int);
    if o < n {
        assert(o * l + j < n * l) by (nonlinear_arith)
            requires
                o < n,
                j < l,
        ;
    } else {
        assert(o * l + j >= n * l) by (nonlinear_arith)
            requires
                o >= n,
                j < l,
        ;
    }
}

/// A key of the composite shape: an outer key that selects a branch and an
/// inner key inside that branch.
#[derive(Clone, Copy, PartialEq, Eq, Debug)]
pub struct Composite<A, B> {
    /// Selects the branch.
    pub outer: A,
    /// The key inside the branch.
    pub inner: B,
}

/// Composite shape: the cartesian product of an outer and an inner shape,
/// outer-major. The inhabitants with the first outer key come first, in the
/// order of the inner shape.
impl<A: Key, B: Key> Key for Composite<A, B> {
    open spec fn shape_len() -> nat {
        A::shape_len() * B::shape_len()
    }

    open spec fn slot(self) -> nat {
        if self.outer.slot() < A::shape_len() && self.inner.slot() < B::shape_len() {
            self.outer.slot() * B::shape_len() + self.inner.slot()
        } else {
            A::shape_len() * B::shape_len()
        }
    }

    open spec fn key_at(i: nat) -> Self {
        Composite { outer: A::key_at(i / B::shape_len()), inner: B::key_at(i % B::shape_len()) }
    }

    proof fn lemma_slot(self) {
        lemma_join(self.outer.slot(), self.inner.slot(), A::shape_len(), B::shape_len());
        self.outer.lemma_slot();
        self.inner.lemma_slot();
    }

    proof fn lemma_key_at(i: nat) {
        lemma_split(i, A::shape_len(), B::shape_len());
        A::lemma_key_at(i / B::shape_len());
        B::lemma_key_at(i % B::shape_len());
    }
}

/// A plain enumeration of `N` inhabitants, indexable `0..N`.
///
/// Implementors give the executable form of the slot bijection. The index
/// of a variant is its position in declaration order.
pub trait PlainKey<const N: usize>: Key {
    /// The shape has exactly `N` inhabitants.
    proof fn lemma_shape_len()
        ensures
            Self::shape_len() == N,
    ;

    /// Slot position of `self`, which lies inside the shape.
    fn index(self) -> (i: usize)
        ensures
            i == self.slot(),
            i < N,
    ;

    /// Key that owns slot `i`, or `None` when `i` lies outside the domain.
    fn from_index(i: usize) -> (k: Option<Self>)
        ensures
            i < N ==> k == Some(Self::key_at(i as nat)),
            i >= N ==> k is None,
    ;
}

impl PlainKey<2> for bool {
    proof fn lemma_shape_len() {
    }

    fn index(self) -> (i: usize) {
        if self {
            0
        } else {
            1
        }
    }

    fn from_index(i: usize) -> (k: Option<Self>) {
        if i == 0 {
            Some(true)
        } else if i == 1 {
            Some(false)
        } else {
            None
        }
    }
}

/// The inhabitant at a given position of a plain enumeration with `N`
/// inhabitants.
///
/// An enumeration is used as a key through the position of each of its
/// variants in declaration order.
#[derive(Clone, Copy, PartialEq, Eq, Debug)]
pub struct Ordinal<const N: usize> {
    index: usize,
}

impl<const N: usize> Ordinal<N> {
    #[verifier::type_invariant]
    spec fn in_domain(self) -> bool {
        self.index < N
    }

    /// The position this key stands for.
    pub closed spec fn position(self) -> nat {
        self.index as nat
    }

    /// The key at position `index`, or `None` when `index` lies outside the
    /// domain `0..N`.
    pub fn new(index: usize) -> (k: Option<Self>)
        ensures
            index < N ==> k is Some && k->0.position() == index,
            index >= N ==> k is None,
    {
        if index < N {
            Some(Ordinal { index })
        } else {
            None
        }
    }

    /// The position this key stands for.
    pub fn get(self) -> (i: usize)
        ensures
            i == self.position(),
            i < N,
    {
        proof {
            use_type_invariant(&self);
        }
        self.index
    }
}

impl<const N: usize> Key for Ordinal<N> {
    open spec fn shape_len() -> nat {
        N as nat
    }

    open spec fn slot(self) -> nat {
        self.position()
    }

    closed spec fn key_at(i: nat) -> Self {
        Ordinal { index: i as usize }
    }

    proof fn lemma_slot(self) {
    }

    proof fn lemma_key_at(i: nat) {
    }
}

impl<const N: usize> PlainKey<N> for Ordinal<N> {
    proof fn lemma_shape_len() {
    }

    fn index(self) -> (i: usize) {
        self.get()
    }

    fn from_index(i: usize) -> (k: Option<Self>) {
        let k = Ordinal::new(i);
        proof {
            if i < N {
                k->0.lemma_slot();
            }
        }
        k
    }
}

} // verus!

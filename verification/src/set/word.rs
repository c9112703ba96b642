//! Machine words as packs of presence bits.

use vstd::prelude::*;

verus! {

/// A fixed-width unsigned integer that holds one presence bit per position.
pub trait Word: Copy {
    /// Number of bit positions.
    spec fn width() -> nat;

    /// Whether the bit at `position` is set.
    spec fn bit(self, position: nat) -> bool;

    /// Number of bit positions.
    fn bits() -> (n: usize)
        ensures
            n == Self::width(),
    ;

    /// The word with no bit set.
    fn zero() -> (w: Self)
        ensures
            forall|j: nat| j < Self::width() ==> !w.bit(j),
    ;

    /// Whether the bit at `position` is set.
    fn test(self, position: usize) -> (b: bool)
        requires
            position < Self::width(),
        ensures
            b == self.bit(position as nat),
    ;

    /// The word with the bit at `position` set and every other bit as in
    /// `self`.
    fn with(self, position: usize) -> (w: Self)
        requires
            position < Self::width(),
        ensures
            forall|j: nat|
                j < Self::width() ==> #[trigger] w.bit(j) == (j == position || self.bit(j)),
    ;

    /// The word with the bit at `position` cleared and every other bit as in
    /// `self`.
    fn without(self, position: usize) -> (w: Self)
        requires
            position < Self::width(),
        ensures
            forall|j: nat|
                j < Self::width() ==> #[trigger] w.bit(j) == (j != position && self.bit(j)),
    ;

    /// Bitwise OR: a bit is set when it is set in either operand.
    fn or(self, other: Self) -> (w: Self)
        ensures
            forall|j: nat|
                j < Self::width() ==> #[trigger] w.bit(j) == (self.bit(j) || other.bit(j)),
    ;

    /// Bitwise AND: a bit is set when it is set in both operands.
    fn and(self, other: Self) -> (w: Self)
        ensures
            forall|j: nat|
                j < Self::width() ==> #[trigger] w.bit(j) == (self.bit(j) && other.bit(j)),
    ;

    /// Bitwise AND-NOT: a bit is set when it is set in `self` and not in
    /// `other`.
    fn and_not(self, other: Self) -> (w: Self)
        ensures
            forall|j: nat|
                j < Self::width() ==> #[trigger] w.bit(j) == (self.bit(j) && !other.bit(j)),
    ;
}

/// Setting bit `i` sets that bit and leaves every other bit as it was.
proof fn lemma_u8_with(x: u8, i: u8, j: u8)
    by (bit_vector)
    requires
        i < 8,
        j < 8,
    ensures
        (((x | (1u8 << i)) >> j) & 1 == 1) == (j == i || (x >> j) & 1 == 1),
{
}

/// Clearing bit `i` clears that bit and leaves every other bit as it was.
proof fn lemma_u8_without(x: u8, i: u8, j: u8)
    by (bit_vector)
    requires
        i < 8,
        j < 8,
    ensures
        (((x & !(1u8 << i)) >> j) & 1 == 1) == (j != i && (x >> j) & 1 == 1),
{
}

/// OR, AND and AND-NOT act on every bit by itself, and zero has no bit set.
proof fn lemma_u8_combine(x: u8, y: u8, j: u8)
    by (bit_vector)
    requires
        j < 8,
    ensures
        (((x | y) >> j) & 1 == 1) == ((x >> j) & 1 == 1 || (y >> j) & 1 == 1),
        (((x & y) >> j) & 1 == 1) == ((x >> j) & 1 == 1 && (y >> j) & 1 == 1),
        (((x & !y) >> j) & 1 == 1) == ((x >> j) & 1 == 1 && !((y >> j) & 1 == 1)),
        (0u8 >> j) & 1 == 0,
{
}

/// The 8 presence bits of a `u8`, the lowest bit at position 0.
impl Word for u8 {
    open spec fn width() -> nat {
        8
    }

    open spec fn bit(self, position: nat) -> bool {
        position < 8 && (self >> (position as u8)) & 1 == 1
    }

    fn bits() -> (n: usize) {
        8
    }

    fn zero() -> (w: Self) {
        assert forall|j: nat| j < 8 implies !0u8.bit(j) by {
            lemma_u8_combine(0, 0, j as u8);
        }
        0
    }

    fn test(self, position: usize) -> (b: bool) {
        let at = position as u8;
        (self >> at) & 1 == 1
    }

    fn with(self, position: usize) -> (w: Self) {
        let at = position as u8;
        let w = self | (1u8 << at);
        assert forall|j: nat| j < 8 implies #[trigger] w.bit(j) == (j == position || self.bit(
            j,
        )) by {
            lemma_u8_with(self, at, j as u8);
        }
        w
    }

    fn without(self, position: usize) -> (w: Self) {
        let at = position as u8;
        let w = self & !(1u8 << at);
        assert forall|j: nat| j < 8 implies #[trigger] w.bit(j) == (j != position && self.bit(
            j,
        )) by {
            lemma_u8_without(self, at, j as u8);
        }
        w
    }

    fn or(self, other: Self) -> (w: Self) {
        let w = self | other;
        assert forall|j: nat| j < 8 implies #[trigger] w.bit(j) == (self.bit(j) || other.bit(
            j,
        )) by {
            lemma_u8_combine(self, other, j as u8);
        }
        w
    }

    fn and(self, other: Self) -> (w: Self) {
        let w = self & other;
        assert forall|j: nat| j < 8 implies #[trigger] w.bit(j) == (self.bit(j) && other.bit(
            j,
        )) by {
            lemma_u8_combine(self, other, j as u8);
        }
        w
    }

    fn and_not(self, other: Self) -> (w: Self) {
        let w = self & !other;
        assert forall|j: nat| j < 8 implies #[trigger] w.bit(j) == (self.bit(j) && !other.bit(
            j,
        )) by {
            lemma_u8_combine(self, other, j as u8);
        }
        w
    }
}

/// Setting bit `i` sets that bit and leaves every other bit as it was.
proof fn lemma_u16_with(x: u16, i: u16, j: u16)
    by (bit_vector)
    requires
        i < 16,
        j < 16,
    ensures
        (((x | (1u16 << i)) >> j) & 1 == 1) == (j == i || (x >> j) & 1 == 1),
{
}

/// Clearing bit `i` clears that bit and leaves every other bit as it was.
proof fn lemma_u16_without(x: u16, i: u16, j: u16)
    by (bit_vector)
    requires
        i < 16,
        j < 16,
    ensures
        (((x & !(1u16 << i)) >> j) & 1 == 1) == (j != i && (x >> j) & 1 == 1),
{
}

/// OR, AND and AND-NOT act on every bit by itself, and zero has no bit set.
proof fn lemma_u16_combine(x: u16, y: u16, j: u16)
    by (bit_vector)
    requires
        j < 16,
    ensures
        (((x | y) >> j) & 1 == 1) == ((x >> j) & 1 == 1 || (y >> j) & 1 == 1),
        (((x & y) >> j) & 1 == 1) == ((x >> j) & 1 == 1 && (y >> j) & 1 == 1),
        (((x & !y) >> j) & 1 == 1) == ((x >> j) & 1 == 1 && !((y >> j) & 1 == 1)),
        (0u16 >> j) & 1 == 0,
{
}

/// The 16 presence bits of a `u16`, the lowest bit at position 0.
impl Word for u16 {
    open spec fn width() -> nat {
        16
    }

    open spec fn bit(self, position: nat) -> bool {
        position < 16 && (self >> (position as u16)) & 1 == 1
    }

    fn bits() -> (n: usize) {
        16
    }

    fn zero() -> (w: Self) {
        assert forall|j: nat| j < 16 implies !0u16.bit(j) by {
            lemma_u16_combine(0, 0, j as u16);
        }
        0
    }

    fn test(self, position: usize) -> (b: bool) {
        let at = position as u16;
        (self >> at) & 1 == 1
    }

    fn with(self, position: usize) -> (w: Self) {
        let at = position as u16;
        let w = self | (1u16 << at);
        assert forall|j: nat| j < 16 implies #[trigger] w.bit(j) == (j == position || self.bit(
            j,
        )) by {
            lemma_u16_with(self, at, j as u16);
        }
        w
    }

    fn without(self, position: usize) -> (w: Self) {
        let at = position as u16;
        let w = self & !(1u16 << at);
        assert forall|j: nat| j < 16 implies #[trigger] w.bit(j) == (j != position && self.bit(
            j,
        )) by {
            lemma_u16_without(self, at, j as u16);
        }
        w
    }

    fn or(self, other: Self) -> (w: Self) {
        let w = self | other;
        assert forall|j: nat| j < 16 implies #[trigger] w.bit(j) == (self.bit(j) || other.bit(
            j,
        )) by {
            lemma_u16_combine(self, other, j as u16);
        }
        w
    }

    fn and(self, other: Self) -> (w: Self) {
        let w = self & other;
        assert forall|j: nat| j < 16 implies #[trigger] w.bit(j) == (self.bit(j) && other.bit(
            j,
        )) by {
            lemma_u16_combine(self, other, j as u16);
        }
        w
    }

    fn and_not(self, other: Self) -> (w: Self) {
        let w = self & !other;
        assert forall|j: nat| j < 16 implies #[trigger] w.bit(j) == (self.bit(j) && !other.bit(
            j,
        )) by {
            lemma_u16_combine(self, other, j as u16);
        }
        w
    }
}

/// Setting bit `i` sets that bit and leaves every other bit as it was.
proof fn lemma_u32_with(x: u32, i: u32, j: u32)
    by (bit_vector)
    requires
        i < 32,
        j < 32,
    ensures
        (((x | (1u32 << i)) >> j) & 1 == 1) == (j == i || (x >> j) & 1 == 1),
{
}

/// Clearing bit `i` clears that bit and leaves every other bit as it was.
proof fn lemma_u32_without(x: u32, i: u32, j: u32)
    by (bit_vector)
    requires
        i < 32,
        j < 32,
    ensures
        (((x & !(1u32 << i)) >> j) & 1 == 1) == (j != i && (x >> j) & 1 == 1),
{
}

/// OR, AND and AND-NOT act on every bit by itself, and zero has no bit set.
proof fn lemma_u32_combine(x: u32, y: u32, j: u32)
    by (bit_vector)
    requires
        j < 32,
    ensures
        (((x | y) >> j) & 1 == 1) == ((x >> j) & 1 == 1 || (y >> j) & 1 == 1),
        (((x & y) >> j) & 1 == 1) == ((x >> j) & 1 == 1 && (y >> j) & 1 == 1),
        (((x & !y) >> j) & 1 == 1) == ((x >> j) & 1 == 1 && !((y >> j) & 1 == 1)),
        (0u32 >> j) & 1 == 0,
{
}

/// The 32 presence bits of a `u32`, the lowest bit at position 0.
impl Word for u32 {
    open spec fn width() -> nat {
        32
    }

    open spec fn bit(self, position: nat) -> bool {
        position < 32 && (self >> (position as u32)) & 1 == 1
    }

    fn bits() -> (n: usize) {
        32
    }

    fn zero() -> (w: Self) {
        assert forall|j: nat| j < 32 implies !0u32.bit(j) by {
            lemma_u32_combine(0, 0, j as u32);
        }
        0
    }

    fn test(self, position: usize) -> (b: bool) {
        let at = position as u32;
        (self >> at) & 1 == 1
    }

    fn with(self, position: usize) -> (w: Self) {
        let at = position as u32;
        let w = self | (1u32 << at);
        assert forall|j: nat| j < 32 implies #[trigger] w.bit(j) == (j == position || self.bit(
            j,
        )) by {
            lemma_u32_with(self, at, j as u32);
        }
        w
    }

    fn without(self, position: usize) -> (w: Self) {
        let at = position as u32;
        let w = self & !(1u32 << at);
        assert forall|j: nat| j < 32 implies #[trigger] w.bit(j) == (j != position && self.bit(
            j,
        )) by {
            lemma_u32_without(self, at, j as u32);
        }
        w
    }

    fn or(self, other: Self) -> (w: Self) {
        let w = self | other;
        assert forall|j: nat| j < 32 implies #[trigger] w.bit(j) == (self.bit(j) || other.bit(
            j,
        )) by {
            lemma_u32_combine(self, other, j as u32);
        }
        w
    }

    fn and(self, other: Self) -> (w: Self) {
        let w = self & other;
        assert forall|j: nat| j < 32 implies #[trigger] w.bit(j) == (self.bit(j) && other.bit(
            j,
        )) by {
            lemma_u32_combine(self, other, j as u32);
        }
        w
    }

    fn and_not(self, other: Self) -> (w: Self) {
        let w = self & !other;
        assert forall|j: nat| j < 32 implies #[trigger] w.bit(j) == (self.bit(j) && !other.bit(
            j,
        )) by {
            lemma_u32_combine(self, other, j as u32);
        }
        w
    }
}

/// Setting bit `i` sets that bit and leaves every other bit as it was.
proof fn lemma_u64_with(x: u64, i: u64, j: u64)
    by (bit_vector)
    requires
        i < 64,
        j < 64,
    ensures
        (((x | (1u64 << i)) >> j) & 1 == 1) == (j == i || (x >> j) & 1 == 1),
{
}

/// Clearing bit `i` clears that bit and leaves every other bit as it was.
proof fn lemma_u64_without(x: u64, i: u64, j: u64)
    by (bit_vector)
    requires
        i < 64,
        j < 64,
    ensures
        (((x & !(1u64 << i)) >> j) & 1 == 1) == (j != i && (x >> j) & 1 == 1),
{
}

/// OR, AND and AND-NOT act on every bit by itself, and zero has no bit set.
proof fn lemma_u64_combine(x: u64, y: u64, j: u64)
    by (bit_vector)
    requires
        j < 64,
    ensures
        (((x | y) >> j) & 1 == 1) == ((x >> j) & 1 == 1 || (y >> j) & 1 == 1),
        (((x & y) >> j) & 1 == 1) == ((x >> j) & 1 == 1 && (y >> j) & 1 == 1),
        (((x & !y) >> j) & 1 == 1) == ((x >> j) & 1 == 1 && !((y >> j) & 1 == 1)),
        (0u64 >> j) & 1 == 0,
{
}

/// The 64 presence bits of a `u64`, the lowest bit at position 0.
impl Word for u64 {
    open spec fn width() -> nat {
        64
    }

    open spec fn bit(self, position: nat) -> bool {
        position < 64 && (self >> (position as u64)) & 1 == 1
    }

    fn bits() -> (n: usize) {
        64
    }

    fn zero() -> (w: Self) {
        assert forall|j: nat| j < 64 implies !0u64.bit(j) by {
            lemma_u64_combine(0, 0, j as u64);
        }
        0
    }

    fn test(self, position: usize) -> (b: bool) {
        let at = position as u64;
        (self >> at) & 1 == 1
    }

    fn with(self, position: usize) -> (w: Self) {
        let at = position as u64;
        let w = self | (1u64 << at);
        assert forall|j: nat| j < 64 implies #[trigger] w.bit(j) == (j == position || self.bit(
            j,
        )) by {
            lemma_u64_with(self, at, j as u64);
        }
        w
    }

    fn without(self, position: usize) -> (w: Self) {
        let at = position as u64;
        let w = self & !(1u64 << at);
        assert forall|j: nat| j < 64 implies #[trigger] w.bit(j) == (j != position && self.bit(
            j,
        )) by {
            lemma_u64_without(self, at, j as u64);
        }
        w
    }

    fn or(self, other: Self) -> (w: Self) {
        let w = self | other;
        assert forall|j: nat| j < 64 implies #[trigger] w.bit(j) == (self.bit(j) || other.bit(
            j,
        )) by {
            lemma_u64_combine(self, other, j as u64);
        }
        w
    }

    fn and(self, other: Self) -> (w: Self) {
        let w = self & other;
        assert forall|j: nat| j < 64 implies #[trigger] w.bit(j) == (self.bit(j) && other.bit(
            j,
        )) by {
            lemma_u64_combine(self, other, j as u64);
        }
        w
    }

    fn and_not(self, other: Self) -> (w: Self) {
        let w = self & !other;
        assert forall|j: nat| j < 64 implies #[trigger] w.bit(j) == (self.bit(j) && !other.bit(
            j,
        )) by {
            lemma_u64_combine(self, other, j as u64);
        }
        w
    }
}

} // verus!

//! Hints about a wallpaper's colors, as a set of flags.
use vstd::prelude::*;
use vstd::std_specs::ops::{BitAndSpecImpl, BitOrSpecImpl, NotSpecImpl};
use core::ops::{BitAnd, BitAndAssign, BitOr, BitOrAssign, Not};

verus! {

/// A set of hints about a wallpaper's colors.
#[derive(Clone, Copy, Debug, PartialEq, Eq, Hash, Structural)]
pub struct ColorHints {
    /// The flags as bits: 1, 2 and 4 for the known flags.
    pub bits: i32,
}

/// The bits of all known flags.
pub open spec fn known_bits() -> i32 {
    7
}

impl View for ColorHints {
    type V = i32;

    open spec fn view(&self) -> i32 {
        self.bits
    }
}

impl ColorHints {
    /// Dark text reads well on the wallpaper.
    pub fn supports_dark_text() -> (r: ColorHints)
        ensures
            r@ == 1,
    {
        ColorHints { bits: 1 }
    }

    /// A dark theme suits the wallpaper.
    pub fn supports_dark_theme() -> (r: ColorHints)
        ensures
            r@ == 2,
    {
        ColorHints { bits: 2 }
    }

    /// The colors were extracted from a bitmap.
    pub fn from_bitmap() -> (r: ColorHints)
        ensures
            r@ == 4,
    {
        ColorHints { bits: 4 }
    }

    /// The set of no flags.
    pub fn empty() -> (r: ColorHints)
        ensures
            r@ == 0,
    {
        ColorHints { bits: 0 }
    }

    /// The set of all known flags.
    pub fn all() -> (r: ColorHints)
        ensures
            r@ == known_bits(),
    {
        ColorHints { bits: 7 }
    }

    /// The flags as bits.
    pub fn bits(&self) -> (r: i32)
        ensures
            r == self@,
    {
        self.bits
    }

    /// The set with exactly the given bits, unknown ones included.
    pub fn from_bits_retain(bits: i32) -> (r: ColorHints)
        ensures
            r@ == bits,
    {
        ColorHints { bits }
    }

    /// Whether no flag is set.
    pub fn is_empty(&self) -> (r: bool)
        ensures
            r == (self@ == 0),
    {
        self.bits == 0
    }

    /// Whether every flag of `other` is set in `self`.
    pub fn contains(&self, other: ColorHints) -> (r: bool)
        ensures
            r == (self@ & other@ == other@),
    {
        self.bits & other.bits == other.bits
    }

    /// Whether some flag of `other` is set in `self`.
    pub fn intersects(&self, other: ColorHints) -> (r: bool)
        ensures
            r == (self@ & other@ != 0),
    {
        self.bits & other.bits != 0
    }

    /// The flags set in either.
    pub fn union(self, other: ColorHints) -> (r: ColorHints)
        ensures
            r@ == self@ | other@,
    {
        ColorHints { bits: self.bits | other.bits }
    }

    /// The flags set in both.
    pub fn intersection(self, other: ColorHints) -> (r: ColorHints)
        ensures
            r@ == self@ & other@,
    {
        ColorHints { bits: self.bits & other.bits }
    }

    /// The flags of `self` that are not in `other`.
    pub fn difference(self, other: ColorHints) -> (r: ColorHints)
        ensures
            r@ == self@ & !other@,
    {
        ColorHints { bits: self.bits & !other.bits }
    }

    /// The known flags that are not set.
    pub fn complement(self) -> (r: ColorHints)
        ensures
            r@ == !self@ & known_bits(),
    {
        ColorHints { bits: !self.bits & 7 }
    }

    /// Sets the flags of `other`.
    pub fn insert(&mut self, other: ColorHints)
        ensures
            final(self)@ == old(self)@ | other@,
    {
        self.bits = self.bits | other.bits;
    }

    /// Clears the flags of `other`.
    pub fn remove(&mut self, other: ColorHints)
        ensures
            final(self)@ == old(self)@ & !other@,
    {
        self.bits = self.bits & !other.bits;
    }

    /// Sets or clears the flags of `other`.
    pub fn set(&mut self, other: ColorHints, value: bool)
        ensures
            final(self)@ == if value { old(self)@ | other@ } else { old(self)@ & !other@ },
    {
        if value {
            self.insert(other);
        } else {
            self.remove(other);
        }
    }
}

impl BitOr for ColorHints {
    type Output = ColorHints;

    fn bitor(self, rhs: ColorHints) -> (r: ColorHints)
        ensures
            r@ == self@ | rhs@,
    {
        ColorHints { bits: self.bits | rhs.bits }
    }
}

impl BitOrSpecImpl for ColorHints {
    open spec fn obeys_bitor_spec() -> bool {
        true
    }

    open spec fn bitor_req(self, rhs: ColorHints) -> bool {
        true
    }

    open spec fn bitor_spec(self, rhs: ColorHints) -> ColorHints {
        ColorHints { bits: self.bits | rhs.bits }
    }
}

impl BitAnd for ColorHints {
    type Output = ColorHints;

    fn bitand(self, rhs: ColorHints) -> (r: ColorHints)
        ensures
            r@ == self@ & rhs@,
    {
        ColorHints { bits: self.bits & rhs.bits }
    }
}

impl BitAndSpecImpl for ColorHints {
    open spec fn obeys_bitand_spec() -> bool {
        true
    }

    open spec fn bitand_req(self, rhs: ColorHints) -> bool {
        true
    }

    open spec fn bitand_spec(self, rhs: ColorHints) -> ColorHints {
        ColorHints { bits: self.bits & rhs.bits }
    }
}

impl Not for ColorHints {
    type Output = ColorHints;

    fn not(self) -> (r: ColorHints)
        ensures
            r@ == !self@ & known_bits(),
    {
        ColorHints { bits: !self.bits & 7 }
    }
}

impl NotSpecImpl for ColorHints {
    open spec fn obeys_not_spec() -> bool {
        true
    }

    open spec fn not_req(self) -> bool {
        true
    }

    open spec fn not_spec(self) -> ColorHints {
        ColorHints { bits: !self.bits & 7 }
    }
}

impl BitOrAssign for ColorHints {
    fn bitor_assign(&mut self, rhs: ColorHints)
        ensures
            final(self)@ == old(self)@ | rhs@,
    {
        self.bits = self.bits | rhs.bits;
    }
}

impl BitAndAssign for ColorHints {
    fn bitand_assign(&mut self, rhs: ColorHints)
        ensures
            final(self)@ == old(self)@ & rhs@,
    {
        self.bits = self.bits & rhs.bits;
    }
}

/// Setting flags makes the set contain them and keeps the others; clearing
/// flags makes the set contain none of them and keeps the others.
pub proof fn lemma_insert_remove(hints: i32, flags: i32, other: i32)
    ensures
        (hints | flags) & flags == flags,
        (hints & other == other) ==> ((hints | flags) & other == other),
        ((hints & !flags) & flags == flags) <==> flags == 0,
        (other & flags == 0) ==> (((hints & !flags) & other == other) <==> (hints & other
            == other)),
{
    assert((hints | flags) & flags == flags) by (bit_vector);
    assert((hints & other == other) ==> ((hints | flags) & other == other)) by (bit_vector);
    assert(((hints & !flags) & flags == flags) <==> flags == 0) by (bit_vector);
    assert((other & flags == 0) ==> (((hints & !flags) & other == other) <==> (hints & other
        == other))) by (bit_vector);
}

/// The complement of a known flag keeps every other known flag and drops it.
pub proof fn lemma_complement_known(flag: i32, other: i32)
    ensures
        (other & 7 == other && other & flag == 0) ==> (!flag & 7) & other == other,
        flag != 0 && flag & 7 == flag ==> (!flag & 7) & flag != flag,
{
    assert((other & 7 == other && other & flag == 0) ==> (!flag & 7) & other == other)
        by (bit_vector);
    assert(flag != 0 && flag & 7 == flag ==> (!flag & 7) & flag != flag) by (bit_vector);
}

} // verus!

//! The scalar by which visible entities are ordered.

use vstd::prelude::*;

verus! {

/// First bit pattern with the sign bit set.
pub const SIGN_BIT: u32 = 0x8000_0000;

/// Magnitude of the infinite value; every larger magnitude is undefined.
pub const INFINITE_MAGNITUDE: u32 = 0x7f80_0000;

/// An order key: one single-precision value, held by its 32-bit pattern
/// (sign bit, biased exponent, fraction), so that keys can be compared
/// without any arithmetic on the value itself.
///
/// Every pattern is a legal key. `rank` gives the strict total preorder used
/// for sorting: finite and infinite values rank by numeric value, the two
/// zeros rank alike, and every undefined pattern (a magnitude above that of
/// infinity) ranks alike and after all defined values.
#[derive(Clone, Copy, Debug, PartialEq, Eq, Structural)]
pub struct OrderKey {
    pub bits: u32,
}

impl OrderKey {
    /// The pattern without its sign bit.
    pub open spec fn magnitude(self) -> int {
        if self.bits >= SIGN_BIT {
            self.bits - SIGN_BIT
        } else {
            self.bits as int
        }
    }

    /// Whether the pattern stands for no number at all.
    pub open spec fn undefined(self) -> bool {
        self.magnitude() > INFINITE_MAGNITUDE
    }

    /// The place of the key in the total order: keys compare as their ranks do.
    pub open spec fn rank(self) -> int {
        if self.undefined() {
            SIGN_BIT as int
        } else if self.bits >= SIGN_BIT {
            -self.magnitude()
        } else {
            self.magnitude()
        }
    }

    /// The key with the given bit pattern.
    pub fn from_bits(bits: u32) -> (key: OrderKey)
        ensures
            key.bits == bits,
    {
        OrderKey { bits }
    }

    /// The key's bit pattern.
    pub fn to_bits(&self) -> (bits: u32)
        ensures
            bits == self.bits,
    {
        self.bits
    }

    /// The key of positive zero.
    pub fn zero() -> (key: OrderKey)
        ensures
            key.bits == 0,
            key.rank() == 0,
    {
        OrderKey { bits: 0 }
    }

    /// Whether the key is an undefined value.
    pub fn is_undefined(&self) -> (r: bool)
        ensures
            r == self.undefined(),
    {
        if self.bits >= SIGN_BIT {
            self.bits - SIGN_BIT > INFINITE_MAGNITUDE
        } else {
            self.bits > INFINITE_MAGNITUDE
        }
    }

    /// The rank as a machine integer.
    pub fn rank_value(&self) -> (r: i64)
        ensures
            r == self.rank(),
    {
        let negative: bool = self.bits >= SIGN_BIT;
        let magnitude: u32 = if negative {
            self.bits - SIGN_BIT
        } else {
            self.bits
        };
        if magnitude > INFINITE_MAGNITUDE {
            0x8000_0000i64
        } else if negative {
            0i64 - (magnitude as i64)
        } else {
            magnitude as i64
        }
    }

    /// Whether this key ranks at or before `other`.
    pub fn at_or_before(&self, other: &OrderKey) -> (r: bool)
        ensures
            r == (self.rank() <= other.rank()),
    {
        self.rank_value() <= other.rank_value()
    }

    /// Whether this key ranks strictly before `other`.
    pub fn before(&self, other: &OrderKey) -> (r: bool)
        ensures
            r == (self.rank() < other.rank()),
    {
        self.rank_value() < other.rank_value()
    }
}

/// Among defined keys without a sign bit, a larger pattern ranks later.
pub proof fn unsigned_patterns_rank_in_order(a: OrderKey, b: OrderKey)
    requires
        a.bits <= b.bits <= INFINITE_MAGNITUDE,
    ensures
        a.rank() <= b.rank(),
        a.bits < b.bits ==> a.rank() < b.rank(),
{
}

} // verus!

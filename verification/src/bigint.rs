//! Unsigned 256-bit integers held in four 64-bit limbs.

use vstd::prelude::*;

verus! {

/// The weight of the second limb, `2^64`.
pub open spec fn base() -> int {
    0x1_0000_0000_0000_0000int
}

/// The first integer that no `U256` can hold, `2^256`.
pub open spec fn bound() -> int {
    0x1_0000_0000_0000_0000_0000_0000_0000_0000_0000_0000_0000_0000_0000_0000_0000_0000int
}

/// An unsigned integer below `2^256`; `l0` is the least significant limb.
#[derive(Clone, Copy, Debug, PartialEq, Eq, Structural)]
pub struct U256 {
    pub l0: u64,
    pub l1: u64,
    pub l2: u64,
    pub l3: u64,
}

impl View for U256 {
    type V = nat;

    open spec fn view(&self) -> nat {
        (self.l0 as int + self.l1 as int * 0x1_0000_0000_0000_0000
            + self.l2 as int * 0x1_0000_0000_0000_0000_0000_0000_0000_0000
            + self.l3 as int * 0x1_0000_0000_0000_0000_0000_0000_0000_0000_0000_0000_0000_0000) as nat
    }
}

/// Two integers with the same value have the same limbs.
pub proof fn lemma_view_injective(a: U256, b: U256)
    requires
        a@ == b@,
    ensures
        a == b,
{
}

/// The `U256` whose value is `n`, for `n` below `2^256`.
pub open spec fn u256_of(n: nat) -> U256 {
    choose|u: U256| u@ == n
}

/// `u256_of` gives back the integer that a value was taken from.
pub proof fn lemma_u256_of(u: U256)
    ensures
        u256_of(u@) == u,
{
    lemma_view_injective(u256_of(u@), u);
}

/// Every `U256` is below `2^256`.
pub proof fn lemma_view_bound(a: U256)
    ensures
        a@ < bound(),
{
}

/// Adds two limbs and an incoming carry.
fn adc(a: u64, b: u64, carry: bool) -> (r: (u64, bool))
    ensures
        r.0 as int + (if r.1 { base() } else { 0 }) == a as int + b as int + (if carry { 1int } else { 0 }),
{
    let c: u128 = if carry { 1 } else { 0 };
    let s: u128 = a as u128 + b as u128 + c;
    if s >= 0x1_0000_0000_0000_0000u128 {
        ((s - 0x1_0000_0000_0000_0000u128) as u64, true)
    } else {
        (s as u64, false)
    }
}

/// Subtracts a limb and an incoming borrow from a limb.
fn sbb(a: u64, b: u64, borrow: bool) -> (r: (u64, bool))
    ensures
        r.0 as int - (if r.1 { base() } else { 0 }) == a as int - b as int - (if borrow { 1int } else { 0 }),
{
    let c: u128 = if borrow { 1 } else { 0 };
    let t: u128 = b as u128 + c;
    if a as u128 >= t {
        ((a as u128 - t) as u64, false)
    } else {
        ((a as u128 + 0x1_0000_0000_0000_0000u128 - t) as u64, true)
    }
}

impl U256 {
    /// The integer zero.
    pub fn zero() -> (r: U256)
        ensures
            r@ == 0,
    {
        U256 { l0: 0, l1: 0, l2: 0, l3: 0 }
    }

    /// The integer one.
    pub fn one() -> (r: U256)
        ensures
            r@ == 1,
    {
        U256 { l0: 1, l1: 0, l2: 0, l3: 0 }
    }

    /// Widens a 64-bit integer.
    pub fn from_u64(x: u64) -> (r: U256)
        ensures
            r@ == x,
    {
        U256 { l0: x, l1: 0, l2: 0, l3: 0 }
    }

    /// The value as a 64-bit integer, where it fits.
    pub fn to_u64(&self) -> (r: Option<u64>)
        ensures
            r == (if self@ < base() { Some(self@ as u64) } else { None::<u64> }),
    {
        if self.l1 == 0 && self.l2 == 0 && self.l3 == 0 {
            Some(self.l0)
        } else {
            None
        }
    }

    /// Whether the value is zero.
    pub fn is_zero(&self) -> (r: bool)
        ensures
            r == (self@ == 0),
    {
        self.l0 == 0 && self.l1 == 0 && self.l2 == 0 && self.l3 == 0
    }

    /// Whether two integers have the same value.
    pub fn equals(&self, other: &U256) -> (r: bool)
        ensures
            r == (self@ == other@),
            r == (*self == *other),
    {
        self.l0 == other.l0 && self.l1 == other.l1 && self.l2 == other.l2 && self.l3 == other.l3
    }

    /// Whether `self` is strictly below `other`.
    pub fn less_than(&self, other: &U256) -> (r: bool)
        ensures
            r == (self@ < other@),
    {
        if self.l3 != other.l3 {
            self.l3 < other.l3
        } else if self.l2 != other.l2 {
            self.l2 < other.l2
        } else if self.l1 != other.l1 {
            self.l1 < other.l1
        } else {
            self.l0 < other.l0
        }
    }

    /// The sum modulo `2^256`, and whether the true sum reached `2^256`.
    pub fn overflowing_add(&self, other: &U256) -> (r: (U256, bool))
        ensures
            r.0@ + (if r.1 { bound() } else { 0 }) == self@ + other@,
    {
        let (l0, c0) = adc(self.l0, other.l0, false);
        let (l1, c1) = adc(self.l1, other.l1, c0);
        let (l2, c2) = adc(self.l2, other.l2, c1);
        let (l3, c3) = adc(self.l3, other.l3, c2);
        (U256 { l0, l1, l2, l3 }, c3)
    }

    /// The difference modulo `2^256`, and whether `other` exceeds `self`.
    pub fn overflowing_sub(&self, other: &U256) -> (r: (U256, bool))
        ensures
            r.0@ - (if r.1 { bound() } else { 0 }) == self@ - other@,
            r.1 == (self@ < other@),
    {
        let (l0, b0) = sbb(self.l0, other.l0, false);
        let (l1, b1) = sbb(self.l1, other.l1, b0);
        let (l2, b2) = sbb(self.l2, other.l2, b1);
        let (l3, b3) = sbb(self.l3, other.l3, b2);
        let d = U256 { l0, l1, l2, l3 };
        proof {
            lemma_view_bound(d);
        }
        (d, b3)
    }
}

} // verus!

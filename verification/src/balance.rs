//! Fixed-width unsigned magnitudes for the units of value the bridge moves.
//!
//! Each unit gets its own nominal type wrapping a `u128`, so that amounts in
//! different units can never be mixed without an explicit conversion.

use vstd::prelude::*;

verus! {

/// Engine balance denominated in the destination ledger's native unit.
#[derive(Clone, Copy, Debug, PartialEq, Eq, Structural)]
pub struct Balance(pub u128);

impl Balance {
    /// Wraps a raw `u128` magnitude.
    pub fn new(amount: u128) -> (r: Balance)
        ensures
            r.0 == amount,
    {
        Balance(amount)
    }

    /// Subtraction that reports underflow instead of wrapping.
    pub fn checked_sub(self, rhs: Self) -> (r: Option<Self>)
        ensures
            r is Some <==> rhs.0 <= self.0,
            r matches Some(d) ==> d.0 == self.0 - rhs.0,
    {
        match self.0.checked_sub(rhs.0) {
            Some(v) => Some(Balance(v)),
            None => None,
        }
    }

    /// Addition that reports overflow instead of wrapping.
    pub fn checked_add(self, rhs: Self) -> (r: Option<Self>)
        ensures
            r is Some <==> self.0 + rhs.0 <= u128::MAX,
            r matches Some(s) ==> s.0 == self.0 + rhs.0,
    {
        match self.0.checked_add(rhs.0) {
            Some(v) => Some(Balance(v)),
            None => None,
        }
    }

    /// Consumes the balance and returns the underlying magnitude.
    pub fn into_u128(self) -> (r: u128)
        ensures
            r == self.0,
    {
        self.0
    }

    /// Unchecked addition: the caller must already have shown no overflow.
    pub fn add(self, rhs: Self) -> (r: Self)
        requires
            self.0 + rhs.0 <= u128::MAX,
        ensures
            r.0 == self.0 + rhs.0,
    {
        Balance(self.0 + rhs.0)
    }

    /// Unchecked subtraction: the caller must already have shown no underflow.
    pub fn sub(self, rhs: Self) -> (r: Self)
        requires
            rhs.0 <= self.0,
        ensures
            r.0 == self.0 - rhs.0,
    {
        Balance(self.0 - rhs.0)
    }

    /// Unchecked in-place subtraction under the same obligation as `sub`.
    pub fn sub_assign(&mut self, rhs: Self)
        requires
            rhs.0 <= old(self).0,
        ensures
            final(self).0 == old(self).0 - rhs.0,
    {
        self.0 = self.0 - rhs.0;
    }
}

/// Amount of yoctoNEAR, the destination ledger's smallest unit.
#[derive(Clone, Copy, Debug, PartialEq, Eq, Structural)]
pub struct Yocto(pub u128);

impl Yocto {
    /// Wraps a raw `u128` magnitude.
    pub fn new(yocto: u128) -> (r: Yocto)
        ensures
            r.0 == yocto,
    {
        Yocto(yocto)
    }

    /// Consumes the amount and returns the underlying magnitude.
    pub fn into_u128(self) -> (r: u128)
        ensures
            r == self.0,
    {
        self.0
    }
}

/// Externally supplied deposit fee, a 128-bit magnitude.
#[derive(Clone, Copy, Debug, PartialEq, Eq, Structural)]
pub struct Fee(pub u128);

impl Fee {
    /// Wraps a raw `u128` magnitude.
    pub fn new(amount: u128) -> (r: Fee)
        ensures
            r.0 == amount,
    {
        Fee(amount)
    }

    /// Consumes the fee and returns the underlying magnitude.
    pub fn into_u128(self) -> (r: u128)
        ensures
            r == self.0,
    {
        self.0
    }
}

/// Raised by a narrowing conversion whose argument does not fit the
/// 128-bit destination unit.
#[derive(Clone, Copy, Debug, PartialEq, Eq, Structural)]
pub struct BalanceOverflowError;

} // verus!

//! Source-chain balances. `Wei` is a 256-bit magnitude in the source chain's
//! smallest unit; `NEP141Wei` is the 128-bit magnitude of the same value once
//! bridged. The two stay distinct nominal types.

use vstd::prelude::*;

use crate::balance::{Balance, BalanceOverflowError, Fee};
use crate::u256::{be_val, p128, p256, U256};

verus! {

/// One unit of source-chain currency, in its smallest denomination.
pub const ETH_TO_WEI_FACTOR: u64 = 1_000_000_000_000_000_000;

/// Bridged-token balance: a 128-bit magnitude in the bridged unit.
#[derive(Clone, Copy, Debug, PartialEq, Eq, Structural)]
pub struct NEP141Wei(pub u128);

impl NEP141Wei {
    /// Wraps a raw `u128` magnitude.
    pub fn new(amount: u128) -> (r: NEP141Wei)
        ensures
            r.0 == amount,
    {
        NEP141Wei(amount)
    }

    /// Subtraction that reports underflow instead of wrapping.
    pub fn checked_sub(self, rhs: Self) -> (r: Option<Self>)
        ensures
            r is Some <==> rhs.0 <= self.0,
            r matches Some(d) ==> d.0 == self.0 - rhs.0,
    {
        match self.0.checked_sub(rhs.0) {
            Some(v) => Some(NEP141Wei(v)),
            None => None,
        }
    }

    /// Addition that reports overflow instead of wrapping.
    pub fn checked_add(self, rhs: Self) -> (r: Option<Self>)
        ensures
            r is Some <==> self.0 + rhs.0 <= u128::MAX,
            r matches Some(s) ==> s.0 == self.0 + rhs.0,
    {
        match self.0.checked_add(rhs.0) {
            Some(v) => Some(NEP141Wei(v)),
            None => None,
        }
    }

    /// Consumes the balance and returns the underlying magnitude.
    pub fn into_u128(self) -> (r: u128)
        ensures
            r == self.0,
    {
        self.0
    }

    /// Unchecked addition: the caller must already have shown no overflow.
    pub fn add(self, rhs: Self) -> (r: Self)
        requires
            self.0 + rhs.0 <= u128::MAX,
        ensures
            r.0 == self.0 + rhs.0,
    {
        NEP141Wei(self.0 + rhs.0)
    }

    /// Unchecked subtraction: the caller must already have shown no underflow.
    pub fn sub(self, rhs: Self) -> (r: Self)
        requires
            rhs.0 <= self.0,
        ensures
            r.0 == self.0 - rhs.0,
    {
        NEP141Wei(self.0 - rhs.0)
    }

    /// Unchecked in-place subtraction under the same obligation as `sub`.
    pub fn sub_assign(&mut self, rhs: Self)
        requires
            rhs.0 <= old(self).0,
        ensures
            final(self).0 == old(self).0 - rhs.0,
    {
        self.0 = self.0 - rhs.0;
    }
}

/// Source-chain balance: a 256-bit magnitude denominated in wei.
#[derive(Clone, Copy, Debug, PartialEq, Eq, Structural)]
pub struct Wei(pub U256);

impl Wei {
    /// The number this balance denotes.
    pub open spec fn val(self) -> nat {
        self.0.val()
    }

    /// The zero balance.
    pub fn zero() -> (r: Wei)
        ensures
            r.val() == 0,
    {
        Wei(U256::zero())
    }

    /// Wraps a 256-bit magnitude.
    pub fn new(amount: U256) -> (r: Wei)
        ensures
            r.0 == amount,
    {
        Wei(amount)
    }

    /// Widens a `u64` magnitude.
    pub fn new_u64(amount: u64) -> (r: Wei)
        ensures
            r.val() == amount,
    {
        Wei(U256::from_u64(amount))
    }

    /// Converts a whole-unit amount into wei, reporting overflow instead of
    /// wrapping: the result is `amount * 10^18` exactly when that fits in
    /// 256 bits, and absent otherwise.
    pub fn from_eth(amount: U256) -> (r: Option<Wei>)
        ensures
            r is Some <==> amount.val() * ETH_TO_WEI_FACTOR < p256(),
            r matches Some(w) ==> w.val() == amount.val() * ETH_TO_WEI_FACTOR,
    {
        match amount.checked_mul_u64(ETH_TO_WEI_FACTOR) {
            Some(v) => Some(Wei(v)),
            None => None,
        }
    }

    /// The canonical 32-byte big-endian encoding.
    pub fn to_bytes(self) -> (r: Vec<u8>)
        ensures
            r@.len() == 32,
            be_val(r@) == self.val(),
    {
        self.0.to_be_bytes()
    }

    /// Reads the 32-byte big-endian encoding.
    pub fn from_be_bytes(b: &[u8]) -> (r: Wei)
        requires
            b@.len() == 32,
        ensures
            r.val() == be_val(b@),
    {
        Wei(U256::from_be_bytes(b))
    }

    /// True exactly of the zero balance.
    pub fn is_zero(&self) -> (r: bool)
        ensures
            r <==> self.val() == 0,
    {
        self.0.is_zero()
    }

    /// The underlying 256-bit magnitude.
    pub fn raw(self) -> (r: U256)
        ensures
            r == self.0,
    {
        self.0
    }

    /// Subtraction that reports underflow instead of wrapping.
    pub fn checked_sub(self, rhs: Self) -> (r: Option<Self>)
        ensures
            r is Some <==> rhs.val() <= self.val(),
            r matches Some(d) ==> d.val() == self.val() - rhs.val(),
    {
        match self.0.checked_sub(rhs.0) {
            Some(v) => Some(Wei(v)),
            None => None,
        }
    }

    /// Addition that reports overflow instead of wrapping.
    pub fn checked_add(self, rhs: Self) -> (r: Option<Self>)
        ensures
            r is Some <==> self.val() + rhs.val() < p256(),
            r matches Some(s) ==> s.val() == self.val() + rhs.val(),
    {
        match self.0.checked_add(rhs.0) {
            Some(v) => Some(Wei(v)),
            None => None,
        }
    }

    /// Narrows to 128 bits, failing with `BalanceOverflowError` rather than
    /// truncating when the magnitude does not fit.
    pub fn try_into_u128(self) -> (r: Result<u128, BalanceOverflowError>)
        ensures
            r is Ok <==> self.val() < p128(),
            r matches Ok(v) ==> v == self.val(),
    {
        self.0.try_into_u128()
    }

    /// Widens a fee, losslessly.
    pub fn from_fee(value: Fee) -> (r: Wei)
        ensures
            r.val() == value.0,
    {
        Wei(U256::from_u128(value.0))
    }

    /// Widens a native balance, losslessly.
    pub fn from_balance(value: Balance) -> (r: Wei)
        ensures
            r.val() == value.0,
    {
        Wei(U256::from_u128(value.0))
    }

    /// Widens a bridged-token balance, losslessly.
    pub fn from_nep141(value: NEP141Wei) -> (r: Wei)
        ensures
            r.val() == value.0,
    {
        Wei(U256::from_u128(value.0))
    }
}

/// The 32-byte big-endian encoding of a 256-bit magnitude.
pub fn u256_to_arr(value: &U256) -> (r: Vec<u8>)
    ensures
        r@.len() == 32,
        be_val(r@) == value.val(),
{
    value.to_be_bytes()
}

} // verus!

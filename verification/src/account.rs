//! Destination-ledger account identifiers and source-chain addresses.
//!
//! An account identifier is 2 to 64 bytes of lowercase letters, digits and
//! single `.`, `-` or `_` separators, with a separator never first, last or
//! doubled. A source-chain address is exactly 20 bytes, usually written as
//! 40 hex digits.

use vstd::prelude::*;

use crate::bytesutil::{clone_bytes, copy_slice};
use crate::hexcodec::{hex_decode, is_hex_digit, hex_val};

verus! {

/// True of bytes allowed between separators: `a`-`z` and `0`-`9`.
pub open spec fn is_account_alnum(b: u8) -> bool {
    (97 <= b <= 122) || (48 <= b <= 57)
}

/// True of the separator bytes `-`, `_` and `.`.
pub open spec fn is_account_separator(b: u8) -> bool {
    b == 45 || b == 95 || b == 46
}

/// Well-formedness of an account identifier, byte for byte.
pub open spec fn valid_account_bytes(s: Seq<u8>) -> bool {
    &&& 2 <= s.len() <= 64
    &&& forall|i: int|
        0 <= i < s.len() ==> (is_account_alnum(s[i]) || is_account_separator(s[i]))
    &&& !is_account_separator(s[0])
    &&& !is_account_separator(s[s.len() - 1])
    &&& forall|i: int|
        0 < i < s.len() ==> !(#[trigger] is_account_separator(s[i]) && is_account_separator(
            s[i - 1],
        ))
}

/// A validated destination-ledger account identifier.
#[derive(Debug)]
pub struct AccountId {
    bytes: Vec<u8>,
}

impl View for AccountId {
    type V = Seq<u8>;

    closed spec fn view(&self) -> Seq<u8> {
        self.bytes@
    }
}

impl Clone for AccountId {
    fn clone(&self) -> (r: Self)
        ensures
            r@ == self@,
    {
        AccountId { bytes: clone_bytes(&self.bytes) }
    }
}

impl AccountId {
    /// Every constructed identifier satisfies `valid_account_bytes`.
    pub open spec fn wf(&self) -> bool {
        valid_account_bytes(self@)
    }

    /// Validates `b` and wraps it; fails exactly when `b` breaks a rule of
    /// `valid_account_bytes`.
    pub fn try_from(b: &[u8]) -> (r: Result<AccountId, AccountIdError>)
        ensures
            r is Ok <==> valid_account_bytes(b@),
            r matches Ok(a) ==> a@ == b@ && a.wf(),
    {
        if b.len() < 2 || b.len() > 64 {
            return Err(AccountIdError);
        }
        let mut last_sep: bool = true;
        let mut i: usize = 0;
        while i < b.len()
            invariant
                0 <= i <= b@.len(),
                2 <= b@.len() <= 64,
                forall|j: int|
                    0 <= j < i ==> (is_account_alnum(b@[j]) || is_account_separator(b@[j])),
                i == 0 ==> last_sep,
                i > 0 ==> last_sep == is_account_separator(b@[i - 1]),
                i > 0 ==> !is_account_separator(b@[0]),
                forall|j: int|
                    0 < j < i ==> !(#[trigger] is_account_separator(b@[j])
                        && is_account_separator(b@[j - 1])),
            decreases b@.len() - i,
        {
            let c = b[i];
            let is_sep = c == 45 || c == 95 || c == 46;
            let is_ok = (97 <= c && c <= 122) || (48 <= c && c <= 57) || is_sep;
            if !is_ok {
                return Err(AccountIdError);
            }
            if is_sep && last_sep {
                return Err(AccountIdError);
            }
            last_sep = is_sep;
            i = i + 1;
        }
        if last_sep {
            return Err(AccountIdError);
        }
        Ok(AccountId { bytes: copy_slice(b) })
    }

    /// The identifier's bytes.
    pub fn as_bytes(&self) -> (r: &Vec<u8>)
        ensures
            r@ == self@,
    {
        &self.bytes
    }
}

/// Rejection of a malformed account identifier.
#[derive(Clone, Copy, Debug, PartialEq, Eq, Structural)]
pub struct AccountIdError;

/// Rejection of a malformed source-chain address string.
#[derive(Clone, Copy, Debug, PartialEq, Eq, Structural)]
pub enum AddressValidationError {
    FailedDecodeHex,
    IncorrectLength,
}

/// A 20-byte source-chain address.
#[derive(Debug)]
pub struct EthAddress {
    bytes: Vec<u8>,
}

impl View for EthAddress {
    type V = Seq<u8>;

    closed spec fn view(&self) -> Seq<u8> {
        self.bytes@
    }
}

impl Clone for EthAddress {
    fn clone(&self) -> (r: Self)
        ensures
            r@ == self@,
    {
        EthAddress { bytes: clone_bytes(&self.bytes) }
    }
}

impl EthAddress {
    /// An address always holds exactly 20 bytes.
    pub open spec fn wf(&self) -> bool {
        self@.len() == 20
    }

    /// Wraps 20 raw bytes.
    pub fn from_bytes(b: &[u8]) -> (r: EthAddress)
        requires
            b@.len() == 20,
        ensures
            r@ == b@ && r.wf(),
    {
        EthAddress { bytes: copy_slice(b) }
    }

    /// The address bytes.
    pub fn as_bytes(&self) -> (r: &Vec<u8>)
        ensures
            r@ == self@,
    {
        &self.bytes
    }
}

/// True when `s` is 40 hex-digit bytes, the written form of a 20-byte
/// address.
pub open spec fn valid_hex_address(s: Seq<u8>) -> bool {
    s.len() == 40 && forall|i: int| 0 <= i < s.len() ==> is_hex_digit(s[i])
}

/// The 20 bytes that 40 hex digits denote.
pub open spec fn decoded_hex_address(s: Seq<u8>) -> Seq<u8> {
    Seq::new(20, |i: int| (16 * hex_val(s[2 * i]) + hex_val(s[2 * i + 1])) as u8)
}

/// Decodes a hex-written address, failing rather than accepting any string
/// that is not exactly 40 hex digits.
pub fn validate_eth_address(address: &[u8]) -> (r: Result<EthAddress, AddressValidationError>)
    ensures
        r is Ok <==> valid_hex_address(address@),
        r matches Ok(a) ==> a.wf() && a@ == decoded_hex_address(address@),
        r is Err ==> (r matches Err(e) && (e == AddressValidationError::FailedDecodeHex <==> !(
        address@.len() % 2 == 0 && forall|i: int|
            0 <= i < address@.len() ==> is_hex_digit(address@[i])))),
{
    match hex_decode(address) {
        None => Err(AddressValidationError::FailedDecodeHex),
        Some(data) => {
            if data.len() != 20 {
                Err(AddressValidationError::IncorrectLength)
            } else {
                assert(data@ =~= decoded_hex_address(address@));
                Ok(EthAddress { bytes: data })
            }
        },
    }
}

} // verus!

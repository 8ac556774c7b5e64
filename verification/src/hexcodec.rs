//! Hexadecimal encoding and decoding, used for the routing payload and the
//! forwarding address. The byte-level work is done by the `hex` crate; the
//! contracts here state its behaviour exactly.

use vstd::prelude::*;

verus! {

/// Lowercase hex digit for a value below 16.
pub open spec fn hex_digit(n: int) -> u8 {
    if n < 10 {
        (48 + n) as u8
    } else {
        (87 + n) as u8
    }
}

/// Lowercase hex encoding of a byte sequence: two digits per byte,
/// high nibble first.
pub open spec fn hex_of(b: Seq<u8>) -> Seq<u8> {
    Seq::new(
        b.len() * 2,
        |i: int|
            if i % 2 == 0 {
                hex_digit((b[i / 2] / 16) as int)
            } else {
                hex_digit((b[i / 2] % 16) as int)
            },
    )
}

/// True of ASCII bytes that are hex digits in either case.
pub open spec fn is_hex_digit(c: u8) -> bool {
    (48 <= c <= 57) || (97 <= c <= 102) || (65 <= c <= 70)
}

/// Numeric value of a hex digit byte.
pub open spec fn hex_val(c: u8) -> int {
    if 48 <= c <= 57 {
        c - 48
    } else if 97 <= c <= 102 {
        c - 87
    } else {
        c - 55
    }
}

/// Relies on `hex::encode`: two lowercase digits for each input byte,
/// high nibble first.
#[verifier::external_body]
pub(crate) fn hex_encode(b: &[u8]) -> (r: Vec<u8>)
    ensures
        r@ == hex_of(b@),
{
    hex::encode(b).into_bytes()
}

/// Relies on `hex::decode`: succeeds exactly on even-length sequences of
/// hex-digit bytes (either case) and returns the decoded bytes.
#[verifier::external_body]
pub(crate) fn hex_decode(s: &[u8]) -> (r: Option<Vec<u8>>)
    ensures
        r is Some <==> (s@.len() % 2 == 0 && forall|i: int|
            0 <= i < s@.len() ==> is_hex_digit(s@[i])),
        r matches Some(v) ==> v@.len() == s@.len() / 2 && forall|i: int|
            0 <= i < v@.len() ==> v@[i] == 16 * hex_val(s@[2 * i]) + hex_val(s@[2 * i + 1]),
{
    hex::decode(s).ok()
}

} // verus!

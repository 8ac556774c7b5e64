//! A 256-bit unsigned magnitude built from two 128-bit halves, with checked
//! arithmetic and the canonical 32-byte big-endian encoding.

use vstd::prelude::*;
use vstd::arithmetic::div_mod::{lemma_fundamental_div_mod, lemma_div_denominator};

use crate::balance::BalanceOverflowError;

verus! {

/// 2^64.
pub open spec fn p64() -> nat {
    0x1_0000_0000_0000_0000
}

/// 2^128.
pub open spec fn p128() -> nat {
    0x1_0000_0000_0000_0000_0000_0000_0000_0000nat
}

/// 2^256.
pub open spec fn p256() -> nat {
    p128() * p128()
}

/// 256^n.
pub open spec fn pow256(n: nat) -> nat
    decreases n,
{
    if n == 0 {
        1
    } else {
        256 * pow256((n - 1) as nat)
    }
}

/// The number a byte sequence denotes in big-endian base 256.
pub open spec fn be_val(s: Seq<u8>) -> nat
    decreases s.len(),
{
    if s.len() == 0 {
        0
    } else {
        (be_val(s.drop_last()) * 256 + s.last()) as nat
    }
}

/// A big-endian number is below 256 to the power of its length.
pub proof fn lemma_be_val_bound(s: Seq<u8>)
    ensures
        be_val(s) < pow256(s.len()),
    decreases s.len(),
{
    if s.len() > 0 {
        lemma_be_val_bound(s.drop_last());
    }
}

/// Concatenation shifts the left part by the length of the right part.
pub proof fn lemma_be_val_concat(a: Seq<u8>, b: Seq<u8>)
    ensures
        be_val(a + b) == be_val(a) * pow256(b.len()) + be_val(b),
    decreases b.len(),
{
    if b.len() == 0 {
        assert(a + b =~= a);
        assert(pow256(0) == 1);
        assert(be_val(a) * 1 == be_val(a)) by (nonlinear_arith);
    } else {
        let n = b.len();
        lemma_be_val_concat(a, b.drop_last());
        assert((a + b).drop_last() =~= a + b.drop_last());
        assert((a + b).last() == b.last());
        assert(be_val(a + b) == be_val(a + b.drop_last()) * 256 + b.last());
        assert(be_val(a + b) == (be_val(a) * pow256((n - 1) as nat) + be_val(b.drop_last())) * 256
            + b.last());
        assert((be_val(a) * pow256((n - 1) as nat) + be_val(b.drop_last())) * 256 == be_val(a)
            * pow256((n - 1) as nat) * 256 + be_val(b.drop_last()) * 256) by (nonlinear_arith);
        assert(be_val(a) * pow256((n - 1) as nat) * 256 == be_val(a) * pow256(n))
            by (nonlinear_arith)
            requires
                pow256(n) == 256 * pow256((n - 1) as nat),
        ;
        assert(be_val(b) == be_val(b.drop_last()) * 256 + b.last());
        assert(be_val(a + b) == be_val(a) * pow256(n) + be_val(b));
    }
}

/// A 256-bit unsigned magnitude.
#[derive(Clone, Copy, Debug, PartialEq, Eq, Structural)]
pub struct U256 {
    pub hi: u128,
    pub lo: u128,
}

impl U256 {
    /// The number this value denotes.
    pub open spec fn val(self) -> nat {
        (self.lo + self.hi * p128()) as nat
    }

    /// The zero magnitude.
    pub fn zero() -> (r: U256)
        ensures
            r.val() == 0,
    {
        U256 { hi: 0, lo: 0 }
    }

    /// Widens a `u128`.
    pub fn from_u128(v: u128) -> (r: U256)
        ensures
            r.val() == v,
    {
        U256 { hi: 0, lo: v }
    }

    /// Widens a `u64`.
    pub fn from_u64(v: u64) -> (r: U256)
        ensures
            r.val() == v,
    {
        U256 { hi: 0, lo: v as u128 }
    }

    /// True exactly of the zero magnitude.
    pub fn is_zero(&self) -> (r: bool)
        ensures
            r <==> self.val() == 0,
    {
        proof {
            if self.hi > 0 {
                assert(self.hi * p128() >= p128()) by (nonlinear_arith)
                    requires
                        self.hi >= 1,
                ;
            }
        }
        self.hi == 0 && self.lo == 0
    }

    /// Addition that reports overflow instead of wrapping.
    pub fn checked_add(self, rhs: Self) -> (r: Option<U256>)
        ensures
            r is Some <==> self.val() + rhs.val() < p256(),
            r matches Some(s) ==> s.val() == self.val() + rhs.val(),
    {
        let (lo, carry): (u128, u128) = match self.lo.checked_add(rhs.lo) {
            Some(l) => (l, 0),
            None => ((self.lo - (u128::MAX - rhs.lo)) - 1, 1),
        };
        assert(lo + carry * p128() == self.lo + rhs.lo);
        let r = match self.hi.checked_add(rhs.hi) {
            None => None,
            Some(h) => match h.checked_add(carry as u128) {
                None => None,
                Some(h2) => Some(U256 { hi: h2, lo }),
            },
        };
        proof {
            let a = self.val() as int;
            let b = rhs.val() as int;
            assert((self.hi + rhs.hi + carry) * p128() == self.hi * p128() + rhs.hi * p128()
                + carry * p128()) by (nonlinear_arith);
            if self.hi + rhs.hi + carry <= u128::MAX {
                assert((self.hi + rhs.hi + carry) * p128() <= (u128::MAX as int) * p128())
                    by (nonlinear_arith)
                    requires
                        self.hi + rhs.hi + carry <= u128::MAX,
                ;
            } else {
                assert((self.hi + rhs.hi + carry) * p128() >= p128() * p128())
                    by (nonlinear_arith)
                    requires
                        self.hi + rhs.hi + carry >= u128::MAX + 1,
                ;
            }
        }
        r
    }

    /// Subtraction that reports underflow instead of wrapping.
    pub fn checked_sub(self, rhs: Self) -> (r: Option<U256>)
        ensures
            r is Some <==> rhs.val() <= self.val(),
            r matches Some(d) ==> d.val() == self.val() - rhs.val(),
    {
        let (lo, borrow): (u128, u128) = if self.lo >= rhs.lo {
            (self.lo - rhs.lo, 0)
        } else {
            ((self.lo + (u128::MAX - rhs.lo)) + 1, 1)
        };
        assert(lo == self.lo - rhs.lo + borrow * p128());
        let r = match self.hi.checked_sub(rhs.hi) {
            None => None,
            Some(h) => match h.checked_sub(borrow as u128) {
                None => None,
                Some(h2) => Some(U256 { hi: h2, lo }),
            },
        };
        proof {
            if self.hi >= rhs.hi + borrow {
                assert((self.hi - rhs.hi - borrow) * p128() == self.hi * p128() - rhs.hi * p128()
                    - borrow * p128()) by (nonlinear_arith);
            } else {
                assert(self.hi * p128() + p128() <= rhs.hi * p128() + borrow * p128())
                    by (nonlinear_arith)
                    requires
                        self.hi + 1 <= rhs.hi + borrow,
                ;
            }
        }
        r
    }

    /// Multiplication by a 64-bit factor that reports overflow instead of
    /// wrapping.
    pub fn checked_mul_u64(self, m: u64) -> (r: Option<U256>)
        ensures
            r is Some <==> self.val() * m < p256(),
            r matches Some(s) ==> s.val() == self.val() * m,
    {
        let pp: u128 = 0x1_0000_0000_0000_0000;
        let ll: u128 = self.lo % pp;
        let lh: u128 = self.lo / pp;
        let hl: u128 = self.hi % pp;
        let hh: u128 = self.hi / pp;
        let mm: u128 = m as u128;
        proof {
            lemma_fundamental_div_mod(self.lo as int, pp as int);
            lemma_fundamental_div_mod(self.hi as int, pp as int);
            assert(ll * mm < p64() * p64() && lh * mm < p64() * p64() && hl * mm < p64() * p64()
                && hh * mm < p64() * p64() && lh * mm <= (p64() - 1) * (p64() - 1) && hl * mm <= (
            p64() - 1) * (p64() - 1) && hh * mm <= (p64() - 1) * (p64() - 1))
                by (nonlinear_arith)
                requires
                    ll < p64() && lh < p64() && hl < p64() && hh < p64() && mm < p64(),
            ;
        }
        let p0: u128 = ll * mm;
        let p1: u128 = lh * mm;
        let p2: u128 = hl * mm;
        let p3: u128 = hh * mm;
        let c1: u128 = p0 / pp;
        let d0: u128 = p0 % pp;
        proof {
            lemma_fundamental_div_mod(p0 as int, pp as int);
            assert(p64() * c1 <= p0);
            assert(c1 < p64()) by (nonlinear_arith)
                requires
                    p64() * c1 <= p0,
                    p0 < p64() * p64(),
            ;
        
            assert(p1 + c1 < p128()) by (nonlinear_arith)
                requires
                    p1 <= (p64() - 1) * (p64() - 1),
                    c1 < p64(),
                    p128() == p64() * p64(),
            ;
        }
        let t1: u128 = p1 + c1;
        let c2: u128 = t1 / pp;
        let d1: u128 = t1 % pp;
        proof {
            lemma_fundamental_div_mod(t1 as int, pp as int);
            assert(p64() * c2 <= t1);
            assert(c2 < p64()) by (nonlinear_arith)
                requires
                    p64() * c2 <= t1,
                    t1 < p64() * p64(),
            ;
        
            assert(p2 + c2 < p128()) by (nonlinear_arith)
                requires
                    p2 <= (p64() - 1) * (p64() - 1),
                    c2 < p64(),
                    p128() == p64() * p64(),
            ;
        }
        let t2: u128 = p2 + c2;
        let c3: u128 = t2 / pp;
        let d2: u128 = t2 % pp;
        proof {
            lemma_fundamental_div_mod(t2 as int, pp as int);
            assert(p64() * c3 <= t2);
            assert(c3 < p64()) by (nonlinear_arith)
                requires
                    p64() * c3 <= t2,
                    t2 < p64() * p64(),
            ;
        
            assert(p3 + c3 < p128()) by (nonlinear_arith)
                requires
                    p3 <= (p64() - 1) * (p64() - 1),
                    c3 < p64(),
                    p128() == p64() * p64(),
            ;
        }
        let t3: u128 = p3 + c3;
        let c4: u128 = t3 / pp;
        let d3: u128 = t3 % pp;
        proof {
            lemma_fundamental_div_mod(p0 as int, pp as int);
            lemma_fundamental_div_mod(t1 as int, pp as int);
            lemma_fundamental_div_mod(t2 as int, pp as int);
            lemma_fundamental_div_mod(t3 as int, pp as int);
            let big: int = self.val() * m;
            assert(big == p0 + p1 * p64() + p2 * p128() + p3 * p64() * p128())
                by (nonlinear_arith)
                requires
                    big == ((self.lo + self.hi * p128()) as nat) * m,
                    self.lo == ll + lh * p64(),
                    self.hi == hl + hh * p64(),
                    p0 == ll * mm,
                    p1 == lh * mm,
                    p2 == hl * mm,
                    p3 == hh * mm,
                    mm == m,
                    p128() == p64() * p64(),
            ;
            assert(big == d0 + d1 * p64() + d2 * p128() + d3 * p64() * p128() + c4 * p128()
                * p128()) by (nonlinear_arith)
                requires
                    big == p0 + p1 * p64() + p2 * p128() + p3 * p64() * p128(),
                    p0 == c1 * p64() + d0,
                    t1 == p1 + c1 && t1 == c2 * p64() + d1,
                    t2 == p2 + c2 && t2 == c3 * p64() + d2,
                    t3 == p3 + c3 && t3 == c4 * p64() + d3,
                    p128() == p64() * p64(),
            ;
            if c4 == 0 {
                assert(d0 + d1 * p64() < p128() && d2 + d3 * p64() < p128())
                    by (nonlinear_arith)
                    requires
                        d0 < p64() && d1 < p64() && d2 < p64() && d3 < p64(),
                        p128() == p64() * p64(),
                ;
                assert((d0 + d1 * p64()) + (d2 + d3 * p64()) * p128() == big);
                assert(big < p256()) by (nonlinear_arith)
                    requires
                        big == (d0 + d1 * p64()) + (d2 + d3 * p64()) * p128(),
                        d0 + d1 * p64() < p128() && d2 + d3 * p64() < p128(),
                        p256() == p128() * p128(),
                ;
            } else {
                assert(big >= p256()) by (nonlinear_arith)
                    requires
                        big == d0 + d1 * p64() + d2 * p128() + d3 * p64() * p128() + c4 * p128()
                            * p128(),
                        c4 >= 1,
                        d0 >= 0 && d1 >= 0 && d2 >= 0 && d3 >= 0,
                        p64() >= 0,
                        p256() == p128() * p128(),
                ;
            }
        }
        if c4 != 0 {
            None
        } else {
            Some(U256 { hi: d2 + d3 * pp, lo: d0 + d1 * pp })
        }
    }

    /// Narrows to 128 bits, failing rather than truncating when the value
    /// does not fit.
    pub fn try_into_u128(self) -> (r: Result<u128, BalanceOverflowError>)
        ensures
            r is Ok <==> self.val() < p128(),
            r matches Ok(v) ==> v == self.val(),
    {
        proof {
            if self.hi > 0 {
                assert(self.hi * p128() >= p128()) by (nonlinear_arith)
                    requires
                        self.hi >= 1,
                ;
            }
        }
        if self.hi == 0 {
            Ok(self.lo)
        } else {
            Err(BalanceOverflowError)
        }
    }

    /// Two magnitudes denoting the same number are the same value.
    pub proof fn lemma_val_injective(a: U256, b: U256)
        requires
            a.val() == b.val(),
        ensures
            a == b,
    {
        assert(a.lo == b.lo && a.hi == b.hi) by (nonlinear_arith)
            requires
                a.lo + a.hi * p128() == b.lo + b.hi * p128(),
                0 <= a.lo < p128() && 0 <= b.lo < p128(),
                a.hi >= 0 && b.hi >= 0,
        ;
    }

    /// The canonical 32-byte big-endian encoding.
    pub fn to_be_bytes(self) -> (r: Vec<u8>)
        ensures
            r@.len() == 32,
            be_val(r@) == self.val(),
    {
        let mut out = u128_be_bytes(self.hi);
        let lo_bytes = u128_be_bytes(self.lo);
        let ghost hi_part = out@;
        let mut i: usize = 0;
        while i < 16
            invariant
                lo_bytes@.len() == 16,
                out@ == hi_part + lo_bytes@.subrange(0, i as int),
                0 <= i <= 16,
            decreases 16 - i,
        {
            out.push(lo_bytes[i]);
            assert(out@ =~= hi_part + lo_bytes@.subrange(0, i + 1));
            i = i + 1;
        }
        proof {
            assert(out@ =~= hi_part + lo_bytes@);
            lemma_be_val_concat(hi_part, lo_bytes@);
            assert(pow256(16) == p128()) by {
                reveal_with_fuel(pow256, 17);
            }
            assert(self.hi * p128() == p128() * self.hi) by (nonlinear_arith);
        }
        out
    }

    /// Reads the 32-byte big-endian encoding.
    pub fn from_be_bytes(b: &[u8]) -> (r: U256)
        requires
            b@.len() == 32,
        ensures
            r.val() == be_val(b@),
    {
        let hi = be_bytes16_to_u128(&b[0..16]);
        let lo = be_bytes16_to_u128(&b[16..32]);
        proof {
            assert(b@ =~= b@.subrange(0, 16) + b@.subrange(16, 32));
            lemma_be_val_concat(b@.subrange(0, 16), b@.subrange(16, 32));
            assert(pow256(16) == p128()) by {
                reveal_with_fuel(pow256, 17);
            }
            assert(be_val(b@.subrange(0, 16)) * p128() == hi * p128()) by (nonlinear_arith)
                requires
                    be_val(b@.subrange(0, 16)) == hi,
            ;
        }
        U256 { hi, lo }
    }
}

/// The 16-byte big-endian encoding of a number below 2^128, digit by digit.
pub open spec fn be_bytes16(v: nat) -> Seq<u8> {
    Seq::new(16, |i: int| ((v / pow256((15 - i) as nat)) % 256) as u8)
}

/// The 16-byte big-endian encoding of a `u128`.
pub fn u128_be_bytes(v: u128) -> (r: Vec<u8>)
    ensures
        r@.len() == 16,
        be_val(r@) == v,
        r@ == be_bytes16(v as nat),
{
    let mut out: Vec<u8> = Vec::new();
    let mut d: u128 = 0x100_0000_0000_0000_0000_0000_0000_0000;
    let mut i: usize = 0;
    proof {
        assert(pow256(15) == 0x100_0000_0000_0000_0000_0000_0000_0000 && pow256(16) == p128())
            by {
            reveal_with_fuel(pow256, 17);
        }
    }
    proof {
        vstd::arithmetic::div_mod::lemma_basic_div(v as int, pow256(16) as int);
    }
    while i < 16
        invariant
            0 <= i <= 16,
            out@.len() == i,
            i < 16 ==> d == pow256((15 - i) as nat),
            be_val(out@) == v as nat / pow256((16 - i) as nat),
            forall|j: int| 0 <= j < i ==> out@[j] == be_bytes16(v as nat)[j],
        decreases 16 - i,
    {
        let ghost n: nat = (15 - i) as nat;
        proof {
            lemma_pow256_increases(0, n);
            assert(d > 0);
        }
        let digit: u8 = ((v / d) % 256) as u8;
        proof {
            lemma_div_denominator(v as int, pow256(n) as int, 256);
            assert(pow256(n) * 256 == 256 * pow256(n)) by (nonlinear_arith);
            assert(pow256(n + 1) == 256 * pow256(n));
            assert((v as nat / pow256(n + 1)) as int == (v as int / pow256(n) as int) / 256);
            lemma_fundamental_div_mod((v as nat / pow256(n)) as int, 256);
        }
        let ghost prev = out@;
        out.push(digit);
        proof {
            assert(out@.drop_last() =~= prev);
            assert(be_val(out@) == be_val(prev) * 256 + digit);
            assert(be_val(out@) == v as nat / pow256(n));
        }
        if i < 15 {
            proof {
                assert(pow256((15 - i) as nat) == 256 * pow256((14 - i) as nat));
                assert((256 * pow256((14 - i) as nat)) / 256 == pow256((14 - i) as nat))
                    by (nonlinear_arith)
                    requires
                        pow256((14 - i) as nat) >= 0,
                ;
            }
            d = d / 256;
        } else {
            d = 0;
        }
        i = i + 1;
    }
    proof {
        assert(pow256(0) == 1);
        assert(v as nat / 1nat == v as nat);
        assert(out@ =~= be_bytes16(v as nat));
    }
    out
}

/// Reads a 16-byte big-endian encoding into a `u128`.
pub fn be_bytes16_to_u128(b: &[u8]) -> (r: u128)
    requires
        b@.len() == 16,
    ensures
        r == be_val(b@),
{
    proof {
        assert(pow256(16) == p128()) by {
            reveal_with_fuel(pow256, 17);
        }
    }
    let mut acc: u128 = 0;
    let mut i: usize = 0;
    while i < 16
        invariant
            0 <= i <= 16,
            b@.len() == 16,
            acc == be_val(b@.subrange(0, i as int)),
            acc < pow256(i as nat),
            pow256(16) == p128(),
        decreases 16 - i,
    {
        proof {
            lemma_be_val_bound(b@.subrange(0, i as int));
            assert(pow256((i + 1) as nat) == 256 * pow256(i as nat));
            assert(acc * 256 + 255 < 256 * pow256(i as nat)) by (nonlinear_arith)
                requires
                    acc < pow256(i as nat),
            ;
            assert(256 * pow256(i as nat) <= pow256(16)) by {
                lemma_pow256_increases((i + 1) as nat, 16);
            }
            assert(b@.subrange(0, (i + 1) as int).drop_last() =~= b@.subrange(0, i as int));
        }
        acc = acc * 256 + (b[i] as u128);
        i = i + 1;
    }
    assert(b@.subrange(0, 16) =~= b@);
    acc
}

/// Law: the narrowing conversion inverts the wide encoding of any 128-bit
/// magnitude. A 256-bit value whose magnitude equals `a` — such as the one
/// decoded from the 32-byte big-endian encoding of `a` — is exactly `a`
/// widened, so narrowing it back yields `a` and never a truncation.
pub proof fn lemma_narrowing_round_trip(a: u128, x: U256)
    requires
        x.val() == a,
    ensures
        x.hi == 0 && x.lo == a,
{
    if x.hi > 0 {
        assert(x.hi * p128() >= p128()) by (nonlinear_arith)
            requires
                x.hi >= 1,
        ;
    }
}

/// An all-zero byte string denotes zero.
pub proof fn lemma_be_val_all_zero(s: Seq<u8>)
    requires
        forall|j: int| 0 <= j < s.len() ==> s[j] == 0,
    ensures
        be_val(s) == 0,
    decreases s.len(),
{
    if s.len() > 0 {
        lemma_be_val_all_zero(s.drop_last());
    }
}

/// A string denoting zero is all zero bytes.
pub proof fn lemma_be_val_zero_all(s: Seq<u8>)
    requires
        be_val(s) == 0,
    ensures
        forall|j: int| 0 <= j < s.len() ==> s[j] == 0,
    decreases s.len(),
{
    if s.len() > 0 {
        assert(be_val(s.drop_last()) == 0 && s.last() == 0);
        lemma_be_val_zero_all(s.drop_last());
        assert forall|j: int| 0 <= j < s.len() implies s[j] == 0 by {
            if j < s.len() - 1 {
                assert(s.drop_last()[j] == 0);
            }
        }
    }
}

/// A value too small for the tail alone forces the leading bytes to zero.
pub proof fn lemma_be_val_small_zeros(s: Seq<u8>, k: int)
    requires
        0 <= k <= s.len(),
        be_val(s) < pow256((s.len() - k) as nat),
    ensures
        forall|j: int| 0 <= j < k ==> s[j] == 0,
{
    assert(s =~= s.take(k) + s.skip(k));
    lemma_be_val_concat(s.take(k), s.skip(k));
    if be_val(s.take(k)) >= 1 {
        assert(be_val(s.take(k)) * pow256(s.skip(k).len()) >= pow256(s.skip(k).len()))
            by (nonlinear_arith)
            requires
                be_val(s.take(k)) >= 1,
                pow256(s.skip(k).len()) >= 0,
        ;
        assert(false);
    }
    lemma_be_val_zero_all(s.take(k));
    assert forall|j: int| 0 <= j < k implies s[j] == 0 by {
        assert(s.take(k)[j] == 0);
    }
}

/// Equal values of equal length have equal bytes.
pub proof fn lemma_be_val_inj(s1: Seq<u8>, s2: Seq<u8>)
    requires
        s1.len() == s2.len(),
        be_val(s1) == be_val(s2),
    ensures
        s1 == s2,
    decreases s1.len(),
{
    if s1.len() > 0 {
        let v = be_val(s1);
        assert(v == be_val(s1.drop_last()) * 256 + s1.last());
        assert(v == be_val(s2.drop_last()) * 256 + s2.last());
        assert(be_val(s1.drop_last()) == be_val(s2.drop_last()) && s1.last() == s2.last())
            by (nonlinear_arith)
            requires
                be_val(s1.drop_last()) * 256 + s1.last() == be_val(s2.drop_last()) * 256
                    + s2.last(),
                0 <= s1.last() < 256,
                0 <= s2.last() < 256,
                be_val(s1.drop_last()) >= 0,
                be_val(s2.drop_last()) >= 0,
        ;
        lemma_be_val_inj(s1.drop_last(), s2.drop_last());
        assert(s1 =~= s1.drop_last().push(s1.last()));
        assert(s2 =~= s2.drop_last().push(s2.last()));
    } else {
        assert(s1 =~= s2);
    }
}

/// Leading zero bytes do not change the value.
pub proof fn lemma_be_val_leading_zeros(s: Seq<u8>, k: int)
    requires
        0 <= k <= s.len(),
        forall|j: int| 0 <= j < k ==> s[j] == 0,
    ensures
        be_val(s) == be_val(s.skip(k)),
{
    assert(s =~= s.take(k) + s.skip(k));
    lemma_be_val_concat(s.take(k), s.skip(k));
    lemma_be_val_all_zero(s.take(k));
}

/// 256^m divides into 256^n when m is at most n.
pub proof fn lemma_pow256_increases(m: nat, n: nat)
    requires
        m <= n,
    ensures
        pow256(m) <= pow256(n),
    decreases n,
{
    if m < n {
        lemma_pow256_increases(m, (n - 1) as nat);
        assert(pow256((n - 1) as nat) <= 256 * pow256((n - 1) as nat)) by (nonlinear_arith)
            requires
                pow256((n - 1) as nat) >= 0,
        ;
    }
}

} // verus!

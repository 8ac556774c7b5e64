//! Event schema matcher: holds a decoded log record against a named event's
//! ordered parameter schema and produces the typed parameter values.
//!
//! Indexed parameters are matched against the topic hashes in order, after
//! the event-signature topic; non-indexed parameters are decoded from the
//! data bytes under the ABI head/tail layout, accepted only in its canonical
//! form (sequential offsets, zero padding, nothing left over).

use vstd::prelude::*;

use crate::account::EthAddress;
use crate::bytesutil::{all_zero, copy_slice, eq_bytes};
use crate::deposit_event::DecodeError;
use crate::rlp_log::{
    decode_log_entry, log_decodable, rlp_log_encoding, topics_view, wf_log_shape, DecodedLog,
};
use crate::u256::{
    be_val, lemma_be_val_bound, lemma_be_val_leading_zeros, pow256, U256,
};

verus! {

/// ABI type of one event parameter, as far as this event family needs.
#[derive(Clone, Copy, Debug, PartialEq, Eq, Structural)]
pub enum ParamKind {
    Address,
    Str,
    Uint256,
}

/// A stable code for each parameter kind, used to name the event signature.
pub open spec fn kind_code(k: ParamKind) -> u8 {
    match k {
        ParamKind::Address => 0,
        ParamKind::Str => 1,
        ParamKind::Uint256 => 2,
    }
}

/// One parameter of an event schema.
#[derive(Debug)]
pub struct EventParam {
    pub name: String,
    pub kind: ParamKind,
    pub indexed: bool,
}

/// An event's ordered parameter schema.
pub type EventParams = Vec<EventParam>;

/// A decoded, typed parameter value.
#[derive(Debug)]
pub enum ParamValue {
    Addr(EthAddress),
    Uint(U256),
    Str(Vec<u8>),
}

impl ParamValue {
    /// The kind a value belongs to.
    pub open spec fn kind_of(&self) -> ParamKind {
        match self {
            ParamValue::Addr(_) => ParamKind::Address,
            ParamValue::Uint(_) => ParamKind::Uint256,
            ParamValue::Str(_) => ParamKind::Str,
        }
    }

    /// An address value always carries 20 bytes.
    pub open spec fn wf(&self) -> bool {
        match self {
            ParamValue::Addr(a) => a.wf(),
            _ => true,
        }
    }
}

/// The Keccak-256 hash of an event's canonical signature, a function of the
/// event name and its ordered parameter kinds alone.
pub uninterp spec fn long_signature_of(name: Seq<char>, kinds: Seq<u8>) -> Seq<u8>;

/// Relies on `ethabi::long_signature`: the Keccak-256 hash of the canonical
/// signature string built from the name and the parameter types, 32 bytes,
/// a function of its arguments alone.
#[verifier::external_body]
fn long_signature_bytes(name: &str, kinds: &Vec<ParamKind>) -> (r: Vec<u8>)
    ensures
        r@.len() == 32,
        r@ == long_signature_of(name@, kinds@.map_values(|k: ParamKind| kind_code(k))),
{
    let ps: Vec<ethabi::ParamType> = kinds
        .iter()
        .map(|k| match k {
            ParamKind::Address => ethabi::ParamType::Address,
            ParamKind::Str => ethabi::ParamType::String,
            ParamKind::Uint256 => ethabi::ParamType::Uint(256),
        })
        .collect();
    ethabi::long_signature(name, &ps).0.to_vec()
}

/// Values aligned 1:1 with the schema, kind by kind.
pub open spec fn values_match_schema(ps: Seq<EventParam>, vs: Seq<ParamValue>) -> bool {
    &&& vs.len() == ps.len()
    &&& forall|i: int| 0 <= i < ps.len() ==> (#[trigger] vs[i]).kind_of() == ps[i].kind
    &&& forall|i: int| 0 <= i < vs.len() ==> (#[trigger] vs[i]).wf()
}

/// The schema parameters with the given indexing, in order.
pub open spec fn select_params(ps: Seq<EventParam>, indexed: bool) -> Seq<EventParam>
    decreases ps.len(),
{
    if ps.len() == 0 {
        seq![]
    } else if ps.last().indexed == indexed {
        select_params(ps.drop_last(), indexed).push(ps.last())
    } else {
        select_params(ps.drop_last(), indexed)
    }
}

/// The values standing at the schema's parameters with the given indexing,
/// in order.
pub open spec fn select_values(ps: Seq<EventParam>, vs: Seq<ParamValue>, indexed: bool) -> Seq<
    ParamValue,
>
    decreases ps.len(),
{
    if ps.len() == 0 || vs.len() != ps.len() {
        seq![]
    } else if ps.last().indexed == indexed {
        select_values(ps.drop_last(), vs.drop_last(), indexed).push(vs.last())
    } else {
        select_values(ps.drop_last(), vs.drop_last(), indexed)
    }
}

/// A 32-byte topic carries an indexed static value: an address in its low
/// 20 bytes, a 256-bit integer whole.
pub open spec fn topic_encodes(t: Seq<u8>, v: ParamValue) -> bool {
    match v {
        ParamValue::Addr(a) => a@.len() == 20 && t.len() == 32 && be_val(t) == be_val(a@),
        ParamValue::Uint(u) => t.len() == 32 && be_val(t) == u.val(),
        ParamValue::Str(_) => false,
    }
}

/// Bytes a tail chunk occupies: nothing for a static value, a length word
/// plus the padded payload for a string.
pub open spec fn tail_size(v: ParamValue) -> nat {
    match v {
        ParamValue::Str(s) => 32 + pad32(s@.len()),
        _ => 0,
    }
}

/// `n` rounded up to a multiple of 32.
pub open spec fn pad32(n: nat) -> nat {
    ((n + 31) / 32) * 32
}

/// Total tail bytes of a value list.
pub open spec fn total_tail(vs: Seq<ParamValue>) -> nat
    decreases vs.len(),
{
    if vs.len() == 0 {
        0
    } else {
        total_tail(vs.drop_last()) + tail_size(vs.last())
    }
}

/// Where the `i`-th value's tail chunk starts when the heads count `n`
/// words.
pub open spec fn abi_offset_at(vs: Seq<ParamValue>, n: nat, i: int) -> nat {
    32 * n + total_tail(vs.take(i))
}

/// The `i`-th head word (and tail chunk, for a string) stands for `vs[i]`
/// under the canonical layout with `n` head words.
pub open spec fn abi_head_ok(d: Seq<u8>, vs: Seq<ParamValue>, n: nat, i: int) -> bool {
    let w = d.subrange(32 * i, 32 * i + 32);
    match vs[i] {
        ParamValue::Uint(u) => be_val(w) == u.val(),
        ParamValue::Addr(a) => a@.len() == 20 && be_val(w) == be_val(a@),
        ParamValue::Str(s) => {
            let off = abi_offset_at(vs, n, i);
            &&& be_val(w) == off
            &&& off + 32 + pad32(s@.len()) <= d.len()
            &&& be_val(d.subrange(off as int, (off + 32) as int)) == s@.len()
            &&& d.subrange((off + 32) as int, (off + 32 + s@.len()) as int) == s@
            &&& forall|p: int|
                off + 32 + s@.len() <= p < off + 32 + pad32(s@.len()) ==> d[p] == 0
        },
    }
}

/// The data bytes are exactly the canonical ABI encoding of the value list.
pub open spec fn abi_data_wf(d: Seq<u8>, vs: Seq<ParamValue>) -> bool {
    &&& d.len() == 32 * vs.len() + total_tail(vs)
    &&& forall|i: int| 0 <= i < vs.len() ==> #[trigger] abi_head_ok(d, vs, vs.len(), i)
}

/// Two decoded values agree up to their views.
pub open spec fn value_view_eq(x: ParamValue, y: ParamValue) -> bool {
    match x {
        ParamValue::Addr(a) => (y matches ParamValue::Addr(b) && a@ == b@),
        ParamValue::Uint(u) => (y matches ParamValue::Uint(v) && u == v),
        ParamValue::Str(s) => (y matches ParamValue::Str(t) && s@ == t@),
    }
}

/// Two decoded value lists agree position by position up to their views.
pub open spec fn value_views_match(a: Seq<ParamValue>, b: Seq<ParamValue>) -> bool {
    a.len() == b.len() && forall|i: int| 0 <= i < a.len() ==> value_view_eq(#[trigger] a[i], b[i])
}

/// Some value list of these kinds encodes canonically to the data bytes.
pub open spec fn data_decodable(d: Seq<u8>, ks: Seq<ParamKind>) -> bool {
    exists|vs: Seq<ParamValue>|
        vs.len() == ks.len() && (forall|i: int|
            0 <= i < vs.len() ==> (#[trigger] vs[i]).kind_of() == ks[i]) && #[trigger] abi_data_wf(
            d,
            vs,
        )
}

/// Reads a 32-byte word that must hold a small number: the first 28 bytes
/// must be zero, the last 4 give the value.
fn read_abi_u32(w: &[u8]) -> (r: Option<u32>)
    requires
        w@.len() == 32,
    ensures
        r is Some <==> (forall|j: int| 0 <= j < 28 ==> w@[j] == 0),
        r matches Some(v) ==> v == be_val(w@),
{
    let mut j: usize = 0;
    while j < 28
        invariant
            0 <= j <= 28,
            w@.len() == 32,
            forall|p: int| 0 <= p < j ==> w@[p] == 0,
        decreases 28 - j,
    {
        if w[j] != 0 {
            return None;
        }
        j = j + 1;
    }
    let mut acc: u32 = 0;
    let mut i: usize = 28;
    proof {
        assert(pow256(4) == 0x1_0000_0000) by {
            reveal_with_fuel(pow256, 5);
        }
        assert(w@.subrange(28, 28) =~= Seq::<u8>::empty());
    }
    while i < 32
        invariant
            28 <= i <= 32,
            w@.len() == 32,
            acc == be_val(w@.subrange(28, i as int)),
            acc < pow256((i - 28) as nat),
            pow256(4) == 0x1_0000_0000,
        decreases 32 - i,
    {
        proof {
            lemma_be_val_bound(w@.subrange(28, i as int));
            assert(pow256((i - 28 + 1) as nat) == 256 * pow256((i - 28) as nat));
            assert(acc * 256 + 255 < 256 * pow256((i - 28) as nat)) by (nonlinear_arith)
                requires
                    acc < pow256((i - 28) as nat),
            ;
            crate::u256::lemma_pow256_increases((i - 28 + 1) as nat, 4);
            assert(w@.subrange(28, i + 1).drop_last() =~= w@.subrange(28, i as int));
        }
        acc = acc * 256 + (w[i] as u32);
        i = i + 1;
    }
    proof {
        lemma_be_val_leading_zeros(w@, 28);
        assert(w@.skip(28) =~= w@.subrange(28, 32));
    }
    Some(acc)
}

/// Decodes the data bytes against the non-indexed parameter kinds, accepting
/// only the canonical head/tail layout. Data blocks of 16 MiB or more — far
/// beyond any real record — are rejected outright; below that bound the
/// contract is an if-and-only-if, and the returned values are exactly the
/// ones encoded.
#[verifier::rlimit(100)]
pub fn decode_data(ks: &Vec<ParamKind>, data: &[u8]) -> (r: Result<Vec<ParamValue>, DecodeError>)
    ensures
        r matches Ok(vs) ==> {
            &&& vs@.len() == ks@.len()
            &&& forall|i: int| 0 <= i < vs@.len() ==> (#[trigger] vs@[i]).kind_of() == ks@[i]
            &&& forall|i: int| 0 <= i < vs@.len() ==> (#[trigger] vs@[i]).wf()
            &&& abi_data_wf(data@, vs@)
        },
        r is Err ==> r == Err::<Vec<ParamValue>, DecodeError>(DecodeError::SchemaMismatch),
        data@.len() < 0x100_0000 ==> (r is Ok <==> data_decodable(data@, ks@)),
        data@.len() < 0x100_0000 ==> forall|vsw: Seq<ParamValue>|
            (vsw.len() == ks@.len() && (forall|q: int|
                0 <= q < vsw.len() ==> (#[trigger] vsw[q]).kind_of() == ks@[q])
                && #[trigger] abi_data_wf(data@, vsw)) ==> (r matches Ok(vs)
                && value_views_match(vs@, vsw)),
{
    let n = ks.len();
    if data.len() >= 0x100_0000 {
        // no real record is this large
        return Err(DecodeError::SchemaMismatch);
    }
    if data.len() / 32 < n {
        proof {
            vstd::arithmetic::div_mod::lemma_fundamental_div_mod(data@.len() as int, 32);
            assert forall|vsw: Seq<ParamValue>|
                vsw.len() == ks@.len() && (forall|q: int|
                    0 <= q < vsw.len() ==> (#[trigger] vsw[q]).kind_of() == ks@[q])
                    && #[trigger] abi_data_wf(data@, vsw) implies false by {
                assert(data@.len() >= 32 * vsw.len());
            }
        }
        return Err(DecodeError::SchemaMismatch);
    }
    proof {
        vstd::arithmetic::div_mod::lemma_fundamental_div_mod(data@.len() as int, 32);
    }
    let mut vs: Vec<ParamValue> = Vec::new();
    let mut tail_pos: usize = 32 * n;
    let mut i: usize = 0;
    proof {
        assert(vs@.take(0) =~= Seq::<ParamValue>::empty());
        assert forall|vsw: Seq<ParamValue>|
            vsw.len() == ks@.len() && (forall|q: int|
                0 <= q < vsw.len() ==> (#[trigger] vsw[q]).kind_of() == ks@[q])
                && #[trigger] abi_data_wf(data@, vsw) implies (tail_pos == 32 * (n as nat)
            + total_tail(vsw.take(0)) && value_views_match(vs@, vsw.take(0))) by {
            assert(vsw.take(0) =~= Seq::<ParamValue>::empty());
            assert(total_tail(vsw.take(0)) == 0);
            assert(value_views_match(vs@, vsw.take(0)));
        }
    }
    while i < n
        invariant
            0 <= i <= n,
            n == ks@.len(),
            vs@.len() == i,
            data@.len() < 0x100_0000,
            32 * n <= data@.len(),
            tail_pos == 32 * n + total_tail(vs@),
            tail_pos <= data@.len(),
            forall|j: int| 0 <= j < i ==> (#[trigger] vs@[j]).kind_of() == ks@[j],
            forall|j: int| 0 <= j < i ==> (#[trigger] vs@[j]).wf(),
            forall|j: int| 0 <= j < i ==> #[trigger] abi_head_ok(data@, vs@, n as nat, j),
            forall|vsw: Seq<ParamValue>|
                (vsw.len() == ks@.len() && (forall|q: int|
                    0 <= q < vsw.len() ==> (#[trigger] vsw[q]).kind_of() == ks@[q])
                    && #[trigger] abi_data_wf(data@, vsw)) ==> (tail_pos == 32 * (n as nat)
                    + total_tail(vsw.take(i as int)) && value_views_match(vs@, vsw.take(i as int))),
        decreases n - i,
    {
        let hstart = 32 * i;
        assert(hstart + 32 <= 32 * n) by (nonlinear_arith)
            requires
                i < n,
                hstart == 32 * i,
        ;
        let ghost old_vs = vs@;
        let ghost tail0 = tail_pos;
        let k = ks[i];
        match k {
            ParamKind::Uint256 => {
                proof {
                    assert forall|vsw: Seq<ParamValue>|
                        vsw.len() == ks@.len() && (forall|q: int|
                            0 <= q < vsw.len() ==> (#[trigger] vsw[q]).kind_of() == ks@[q])
                            && #[trigger] abi_data_wf(data@, vsw) implies (vsw[i as int] matches
                        ParamValue::Uint(u)
                        && u.val() == be_val(data@.subrange(hstart as int, hstart + 32))) by {
                        assert(abi_head_ok(data@, vsw, vsw.len(), i as int));
                    }
                }
                let w = U256::from_be_bytes(&data[hstart..hstart + 32]);
                proof {
                    assert forall|vsw: Seq<ParamValue>|
                        vsw.len() == ks@.len() && (forall|q: int|
                            0 <= q < vsw.len() ==> (#[trigger] vsw[q]).kind_of() == ks@[q])
                            && #[trigger] abi_data_wf(data@, vsw) implies (vsw[i as int] matches
                        ParamValue::Uint(u)
                        && u == w) by {
                        let u = vsw[i as int]->Uint_0;
                        U256::lemma_val_injective(u, w);
                    }
                }
                vs.push(ParamValue::Uint(w));
            },
            ParamKind::Address => {
                proof {
                    assert forall|vsw: Seq<ParamValue>|
                        vsw.len() == ks@.len() && (forall|q: int|
                            0 <= q < vsw.len() ==> (#[trigger] vsw[q]).kind_of() == ks@[q])
                            && #[trigger] abi_data_wf(data@, vsw) implies (vsw[i as int] matches
                        ParamValue::Addr(aw)
                        && aw@ == data@.subrange(hstart + 12, hstart + 32) && (forall|p: int|
                        hstart <= p < hstart + 12 ==> data@[p] == 0)) by {
                        assert(abi_head_ok(data@, vsw, vsw.len(), i as int));
                        let aw = vsw[i as int]->Addr_0;
                        let w = data@.subrange(hstart as int, hstart + 32);
                        lemma_be_val_bound(aw@);
                        crate::u256::lemma_pow256_increases(20, 20);
                        crate::u256::lemma_be_val_small_zeros(w, 12);
                        lemma_be_val_leading_zeros(w, 12);
                        assert(w.skip(12) =~= data@.subrange(hstart + 12, hstart + 32));
                        crate::u256::lemma_be_val_inj(aw@, data@.subrange(hstart + 12, hstart + 32));
                        assert forall|p: int| hstart <= p < hstart + 12 implies data@[p] == 0 by {
                            assert(w[p - hstart] == 0);
                        }
                    }
                }
                if !all_zero(&data[hstart..hstart + 12]) {
                    return Err(DecodeError::SchemaMismatch);
                }
                let a = EthAddress::from_bytes(&data[hstart + 12..hstart + 32]);
                proof {
                    let w = data@.subrange(hstart as int, hstart + 32);
                    assert forall|p: int| 0 <= p < 12 implies w[p] == 0 by {
                        assert(data@.subrange(hstart as int, hstart + 12)[p] == 0);
                    }
                    lemma_be_val_leading_zeros(w, 12);
                    assert(w.skip(12) =~= data@.subrange(hstart + 12, hstart + 32));
                }
                vs.push(ParamValue::Addr(a));
            },
            ParamKind::Str => {
                proof {
                    assert(pow256(4) == 0x1_0000_0000) by {
                        reveal_with_fuel(pow256, 5);
                    }
                    assert forall|vsw: Seq<ParamValue>|
                        vsw.len() == ks@.len() && (forall|q: int|
                            0 <= q < vsw.len() ==> (#[trigger] vsw[q]).kind_of() == ks@[q])
                            && #[trigger] abi_data_wf(data@, vsw) implies (vsw[i as int] matches
                        ParamValue::Str(sw)
                        && be_val(data@.subrange(hstart as int, hstart + 32)) == tail0 && (forall|
                        p: int,
                    |
                        0 <= p < 28 ==> #[trigger] data@.subrange(hstart as int, hstart + 32)[p]
                            == 0)
                        && tail0 + 32 + pad32(sw@.len()) <= data@.len() && sw@.len() <= pad32(
                        sw@.len(),
                    ) && be_val(data@.subrange(tail0 as int, tail0 + 32)) == sw@.len() && (forall|
                        p: int,
                    |
                        0 <= p < 28 ==> #[trigger] data@.subrange(tail0 as int, tail0 + 32)[p]
                            == 0) && sw@
                        == data@.subrange(tail0 + 32, tail0 + 32 + sw@.len()) && (forall|p: int|
                        tail0 + 32 + sw@.len() <= p < tail0 + 32 + pad32(sw@.len()) ==> data@[p]
                            == 0)) by {
                        assert(abi_head_ok(data@, vsw, vsw.len(), i as int));
                        let sw = vsw[i as int]->Str_0;
                        let hw = data@.subrange(hstart as int, hstart + 32);
                        vstd::arithmetic::div_mod::lemma_fundamental_div_mod(
                            (sw@.len() + 31) as int,
                            32,
                        );
                        crate::u256::lemma_pow256_increases(3, 4);
                        assert(pow256(3) == 0x100_0000) by {
                            reveal_with_fuel(pow256, 4);
                        }
                        crate::u256::lemma_be_val_small_zeros(hw, 28);
                        let lw = data@.subrange(tail0 as int, tail0 + 32);
                        crate::u256::lemma_be_val_small_zeros(lw, 28);
                    }
                }
                let hw = &data[hstart..hstart + 32];
                let off = match read_abi_u32(hw) {
                    None => {
                        return Err(DecodeError::SchemaMismatch);
                    },
                    Some(v) => v,
                };
                if off as usize != tail_pos {
                    return Err(DecodeError::SchemaMismatch);
                }
                if data.len() - tail_pos < 32 {
                    return Err(DecodeError::SchemaMismatch);
                }
                let lw = &data[tail_pos..tail_pos + 32];
                let l32 = match read_abi_u32(lw) {
                    None => {
                        return Err(DecodeError::SchemaMismatch);
                    },
                    Some(v) => v,
                };
                if (l32 as usize) > data.len() - (tail_pos + 32) {
                    return Err(DecodeError::SchemaMismatch);
                }
                let slen = l32 as usize;
                let padded = ((slen + 31) / 32) * 32;
                proof {
                    vstd::arithmetic::div_mod::lemma_fundamental_div_mod((slen + 31) as int, 32);
                }
                if padded > data.len() - (tail_pos + 32) {
                    return Err(DecodeError::SchemaMismatch);
                }
                let s = copy_slice(&data[tail_pos + 32..tail_pos + 32 + slen]);
                if !all_zero(&data[tail_pos + 32 + slen..tail_pos + 32 + padded]) {
                    return Err(DecodeError::SchemaMismatch);
                }
                proof {
                    assert forall|p: int|
                        tail_pos + 32 + slen <= p < tail_pos + 32 + padded implies data@[p]
                        == 0 by {
                        assert(data@.subrange(
                            (tail_pos + 32 + slen) as int,
                            (tail_pos + 32 + padded) as int,
                        )[p - (tail_pos + 32 + slen)] == 0);
                    }
                }
                vs.push(ParamValue::Str(s));
                proof {
                    assert(pad32(slen as nat) == padded);
                }
                tail_pos = tail_pos + 32 + padded;
            },
        }
        proof {
            assert(vs@.drop_last() =~= old_vs);
            assert(vs@.take(i as int) =~= old_vs);
            assert(total_tail(vs@) == total_tail(old_vs) + tail_size(vs@.last()));
            assert forall|j: int| 0 <= j < i + 1 implies #[trigger] abi_head_ok(
                data@,
                vs@,
                n as nat,
                j,
            ) by {
                assert(vs@.take(j) =~= old_vs.take(j));
                if j < i {
                    assert(abi_head_ok(data@, old_vs, n as nat, j));
                    assert(vs@[j] == old_vs[j]);
                } else {
                    assert(vs@.take(j) =~= old_vs);
                }
            }
            assert forall|vsw: Seq<ParamValue>|
                (vsw.len() == ks@.len() && (forall|q: int|
                    0 <= q < vsw.len() ==> (#[trigger] vsw[q]).kind_of() == ks@[q])
                    && #[trigger] abi_data_wf(data@, vsw)) implies (tail_pos == 32 * (n as nat)
                + total_tail(vsw.take(i + 1)) && value_views_match(vs@, vsw.take(i + 1))) by {
                assert(vsw.take(i + 1).drop_last() =~= vsw.take(i as int));
                assert(vsw.take(i + 1).last() == vsw[i as int]);
                assert(total_tail(vsw.take(i + 1)) == total_tail(vsw.take(i as int)) + tail_size(
                    vsw[i as int],
                ));
                assert(value_view_eq(vs@.last(), vsw[i as int]));
                assert forall|j: int| 0 <= j < vs@.len() implies value_view_eq(
                    #[trigger] vs@[j],
                    vsw.take(i + 1)[j],
                ) by {
                    if j < i {
                        assert(value_view_eq(old_vs[j], vsw.take(i as int)[j]));
                        assert(vs@[j] == old_vs[j]);
                    }
                }
            }
        }
        i = i + 1;
    }
    if tail_pos != data.len() {
        proof {
            assert forall|vsw: Seq<ParamValue>|
                vsw.len() == ks@.len() && (forall|q: int|
                    0 <= q < vsw.len() ==> (#[trigger] vsw[q]).kind_of() == ks@[q])
                    && #[trigger] abi_data_wf(data@, vsw) implies false by {
                assert(vsw.take(n as int) =~= vsw);
            }
        }
        return Err(DecodeError::SchemaMismatch);
    }
    proof {
        assert(vs@.take(vs@.len() as int) =~= vs@);
        assert(abi_data_wf(data@, vs@));
        assert(data_decodable(data@, ks@));
        assert forall|vsw: Seq<ParamValue>|
            vsw.len() == ks@.len() && (forall|q: int|
                0 <= q < vsw.len() ==> (#[trigger] vsw[q]).kind_of() == ks@[q])
                && #[trigger] abi_data_wf(data@, vsw) implies value_views_match(vs@, vsw) by {
            assert(vsw.take(n as int) =~= vsw);
        }
    }
    Ok(vs)
}

/// The kinds of a schema's parameters, in order.
pub open spec fn kinds_of(ps: Seq<EventParam>) -> Seq<ParamKind> {
    ps.map_values(|p: EventParam| p.kind)
}

/// The kind codes of a schema's parameters, in order.
pub open spec fn kind_codes(ps: Seq<EventParam>) -> Seq<u8> {
    ps.map_values(|p: EventParam| kind_code(p.kind))
}

/// A prefix never selects more parameters than the whole schema.
proof fn lemma_select_params_prefix_len(ps: Seq<EventParam>, i: int, w: bool)
    requires
        0 <= i <= ps.len(),
    ensures
        select_params(ps.take(i), w).len() <= select_params(ps, w).len(),
    decreases ps.len() - i,
{
    if i < ps.len() {
        lemma_select_params_prefix_len(ps, i + 1, w);
        assert(ps.take(i + 1).drop_last() =~= ps.take(i));
    } else {
        assert(ps.take(i) =~= ps);
    }
}

/// The parameter at `i` stands in the selection of its own indexing, right
/// after everything selected from the prefix before it.
proof fn lemma_select_params_at(ps: Seq<EventParam>, i: int, w: bool)
    requires
        0 <= i < ps.len(),
        ps[i].indexed == w,
    ensures
        select_params(ps.take(i), w).len() < select_params(ps, w).len(),
        select_params(ps, w)[select_params(ps.take(i), w).len() as int] == ps[i],
    decreases ps.len(),
{
    if i == ps.len() - 1 {
        assert(ps.take(i) =~= ps.drop_last());
    } else {
        lemma_select_params_at(ps.drop_last(), i, w);
        assert(ps.drop_last().take(i) =~= ps.take(i));
        assert(ps.drop_last()[i] == ps[i]);
    }
}

/// What an indexed parameter of each kind demands of its topic: a static
/// kind, with an address zero-padded into its 32 bytes.
pub open spec fn indexed_topic_ok(k: ParamKind, t: Seq<u8>) -> bool {
    match k {
        ParamKind::Address => be_val(t) < pow256(20),
        ParamKind::Uint256 => true,
        ParamKind::Str => false,
    }
}

/// One concrete record the matcher must accept for the named schema: the
/// input is its canonical encoding, its topics are the signature hash
/// followed by one fitting topic per indexed parameter, and its data bytes
/// canonically encode values of the non-indexed kinds.
pub open spec fn event_witness(
    name: Seq<char>,
    ps: Seq<EventParam>,
    input: Seq<u8>,
    aw: Seq<u8>,
    tw: Seq<Seq<u8>>,
    dw: Seq<u8>,
    vsw: Seq<ParamValue>,
) -> bool {
    &&& rlp_log_encoding(aw, tw, dw) == input
    &&& wf_log_shape(aw, tw)
    &&& tw.len() == 1 + select_params(ps, true).len()
    &&& tw[0] == long_signature_of(name, kind_codes(ps))
    &&& forall|j: int|
        0 <= j < select_params(ps, true).len() ==> indexed_topic_ok(
            (#[trigger] select_params(ps, true)[j]).kind,
            tw[j + 1],
        )
    &&& vsw.len() == select_params(ps, false).len()
    &&& forall|q: int|
        0 <= q < vsw.len() ==> (#[trigger] vsw[q]).kind_of() == select_params(ps, false)[q].kind
    &&& abi_data_wf(dw, vsw)
}

/// Some record of the named schema encodes to the input.
pub open spec fn event_matchable(name: Seq<char>, ps: Seq<EventParam>, input: Seq<u8>) -> bool {
    exists|aw: Seq<u8>, tw: Seq<Seq<u8>>, dw: Seq<u8>, vsw: Seq<ParamValue>| #[trigger] event_witness(
        name,
        ps,
        input,
        aw,
        tw,
        dw,
        vsw,
    )
}

/// Values aligned with a schema select kind-for-kind alongside it.
proof fn lemma_select_kinds(ps: Seq<EventParam>, vs: Seq<ParamValue>, w: bool)
    requires
        values_match_schema(ps, vs),
    ensures
        select_values(ps, vs, w).len() == select_params(ps, w).len(),
        forall|j: int|
            0 <= j < select_params(ps, w).len() ==> ((#[trigger] select_values(ps, vs, w)[j]).kind_of()
                == select_params(ps, w)[j].kind && select_values(ps, vs, w)[j].wf()),
    decreases ps.len(),
{
    if ps.len() > 0 {
        assert(values_match_schema(ps.drop_last(), vs.drop_last()));
        lemma_select_kinds(ps.drop_last(), vs.drop_last(), w);
        if ps.last().indexed == w {
            assert(select_values(ps, vs, w) == select_values(
                ps.drop_last(),
                vs.drop_last(),
                w,
            ).push(vs.last()));
            assert(select_params(ps, w) == select_params(ps.drop_last(), w).push(ps.last()));
            assert forall|j: int| 0 <= j < select_params(ps, w).len() implies ((
            #[trigger] select_values(ps, vs, w)[j]).kind_of() == select_params(ps, w)[j].kind
                && select_values(ps, vs, w)[j].wf()) by {
                if j < select_params(ps, w).len() - 1 {
                    assert(select_values(ps, vs, w)[j] == select_values(
                        ps.drop_last(),
                        vs.drop_last(),
                        w,
                    )[j]);
                } else {
                    assert(vs.last() == vs[ps.len() - 1]);
                }
            }
        }
    }
}

/// The decoded event: the emitter (custodian) address read from the
/// record's own header, and the typed parameter values aligned with the
/// schema.
#[derive(Debug)]
pub struct EthEvent {
    pub eth_custodian_address: EthAddress,
    pub log: Vec<ParamValue>,
}

/// Everything a successful match states about the raw input bytes: they are
/// the canonical record encoding of the returned emitter address, of topics
/// led by the event's signature hash and carrying the indexed values in
/// order, and of data bytes that canonically encode the non-indexed values.
pub open spec fn event_shape(
    name: Seq<char>,
    ps: Seq<EventParam>,
    input: Seq<u8>,
    ev: EthEvent,
    topics: Seq<Seq<u8>>,
    d: Seq<u8>,
) -> bool {
    &&& input == rlp_log_encoding(ev.eth_custodian_address@, topics, d)
    &&& ev.eth_custodian_address@.len() == 20
    &&& topics.len() == 1 + select_params(ps, true).len()
    &&& topics[0] == long_signature_of(name, kind_codes(ps))
    &&& forall|j: int|
        0 <= j < select_values(ps, ev.log@, true).len() ==> topic_encodes(
            topics[j + 1],
            #[trigger] select_values(ps, ev.log@, true)[j],
        )
    &&& abi_data_wf(d, select_values(ps, ev.log@, false))
}

/// Decodes a raw log record and holds it against the named event's schema:
/// the topics must be the signature hash followed by one topic per indexed
/// parameter, and the data bytes must decode under the non-indexed
/// parameter kinds. Indexed parameters must be of a static kind. For
/// inputs under 16 MiB — far beyond any real record — the contract is an
/// if-and-only-if: matching succeeds exactly on records of the schema's
/// shape, and the structural error comes exactly on undecodable bytes.
pub fn fetch_log_entry_data(name: &str, params: EventParams, data: &[u8]) -> (r: Result<
    EthEvent,
    DecodeError,
>)
    ensures
        r matches Ok(ev) ==> values_match_schema(params@, ev.log@) && exists|
            topics: Seq<Seq<u8>>,
            d: Seq<u8>,
        | event_shape(name@, params@, data@, ev, topics, d),
        r is Err ==> (r == Err::<EthEvent, _>(DecodeError::RlpFailed) || r == Err::<EthEvent, _>(
            DecodeError::SchemaMismatch,
        )),
        data@.len() < 0x100_0000 ==> (r == Err::<EthEvent, _>(DecodeError::RlpFailed)
            <==> !log_decodable(data@)),
        data@.len() < 0x100_0000 ==> (r is Ok <==> event_matchable(name@, params@, data@)),
        data@.len() < 0x100_0000 ==> forall|
            aw: Seq<u8>,
            tw: Seq<Seq<u8>>,
            dw: Seq<u8>,
            vsw: Seq<ParamValue>,
        |
            #[trigger] event_witness(name@, params@, data@, aw, tw, dw, vsw) ==> (r matches Ok(ev)
                && ev.eth_custodian_address@ == aw && value_views_match(
                select_values(params@, ev.log@, false),
                vsw,
            )),
{
    let n = params.len();
    let mut all_kinds: Vec<ParamKind> = Vec::new();
    let mut ni_kinds: Vec<ParamKind> = Vec::new();
    let mut ci: usize = 0;
    let mut i: usize = 0;
    proof {
        assert(params@.take(0) =~= Seq::<EventParam>::empty());
        assert(all_kinds@ =~= kinds_of(params@.take(0)));
        assert(ni_kinds@ =~= kinds_of(select_params(params@.take(0), false)));
    }
    while i < n
        invariant
            0 <= i <= n,
            n == params@.len(),
            all_kinds@ == kinds_of(params@.take(i as int)),
            ni_kinds@ == kinds_of(select_params(params@.take(i as int), false)),
            ci == select_params(params@.take(i as int), true).len(),
            ci <= i,
        decreases n - i,
    {
        let p = &params[i];
        all_kinds.push(p.kind);
        if p.indexed {
            ci = ci + 1;
        } else {
            ni_kinds.push(p.kind);
        }
        proof {
            assert(params@.take(i + 1).drop_last() =~= params@.take(i as int));
            assert(params@.take(i + 1).last() == params@[i as int]);
            assert(all_kinds@ =~= kinds_of(params@.take(i + 1)));
            if !params@[i as int].indexed {
                assert(ni_kinds@ =~= kinds_of(select_params(params@.take(i + 1), false)));
            }
        }
        i = i + 1;
    }
    proof {
        assert(params@.take(n as int) =~= params@);
    }
    let decoded: DecodedLog = match decode_log_entry(data) {
        Err(_) => {
            proof {
                if data@.len() < 0x100_0000 {
                    assert forall|
                        aw: Seq<u8>,
                        tw: Seq<Seq<u8>>,
                        dw: Seq<u8>,
                        vsw: Seq<ParamValue>,
                    |
                        #[trigger] event_witness(
                            name@,
                            params@,
                            data@,
                            aw,
                            tw,
                            dw,
                            vsw,
                        ) implies false by {
                        assert(data@ == rlp_log_encoding(aw, tw, dw));
                        assert(log_decodable(data@));
                    }
                }
            }
            return Err(DecodeError::RlpFailed);
        },
        Ok(l) => l,
    };
    proof {
        if data@.len() < 0x100_0000 {
            assert forall|aw: Seq<u8>, tw: Seq<Seq<u8>>, dw: Seq<u8>, vsw: Seq<ParamValue>|
                #[trigger] event_witness(name@, params@, data@, aw, tw, dw, vsw) implies ({
                &&& topics_view(decoded.topics@) == tw
                &&& decoded.address@ == aw
                &&& decoded.data@ == dw
                &&& tw.len() == 1 + ci
                &&& dw.len() < 0x100_0000
            }) by {
                assert(data@ == rlp_log_encoding(aw, tw, dw));
                crate::rlp_log::lemma_log_layout(data@, aw, tw, dw);
            }
        }
    }
    if decoded.topics.len() == 0 || decoded.topics.len() - 1 != ci {
        return Err(DecodeError::SchemaMismatch);
    }
    let sig = long_signature_bytes(name, &all_kinds);
    proof {
        assert(all_kinds@.map_values(|k: ParamKind| kind_code(k)) =~= kind_codes(params@));
    }
    if !eq_bytes(decoded.topics[0].as_slice(), sig.as_slice()) {
        return Err(DecodeError::SchemaMismatch);
    }
    proof {
        if data@.len() < 0x100_0000 {
            assert forall|aw: Seq<u8>, tw: Seq<Seq<u8>>, dw: Seq<u8>, vsw: Seq<ParamValue>|
                #[trigger] event_witness(name@, params@, data@, aw, tw, dw, vsw) implies (
            vsw.len() == ni_kinds@.len() && (forall|q: int|
                0 <= q < vsw.len() ==> (#[trigger] vsw[q]).kind_of() == ni_kinds@[q])
                && abi_data_wf(decoded.data@, vsw)) by {
                assert(ni_kinds@ == kinds_of(select_params(params@, false)));
            }
        }
    }
    let dvs = match decode_data(&ni_kinds, decoded.data.as_slice()) {
        Err(_) => {
            return Err(DecodeError::SchemaMismatch);
        },
        Ok(v) => v,
    };
    let ghost full_dvs = dvs@;
    proof {
        if data@.len() < 0x100_0000 {
            assert forall|aw: Seq<u8>, tw: Seq<Seq<u8>>, dw: Seq<u8>, vsw: Seq<ParamValue>|
                #[trigger] event_witness(name@, params@, data@, aw, tw, dw, vsw) implies (
            topics_view(decoded.topics@) == tw && value_views_match(full_dvs, vsw)) by {
            }
        }
    }
    let mut dq = dvs;
    let mut vs: Vec<ParamValue> = Vec::new();
    let mut ti: usize = 0;
    let mut di: usize = 0;
    let mut k: usize = 0;
    proof {
        assert(params@.take(0) =~= Seq::<EventParam>::empty());
        assert(select_values(params@.take(0), vs@, true) =~= Seq::<ParamValue>::empty());
        assert(full_dvs.take(0) =~= Seq::<ParamValue>::empty());
        assert(dq@ =~= full_dvs.skip(0));
    }
    while k < n
        invariant
            0 <= k <= n,
            n == params@.len(),
            vs@.len() == k,
            ti + di == k,
            ti == select_params(params@.take(k as int), true).len(),
            di == select_params(params@.take(k as int), false).len(),
            select_params(params@, true).len() == ci,
            decoded.topics@.len() == 1 + ci,
            decoded.wf(),
            forall|j: int|
                0 <= j < ti ==> topic_encodes(
                    topics_view(decoded.topics@)[j + 1],
                    #[trigger] select_values(params@.take(k as int), vs@, true)[j],
                ),
            select_values(params@.take(k as int), vs@, true).len() == ti,
            select_values(params@.take(k as int), vs@, false) == full_dvs.take(di as int),
            dq@ == full_dvs.skip(di as int),
            di <= full_dvs.len(),
            forall|j: int| 0 <= j < full_dvs.len() ==> (#[trigger] full_dvs[j]).wf(),
            forall|j: int|
                0 <= j < full_dvs.len() ==> (#[trigger] full_dvs[j]).kind_of() == kinds_of(
                    select_params(params@, false),
                )[j],
            full_dvs.len() == select_params(params@, false).len(),
            values_match_schema(params@.take(k as int), vs@),
            data@.len() < 0x100_0000 ==> log_decodable(data@),
            data@.len() < 0x100_0000 ==> forall|
                aw: Seq<u8>,
                tw: Seq<Seq<u8>>,
                dw: Seq<u8>,
                vsw: Seq<ParamValue>,
            |
                #[trigger] event_witness(name@, params@, data@, aw, tw, dw, vsw) ==> (topics_view(
                    decoded.topics@,
                ) == tw && value_views_match(full_dvs, vsw)),
        decreases n - k,
    {
        let p = &params[k];
        let ghost old_vs = vs@;
        if p.indexed {
            proof {
                lemma_select_params_at(params@, k as int, true);
            }
            let topic = &decoded.topics[1 + ti];
            assert(topic@.len() == 32);
            match p.kind {
                ParamKind::Address => {
                    proof {
                        if data@.len() < 0x100_0000 {
                            assert forall|
                                aw: Seq<u8>,
                                tw: Seq<Seq<u8>>,
                                dw: Seq<u8>,
                                vsw: Seq<ParamValue>,
                            |
                                #[trigger] event_witness(
                                    name@,
                                    params@,
                                    data@,
                                    aw,
                                    tw,
                                    dw,
                                    vsw,
                                ) implies (forall|q: int|
                                0 <= q < 12 ==> topic@.subrange(0, 12)[q] == 0) by {
                                lemma_select_params_at(params@, k as int, true);
                                assert(indexed_topic_ok(
                                    select_params(params@, true)[ti as int].kind,
                                    tw[ti + 1],
                                ));
                                assert(topic@ == tw[ti + 1]);
                                crate::u256::lemma_pow256_increases(20, 20);
                                crate::u256::lemma_be_val_small_zeros(topic@, 12);
                                assert forall|q: int|
                                    0 <= q < 12 implies topic@.subrange(0, 12)[q] == 0 by {
                                    assert(topic@[q] == 0);
                                }
                            }
                        }
                    }
                    if !all_zero(&topic.as_slice()[0..12]) {
                        return Err(DecodeError::SchemaMismatch);
                    }
                    let a = EthAddress::from_bytes(&topic.as_slice()[12..32]);
                    proof {
                        assert forall|q: int| 0 <= q < 12 implies topic@[q] == 0 by {
                            assert(topic@.subrange(0, 12)[q] == 0);
                        }
                        lemma_be_val_leading_zeros(topic@, 12);
                        assert(topic@.skip(12) =~= topic@.subrange(12, 32));
                    }
                    vs.push(ParamValue::Addr(a));
                },
                ParamKind::Uint256 => {
                    let u = U256::from_be_bytes(topic.as_slice());
                    vs.push(ParamValue::Uint(u));
                },
                ParamKind::Str => {
                    // an indexed dynamic parameter only carries a hash
                    proof {
                        if data@.len() < 0x100_0000 {
                            assert forall|
                                aw: Seq<u8>,
                                tw: Seq<Seq<u8>>,
                                dw: Seq<u8>,
                                vsw: Seq<ParamValue>,
                            |
                                #[trigger] event_witness(
                                    name@,
                                    params@,
                                    data@,
                                    aw,
                                    tw,
                                    dw,
                                    vsw,
                                ) implies false by {
                                lemma_select_params_at(params@, k as int, true);
                                assert(indexed_topic_ok(
                                    select_params(params@, true)[ti as int].kind,
                                    tw[ti + 1],
                                ));
                            }
                        }
                    }
                    return Err(DecodeError::SchemaMismatch);
                },
            }
            proof {
                assert(topic_encodes(topics_view(decoded.topics@)[1 + ti], vs@.last()));
            }
            ti = ti + 1;
        } else {
            proof {
                lemma_select_params_at(params@, k as int, false);
            }
            if dq.len() == 0 {
                return Err(DecodeError::SchemaMismatch);
            }
            let v = dq.remove(0);
            proof {
                assert(v == full_dvs[di as int]);
                assert(dq@ =~= full_dvs.skip(di + 1));
                assert(kinds_of(select_params(params@, false))[di as int] == select_params(
                    params@,
                    false,
                )[di as int].kind);
                assert(select_params(params@, false)[di as int] == params@[k as int]);
            }
            vs.push(v);
            di = di + 1;
        }
        proof {
            assert(params@.take(k + 1).drop_last() =~= params@.take(k as int));
            assert(params@.take(k + 1).last() == params@[k as int]);
            assert(vs@.drop_last() =~= old_vs);
            if params@[k as int].indexed {
                assert(select_values(params@.take(k + 1), vs@, true) =~= select_values(
                    params@.take(k as int),
                    old_vs,
                    true,
                ).push(vs@.last()));
                assert(select_values(params@.take(k + 1), vs@, false) =~= select_values(
                    params@.take(k as int),
                    old_vs,
                    false,
                ));
            } else {
                assert(select_values(params@.take(k + 1), vs@, true) =~= select_values(
                    params@.take(k as int),
                    old_vs,
                    true,
                ));
                assert(select_values(params@.take(k + 1), vs@, false) =~= select_values(
                    params@.take(k as int),
                    old_vs,
                    false,
                ).push(vs@.last()));
                assert(full_dvs.take((di - 1) as int).push(full_dvs[di - 1]) =~= full_dvs.take(
                    di as int,
                ));
            }
        }
        k = k + 1;
    }
    proof {
        assert(params@.take(n as int) =~= params@);
    }
    let ev = EthEvent { eth_custodian_address: decoded.address, log: vs };
    proof {
        let ghost tv = topics_view(decoded.topics@);
        let ghost dd = decoded.data@;
        assert(full_dvs.take(di as int) =~= full_dvs);
        assert(tv[0] == decoded.topics@[0]@);
        assert(event_shape(name@, params@, data@, ev, tv, dd));
        if data@.len() < 0x100_0000 {
            lemma_select_kinds(params@, ev.log@, true);
            assert forall|j: int|
                0 <= j < select_params(params@, true).len() implies indexed_topic_ok(
                (#[trigger] select_params(params@, true)[j]).kind,
                tv[j + 1],
            ) by {
                assert(topic_encodes(tv[j + 1], select_values(params@, ev.log@, true)[j]));
                let v = select_values(params@, ev.log@, true)[j];
                assert(v.kind_of() == select_params(params@, true)[j].kind);
                match v {
                    ParamValue::Addr(a) => {
                        lemma_be_val_bound(a@);
                    },
                    _ => {},
                }
            }
            assert(event_witness(
                name@,
                params@,
                data@,
                ev.eth_custodian_address@,
                tv,
                dd,
                full_dvs,
            ));
            assert(event_matchable(name@, params@, data@));
            assert(select_values(params@, ev.log@, false) == full_dvs);
            assert forall|aw: Seq<u8>, tw: Seq<Seq<u8>>, dw: Seq<u8>, vsw: Seq<ParamValue>|
                #[trigger] event_witness(name@, params@, data@, aw, tw, dw, vsw) implies (
            ev.eth_custodian_address@ == aw && value_views_match(
                select_values(params@, ev.log@, false),
                vsw,
            )) by {
            }
        }
    }
    Ok(ev)
}

} // verus!

//! Structural decoder for the length-prefixed, self-describing binary log
//! record: a list of an emitter address (20-byte string), a list of 32-byte
//! topic strings, and an opaque data string.
//!
//! The decoder accepts only the canonical encoding: minimal length prefixes,
//! the single-byte form for one-byte strings below `0x80`, and no stray
//! bytes. Its contract states that a successful decode exhibits the input as
//! exactly the canonical encoding of the returned record.

use vstd::prelude::*;

use crate::account::EthAddress;
use crate::bytesutil::copy_slice;
use crate::deposit_event::DecodeError;
use crate::u256::{be_val, pow256};

verus! {

/// Minimal big-endian bytes of `n`: empty for zero, no leading zero
/// otherwise.
pub open spec fn len_bytes(n: nat) -> Seq<u8>
    decreases n,
{
    if n == 0 {
        seq![]
    } else {
        len_bytes(n / 256).push((n % 256) as u8)
    }
}

/// A nonempty big-endian byte string without a leading zero is the minimal
/// encoding of its value.
pub proof fn lemma_len_bytes_of_be(b: Seq<u8>)
    requires
        b.len() >= 1,
        b[0] != 0,
    ensures
        len_bytes(be_val(b)) == b,
    decreases b.len(),
{
    let n = be_val(b);
    assert(n == be_val(b.drop_last()) * 256 + b.last());
    if b.len() == 1 {
        assert(b.drop_last() =~= Seq::<u8>::empty());
        assert(n == b[0]);
        assert(n != 0);
        assert(n / 256 == 0) by (nonlinear_arith)
            requires
                0 <= n < 256,
        ;
        assert(n % 256 == n) by (nonlinear_arith)
            requires
                0 <= n < 256,
        ;
        assert(len_bytes(0nat) =~= Seq::<u8>::empty());
        assert(len_bytes(n) =~= b);
    } else {
        lemma_len_bytes_of_be(b.drop_last());
        let m = be_val(b.drop_last());
        assert(n / 256 == m && n % 256 == b.last()) by (nonlinear_arith)
            requires
                n == m * 256 + b.last(),
                0 <= b.last() < 256,
                m >= 0,
        ;
        assert(m > 0) by {
            if m == 0 {
                crate::u256::lemma_be_val_bound(b.drop_last());
                lemma_be_first_byte(b.drop_last());
            }
        }
        assert(len_bytes(n) =~= b.drop_last().push(b.last()));
        assert(b.drop_last().push(b.last()) =~= b);
    }
}

/// The minimal byte string of `v` denotes `v`, and for a positive number it
/// is nonempty with no leading zero.
pub proof fn lemma_len_bytes_val(v: nat)
    ensures
        be_val(len_bytes(v)) == v,
        v >= 1 ==> len_bytes(v).len() >= 1 && len_bytes(v)[0] != 0,
    decreases v,
{
    if v > 0 {
        lemma_len_bytes_val(v / 256);
        let lb = len_bytes(v / 256);
        assert(len_bytes(v).drop_last() =~= lb);
        assert(be_val(len_bytes(v)) == be_val(lb) * 256 + (v % 256));
        assert(v / 256 * 256 + v % 256 == v) by {
            vstd::arithmetic::div_mod::lemma_fundamental_div_mod(v as int, 256);
        }
        if v >= 256 {
            assert(v / 256 >= 1) by {
                vstd::arithmetic::div_mod::lemma_fundamental_div_mod(v as int, 256);
            }
            assert(len_bytes(v)[0] == lb[0]);
        } else {
            assert(v / 256 == 0) by {
                vstd::arithmetic::div_mod::lemma_basic_div(v as int, 256);
            }
            assert(lb =~= Seq::<u8>::empty());
            assert(len_bytes(v) =~= seq![(v % 256) as u8]);
            assert(v % 256 == v) by {
                vstd::arithmetic::div_mod::lemma_fundamental_div_mod(v as int, 256);
            }
        }
    }
}

/// A number below 256^n takes at most n minimal bytes.
pub proof fn lemma_len_bytes_len(v: nat, n: nat)
    requires
        v < pow256(n),
    ensures
        len_bytes(v).len() <= n,
    decreases n,
{
    if v > 0 {
        assert(n >= 1);
        assert(v / 256 < pow256((n - 1) as nat)) by {
            vstd::arithmetic::div_mod::lemma_fundamental_div_mod(v as int, 256);
            assert(pow256(n) == 256 * pow256((n - 1) as nat));
        }
        lemma_len_bytes_len(v / 256, (n - 1) as nat);
    }
}

/// A prefix of a big-endian string denotes no more than the whole.
pub proof fn lemma_be_val_prefix_le(s: Seq<u8>, i: int)
    requires
        0 <= i <= s.len(),
    ensures
        be_val(s.take(i)) <= be_val(s),
{
    assert(s =~= s.take(i) + s.skip(i));
    crate::u256::lemma_be_val_concat(s.take(i), s.skip(i));
    crate::u256::lemma_pow256_increases(0, s.skip(i).len());
    assert(be_val(s.take(i)) <= be_val(s.take(i)) * pow256(s.skip(i).len()))
        by (nonlinear_arith)
        requires
            pow256(s.skip(i).len()) >= 1,
            be_val(s.take(i)) >= 0,
    ;
}

/// A big-endian string with a nonzero first byte has a nonzero value.
proof fn lemma_be_first_byte(b: Seq<u8>)
    requires
        b.len() >= 1,
        b[0] != 0,
    ensures
        be_val(b) >= 1,
    decreases b.len(),
{
    if b.len() > 1 {
        lemma_be_first_byte(b.drop_last());
    }
}

/// Canonical header of a string item with the given payload.
pub open spec fn rlp_str_header(payload: Seq<u8>) -> Seq<u8> {
    if payload.len() == 1 && payload[0] < 0x80 {
        seq![]
    } else if payload.len() <= 55 {
        seq![(0x80 + payload.len()) as u8]
    } else {
        seq![(0xb7 + len_bytes(payload.len()).len()) as u8] + len_bytes(payload.len())
    }
}

/// Which header form a canonical item uses is read off its first byte:
/// below 0x80 the byte is its own payload, 0x80 to 0xb7 a short string,
/// 0xb8 upward a long string — for the payload sizes this decoder admits,
/// at most 0xba.
pub proof fn lemma_str_header_byte(payload: Seq<u8>)
    requires
        payload.len() < 0x100_0000,
    ensures
        (payload.len() == 1 && payload[0] < 0x80) ==> rlp_str_header(payload).len() == 0,
        (!(payload.len() == 1 && payload[0] < 0x80) && payload.len() <= 55) ==> (
        rlp_str_header(payload).len() == 1 && rlp_str_header(payload)[0] == 0x80 + payload.len()
            && 0x80 <= rlp_str_header(payload)[0] <= 0xb7),
        payload.len() > 55 ==> {
            let k = len_bytes(payload.len()).len();
            &&& 1 <= k <= 3
            &&& rlp_str_header(payload).len() == 1 + k
            &&& rlp_str_header(payload)[0] == 0xb7 + k
            &&& 0xb8 <= rlp_str_header(payload)[0] <= 0xba
            &&& rlp_str_header(payload).subrange(1, (1 + k) as int) == len_bytes(payload.len())
        },
{
    if payload.len() > 55 {
        lemma_len_bytes_val(payload.len());
        assert(pow256(3) == 0x100_0000) by {
            reveal_with_fuel(pow256, 4);
        }
        lemma_len_bytes_len(payload.len(), 3);
        let k = len_bytes(payload.len()).len();
        assert(rlp_str_header(payload).subrange(1, (1 + k) as int) =~= len_bytes(payload.len()));
    }
}

/// The same reading for a list header: 0xc0 to 0xf7 a short list, 0xf8
/// upward a long list, at most 0xfa for the sizes this decoder admits.
pub proof fn lemma_list_header_byte(pl: nat)
    requires
        pl < 0x100_0000,
    ensures
        pl <= 55 ==> (rlp_list_header(pl).len() == 1 && rlp_list_header(pl)[0] == 0xc0 + pl
            && 0xc0 <= rlp_list_header(pl)[0] <= 0xf7),
        pl > 55 ==> {
            let k = len_bytes(pl).len();
            &&& 1 <= k <= 3
            &&& rlp_list_header(pl).len() == 1 + k
            &&& rlp_list_header(pl)[0] == 0xf7 + k
            &&& 0xf8 <= rlp_list_header(pl)[0] <= 0xfa
            &&& rlp_list_header(pl).subrange(1, (1 + k) as int) == len_bytes(pl)
        },
{
    if pl > 55 {
        lemma_len_bytes_val(pl);
        assert(pow256(3) == 0x100_0000) by {
            reveal_with_fuel(pow256, 4);
        }
        lemma_len_bytes_len(pl, 3);
        let k = len_bytes(pl).len();
        assert(rlp_list_header(pl).subrange(1, (1 + k) as int) =~= len_bytes(pl));
    }
}

/// Canonical encoding of a string item.
pub open spec fn rlp_str(payload: Seq<u8>) -> Seq<u8> {
    rlp_str_header(payload) + payload
}

/// Canonical header of a list item with a payload of the given length.
pub open spec fn rlp_list_header(payload_len: nat) -> Seq<u8> {
    if payload_len <= 55 {
        seq![(0xc0 + payload_len) as u8]
    } else {
        seq![(0xf7 + len_bytes(payload_len).len()) as u8] + len_bytes(payload_len)
    }
}

/// Canonical encoding of the topic strings, one after the other.
pub open spec fn rlp_topics(topics: Seq<Seq<u8>>) -> Seq<u8>
    decreases topics.len(),
{
    if topics.len() == 0 {
        seq![]
    } else {
        rlp_topics(topics.drop_last()) + rlp_str(topics.last())
    }
}

/// Topic encodings concatenate.
proof fn lemma_rlp_topics_cat(a: Seq<Seq<u8>>, b: Seq<Seq<u8>>)
    ensures
        rlp_topics(a + b) == rlp_topics(a) + rlp_topics(b),
    decreases b.len(),
{
    if b.len() == 0 {
        assert(a + b =~= a);
        assert(rlp_topics(b) =~= Seq::<u8>::empty());
        assert(rlp_topics(a) + rlp_topics(b) =~= rlp_topics(a));
    } else {
        lemma_rlp_topics_cat(a, b.drop_last());
        assert((a + b).drop_last() =~= a + b.drop_last());
        assert((a + b).last() == b.last());
        assert(rlp_topics(a + b) =~= rlp_topics(a) + (rlp_topics(b.drop_last()) + rlp_str(
            b.last(),
        )));
        assert(rlp_topics(b) == rlp_topics(b.drop_last()) + rlp_str(b.last()));
    }
}

/// A nonempty topic list's encoding starts with its first topic's item.
proof fn lemma_rlp_topics_front(ts: Seq<Seq<u8>>, j: int)
    requires
        0 <= j < ts.len(),
    ensures
        rlp_topics(ts.skip(j)) == rlp_str(ts[j]) + rlp_topics(ts.skip(j + 1)),
        rlp_topics(ts.take(j + 1)) == rlp_topics(ts.take(j)) + rlp_str(ts[j]),
{
    assert(ts.skip(j) =~= seq![ts[j]] + ts.skip(j + 1));
    lemma_rlp_topics_cat(seq![ts[j]], ts.skip(j + 1));
    assert(seq![ts[j]].drop_last() =~= Seq::<Seq<u8>>::empty());
    assert(seq![ts[j]].last() == ts[j]);
    assert(rlp_topics(Seq::<Seq<u8>>::empty()) =~= Seq::<u8>::empty());
    assert(rlp_topics(seq![ts[j]]) =~= rlp_topics(Seq::<Seq<u8>>::empty()) + rlp_str(ts[j]));
    assert(rlp_topics(seq![ts[j]]) =~= rlp_str(ts[j]));
    assert(ts.take(j + 1).drop_last() =~= ts.take(j));
    assert(ts.take(j + 1).last() == ts[j]);
}

/// The payload of a string item sits right after its header.
proof fn lemma_str_payload_at(data: Seq<u8>, pos: int, payload: Seq<u8>)
    requires
        0 <= pos,
        pos + rlp_str(payload).len() <= data.len(),
        data.subrange(pos, pos + rlp_str(payload).len()) == rlp_str(payload),
    ensures
        data.subrange(pos + rlp_str_header(payload).len(), pos + rlp_str(payload).len())
            == payload,
{
    let h = rlp_str_header(payload).len() as int;
    assert forall|x: int| 0 <= x < payload.len() implies data[pos + h + x] == payload[x] by {
        assert(data.subrange(pos, pos + rlp_str(payload).len())[h + x] == data[pos + h + x]);
        assert(rlp_str(payload)[h + x] == payload[x]);
    }
    assert(data.subrange(pos + h, pos + rlp_str(payload).len()) =~= payload);
}

/// The shape a decodable record's parts must have: a 20-byte address and
/// 32-byte topics.
pub open spec fn wf_log_shape(addr: Seq<u8>, topics: Seq<Seq<u8>>) -> bool {
    addr.len() == 20 && forall|i: int| 0 <= i < topics.len() ==> (#[trigger] topics[i]).len() == 32
}

/// Canonical encoding of a whole log record.
pub open spec fn rlp_log_encoding(addr: Seq<u8>, topics: Seq<Seq<u8>>, data: Seq<u8>) -> Seq<u8> {
    let topics_payload = rlp_topics(topics);
    let payload = rlp_str(addr) + (rlp_list_header(topics_payload.len()) + topics_payload)
        + rlp_str(data);
    rlp_list_header(payload.len()) + payload
}

/// True when some well-shaped record encodes to exactly these bytes.
pub open spec fn log_decodable(data: Seq<u8>) -> bool {
    exists|addr: Seq<u8>, topics: Seq<Seq<u8>>, d: Seq<u8>|
        wf_log_shape(addr, topics) && data == #[trigger] rlp_log_encoding(addr, topics, d)
}

/// The payload of a record's outer list.
pub open spec fn enc_pay(aw: Seq<u8>, tw: Seq<Seq<u8>>, dw: Seq<u8>) -> Seq<u8> {
    rlp_str(aw) + (rlp_list_header(rlp_topics(tw).len()) + rlp_topics(tw)) + rlp_str(dw)
}

/// Where the outer header ends.
pub open spec fn enc_h0(aw: Seq<u8>, tw: Seq<Seq<u8>>, dw: Seq<u8>) -> nat {
    rlp_list_header(enc_pay(aw, tw, dw).len()).len()
}

/// Where the address item ends.
pub open spec fn enc_p1(aw: Seq<u8>, tw: Seq<Seq<u8>>, dw: Seq<u8>) -> nat {
    enc_h0(aw, tw, dw) + rlp_str(aw).len()
}

/// Where the topic list's payload begins.
pub open spec fn enc_p2(aw: Seq<u8>, tw: Seq<Seq<u8>>, dw: Seq<u8>) -> nat {
    enc_p1(aw, tw, dw) + rlp_list_header(rlp_topics(tw).len()).len()
}

/// Where the topic list ends and the data item begins.
pub open spec fn enc_p3(aw: Seq<u8>, tw: Seq<Seq<u8>>, dw: Seq<u8>) -> nat {
    enc_p2(aw, tw, dw) + rlp_topics(tw).len()
}

/// Where each part of a canonical record encoding stands in the bytes.
pub proof fn lemma_log_layout(data: Seq<u8>, addr: Seq<u8>, topics: Seq<Seq<u8>>, d: Seq<u8>)
    requires
        wf_log_shape(addr, topics),
        data == rlp_log_encoding(addr, topics, d),
        data.len() < 0x100_0000,
    ensures
        data.len() == enc_h0(addr, topics, d) + enc_pay(addr, topics, d).len(),
        enc_pay(addr, topics, d).len() < 0x100_0000 && rlp_topics(topics).len() < 0x100_0000
            && d.len() < 0x100_0000,
        enc_pay(addr, topics, d).len() >= 23,
        data.subrange(0, enc_h0(addr, topics, d) as int) == rlp_list_header(
            enc_pay(addr, topics, d).len(),
        ),
        data.subrange(enc_h0(addr, topics, d) as int, enc_p1(addr, topics, d) as int) == rlp_str(
            addr,
        ),
        data.subrange(enc_p1(addr, topics, d) as int, enc_p2(addr, topics, d) as int)
            == rlp_list_header(rlp_topics(topics).len()),
        data.subrange(enc_p2(addr, topics, d) as int, enc_p3(addr, topics, d) as int)
            == rlp_topics(topics),
        data.subrange(
            enc_p3(addr, topics, d) as int,
            (enc_p3(addr, topics, d) + rlp_str(d).len()) as int,
        ) == rlp_str(d),
        enc_p3(addr, topics, d) + rlp_str(d).len() == data.len(),
{
    let tp = rlp_topics(topics);
    let pay = rlp_str(addr) + (rlp_list_header(tp.len()) + tp) + rlp_str(d);
    let h0 = rlp_list_header(pay.len()).len();
    assert(data =~= rlp_list_header(pay.len()) + pay);
    assert(data.subrange(0, h0 as int) =~= rlp_list_header(pay.len()));
    let p1 = h0 + rlp_str(addr).len();
    let p2 = p1 + rlp_list_header(tp.len()).len();
    let p3 = p2 + tp.len();
    assert(data.subrange(h0 as int, p1 as int) =~= rlp_str(addr));
    assert(data.subrange(p1 as int, p2 as int) =~= rlp_list_header(tp.len()));
    assert(data.subrange(p2 as int, p3 as int) =~= tp);
    assert(data.subrange(p3 as int, (p3 + rlp_str(d).len()) as int) =~= rlp_str(d));
}

/// A log record as decoded from the wire: emitter address, topic hashes,
/// opaque data bytes.
#[derive(Debug)]
pub struct DecodedLog {
    pub address: EthAddress,
    pub topics: Vec<Vec<u8>>,
    pub data: Vec<u8>,
}

/// The views of a vector of topic buffers.
pub open spec fn topics_view(ts: Seq<Vec<u8>>) -> Seq<Seq<u8>> {
    ts.map_values(|t: Vec<u8>| t@)
}

impl DecodedLog {
    /// The address is 20 bytes and every topic hash 32.
    pub open spec fn wf(&self) -> bool {
        &&& self.address.wf()
        &&& forall|i: int| 0 <= i < self.topics@.len() ==> (#[trigger] self.topics@[i])@.len() == 32
    }
}

/// What a canonical string item starting at `pos` forces about its bytes,
/// read off the first byte's range.
proof fn lemma_str_at(data: Seq<u8>, pos: int, payload: Seq<u8>)
    requires
        0 <= pos < data.len(),
        payload.len() < 0x100_0000,
        pos + rlp_str(payload).len() <= data.len(),
        data.subrange(pos, pos + rlp_str(payload).len()) == rlp_str(payload),
    ensures
        data[pos] < 0x80 ==> (rlp_str_header(payload).len() == 0 && payload.len() == 1),
        0x80 <= data[pos] <= 0xb7 ==> (rlp_str_header(payload).len() == 1 && 0x80 + payload.len()
            == data[pos] && (payload.len() == 1 ==> payload[0] >= 0x80) && (payload.len() >= 1
            ==> payload[0] == data[pos + 1])),
        0xb8 <= data[pos] <= 0xbf ==> (payload.len() > 55 && rlp_str_header(payload).len() == 1 + (
        data[pos] - 0xb7) && data.subrange(pos + 1, pos + 1 + (data[pos] - 0xb7)) == len_bytes(
            payload.len(),
        )),
        data[pos] >= 0xc0 ==> false,
{
    lemma_str_header_byte(payload);
    let hs = rlp_str(payload);
    assert(hs.len() >= 1);
    assert(data[pos] == data.subrange(pos, pos + hs.len())[0]);
    assert(data[pos] == hs[0]);
    if payload.len() == 1 && payload[0] < 0x80 {
        assert(hs[0] == payload[0]);
    } else if payload.len() <= 55 {
        assert(hs[0] == rlp_str_header(payload)[0]);
        if payload.len() >= 1 {
            assert(payload[0] == hs[1]);
            assert(data[pos + 1] == data.subrange(pos, pos + hs.len())[1]);
        }
    } else {
        assert(hs[0] == rlp_str_header(payload)[0]);
        let k = len_bytes(payload.len()).len();
        assert forall|j: int| 0 <= j < k implies data[pos + 1 + j] == len_bytes(payload.len())[j]
            by {
            assert(hs[1 + j] == rlp_str_header(payload)[1 + j]);
            assert(rlp_str_header(payload)[1 + j] == rlp_str_header(payload).subrange(
                1,
                (1 + k) as int,
            )[j]);
            assert(data[pos + 1 + j] == data.subrange(pos, pos + hs.len())[1 + j]);
        }
        assert(data.subrange(pos + 1, pos + 1 + k) =~= len_bytes(payload.len()));
    }
}

/// The same for a canonical list header starting at `pos`.
proof fn lemma_list_at(data: Seq<u8>, pos: int, pl: nat)
    requires
        0 <= pos < data.len(),
        pl < 0x100_0000,
        pos + rlp_list_header(pl).len() <= data.len(),
        data.subrange(pos, pos + rlp_list_header(pl).len() as int) == rlp_list_header(pl),
    ensures
        data[pos] < 0xc0 ==> false,
        0xc0 <= data[pos] <= 0xf7 ==> (rlp_list_header(pl).len() == 1 && 0xc0 + pl == data[pos]),
        data[pos] >= 0xf8 ==> (pl > 55 && rlp_list_header(pl).len() == 1 + (data[pos] - 0xf7)
            && data.subrange(pos + 1, pos + 1 + (data[pos] - 0xf7)) == len_bytes(pl)),
{
    lemma_list_header_byte(pl);
    let h = rlp_list_header(pl);
    assert(h.len() >= 1);
    assert(data[pos] == data.subrange(pos, pos + h.len() as int)[0]);
    assert(data[pos] == h[0]);
    if pl > 55 {
        let k = len_bytes(pl).len();
        assert forall|j: int| 0 <= j < k implies data[pos + 1 + j] == len_bytes(pl)[j] by {
            assert(h[1 + j] == h.subrange(1, (1 + k) as int)[j]);
            assert(data[pos + 1 + j] == data.subrange(pos, pos + h.len() as int)[1 + j]);
        }
        assert(data.subrange(pos + 1, pos + 1 + k) =~= len_bytes(pl));
    }
}

/// Reads one item header at `pos`. On success: whether the item is a list,
/// where its payload starts, and how long the payload is. The bytes from
/// `pos` to the payload's end are exactly the canonical encoding of that
/// payload.
fn parse_header(data: &[u8], pos: usize) -> (r: Option<(bool, usize, usize)>)
    requires
        pos < data@.len(),
    ensures
        r matches Some((is_list, s, l)) ==> {
            &&& pos <= s && s + l <= data@.len()
            &&& s + l > pos
            &&& (!is_list ==> data@.subrange(pos as int, s as int) == rlp_str_header(
                data@.subrange(s as int, (s + l) as int),
            ))
            &&& (is_list ==> data@.subrange(pos as int, s as int) == rlp_list_header(l as nat))
        },
        forall|payload: Seq<u8>|
            (payload.len() < 0x100_0000 && pos + rlp_str(payload).len() <= data@.len()
                && data@.subrange(pos as int, pos + rlp_str(payload).len()) == #[trigger] rlp_str(
                payload,
            )) ==> r == Some(
                (
                    false,
                    (pos + rlp_str_header(payload).len()) as usize,
                    payload.len() as usize,
                ),
            ),
        forall|pl: nat|
            (pl < 0x100_0000 && pos + rlp_list_header(pl).len() + pl <= data@.len()
                && data@.subrange(pos as int, pos + rlp_list_header(pl).len() as int)
                == #[trigger] rlp_list_header(pl)) ==> r == Some(
                (true, (pos + rlp_list_header(pl).len()) as usize, pl as usize),
            ),
{
    let b = data[pos];
    proof {
        assert forall|p2: Seq<u8>|
            p2.len() < 0x100_0000 && pos + rlp_str(p2).len() <= data@.len() && data@.subrange(
                pos as int,
                pos + rlp_str(p2).len(),
            ) == #[trigger] rlp_str(p2) implies {
            &&& b < 0x80 ==> (rlp_str_header(p2).len() == 0 && p2.len() == 1)
            &&& 0x80 <= b <= 0xb7 ==> (rlp_str_header(p2).len() == 1 && 0x80 + p2.len() == b && (
            p2.len() == 1 ==> p2[0] >= 0x80) && (p2.len() >= 1 ==> p2[0] == data@[pos + 1]))
            &&& 0xb8 <= b <= 0xbf ==> (p2.len() > 55 && rlp_str_header(p2).len() == 1 + (b - 0xb7)
                && data@.subrange(pos + 1, pos + 1 + (b - 0xb7)) == len_bytes(p2.len()))
            &&& b >= 0xc0 ==> false
        } by {
            lemma_str_at(data@, pos as int, p2);
        }
        assert forall|pl: nat|
            pl < 0x100_0000 && pos + rlp_list_header(pl).len() + pl <= data@.len()
                && data@.subrange(pos as int, pos + rlp_list_header(pl).len() as int)
                == #[trigger] rlp_list_header(pl) implies {
            &&& b < 0xc0 ==> false
            &&& 0xc0 <= b <= 0xf7 ==> (rlp_list_header(pl).len() == 1 && 0xc0 + pl == b)
            &&& b >= 0xf8 ==> (pl > 55 && rlp_list_header(pl).len() == 1 + (b - 0xf7)
                && data@.subrange(pos + 1, pos + 1 + (b - 0xf7)) == len_bytes(pl))
        } by {
            lemma_list_at(data@, pos as int, pl);
        }
    }
    if b < 0x80 {
        // the byte is its own payload
        let ghost payload = data@.subrange(pos as int, pos + 1);
        assert(payload.len() == 1 && payload[0] < 0x80);
        assert(data@.subrange(pos as int, pos as int) =~= rlp_str_header(payload));
        Some((false, pos, 1))
    } else if b <= 0xb7 {
        let l = (b - 0x80) as usize;
        if data.len() - (pos + 1) < l {
            return None;
        }
        if l == 1 && data[pos + 1] < 0x80 {
            // must use the single-byte form
            return None;
        }
        let ghost payload = data@.subrange(pos + 1, pos + 1 + l);
        assert(data@.subrange(pos as int, pos + 1) =~= rlp_str_header(payload));
        Some((false, pos + 1, l))
    } else if b <= 0xbf {
        let ll = (b - 0xb7) as usize;
        match parse_long_length(data, pos, ll) {
            None => None,
            Some(l) => {
                let ghost payload = data@.subrange(pos + 1 + ll, pos + 1 + ll + l);
                proof {
                    lemma_long_header(data@, pos as int, ll as int, l as nat, 0xb7);
                }
                Some((false, pos + 1 + ll, l))
            },
        }
    } else if b <= 0xf7 {
        let l = (b - 0xc0) as usize;
        if data.len() - (pos + 1) < l {
            return None;
        }
        assert(data@.subrange(pos as int, pos + 1) =~= rlp_list_header(l as nat));
        Some((true, pos + 1, l))
    } else {
        let ll = (b - 0xf7) as usize;
        match parse_long_length(data, pos, ll) {
            None => None,
            Some(l) => {
                proof {
                    lemma_long_header(data@, pos as int, ll as int, l as nat, 0xf7);
                }
                Some((true, pos + 1 + ll, l))
            },
        }
    }
}

/// Reads the `ll` length bytes of a long-form header at `pos`, enforcing the
/// canonical rules: no leading zero, a value of at least 56, and a payload
/// that fits in what remains of the input.
fn parse_long_length(data: &[u8], pos: usize, ll: usize) -> (r: Option<usize>)
    requires
        pos < data@.len(),
        1 <= ll <= 8,
    ensures
        r matches Some(l) ==> {
            &&& pos + 1 + ll + l <= data@.len()
            &&& l > 55
            &&& data@.subrange(pos + 1, pos + 1 + ll) == len_bytes(l as nat)
        },
        forall|v: nat|
            (56 <= v < 0x100_0000 && pos + 1 + ll + v <= data@.len() && data@.subrange(
                pos + 1,
                pos + 1 + ll,
            ) == #[trigger] len_bytes(v)) ==> r == Some(v as usize),
{
    if data.len() - (pos + 1) < ll {
        return None;
    }
    if data[pos + 1] == 0 {
        proof {
            assert forall|v: nat|
                56 <= v < 0x100_0000 && pos + 1 + ll + v <= data@.len() && data@.subrange(
                    pos + 1,
                    pos + 1 + ll,
                ) == #[trigger] len_bytes(v) implies false by {
                lemma_len_bytes_val(v);
                assert(data@.subrange(pos + 1, pos + 1 + ll)[0] == data@[pos + 1]);
            }
        }
        return None;
    }
    let mut acc: usize = 0;
    let mut i: usize = 0;
    while i < ll
        invariant
            0 <= i <= ll,
            1 <= ll <= 8,
            pos + 1 + ll <= data@.len(),
            data@.len() <= usize::MAX,
            acc == be_val(data@.subrange(pos + 1, pos + 1 + i)),
            acc <= 0xffff_ffff,
        decreases ll - i,
    {
        if acc > 0xff_ffff {
            // such a payload could never fit a real record
            proof {
                assert forall|v: nat|
                    56 <= v < 0x100_0000 && pos + 1 + ll + v <= data@.len() && data@.subrange(
                        pos + 1,
                        pos + 1 + ll,
                    ) == #[trigger] len_bytes(v) implies false by {
                    lemma_len_bytes_val(v);
                    let lb = data@.subrange(pos + 1, pos + 1 + ll);
                    assert(lb.take(i as int) =~= data@.subrange(pos + 1, pos + 1 + i));
                    lemma_be_val_prefix_le(lb, i as int);
                }
            }
            return None;
        }
        let ghost prefix = data@.subrange(pos + 1, pos + 1 + i);
        acc = acc * 256 + (data[pos + 1 + i] as usize);
        proof {
            assert(data@.subrange(pos + 1, pos + 1 + i + 1).drop_last() =~= prefix);
        }
        i = i + 1;
    }
    proof {
        assert forall|v: nat|
            56 <= v < 0x100_0000 && pos + 1 + ll + v <= data@.len() && data@.subrange(
                pos + 1,
                pos + 1 + ll,
            ) == #[trigger] len_bytes(v) implies v == acc by {
            lemma_len_bytes_val(v);
        }
    }
    if acc < 56 {
        return None;
    }
    if data.len() - (pos + 1 + ll) < acc {
        return None;
    }
    proof {
        let lb = data@.subrange(pos + 1, pos + 1 + ll);
        lemma_len_bytes_of_be(lb);
    }
    Some(acc)
}

/// The long-form header bytes are the canonical ones once the length bytes
/// are minimal.
proof fn lemma_long_header(data: Seq<u8>, pos: int, ll: int, l: nat, tag: u8)
    requires
        0 <= pos,
        pos + 1 + ll <= data.len(),
        1 <= ll <= 8,
        l > 55,
        data.subrange(pos + 1, pos + 1 + ll) == len_bytes(l),
        data[pos] == tag + ll,
        tag == 0xb7 || tag == 0xf7,
    ensures
        tag == 0xb7 && pos + 1 + ll + l <= data.len() ==> data.subrange(pos, pos + 1 + ll)
            == rlp_str_header(data.subrange(pos + 1 + ll, pos + 1 + ll + l)),
        tag == 0xf7 ==> data.subrange(pos, pos + 1 + ll) == rlp_list_header(l),
{
    let lb = len_bytes(l);
    assert(lb.len() == ll);
    if tag == 0xb7 && pos + 1 + ll + l <= data.len() {
        let payload = data.subrange(pos + 1 + ll, pos + 1 + ll + l);
        assert(payload.len() == l);
        assert(data.subrange(pos, pos + 1 + ll) =~= seq![(0xb7 + lb.len()) as u8] + lb);
    }
    if tag == 0xf7 {
        assert(data.subrange(pos, pos + 1 + ll) =~= seq![(0xf7 + lb.len()) as u8] + lb);
    }
}

/// Decodes one log record, accepting exactly the canonical encoding of a
/// record whose address is 20 bytes and whose topics are 32 bytes each, with
/// nothing before or after it. For inputs under 16 MiB — far beyond any
/// real record — the contract is an if-and-only-if: decoding succeeds
/// exactly when some well-shaped record encodes to the input. Larger inputs
/// are always rejected by the length reader.
/// Parses consecutive 32-byte string items filling `s2 .. topics_end`
/// exactly. Accepts precisely the canonical encoding of a topic list and
/// returns exactly the topics encoded there.
#[verifier::rlimit(100)]
#[verifier::spinoff_prover]
fn parse_topics(data: &[u8], s2: usize, topics_end: usize) -> (r: Option<Vec<Vec<u8>>>)
    requires
        s2 <= topics_end <= data@.len(),
        data@.len() <= usize::MAX,
    ensures
        r matches Some(ts) ==> {
            &&& data@.subrange(s2 as int, topics_end as int) == rlp_topics(topics_view(ts@))
            &&& forall|i: int| 0 <= i < ts@.len() ==> (#[trigger] ts@[i])@.len() == 32
        },
        forall|tw: Seq<Seq<u8>>|
            ((forall|i: int| 0 <= i < tw.len() ==> (#[trigger] tw[i]).len() == 32)
                && data@.subrange(s2 as int, topics_end as int) == #[trigger] rlp_topics(tw)) ==> (
            r matches Some(ts) && topics_view(ts@) == tw),
{
    let mut topics: Vec<Vec<u8>> = Vec::new();
    let mut tpos = s2;
    proof {
        assert forall|tw: Seq<Seq<u8>>|
            (forall|i: int| 0 <= i < tw.len() ==> (#[trigger] tw[i]).len() == 32)
                && data@.subrange(s2 as int, topics_end as int) == #[trigger] rlp_topics(
                tw,
            ) implies exists|j: int|
            0 <= j <= tw.len() && tpos == s2 + rlp_topics(#[trigger] tw.take(j)).len()
                && topics_view(topics@) == tw.take(j) by {
            assert(tw.take(0) =~= Seq::<Seq<u8>>::empty());
            assert(rlp_topics(tw.take(0)) =~= Seq::<u8>::empty());
            assert(topics_view(topics@) =~= tw.take(0));
            assert(0 <= 0 <= tw.len() && tpos == s2 + rlp_topics(tw.take(0)).len()
                && topics_view(topics@) == tw.take(0));
        }
    }
    while tpos < topics_end
        invariant
            s2 <= tpos <= topics_end,
            topics_end <= data@.len(),
            data@.len() <= usize::MAX,
            data@.subrange(s2 as int, tpos as int) == rlp_topics(topics_view(topics@)),
            forall|i: int| 0 <= i < topics@.len() ==> (#[trigger] topics@[i])@.len() == 32,
            forall|tw: Seq<Seq<u8>>|
                ((forall|i: int| 0 <= i < tw.len() ==> (#[trigger] tw[i]).len() == 32)
                    && data@.subrange(s2 as int, topics_end as int) == #[trigger] rlp_topics(tw))
                    ==> exists|j: int|
                    0 <= j <= tw.len() && tpos == s2 + rlp_topics(#[trigger] tw.take(j)).len()
                        && topics_view(topics@) == tw.take(j),
        decreases topics_end - tpos,
    {
        let ph3 = parse_header(data, tpos);
        proof {
            assert forall|tw: Seq<Seq<u8>>|
                (forall|i: int| 0 <= i < tw.len() ==> (#[trigger] tw[i]).len() == 32)
                    && data@.subrange(s2 as int, topics_end as int) == #[trigger] rlp_topics(
                    tw,
                ) implies ({
                &&& tpos + 33 <= topics_end
                &&& ph3 == Some((false, (tpos + 1) as usize, 32usize))
                &&& data@.subrange(tpos + 1, tpos + 33) =~= tw[(topics_view(topics@).len()) as int]
            }) by {
                let j = choose|j: int|
                    0 <= j <= tw.len() && tpos == s2 + rlp_topics(#[trigger] tw.take(j)).len()
                        && topics_view(topics@) == tw.take(j);
                if j == tw.len() {
                    assert(tw.take(j) =~= tw);
                    assert(false);
                }
                lemma_rlp_topics_front(tw, j);
                assert(tw =~= tw.take(j) + tw.skip(j));
                lemma_rlp_topics_cat(tw.take(j), tw.skip(j));
                assert(rlp_topics(tw) == rlp_topics(tw.take(j)) + rlp_topics(tw.skip(j)));
                assert(topics_end - s2 == rlp_topics(tw).len());
                assert(tpos - s2 == rlp_topics(tw.take(j)).len());
                assert(data@.subrange(tpos as int, topics_end as int) =~= data@.subrange(
                    s2 as int,
                    topics_end as int,
                ).subrange((tpos - s2) as int, (topics_end - s2) as int));
                assert(rlp_topics(tw).subrange(
                    (tpos - s2) as int,
                    (topics_end - s2) as int,
                ) =~= rlp_topics(tw.skip(j)));
                assert(data@.subrange(tpos as int, topics_end as int) =~= rlp_topics(tw.skip(j)));
                assert(data@.subrange(tpos as int, tpos + rlp_str(tw[j]).len()) =~= rlp_topics(
                    tw.skip(j),
                ).subrange(0, rlp_str(tw[j]).len() as int));
                assert(rlp_topics(tw.skip(j)).subrange(0, rlp_str(tw[j]).len() as int) =~= rlp_str(
                    tw[j],
                ));
                assert(rlp_str_header(tw[j]).len() == 1);
                assert(data@.subrange(tpos as int, tpos + rlp_str(tw[j]).len())[0] == data@[
                    tpos as int]);
                assert forall|x: int| 0 <= x < 32 implies data@[tpos + 1 + x] == tw[j][x] by {
                    assert(data@.subrange(tpos as int, tpos + rlp_str(tw[j]).len())[1 + x]
                        == data@[tpos + 1 + x]);
                    assert(rlp_str(tw[j])[1 + x] == tw[j][x]);
                }
                assert(data@.subrange(tpos + 1, tpos + 33) =~= tw[j]);
                assert(topics_view(topics@).len() == j);
            }
        }
        let (il3, s3, l3) = match ph3 {
            None => {
                return None;
            },
            Some(h) => h,
        };
        if il3 || l3 != 32 || s3 + l3 > topics_end {
            return None;
        }
        let topic = copy_slice(&data[s3..s3 + l3]);
        let ghost old_topics = topics_view(topics@);
        let ghost old_tpos = tpos;
        topics.push(topic);
        proof {
            assert(topics_view(topics@).drop_last() =~= old_topics);
            assert(topics_view(topics@).last() == data@.subrange(s3 as int, (s3 + l3) as int));
            assert(data@.subrange(s2 as int, (s3 + l3) as int) =~= data@.subrange(
                s2 as int,
                tpos as int,
            ) + data@.subrange(tpos as int, s3 as int) + data@.subrange(
                s3 as int,
                (s3 + l3) as int,
            ));
            assert(rlp_topics(topics_view(topics@)) =~= rlp_topics(old_topics) + (rlp_str_header(
                data@.subrange(s3 as int, (s3 + l3) as int),
            ) + data@.subrange(s3 as int, (s3 + l3) as int)));
        }
        tpos = s3 + l3;
        proof {
            assert forall|tw: Seq<Seq<u8>>|
                (forall|i: int| 0 <= i < tw.len() ==> (#[trigger] tw[i]).len() == 32)
                    && data@.subrange(s2 as int, topics_end as int) == #[trigger] rlp_topics(
                    tw,
                ) implies exists|j: int|
                0 <= j <= tw.len() && tpos == s2 + rlp_topics(#[trigger] tw.take(j)).len()
                    && topics_view(topics@) == tw.take(j) by {
                let j = choose|j: int|
                    0 <= j <= tw.len() && old_tpos == s2 + rlp_topics(#[trigger] tw.take(j)).len()
                        && old_topics == tw.take(j);
                if j == tw.len() {
                    assert(tw.take(j) =~= tw);
                    assert(false);
                }
                lemma_rlp_topics_front(tw, j);
                assert(rlp_str_header(tw[j]).len() == 1);
                assert(rlp_str(tw[j]).len() == 33);
                assert(tpos == s2 + rlp_topics(tw.take(j + 1)).len());
                assert(tw.take(j + 1).drop_last() =~= tw.take(j));
                assert(topics_view(topics@) =~= tw.take(j + 1));
            }
        }
    }
    proof {
        assert forall|tw: Seq<Seq<u8>>|
            (forall|i: int| 0 <= i < tw.len() ==> (#[trigger] tw[i]).len() == 32)
                && data@.subrange(s2 as int, topics_end as int) == #[trigger] rlp_topics(
                tw,
            ) implies topics_view(topics@) == tw by {
            let j = choose|j: int|
                0 <= j <= tw.len() && tpos == s2 + rlp_topics(#[trigger] tw.take(j)).len()
                    && topics_view(topics@) == tw.take(j);
            if j < tw.len() {
                lemma_rlp_topics_front(tw, j);
                assert(tw =~= tw.take(j) + tw.skip(j));
                lemma_rlp_topics_cat(tw.take(j), tw.skip(j));
                assert(rlp_str_header(tw[j]).len() == 1);
                assert(rlp_str(tw[j]).len() == 33);
                assert(rlp_topics(tw).len() >= rlp_topics(tw.take(j)).len() + 33);
                assert(false);
            }
            assert(tw.take(j) =~= tw);
        }
    }
    Some(topics)
}

/// Parses the record's outer list header, the 20-byte address item, and
/// the topic list's header, enforcing that the outer payload fills the
/// input exactly. Returns the address payload's start, the topic payload's
/// bounds: `(s0, s1, pos1, s2, l2)`.
#[verifier::rlimit(100)]
#[verifier::spinoff_prover]
fn parse_log_frame(data: &[u8]) -> (r: Option<(usize, usize, usize, usize, usize)>)
    requires
        data@.len() >= 1,
    ensures
        r matches Some((s0, s1, pos1, s2, l2)) ==> {
            &&& 0 < s0 <= s1 && s1 + 20 == pos1 && pos1 <= s2 && s2 + l2 <= data@.len()
            &&& data@.subrange(0, s0 as int) == rlp_list_header((data@.len() - s0) as nat)
            &&& data@.subrange(s0 as int, s1 as int) == rlp_str_header(
                data@.subrange(s1 as int, (s1 + 20) as int),
            )
            &&& data@.subrange(pos1 as int, s2 as int) == rlp_list_header(l2 as nat)
        },
        data@.len() < 0x100_0000 ==> forall|aw: Seq<u8>, tw: Seq<Seq<u8>>, dw: Seq<u8>|
            (wf_log_shape(aw, tw) && data@ == #[trigger] rlp_log_encoding(aw, tw, dw)) ==> r
                == Some(
                (
                    enc_h0(aw, tw, dw) as usize,
                    (enc_h0(aw, tw, dw) + rlp_str_header(aw).len()) as usize,
                    enc_p1(aw, tw, dw) as usize,
                    enc_p2(aw, tw, dw) as usize,
                    rlp_topics(tw).len() as usize,
                ),
            ),
{
    let end = data.len();
    let ph0 = parse_header(data, 0);
    proof {
        if data@.len() < 0x100_0000 {
            assert forall|aw: Seq<u8>, tw: Seq<Seq<u8>>, dw: Seq<u8>|
                wf_log_shape(aw, tw) && data@ == #[trigger] rlp_log_encoding(
                    aw,
                    tw,
                    dw,
                ) implies ({
                &&& data@.len() == enc_h0(aw, tw, dw) + enc_pay(aw, tw, dw).len()
                &&& enc_pay(aw, tw, dw).len() >= 23
                &&& ph0 == Some(
                    (true, enc_h0(aw, tw, dw) as usize, enc_pay(aw, tw, dw).len() as usize),
                )
            }) by {
                lemma_log_layout(data@, aw, tw, dw);
            }
        }
    }
    let (is_list0, s0, l0) = match ph0 {
        None => {
            return None;
        },
        Some(h) => h,
    };
    if !is_list0 || s0 + l0 != end {
        return None;
    }
    // first item: the 20-byte emitter address
    if s0 >= end {
        return None;
    }
    let ph1 = parse_header(data, s0);
    proof {
        if data@.len() < 0x100_0000 {
            assert forall|aw: Seq<u8>, tw: Seq<Seq<u8>>, dw: Seq<u8>|
                wf_log_shape(aw, tw) && data@ == #[trigger] rlp_log_encoding(
                    aw,
                    tw,
                    dw,
                ) implies (ph1 == Some(
                (false, (enc_h0(aw, tw, dw) + rlp_str_header(aw).len()) as usize, 20usize),
            )) by {
                lemma_log_layout(data@, aw, tw, dw);
            }
        }
    }
    let (il1, s1, l1) = match ph1 {
        None => {
            return None;
        },
        Some(h) => h,
    };
    if il1 || l1 != 20 {
        return None;
    }
    let pos1 = s1 + l1;
    // second item: the list of topics
    if pos1 >= end {
        return None;
    }
    let ph2 = parse_header(data, pos1);
    proof {
        if data@.len() < 0x100_0000 {
            assert forall|aw: Seq<u8>, tw: Seq<Seq<u8>>, dw: Seq<u8>|
                wf_log_shape(aw, tw) && data@ == #[trigger] rlp_log_encoding(
                    aw,
                    tw,
                    dw,
                ) implies (ph2 == Some(
                (true, enc_p2(aw, tw, dw) as usize, rlp_topics(tw).len() as usize),
            )) by {
                lemma_log_layout(data@, aw, tw, dw);
            }
        }
    }
    let (il2, s2, l2) = match ph2 {
        None => {
            return None;
        },
        Some(h) => h,
    };
    if !il2 {
        return None;
    }
    Some((s0, s1, pos1, s2, l2))
}

/// Parses the record's final item: an opaque data string whose payload must
/// run exactly to the end of the input.
#[verifier::rlimit(100)]
fn parse_tail_item(data: &[u8], pos2: usize) -> (r: Option<(usize, usize)>)
    requires
        pos2 < data@.len(),
    ensures
        r matches Some((s4, l4)) ==> {
            &&& pos2 <= s4 && s4 + l4 == data@.len()
            &&& data@.subrange(pos2 as int, s4 as int) == rlp_str_header(
                data@.subrange(s4 as int, (s4 + l4) as int),
            )
        },
        data@.len() < 0x100_0000 ==> forall|aw: Seq<u8>, tw: Seq<Seq<u8>>, dw: Seq<u8>|
            (wf_log_shape(aw, tw) && data@ == #[trigger] rlp_log_encoding(aw, tw, dw) && pos2
                == enc_p3(aw, tw, dw)) ==> r == Some(
                ((enc_p3(aw, tw, dw) + rlp_str_header(dw).len()) as usize, dw.len() as usize),
            ),
{
    let end = data.len();
    let ph4 = parse_header(data, pos2);
    proof {
        if data@.len() < 0x100_0000 {
            assert forall|aw: Seq<u8>, tw: Seq<Seq<u8>>, dw: Seq<u8>|
                wf_log_shape(aw, tw) && data@ == #[trigger] rlp_log_encoding(aw, tw, dw) && pos2
                    == enc_p3(aw, tw, dw) implies ({
                &&& ph4 == Some(
                    (
                        false,
                        (enc_p3(aw, tw, dw) + rlp_str_header(dw).len()) as usize,
                        dw.len() as usize,
                    ),
                )
                &&& enc_p3(aw, tw, dw) + rlp_str(dw).len() == data@.len()
            }) by {
                lemma_log_layout(data@, aw, tw, dw);
            }
        }
    }
    let (il4, s4, l4) = match ph4 {
        None => {
            return None;
        },
        Some(h) => h,
    };
    if il4 || s4 + l4 != end {
        return None;
    }
    Some((s4, l4))
}

#[verifier::rlimit(100)]
pub fn decode_log_entry(data: &[u8]) -> (r: Result<DecodedLog, DecodeError>)
    ensures
        r matches Ok(log) ==> log.wf() && data@ == rlp_log_encoding(
            log.address@,
            topics_view(log.topics@),
            log.data@,
        ),
        r is Err ==> r == Err::<DecodedLog, DecodeError>(DecodeError::RlpFailed),
        data@.len() < 0x100_0000 ==> (r is Ok <==> log_decodable(data@)),
        data@.len() < 0x100_0000 ==> forall|aw: Seq<u8>, tw: Seq<Seq<u8>>, dw: Seq<u8>|
            (wf_log_shape(aw, tw) && data@ == #[trigger] rlp_log_encoding(aw, tw, dw)) ==> (r
                matches Ok(log) && log.address@ == aw && topics_view(log.topics@) == tw
                && log.data@ == dw),
{
    if data.len() == 0 {
        proof {
            if data@.len() < 0x100_0000 {
                assert forall|aw: Seq<u8>, tw: Seq<Seq<u8>>, dw: Seq<u8>|
                    wf_log_shape(aw, tw) && data@ == #[trigger] rlp_log_encoding(
                        aw,
                        tw,
                        dw,
                    ) implies false by {
                    lemma_log_layout(data@, aw, tw, dw);
                }
            }
        }
        return Err(DecodeError::RlpFailed);
    }
    let (s0, s1, pos1, s2, l2) = match parse_log_frame(data) {
        None => {
            return Err(DecodeError::RlpFailed);
        },
        Some(f) => f,
    };
    let end = data.len();
    let address = EthAddress::from_bytes(&data[s1..s1 + 20]);
    let topics_end = s2 + l2;
    let topics = match parse_topics(data, s2, topics_end) {
        None => {
            proof {
                if data@.len() < 0x100_0000 {
                    assert forall|aw: Seq<u8>, tw: Seq<Seq<u8>>, dw: Seq<u8>|
                        wf_log_shape(aw, tw) && data@ == #[trigger] rlp_log_encoding(
                            aw,
                            tw,
                            dw,
                        ) implies false by {
                        lemma_log_layout(data@, aw, tw, dw);
                    }
                }
            }
            return Err(DecodeError::RlpFailed);
        },
        Some(ts) => ts,
    };
    let pos2 = topics_end;
    // third item: the opaque data bytes
    if pos2 >= end {
        proof {
            if data@.len() < 0x100_0000 {
                assert forall|aw: Seq<u8>, tw: Seq<Seq<u8>>, dw: Seq<u8>|
                    wf_log_shape(aw, tw) && data@ == #[trigger] rlp_log_encoding(
                        aw,
                        tw,
                        dw,
                    ) implies false by {
                    lemma_log_layout(data@, aw, tw, dw);
                }
            }
        }
        return Err(DecodeError::RlpFailed);
    }
    let (s4, l4) = match parse_tail_item(data, pos2) {
        None => {
            proof {
                if data@.len() < 0x100_0000 {
                    assert forall|aw: Seq<u8>, tw: Seq<Seq<u8>>, dw: Seq<u8>|
                        wf_log_shape(aw, tw) && data@ == #[trigger] rlp_log_encoding(
                            aw,
                            tw,
                            dw,
                        ) implies false by {
                        lemma_log_layout(data@, aw, tw, dw);
                    }
                }
            }
            return Err(DecodeError::RlpFailed);
        },
        Some(h) => h,
    };
    let data_bytes = copy_slice(&data[s4..s4 + l4]);
    let log = DecodedLog { address, topics, data: data_bytes };
    proof {
        let whole = data@;
        let addr_p = whole.subrange(s1 as int, (s1 + 20) as int);
        let topics_p = whole.subrange(s2 as int, topics_end as int);
        let data_p = whole.subrange(s4 as int, (s4 + l4) as int);
        assert(topics_p == rlp_topics(topics_view(log.topics@)));
        assert(whole.subrange(s0 as int, end as int) =~= (whole.subrange(s0 as int, s1 as int)
            + addr_p) + ((whole.subrange(pos1 as int, s2 as int) + topics_p) + (whole.subrange(
            pos2 as int,
            s4 as int,
        ) + data_p)));
        assert(whole.subrange(s0 as int, end as int) =~= rlp_str(addr_p) + (rlp_list_header(
            l2 as nat,
        ) + topics_p) + rlp_str(data_p));
        assert(end - s0 == whole.subrange(s0 as int, end as int).len());
        assert(whole =~= whole.subrange(0, s0 as int) + whole.subrange(s0 as int, end as int));
        assert(whole =~= rlp_log_encoding(log.address@, topics_view(log.topics@), log.data@));
        assert(wf_log_shape(log.address@, topics_view(log.topics@)));
        assert(log_decodable(data@));
        if data@.len() < 0x100_0000 {
            assert forall|aw: Seq<u8>, tw: Seq<Seq<u8>>, dw: Seq<u8>|
                wf_log_shape(aw, tw) && data@ == #[trigger] rlp_log_encoding(
                    aw,
                    tw,
                    dw,
                ) implies (log.address@ == aw && topics_view(log.topics@) == tw && log.data@
                == dw) by {
                lemma_log_layout(data@, aw, tw, dw);
                lemma_str_payload_at(data@, enc_h0(aw, tw, dw) as int, aw);
                assert(s1 == enc_h0(aw, tw, dw) + rlp_str_header(aw).len());
                assert(log.address@ == aw);
                assert(s2 == enc_p2(aw, tw, dw) && topics_end == enc_p3(aw, tw, dw));
                assert(data@.subrange(s2 as int, topics_end as int) == rlp_topics(tw));
                assert(topics_view(log.topics@) == tw);
                lemma_str_payload_at(data@, enc_p3(aw, tw, dw) as int, dw);
                assert(s4 == enc_p3(aw, tw, dw) + rlp_str_header(dw).len() && l4 == dw.len());
                assert(log.data@ == dw);
            }
        }
    }
    Ok(log)
}
} // verus!

//! The routing message carried in a deposit event's recipient parameter, and
//! the errors of the whole decoding pipeline.
//!
//! A routing message is either a bare destination account, or
//! `relayer:address` where `address` is a source-chain address written in
//! hex, with or without a `0x` prefix when it is 42 bytes long. In the
//! second form the parser rebuilds the payload that the relayer later
//! forwards: `relayer ':' hex(16-byte big-endian fee ++ 20-byte address)`.

use vstd::prelude::*;

use crate::abi_event::{
    abi_data_wf, event_matchable, event_witness, fetch_log_entry_data, indexed_topic_ok,
    kind_codes, long_signature_of, topic_encodes, value_view_eq, EthEvent, EventParam, EventParams,
    ParamKind, ParamValue,
};
use crate::account::{
    valid_account_bytes, valid_hex_address, decoded_hex_address, AccountId, AddressValidationError,
    EthAddress, validate_eth_address,
};
use crate::balance::Balance;
use crate::rlp_log::{log_decodable, rlp_log_encoding, wf_log_shape};
use crate::u256::p128;
use vstd::pervasive::unreached;
use crate::balance::Fee;
use crate::bytesutil::{append_bytes, clone_bytes};
use crate::hexcodec::{hex_encode, hex_of, is_hex_digit};
use crate::u256::{be_bytes16, u128_be_bytes};

verus! {

/// True when the byte at `i` is the `:` separator.
pub open spec fn colon_at(m: Seq<u8>, i: int) -> bool {
    m[i] == 58
}

/// True when the message has at least two separators, so at least three
/// parts.
pub open spec fn two_colons(m: Seq<u8>) -> bool {
    exists|i: int, j: int|
        0 <= i < j < m.len() && #[trigger] colon_at(m, i) && #[trigger] colon_at(m, j)
}

/// True when the message has no separator at all.
pub open spec fn no_colon(m: Seq<u8>) -> bool {
    forall|i: int| 0 <= i < m.len() ==> !colon_at(m, i)
}

/// True when the message's one and only separator stands at `k`.
pub open spec fn only_colon_at(m: Seq<u8>, k: int) -> bool {
    &&& 0 <= k < m.len()
    &&& colon_at(m, k)
    &&& forall|i: int| 0 <= i < m.len() && i != k ==> !colon_at(m, i)
}

/// The forwarding-address digits: a 42-byte part sheds its 2-byte prefix,
/// any other length is taken whole.
pub open spec fn stripped_forward_addr(p: Seq<u8>) -> Seq<u8> {
    if p.len() == 42 {
        p.subrange(2, 42)
    } else {
        p
    }
}

/// True when the forwarding part denotes a source-chain address: a 42-byte
/// part must carry the literal `0x` prefix, and what remains must be exactly
/// 40 hex digits.
pub open spec fn forward_addr_ok(p: Seq<u8>) -> bool {
    &&& (p.len() == 42 ==> (p[0] == 48 && p[1] == 120))
    &&& valid_hex_address(stripped_forward_addr(p))
}

/// The address-validation error a forwarding part earns: a 42-byte part
/// without the `0x` prefix, or digits that do not decode as hex, fail the
/// decode; hex of the wrong decoded length fails the length check.
pub open spec fn forward_addr_error(p: Seq<u8>) -> AddressValidationError {
    if p.len() == 42 && !(p[0] == 48 && p[1] == 120) {
        AddressValidationError::FailedDecodeHex
    } else {
        let a = stripped_forward_addr(p);
        if !(a.len() % 2 == 0 && forall|i: int| 0 <= i < a.len() ==> is_hex_digit(a[i])) {
            AddressValidationError::FailedDecodeHex
        } else {
            AddressValidationError::IncorrectLength
        }
    }
}

/// The rebuilt forwarding payload:
/// `relayer ':' hex(16-byte big-endian fee ++ 20-byte address)`.
pub open spec fn routing_payload(relayer: Seq<u8>, fee: nat, addr: Seq<u8>) -> Seq<u8> {
    relayer + seq![58u8] + hex_of(be_bytes16(fee) + addr)
}

/// Exactly when a routing message parses: not three or more parts, a valid
/// account in the first part, and, when a second part is present, a
/// source-chain address in it.
pub open spec fn message_parses(m: Seq<u8>) -> bool {
    if two_colons(m) {
        false
    } else if no_colon(m) {
        valid_account_bytes(m)
    } else {
        exists|k: int|
            {
                &&& #[trigger] only_colon_at(m, k)
                &&& valid_account_bytes(m.subrange(0, k))
                &&& forward_addr_ok(m.subrange(k + 1, m.len() as int))
            }
    }
}

/// What a successfully parsed routing message states of its input: a direct
/// destination is the whole, colon-free, valid account; a forwarded one is
/// the valid relayer account before the sole colon, with the rebuilt payload
/// for the address after it.
pub open spec fn parsed_message_ok(m: Seq<u8>, fee: nat, t: TokenMessageData) -> bool {
    match t {
        TokenMessageData::Near(a) => no_colon(m) && valid_account_bytes(m) && a@ == m,
        TokenMessageData::Eth { receiver_id, message } => exists|k: int|
            {
                &&& #[trigger] only_colon_at(m, k)
                &&& valid_account_bytes(m.subrange(0, k))
                &&& receiver_id@ == m.subrange(0, k)
                &&& forward_addr_ok(m.subrange(k + 1, m.len() as int))
                &&& message@ == routing_payload(
                    m.subrange(0, k),
                    fee,
                    decoded_hex_address(
                        stripped_forward_addr(m.subrange(k + 1, m.len() as int)),
                    ),
                )
            },
    }
}

/// Routing destination decoded from a deposit event's recipient parameter.
#[derive(Debug)]
pub enum TokenMessageData {
    /// Credit the amount straight to this destination account.
    Near(AccountId),
    /// Credit the amount to this relayer account, which must forward it per
    /// the rebuilt payload in `message`.
    Eth { receiver_id: AccountId, message: Vec<u8> },
}

impl TokenMessageData {
    /// The account that the minting step actually credits.
    pub open spec fn recipient_view(&self) -> Seq<u8> {
        match self {
            TokenMessageData::Near(acc) => acc@,
            TokenMessageData::Eth { receiver_id, message: _ } => receiver_id@,
        }
    }

    /// Both variants carry a validated account.
    pub open spec fn wf(&self) -> bool {
        match self {
            TokenMessageData::Near(acc) => acc.wf(),
            TokenMessageData::Eth { receiver_id, message: _ } => receiver_id.wf(),
        }
    }

    /// Splits the recipient message on `:` and validates each part.
    ///
    /// One part: the whole message must be a destination account. Two
    /// parts: a relayer account and a source-chain address, from which the
    /// forwarding payload is rebuilt around the given fee. Three or more
    /// parts are rejected outright.
    pub fn parse_event_message_and_prepare_token_message_data(message: &[u8], fee: Fee) -> (r:
        Result<TokenMessageData, ParseEventMessageError>)
        ensures
            r == Err::<TokenMessageData, _>(ParseEventMessageError::TooManyParts) <==> two_colons(
                message@,
            ),
            no_colon(message@) ==> {
                &&& valid_account_bytes(message@) ==> (r matches Ok(
                    TokenMessageData::Near(a),
                ) && a@ == message@)
                &&& !valid_account_bytes(message@) ==> r == Err::<TokenMessageData, _>(
                    ParseEventMessageError::InvalidAccount,
                )
            },
            forall|k: int| #[trigger]
                only_colon_at(message@, k) ==> {
                    let p0 = message@.subrange(0, k);
                    let p1 = message@.subrange(k + 1, message@.len() as int);
                    &&& !valid_account_bytes(p0) ==> r == Err::<TokenMessageData, _>(
                        ParseEventMessageError::InvalidAccount,
                    )
                    &&& valid_account_bytes(p0) && !forward_addr_ok(p1) ==> r == Err::<
                        TokenMessageData,
                        _,
                    >(ParseEventMessageError::EthAddressValidationError(forward_addr_error(p1)))
                    &&& valid_account_bytes(p0) && forward_addr_ok(p1) ==> (r matches Ok(
                        TokenMessageData::Eth { receiver_id, message: msg },
                    ) && receiver_id@ == p0 && msg@ == routing_payload(
                        p0,
                        fee.0 as nat,
                        decoded_hex_address(stripped_forward_addr(p1)),
                    ))
                },
            r matches Ok(t) ==> t.wf() && parsed_message_ok(message@, fee.0 as nat, t),
            r is Ok <==> message_parses(message@),
    {
        let mut first_idx: usize = 0;
        let mut n_found: usize = 0;
        let mut i: usize = 0;
        while i < message.len()
            invariant
                0 <= i <= message@.len(),
                n_found == 0 || n_found == 1,
                n_found == 0 ==> forall|j: int| 0 <= j < i ==> !colon_at(message@, j),
                n_found == 1 ==> first_idx < i && colon_at(message@, first_idx as int) && forall|
                    j: int,
                |
                    0 <= j < i && j != first_idx ==> !colon_at(message@, j),
            decreases message@.len() - i,
        {
            if message[i] == 58 {
                if n_found == 1 {
                    assert(colon_at(message@, first_idx as int) && colon_at(message@, i as int));
                    assert(two_colons(message@));
                    return Err(ParseEventMessageError::TooManyParts);
                }
                first_idx = i;
                n_found = 1;
            }
            i = i + 1;
        }
        if n_found == 0 {
            assert(!two_colons(message@));
            assert(no_colon(message@));
            match AccountId::try_from(message) {
                Ok(a) => Ok(TokenMessageData::Near(a)),
                Err(_) => Err(ParseEventMessageError::InvalidAccount),
            }
        } else {
            let k = first_idx;
            assert(!two_colons(message@));
            assert(only_colon_at(message@, k as int));
            assert(forall|k2: int|
                only_colon_at(message@, k2) ==> k2 == k as int);
            let p0 = &message[0..k];
            let p1 = &message[k + 1..message.len()];
            let account_id = match AccountId::try_from(p0) {
                Ok(a) => a,
                Err(_) => {
                    return Err(ParseEventMessageError::InvalidAccount);
                },
            };
            match Self::prepare_message_for_on_transfer(&account_id, fee, p1) {
                Ok(msg) => Ok(
                    TokenMessageData::Eth { receiver_id: account_id, message: msg },
                ),
                Err(e) => Err(e),
            }
        }
    }

    /// The account the minting step credits: the destination account of a
    /// direct deposit, and the relayer account — never the forwarding
    /// address — of a forwarded one.
    pub fn get_recipient(&self) -> (r: AccountId)
        ensures
            r@ == self.recipient_view(),
    {
        match self {
            TokenMessageData::Near(acc) => acc.clone(),
            TokenMessageData::Eth { receiver_id, message: _ } => receiver_id.clone(),
        }
    }

    /// Rebuilds the payload handed onward for a forwarded deposit: the
    /// relayer account, `:`, then the hex of the 16-byte big-endian fee
    /// followed by the 20-byte decoded address.
    fn prepare_message_for_on_transfer(
        relayer_account_id: &AccountId,
        fee: Fee,
        message: &[u8],
    ) -> (r: Result<Vec<u8>, ParseEventMessageError>)
        ensures
            r is Ok <==> forward_addr_ok(message@),
            r matches Ok(msg) ==> msg@ == routing_payload(
                relayer_account_id@,
                fee.0 as nat,
                decoded_hex_address(stripped_forward_addr(message@)),
            ),
            r is Err <==> !forward_addr_ok(message@),
            r is Err ==> r == Err::<Vec<u8>, _>(
                ParseEventMessageError::EthAddressValidationError(forward_addr_error(message@)),
            ),
    {
        let address: &[u8] = if message.len() == 42 {
            if message[0] == 48 && message[1] == 120 {
                let a = &message[2..42];
                assert(a@ =~= stripped_forward_addr(message@));
                a
            } else {
                return Err(
                    ParseEventMessageError::EthAddressValidationError(
                        AddressValidationError::FailedDecodeHex,
                    ),
                );
            }
        } else {
            assert(message@ =~= stripped_forward_addr(message@));
            message
        };
        let address_bytes: EthAddress = match validate_eth_address(address) {
            Ok(a) => a,
            Err(e) => {
                return Err(ParseEventMessageError::EthAddressValidationError(e));
            },
        };
        let mut data = u128_be_bytes(fee.into_u128());
        append_bytes(&mut data, address_bytes.as_bytes().as_slice());
        let hex_part = hex_encode(data.as_slice());
        let mut out = clone_bytes(relayer_account_id.as_bytes());
        out.push(58);
        append_bytes(&mut out, hex_part.as_slice());
        proof {
            assert(out@ =~= routing_payload(
                relayer_account_id@,
                fee.0 as nat,
                decoded_hex_address(stripped_forward_addr(message@)),
            ));
        }
        Ok(out)
    }
}

/// Structural failure of the log-record decode.
#[derive(Clone, Copy, Debug, PartialEq, Eq, Structural)]
pub enum DecodeError {
    /// The byte stream is not a well-formed log record.
    RlpFailed,
    /// The record does not fit the expected event schema.
    SchemaMismatch,
}

impl DecodeError {
    /// The error text each failure carries.
    pub open spec fn text(&self) -> Seq<char> {
        match self {
            DecodeError::RlpFailed => "ERR_RLP_FAILED"@,
            DecodeError::SchemaMismatch => "ERR_PARSE_DEPOSIT_EVENT"@,
        }
    }

    /// The stable error text of each failure.
    pub fn as_ref(&self) -> (r: &'static str)
        ensures
            r@ == self.text(),
    {
        match self {
            DecodeError::RlpFailed => "ERR_RLP_FAILED",
            DecodeError::SchemaMismatch => "ERR_PARSE_DEPOSIT_EVENT",
        }
    }
}

/// Failure of the routing-message parse.
#[derive(Clone, Copy, Debug, PartialEq, Eq, Structural)]
pub enum ParseEventMessageError {
    /// The message splits into three or more parts.
    TooManyParts,
    /// A part that must be an account identifier is not one.
    InvalidAccount,
    /// The forwarding part is not a source-chain address.
    EthAddressValidationError(AddressValidationError),
}

impl ParseEventMessageError {
    /// The error text each failure carries.
    pub open spec fn text(&self) -> Seq<char> {
        match self {
            ParseEventMessageError::TooManyParts => "ERR_INVALID_EVENT_MESSAGE_FORMAT"@,
            ParseEventMessageError::InvalidAccount => "ERR_INVALID_ACCOUNT_ID"@,
            ParseEventMessageError::EthAddressValidationError(
                AddressValidationError::FailedDecodeHex,
            ) => "ERR_FAILED_TO_DECODE_HEX"@,
            ParseEventMessageError::EthAddressValidationError(
                AddressValidationError::IncorrectLength,
            ) => "ERR_WRONG_ADDRESS_LENGTH"@,
        }
    }

    /// The stable error text of each failure.
    pub fn as_ref(&self) -> (r: &'static str)
        ensures
            r@ == self.text(),
    {
        match self {
            ParseEventMessageError::TooManyParts => "ERR_INVALID_EVENT_MESSAGE_FORMAT",
            ParseEventMessageError::InvalidAccount => "ERR_INVALID_ACCOUNT_ID",
            ParseEventMessageError::EthAddressValidationError(
                AddressValidationError::FailedDecodeHex,
            ) => "ERR_FAILED_TO_DECODE_HEX",
            ParseEventMessageError::EthAddressValidationError(
                AddressValidationError::IncorrectLength,
            ) => "ERR_WRONG_ADDRESS_LENGTH",
        }
    }
}

/// Failure of the whole deposit-event decode, tagged with the first stage
/// that failed.
#[derive(Clone, Copy, Debug, PartialEq, Eq, Structural)]
pub enum ParseError {
    LogParseFailed(DecodeError),
    InvalidSender,
    InvalidAmount,
    InvalidFee,
    MessageParseFailed(ParseEventMessageError),
}

impl ParseError {
    /// The error text each failure carries: a wrapped stage's text passes
    /// through unchanged.
    pub open spec fn text(&self) -> Seq<char> {
        match self {
            ParseError::LogParseFailed(e) => e.text(),
            ParseError::InvalidSender => "ERR_INVALID_SENDER"@,
            ParseError::InvalidAmount => "ERR_INVALID_AMOUNT"@,
            ParseError::InvalidFee => "ERR_INVALID_FEE"@,
            ParseError::MessageParseFailed(e) => e.text(),
        }
    }

    /// The stable error text of each failure, passing a wrapped stage's
    /// text through.
    pub fn as_ref(&self) -> (r: &'static str)
        ensures
            r@ == self.text(),
    {
        match self {
            ParseError::LogParseFailed(e) => e.as_ref(),
            ParseError::InvalidSender => "ERR_INVALID_SENDER",
            ParseError::InvalidAmount => "ERR_INVALID_AMOUNT",
            ParseError::InvalidFee => "ERR_INVALID_FEE",
            ParseError::MessageParseFailed(e) => e.as_ref(),
        }
    }
}

impl From<ParseEventMessageError> for ParseError {
    fn from(e: ParseEventMessageError) -> (r: Self)
        ensures
            r == ParseError::MessageParseFailed(e),
    {
        ParseError::MessageParseFailed(e)
    }
}

impl vstd::std_specs::convert::FromSpecImpl<ParseEventMessageError> for ParseError {
    open spec fn obeys_from_spec() -> bool {
        true
    }

    open spec fn from_spec(e: ParseEventMessageError) -> Self {
        ParseError::MessageParseFailed(e)
    }
}

/// Name of the deposit event this module decodes.
pub const DEPOSITED_EVENT: &'static str = "Deposited";

/// Data emitted by the deposit event, in normalized form.
#[derive(Debug)]
pub struct DepositedEvent {
    pub eth_custodian_address: EthAddress,
    pub sender: EthAddress,
    pub token_message_data: TokenMessageData,
    pub amount: Balance,
    pub fee: Fee,
}

/// Kind codes of the deposit event's schema: an address, a string, and two
/// 256-bit integers.
pub open spec fn deposited_kind_codes() -> Seq<u8> {
    seq![0u8, 1u8, 2u8, 2u8]
}

/// Everything a successful decode states of the raw input bytes: they are
/// the canonical record of the returned custodian address, two topics — the
/// event's signature hash, then the sender address — and data bytes that
/// canonically encode the recipient message, the amount and the fee, all of
/// which fit their narrow forms and parse as stated.
pub open spec fn deposited_event_shape(
    input: Seq<u8>,
    ev: DepositedEvent,
    topics: Seq<Seq<u8>>,
    d: Seq<u8>,
    msg: Seq<u8>,
) -> bool {
    &&& input == rlp_log_encoding(ev.eth_custodian_address@, topics, d)
    &&& ev.eth_custodian_address@.len() == 20
    &&& topics.len() == 2
    &&& topics[0] == long_signature_of("Deposited"@, deposited_kind_codes())
    &&& topic_encodes(topics[1], ParamValue::Addr(ev.sender))
    &&& exists|vs: Seq<ParamValue>|
        {
            &&& #[trigger] abi_data_wf(d, vs)
            &&& vs.len() == 3
            &&& (vs[0] matches ParamValue::Str(m) && m@ == msg)
            &&& (vs[1] matches ParamValue::Uint(u) && u.val() == ev.amount.0)
            &&& (vs[2] matches ParamValue::Uint(f) && f.val() == ev.fee.0)
        }
    &&& parsed_message_ok(msg, ev.fee.0 as nat, ev.token_message_data)
}

/// The raw input decodes as a deposit-shaped record with these topics and
/// values, before any narrowing or message parsing.
pub open spec fn deposited_log_decodes(
    input: Seq<u8>,
    custodian: Seq<u8>,
    topics: Seq<Seq<u8>>,
    d: Seq<u8>,
    vs: Seq<ParamValue>,
) -> bool {
    &&& input == rlp_log_encoding(custodian, topics, d)
    &&& topics.len() == 2
    &&& topics[0] == long_signature_of("Deposited"@, deposited_kind_codes())
    &&& abi_data_wf(d, vs)
    &&& vs.len() == 3
}

/// One concrete record the assembler must take through schema matching: the
/// input is its canonical encoding, with the deposit event's signature and
/// one address topic, and data bytes carrying a string and two integers.
pub open spec fn deposited_witness(
    input: Seq<u8>,
    aw: Seq<u8>,
    tw: Seq<Seq<u8>>,
    dw: Seq<u8>,
    vsw: Seq<ParamValue>,
) -> bool {
    &&& rlp_log_encoding(aw, tw, dw) == input
    &&& wf_log_shape(aw, tw)
    &&& tw.len() == 2
    &&& tw[0] == long_signature_of("Deposited"@, deposited_kind_codes())
    &&& indexed_topic_ok(ParamKind::Address, tw[1])
    &&& vsw.len() == 3
    &&& vsw[0].kind_of() == ParamKind::Str
    &&& vsw[1].kind_of() == ParamKind::Uint256
    &&& vsw[2].kind_of() == ParamKind::Uint256
    &&& abi_data_wf(dw, vsw)
}

/// Some deposit-shaped record encodes to the input.
pub open spec fn deposited_matchable(input: Seq<u8>) -> bool {
    exists|aw: Seq<u8>, tw: Seq<Seq<u8>>, dw: Seq<u8>, vsw: Seq<ParamValue>| #[trigger] deposited_witness(
        input,
        aw,
        tw,
        dw,
        vsw,
    )
}

/// The record's amount fits the 128-bit destination unit.
pub open spec fn deposited_amount_ok(vsw: Seq<ParamValue>) -> bool {
    vsw[1] matches ParamValue::Uint(u) && u.val() < p128()
}

/// The record's fee fits the 128-bit destination unit.
pub open spec fn deposited_fee_ok(vsw: Seq<ParamValue>) -> bool {
    vsw[2] matches ParamValue::Uint(f) && f.val() < p128()
}

/// The record's recipient message parses under the routing rules.
pub open spec fn deposited_message_ok(vsw: Seq<ParamValue>) -> bool {
    vsw[0] matches ParamValue::Str(m) && message_parses(m@)
}

/// For the deposit event's fixed schema, the general and the
/// deposit-specific witness shapes coincide.
proof fn lemma_deposited_witness_iff(
    ps: Seq<EventParam>,
    input: Seq<u8>,
    aw: Seq<u8>,
    tw: Seq<Seq<u8>>,
    dw: Seq<u8>,
    vsw: Seq<ParamValue>,
)
    requires
        crate::abi_event::select_params(ps, true) == seq![ps[0]],
        crate::abi_event::select_params(ps, false) == seq![ps[1], ps[2], ps[3]],
        ps.len() == 4,
        ps[0].kind == ParamKind::Address,
        ps[1].kind == ParamKind::Str,
        ps[2].kind == ParamKind::Uint256,
        ps[3].kind == ParamKind::Uint256,
        kind_codes(ps) == deposited_kind_codes(),
    ensures
        deposited_witness(input, aw, tw, dw, vsw) <==> event_witness(
            "Deposited"@,
            ps,
            input,
            aw,
            tw,
            dw,
            vsw,
        ),
{
    assert(crate::abi_event::select_params(ps, true).len() == 1);
    assert(crate::abi_event::select_params(ps, false).len() == 3);
    assert(crate::abi_event::select_params(ps, true)[0] == ps[0]);
    assert(crate::abi_event::select_params(ps, false)[0] == ps[1]);
    assert(crate::abi_event::select_params(ps, false)[1] == ps[2]);
    assert(crate::abi_event::select_params(ps, false)[2] == ps[3]);
    if deposited_witness(input, aw, tw, dw, vsw) {
        assert forall|j: int|
            0 <= j < crate::abi_event::select_params(ps, true).len() implies indexed_topic_ok(
            (#[trigger] crate::abi_event::select_params(ps, true)[j]).kind,
            tw[j + 1],
        ) by {
            assert(j == 0);
        }
        assert forall|q: int|
            0 <= q < vsw.len() implies (#[trigger] vsw[q]).kind_of()
            == crate::abi_event::select_params(ps, false)[q].kind by {
        }
        assert(event_witness("Deposited"@, ps, input, aw, tw, dw, vsw));
    }
    if event_witness("Deposited"@, ps, input, aw, tw, dw, vsw) {
        assert(indexed_topic_ok(
            crate::abi_event::select_params(ps, true)[0].kind,
            tw[1],
        ));
        assert(vsw[0].kind_of() == ParamKind::Str);
        assert(vsw[1].kind_of() == ParamKind::Uint256);
        assert(vsw[2].kind_of() == ParamKind::Uint256);
        assert(deposited_witness(input, aw, tw, dw, vsw));
    }
}

/// Exactly the inputs on which assembling a deposit succeeds.
pub open spec fn deposited_accepted(input: Seq<u8>) -> bool {
    exists|aw: Seq<u8>, tw: Seq<Seq<u8>>, dw: Seq<u8>, vsw: Seq<ParamValue>|
        #[trigger] deposited_witness(input, aw, tw, dw, vsw) && deposited_amount_ok(vsw)
            && deposited_fee_ok(vsw) && deposited_message_ok(vsw)
}

impl DepositedEvent {
    /// The fixed schema of the deposit event: an indexed `sender` address,
    /// then non-indexed `recipient` string, `amount` and `fee` integers.
    pub fn event_params() -> (r: EventParams)
        ensures
            r@.len() == 4,
            r@[0].kind == ParamKind::Address && r@[0].indexed && r@[0].name@ == "sender"@,
            r@[1].kind == ParamKind::Str && !r@[1].indexed && r@[1].name@ == "recipient"@,
            r@[2].kind == ParamKind::Uint256 && !r@[2].indexed && r@[2].name@ == "amount"@,
            r@[3].kind == ParamKind::Uint256 && !r@[3].indexed && r@[3].name@ == "fee"@,
    {
        let mut v: Vec<EventParam> = Vec::new();
        v.push(
            EventParam {
                name: String::from_str("sender"),
                kind: ParamKind::Address,
                indexed: true,
            },
        );
        v.push(
            EventParam {
                name: String::from_str("recipient"),
                kind: ParamKind::Str,
                indexed: false,
            },
        );
        v.push(
            EventParam {
                name: String::from_str("amount"),
                kind: ParamKind::Uint256,
                indexed: false,
            },
        );
        v.push(
            EventParam { name: String::from_str("fee"), kind: ParamKind::Uint256, indexed: false },
        );
        v
    }

    /// Decodes a raw log record into a normalized deposit record, or the
    /// error of the first stage that failed, checked in this order: record
    /// structure, schema match, amount, fee, recipient message. The amount
    /// and the fee are narrowed from 256 bits without ever truncating. The
    /// recipient parameter is handled as bytes: a recipient that is not
    /// valid text fails here in message parsing, not as a schema mismatch.
    /// For inputs under 16 MiB the contract fixes the result exactly on
    /// every input.
    #[verifier::rlimit(100)]
    pub fn from_log_entry_data(data: &[u8]) -> (r: Result<DepositedEvent, ParseError>)
        ensures
            r matches Ok(ev) ==> {
                &&& ev.eth_custodian_address.wf()
                &&& ev.sender.wf()
                &&& ev.token_message_data.wf()
                &&& exists|topics: Seq<Seq<u8>>, d: Seq<u8>, msg: Seq<u8>|
                    #[trigger] deposited_event_shape(data@, ev, topics, d, msg)
            },
            r == Err::<DepositedEvent, _>(ParseError::InvalidAmount) ==> exists|
                custodian: Seq<u8>,
                topics: Seq<Seq<u8>>,
                d: Seq<u8>,
                vs: Seq<ParamValue>,
            |
                #[trigger] deposited_log_decodes(data@, custodian, topics, d, vs) && (vs[1] matches
                    ParamValue::Uint(u)
                    && u.val() >= p128()),
            r == Err::<DepositedEvent, _>(ParseError::InvalidFee) ==> exists|
                custodian: Seq<u8>,
                topics: Seq<Seq<u8>>,
                d: Seq<u8>,
                vs: Seq<ParamValue>,
            |
                #[trigger] deposited_log_decodes(data@, custodian, topics, d, vs) && (vs[2] matches
                    ParamValue::Uint(u)
                    && u.val() >= p128()),
            !(r matches Err(ParseError::InvalidSender)),
            data@.len() < 0x100_0000 ==> (r == Err::<DepositedEvent, _>(
                ParseError::LogParseFailed(DecodeError::RlpFailed),
            ) <==> !log_decodable(data@)),
            r matches Err(ParseError::MessageParseFailed(_)) ==> exists|
                custodian: Seq<u8>,
                topics: Seq<Seq<u8>>,
                d: Seq<u8>,
                vs: Seq<ParamValue>,
            |
                #[trigger] deposited_log_decodes(data@, custodian, topics, d, vs) && (vs[0] matches
                    ParamValue::Str(m)
                    && !message_parses(m@)),
            data@.len() < 0x100_0000 ==> (r is Ok <==> deposited_accepted(data@)),
            data@.len() < 0x100_0000 ==> (r == Err::<DepositedEvent, _>(
                ParseError::LogParseFailed(DecodeError::SchemaMismatch),
            ) <==> (log_decodable(data@) && !deposited_matchable(data@))),
            data@.len() < 0x100_0000 ==> (r == Err::<DepositedEvent, _>(ParseError::InvalidAmount)
                <==> exists|aw: Seq<u8>, tw: Seq<Seq<u8>>, dw: Seq<u8>, vsw: Seq<ParamValue>|
                #[trigger] deposited_witness(data@, aw, tw, dw, vsw) && !deposited_amount_ok(vsw)),
            data@.len() < 0x100_0000 ==> (r == Err::<DepositedEvent, _>(ParseError::InvalidFee)
                <==> exists|aw: Seq<u8>, tw: Seq<Seq<u8>>, dw: Seq<u8>, vsw: Seq<ParamValue>|
                #[trigger] deposited_witness(data@, aw, tw, dw, vsw) && deposited_amount_ok(vsw)
                    && !deposited_fee_ok(vsw)),
            data@.len() < 0x100_0000 ==> ((r matches Err(ParseError::MessageParseFailed(_)))
                <==> exists|aw: Seq<u8>, tw: Seq<Seq<u8>>, dw: Seq<u8>, vsw: Seq<ParamValue>|
                #[trigger] deposited_witness(data@, aw, tw, dw, vsw) && deposited_amount_ok(vsw)
                    && deposited_fee_ok(vsw) && !deposited_message_ok(vsw)),
    {
        let params = Self::event_params();
        let ghost ps = params@;
        proof {
            let ps3 = ps.drop_last();
            let ps2 = ps3.drop_last();
            let ps1 = ps2.drop_last();
            let ps0 = ps1.drop_last();
            assert(ps0.len() == 0);
            assert(ps3.last() == ps[2] && ps2.last() == ps[1] && ps1.last() == ps[0]);
            assert(crate::abi_event::select_params(ps, true) == crate::abi_event::select_params(
                ps3,
                true,
            ));
            assert(crate::abi_event::select_params(ps3, true) == crate::abi_event::select_params(
                ps2,
                true,
            ));
            assert(crate::abi_event::select_params(ps2, true) == crate::abi_event::select_params(
                ps1,
                true,
            ));
            assert(crate::abi_event::select_params(ps1, true) == crate::abi_event::select_params(
                ps0,
                true,
            ).push(ps[0]));
            assert(crate::abi_event::select_params(ps0, true) =~= Seq::<EventParam>::empty());
            assert(crate::abi_event::select_params(ps, true) =~= seq![ps[0]]);
            assert(crate::abi_event::select_params(ps, false) == crate::abi_event::select_params(
                ps3,
                false,
            ).push(ps[3]));
            assert(crate::abi_event::select_params(ps3, false) == crate::abi_event::select_params(
                ps2,
                false,
            ).push(ps[2]));
            assert(crate::abi_event::select_params(ps2, false) == crate::abi_event::select_params(
                ps1,
                false,
            ).push(ps[1]));
            assert(crate::abi_event::select_params(ps1, false) == crate::abi_event::select_params(
                ps0,
                false,
            ));
            assert(crate::abi_event::select_params(ps0, false) =~= Seq::<EventParam>::empty());
            assert(crate::abi_event::select_params(ps, false) =~= seq![ps[1], ps[2], ps[3]]);
            assert(crate::abi_event::kind_codes(ps) =~= deposited_kind_codes());
            assert(DEPOSITED_EVENT@ == "Deposited"@);
        }
        let event: EthEvent = match fetch_log_entry_data(DEPOSITED_EVENT, params, data) {
            Err(e) => {
                proof {
                    if data@.len() < 0x100_0000 {
                        assert forall|
                            aw: Seq<u8>,
                            tw: Seq<Seq<u8>>,
                            dw: Seq<u8>,
                            vsw: Seq<ParamValue>,
                        |
                            #[trigger] deposited_witness(data@, aw, tw, dw, vsw) implies false by {
                            lemma_deposited_witness_iff(ps, data@, aw, tw, dw, vsw);
                            assert(event_witness(DEPOSITED_EVENT@, ps, data@, aw, tw, dw, vsw));
                            assert(event_matchable(DEPOSITED_EVENT@, ps, data@));
                        }
                        assert(!deposited_matchable(data@));
                    }
                }
                return Err(ParseError::LogParseFailed(e));
            },
            Ok(ev) => ev,
        };
        let ghost vsq = event.log@;
        proof {
            let ps3 = ps.drop_last();
            let ps2 = ps3.drop_last();
            let ps1 = ps2.drop_last();
            let ps0 = ps1.drop_last();
            let vs3 = vsq.drop_last();
            let vs2 = vs3.drop_last();
            let vs1 = vs2.drop_last();
            let vs0 = vs1.drop_last();
            assert(ps0.len() == 0 && vs0.len() == 0);
            assert(ps3.last() == ps[2] && ps2.last() == ps[1] && ps1.last() == ps[0]);
            assert(vs3.last() == vsq[2] && vs2.last() == vsq[1] && vs1.last() == vsq[0]);
            assert(crate::abi_event::select_values(ps, vsq, true) == crate::abi_event::select_values(
                ps3,
                vs3,
                true,
            ));
            assert(crate::abi_event::select_values(ps3, vs3, true)
                == crate::abi_event::select_values(ps2, vs2, true));
            assert(crate::abi_event::select_values(ps2, vs2, true)
                == crate::abi_event::select_values(ps1, vs1, true));
            assert(crate::abi_event::select_values(ps1, vs1, true)
                == crate::abi_event::select_values(ps0, vs0, true).push(vsq[0]));
            assert(crate::abi_event::select_values(ps0, vs0, true) =~= Seq::<ParamValue>::empty());
            assert(crate::abi_event::select_values(ps, vsq, true) =~= seq![vsq[0]]);
            assert(crate::abi_event::select_values(ps, vsq, false)
                == crate::abi_event::select_values(ps3, vs3, false).push(vsq[3]));
            assert(crate::abi_event::select_values(ps3, vs3, false)
                == crate::abi_event::select_values(ps2, vs2, false).push(vsq[2]));
            assert(crate::abi_event::select_values(ps2, vs2, false)
                == crate::abi_event::select_values(ps1, vs1, false).push(vsq[1]));
            assert(crate::abi_event::select_values(ps1, vs1, false)
                == crate::abi_event::select_values(ps0, vs0, false));
            assert(crate::abi_event::select_values(ps0, vs0, false) =~= Seq::<ParamValue>::empty());
            assert(crate::abi_event::select_values(ps, vsq, false) =~= seq![
                vsq[1],
                vsq[2],
                vsq[3],
            ]);
            assert(crate::abi_event::select_params(ps, true) == crate::abi_event::select_params(
                ps3,
                true,
            ));
            assert(crate::abi_event::select_params(ps3, true) == crate::abi_event::select_params(
                ps2,
                true,
            ));
            assert(crate::abi_event::select_params(ps2, true) == crate::abi_event::select_params(
                ps1,
                true,
            ));
            assert(crate::abi_event::select_params(ps1, true) == crate::abi_event::select_params(
                ps0,
                true,
            ).push(ps[0]));
            assert(crate::abi_event::select_params(ps0, true) =~= Seq::<EventParam>::empty());
            assert(crate::abi_event::select_params(ps, true).len() == 1);
        }
        let ghost (gtopics, gd): (Seq<Seq<u8>>, Seq<u8>) = choose|
            topics: Seq<Seq<u8>>,
            d: Seq<u8>,
        | crate::abi_event::event_shape("Deposited"@, ps, data@, event, topics, d);
        proof {
            assert(crate::abi_event::event_shape("Deposited"@, ps, data@, event, gtopics, gd));
            assert(abi_data_wf(gd, seq![vsq[1], vsq[2], vsq[3]]));
            assert(deposited_log_decodes(
                data@,
                event.eth_custodian_address@,
                gtopics,
                gd,
                seq![vsq[1], vsq[2], vsq[3]],
            ));
        }
        let ghost (zaw, ztw, zdw, zvsw): (Seq<u8>, Seq<Seq<u8>>, Seq<u8>, Seq<ParamValue>) = choose|
            aw: Seq<u8>,
            tw: Seq<Seq<u8>>,
            dw: Seq<u8>,
            vsw: Seq<ParamValue>,
        | event_witness(DEPOSITED_EVENT@, ps, data@, aw, tw, dw, vsw);
        proof {
            if data@.len() < 0x100_0000 {
                assert(event_matchable(DEPOSITED_EVENT@, ps, data@));
                assert(event_witness(DEPOSITED_EVENT@, ps, data@, zaw, ztw, zdw, zvsw));
                lemma_deposited_witness_iff(ps, data@, zaw, ztw, zdw, zvsw);
                assert(deposited_witness(data@, zaw, ztw, zdw, zvsw));
                assert(deposited_matchable(data@));
                assert forall|aw: Seq<u8>, tw: Seq<Seq<u8>>, dw: Seq<u8>, vsw: Seq<ParamValue>|
                    #[trigger] deposited_witness(data@, aw, tw, dw, vsw) implies ({
                    &&& (vsw[0] matches ParamValue::Str(mw) && vsq[1] matches ParamValue::Str(ma)
                        && mw@ == ma@)
                    &&& (vsw[1] matches ParamValue::Uint(uw) && vsq[2] matches ParamValue::Uint(ua)
                        && uw == ua)
                    &&& (vsw[2] matches ParamValue::Uint(fw) && vsq[3] matches ParamValue::Uint(fa)
                        && fw == fa)
                }) by {
                    lemma_deposited_witness_iff(ps, data@, aw, tw, dw, vsw);
                    assert(event_witness(DEPOSITED_EVENT@, ps, data@, aw, tw, dw, vsw));
                    assert(crate::abi_event::value_views_match(
                        crate::abi_event::select_values(ps, vsq, false),
                        vsw,
                    ));
                    assert(value_view_eq(
                        crate::abi_event::select_values(ps, vsq, false)[0],
                        vsw[0],
                    ));
                    assert(crate::abi_event::select_values(ps, vsq, false)[0] == vsq[1]);
                    assert(value_view_eq(
                        crate::abi_event::select_values(ps, vsq, false)[1],
                        vsw[1],
                    ));
                    assert(crate::abi_event::select_values(ps, vsq, false)[1] == vsq[2]);
                    assert(value_view_eq(
                        crate::abi_event::select_values(ps, vsq, false)[2],
                        vsw[2],
                    ));
                    assert(crate::abi_event::select_values(ps, vsq, false)[2] == vsq[3]);
                }
            }
        }
        let sender: EthAddress = match &event.log[0] {
            ParamValue::Addr(a) => a.clone(),
            // the matcher's contract pins the first value to an address
            _ => unreached(),
        };
        let message: Vec<u8> = match &event.log[1] {
            ParamValue::Str(s) => clone_bytes(s),
            _ => unreached(),
        };
        let amount: Balance = match &event.log[2] {
            ParamValue::Uint(u) => match u.try_into_u128() {
                Ok(v) => Balance::new(v),
                Err(_) => {
                    proof {
                        assert(seq![vsq[1], vsq[2], vsq[3]][1] == vsq[2]);
                        if data@.len() < 0x100_0000 {
                            assert(vsq[2] == ParamValue::Uint(*u));
                            assert(!deposited_amount_ok(zvsw));
                        }
                    }
                    return Err(ParseError::InvalidAmount);
                },
            },
            _ => unreached(),
        };
        let fee: Fee = match &event.log[3] {
            ParamValue::Uint(u) => match u.try_into_u128() {
                Ok(v) => Fee::new(v),
                Err(_) => {
                    proof {
                        assert(seq![vsq[1], vsq[2], vsq[3]][2] == vsq[3]);
                        if data@.len() < 0x100_0000 {
                            assert(vsq[3] == ParamValue::Uint(*u));
                            assert(deposited_amount_ok(zvsw) && !deposited_fee_ok(zvsw));
                        }
                    }
                    return Err(ParseError::InvalidFee);
                },
            },
            _ => unreached(),
        };
        let token_message_data: TokenMessageData =
            match TokenMessageData::parse_event_message_and_prepare_token_message_data(
            message.as_slice(),
            fee,
        ) {
            Ok(t) => t,
            Err(e) => {
                proof {
                    assert(seq![vsq[1], vsq[2], vsq[3]][0] == vsq[1]);
                    assert(!message_parses(message@));
                    if data@.len() < 0x100_0000 {
                        assert(deposited_amount_ok(zvsw) && deposited_fee_ok(zvsw)
                            && !deposited_message_ok(zvsw));
                    }
                }
                return Err(ParseError::MessageParseFailed(e));
            },
        };
        let ev = DepositedEvent {
            eth_custodian_address: event.eth_custodian_address,
            sender,
            token_message_data,
            amount,
            fee,
        };
        proof {
            assert(crate::abi_event::select_values(ps, vsq, true)[0] == vsq[0]);
            assert(crate::abi_event::select_values(ps, vsq, true).len() == 1);
            assert(topic_encodes(gtopics[1], vsq[0]));
            assert(topic_encodes(gtopics[1], ParamValue::Addr(ev.sender)));
            assert(deposited_event_shape(data@, ev, gtopics, gd, message@));
            if data@.len() < 0x100_0000 {
                assert(deposited_amount_ok(zvsw) && deposited_fee_ok(zvsw)
                    && deposited_message_ok(zvsw));
                assert(deposited_accepted(data@));
            }
        }
        Ok(ev)
    }
}

} // verus!

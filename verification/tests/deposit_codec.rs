//! End-to-end and unit tests for the deposit decoding pipeline, driven
//! through the public surface with real log records built by the `rlp` and
//! `ethabi` crates.

use deposit_codec::account::{validate_eth_address, AccountId, AddressValidationError};
use deposit_codec::balance::{Balance, BalanceOverflowError, Fee, Yocto};
use deposit_codec::deposit_event::{
    DecodeError, DepositedEvent, ParseError, ParseEventMessageError, TokenMessageData,
};
use deposit_codec::rlp_log::decode_log_entry;
use deposit_codec::u256::U256;
use deposit_codec::wei::{u256_to_arr, NEP141Wei, Wei};

const WEI_PER_ETH: u128 = 1_000_000_000_000_000_000;

fn parse_message(msg: &str, fee: u128) -> Result<TokenMessageData, ParseEventMessageError> {
    TokenMessageData::parse_event_message_and_prepare_token_message_data(
        msg.as_bytes(),
        Fee::new(fee),
    )
}

#[test]
fn test_wei_from_eth() {
    let eth_amount: u64 = rand::random();
    let wei_amount = U256::from_u128(eth_amount as u128 * WEI_PER_ETH);
    assert_eq!(
        Wei::from_eth(U256::from_u64(eth_amount)),
        Some(Wei::new(wei_amount))
    );
}

#[test]
fn test_wei_from_u64() {
    let x: u64 = rand::random();
    assert_eq!(Wei::new_u64(x).raw(), U256::from_u64(x));
}

#[test]
fn wei_from_eth_exact_bytes() {
    // 1 ETH in wei, encoded big-endian: 0x0de0b6b3a7640000 in the low bytes
    let w = Wei::from_eth(U256::from_u64(1)).unwrap();
    let bytes = w.to_bytes();
    let mut expected = vec![0u8; 32];
    expected[24..32].copy_from_slice(&[0x0d, 0xe0, 0xb6, 0xb3, 0xa7, 0x64, 0x00, 0x00]);
    assert_eq!(bytes, expected);
}

#[test]
fn wei_from_eth_overflow() {
    let max = U256 {
        hi: u128::MAX,
        lo: u128::MAX,
    };
    assert_eq!(Wei::from_eth(max), None);
    // the largest representable multiplicand still succeeds
    let ok = U256::from_u128(7);
    assert!(Wei::from_eth(ok).is_some());
}

#[test]
fn balance_checked_sub_and_add() {
    let a = Balance::new(10);
    let b = Balance::new(3);
    assert_eq!(a.checked_sub(b), Some(Balance::new(7)));
    assert_eq!(b.checked_sub(a), None);
    assert_eq!(a.checked_add(b), Some(Balance::new(13)));
    assert_eq!(Balance::new(u128::MAX).checked_add(Balance::new(1)), None);
    assert_eq!(
        Balance::new(u128::MAX).checked_add(Balance::new(0)),
        Some(Balance::new(u128::MAX))
    );
    let mut c = Balance::new(9);
    c.sub_assign(Balance::new(4));
    assert_eq!(c, Balance::new(5));
    assert_eq!(Balance::new(2).add(Balance::new(3)).into_u128(), 5);
    assert_eq!(Balance::new(5).sub(Balance::new(3)).into_u128(), 2);
}

#[test]
fn nep141_checked_ops() {
    let a = NEP141Wei::new(8);
    let b = NEP141Wei::new(8);
    assert_eq!(a.checked_sub(b), Some(NEP141Wei::new(0)));
    assert_eq!(NEP141Wei::new(7).checked_sub(a), None);
    assert_eq!(NEP141Wei::new(u128::MAX).checked_add(NEP141Wei::new(1)), None);
    assert_eq!(a.into_u128(), 8);
    assert_eq!(Yocto::new(11).into_u128(), 11);
}

#[test]
fn wei_checked_ops_at_boundary() {
    let max = Wei::new(U256 {
        hi: u128::MAX,
        lo: u128::MAX,
    });
    let one = Wei::new_u64(1);
    assert_eq!(max.checked_add(one), None);
    assert_eq!(max.checked_add(Wei::zero()), Some(max));
    assert_eq!(one.checked_sub(max), None);
    assert_eq!(max.checked_sub(max), Some(Wei::zero()));
    // borrow across the halves
    let two_128 = Wei::new(U256 { hi: 1, lo: 0 });
    assert_eq!(
        two_128.checked_sub(one),
        Some(Wei::new(U256::from_u128(u128::MAX)))
    );
    assert_eq!(one.checked_add(Wei::new(U256::from_u128(u128::MAX))), Some(two_128));
    assert!(Wei::zero().is_zero());
    assert!(!one.is_zero());
}

#[test]
fn wei_round_trip_128() {
    // a 128-bit magnitude survives encode, decode and narrowing
    let a: u128 = 0xdead_beef_0123_4567_89ab_cdef_5555_aaaa;
    let w = Wei::new(U256::from_u128(a));
    let bytes = w.to_bytes();
    assert_eq!(bytes.len(), 32);
    let back = Wei::from_be_bytes(&bytes);
    assert_eq!(back.try_into_u128(), Ok(a));
    let top = Wei::new(U256::from_u128(u128::MAX));
    assert_eq!(
        Wei::from_be_bytes(&top.to_bytes()).try_into_u128(),
        Ok(u128::MAX)
    );
}

#[test]
fn narrowing_never_truncates() {
    // one more than the 128-bit maximum must fail, not truncate
    let just_over = U256 { hi: 1, lo: 0 };
    assert_eq!(just_over.try_into_u128(), Err(BalanceOverflowError));
    let mut bytes = vec![0u8; 32];
    bytes[15] = 1; // 2^128 in big-endian
    assert_eq!(
        Wei::from_be_bytes(&bytes).try_into_u128(),
        Err(BalanceOverflowError)
    );
    assert_eq!(U256::from_u128(u128::MAX).try_into_u128(), Ok(u128::MAX));
}

#[test]
fn u256_to_arr_matches_to_bytes() {
    let v = U256 { hi: 3, lo: 77 };
    assert_eq!(u256_to_arr(&v), Wei::new(v).to_bytes());
}

#[test]
fn account_id_validation() {
    assert!(AccountId::try_from(b"alice.near").is_ok());
    assert!(AccountId::try_from(b"a-b_c.d2").is_ok());
    assert!(AccountId::try_from(b"a").is_err()); // too short
    assert!(AccountId::try_from(&[b'a'; 65]).is_err()); // too long
    assert!(AccountId::try_from(b".alice").is_err()); // leading separator
    assert!(AccountId::try_from(b"alice.").is_err()); // trailing separator
    assert!(AccountId::try_from(b"ali..ce").is_err()); // doubled separator
    assert!(AccountId::try_from(b"Alice").is_err()); // upper case
}

#[test]
fn eth_address_validation() {
    let ok = validate_eth_address("11".repeat(20).as_bytes()).unwrap();
    assert_eq!(ok.as_bytes().as_slice(), &[0x11u8; 20][..]);
    assert!(matches!(
        validate_eth_address(b"11"),
        Err(AddressValidationError::IncorrectLength)
    ));
    assert!(matches!(
        validate_eth_address(b"1"),
        Err(AddressValidationError::FailedDecodeHex)
    ));
    assert!(matches!(
        validate_eth_address("zz".repeat(20).as_bytes()),
        Err(AddressValidationError::FailedDecodeHex)
    ));
}

#[test]
fn parse_direct_message() {
    let t = parse_message("alice.near", 5).unwrap();
    match &t {
        TokenMessageData::Near(acc) => assert_eq!(acc.as_bytes().as_slice(), b"alice.near"),
        TokenMessageData::Eth { .. } => panic!("expected a direct destination"),
    }
    assert_eq!(t.get_recipient().as_bytes().as_slice(), b"alice.near");
}

#[test]
fn parse_forward_message() {
    let msg = format!("relayer.near:0x{}", "11".repeat(20));
    let t = parse_message(&msg, 7).unwrap();
    let expected_payload = format!(
        "relayer.near:{}{}",
        "00000000000000000000000000000007",
        "11".repeat(20)
    );
    match &t {
        TokenMessageData::Eth {
            receiver_id,
            message,
        } => {
            assert_eq!(receiver_id.as_bytes().as_slice(), b"relayer.near");
            assert_eq!(message.as_slice(), expected_payload.as_bytes());
        }
        TokenMessageData::Near(_) => panic!("expected a forwarded destination"),
    }
    // the credited account is the relayer, never the forwarding address
    assert_eq!(t.get_recipient().as_bytes().as_slice(), b"relayer.near");
}

#[test]
fn parse_forward_message_without_prefix() {
    let msg = format!("relayer.near:{}", "2a".repeat(20));
    let t = parse_message(&msg, 0).unwrap();
    match &t {
        TokenMessageData::Eth { message, .. } => {
            let expected = format!(
                "relayer.near:{}{}",
                "00000000000000000000000000000000",
                "2a".repeat(20)
            );
            assert_eq!(message.as_slice(), expected.as_bytes());
        }
        TokenMessageData::Near(_) => panic!("expected a forwarded destination"),
    }
}

#[test]
fn parse_too_many_parts() {
    assert!(matches!(
        parse_message("a:b:c", 0),
        Err(ParseEventMessageError::TooManyParts)
    ));
}

#[test]
fn parse_bad_addresses() {
    // 41 characters: not the prefixed form, and not valid hex of 20 bytes
    let msg = format!("relayer.near:{}", "1".repeat(41));
    assert!(matches!(
        parse_message(&msg, 1),
        Err(ParseEventMessageError::EthAddressValidationError(_))
    ));
    // 42 characters without the 0x prefix
    let msg = format!("relayer.near:{}", "1".repeat(42));
    assert!(matches!(
        parse_message(&msg, 1),
        Err(ParseEventMessageError::EthAddressValidationError(
            AddressValidationError::FailedDecodeHex
        ))
    ));
    // invalid account before the colon
    let msg = format!("Bad!:0x{}", "11".repeat(20));
    assert!(matches!(
        parse_message(&msg, 1),
        Err(ParseEventMessageError::InvalidAccount)
    ));
    assert!(matches!(
        parse_message("not-an-account!", 1),
        Err(ParseEventMessageError::InvalidAccount)
    ));
}

fn deposited_params() -> Vec<ethabi::ParamType> {
    vec![
        ethabi::ParamType::Address,
        ethabi::ParamType::String,
        ethabi::ParamType::Uint(256),
        ethabi::ParamType::Uint(256),
    ]
}

fn build_log(
    custodian: [u8; 20],
    topics: Vec<Vec<u8>>,
    data: Vec<u8>,
) -> Vec<u8> {
    let mut stream = rlp::RlpStream::new();
    stream.begin_list(3);
    stream.append(&custodian.to_vec());
    stream.begin_list(topics.len());
    for t in &topics {
        stream.append(t);
    }
    stream.append(&data);
    stream.out().to_vec()
}

fn build_deposited_log(recipient: &str, amount: u128, fee: u128) -> Vec<u8> {
    let sig = ethabi::long_signature("Deposited", &deposited_params());
    let sender_topic = {
        let mut t = vec![0u8; 12];
        t.extend_from_slice(&[0x22u8; 20]);
        t
    };
    let data = ethabi::encode(&[
        ethabi::Token::String(recipient.to_string()),
        ethabi::Token::Uint(ethabi::ethereum_types::U256::from(amount)),
        ethabi::Token::Uint(ethabi::ethereum_types::U256::from(fee)),
    ]);
    build_log(
        [0x33u8; 20],
        vec![sig.as_bytes().to_vec(), sender_topic],
        data,
    )
}

#[test]
fn decode_log_entry_round_trip() {
    let raw = build_deposited_log("alice.near", 100, 5);
    let log = decode_log_entry(&raw).unwrap();
    assert_eq!(log.address.as_bytes().as_slice(), &[0x33u8; 20][..]);
    assert_eq!(log.topics.len(), 2);
    assert_eq!(log.topics[1].len(), 32);
}

#[test]
fn decode_log_entry_rejects_garbage() {
    assert!(matches!(decode_log_entry(&[]), Err(DecodeError::RlpFailed)));
    // trailing byte after a well-formed record
    let mut raw = build_deposited_log("alice.near", 1, 1);
    raw.push(0);
    assert!(matches!(decode_log_entry(&raw), Err(DecodeError::RlpFailed)));
}

#[test]
fn from_log_entry_data_direct() {
    let raw = build_deposited_log("alice.near", 100, 5);
    let ev = DepositedEvent::from_log_entry_data(&raw).unwrap();
    assert_eq!(ev.eth_custodian_address.as_bytes().as_slice(), &[0x33u8; 20][..]);
    assert_eq!(ev.sender.as_bytes().as_slice(), &[0x22u8; 20][..]);
    assert_eq!(ev.amount, Balance::new(100));
    assert_eq!(ev.fee, Fee::new(5));
    assert_eq!(
        ev.token_message_data.get_recipient().as_bytes().as_slice(),
        b"alice.near"
    );
}

#[test]
fn from_log_entry_data_forward() {
    let recipient = format!("relayer.near:0x{}", "11".repeat(20));
    let raw = build_deposited_log(&recipient, 42, 7);
    let ev = DepositedEvent::from_log_entry_data(&raw).unwrap();
    assert_eq!(
        ev.token_message_data.get_recipient().as_bytes().as_slice(),
        b"relayer.near"
    );
    match &ev.token_message_data {
        TokenMessageData::Eth { message, .. } => {
            let expected = format!(
                "relayer.near:{}{}",
                "00000000000000000000000000000007",
                "11".repeat(20)
            );
            assert_eq!(message.as_slice(), expected.as_bytes());
        }
        TokenMessageData::Near(_) => panic!("expected a forwarded destination"),
    }
}

#[test]
fn from_log_entry_data_rejects_rlp_garbage() {
    assert!(matches!(
        DepositedEvent::from_log_entry_data(&[0xff, 0x00, 0x01]),
        Err(ParseError::LogParseFailed(DecodeError::RlpFailed))
    ));
}

#[test]
fn from_log_entry_data_missing_parameter() {
    // only 3 of the 4 schema parameters: the data block lacks the fee
    let sig = ethabi::long_signature("Deposited", &deposited_params());
    let sender_topic = {
        let mut t = vec![0u8; 12];
        t.extend_from_slice(&[0x22u8; 20]);
        t
    };
    let data = ethabi::encode(&[
        ethabi::Token::String("alice.near".to_string()),
        ethabi::Token::Uint(ethabi::ethereum_types::U256::from(100u64)),
    ]);
    let raw = build_log(
        [0x33u8; 20],
        vec![sig.as_bytes().to_vec(), sender_topic],
        data,
    );
    assert!(matches!(
        DepositedEvent::from_log_entry_data(&raw),
        Err(ParseError::LogParseFailed(DecodeError::SchemaMismatch))
    ));
}

#[test]
fn from_log_entry_data_missing_topic() {
    // no sender topic at all
    let sig = ethabi::long_signature("Deposited", &deposited_params());
    let data = ethabi::encode(&[
        ethabi::Token::String("alice.near".to_string()),
        ethabi::Token::Uint(ethabi::ethereum_types::U256::from(100u64)),
        ethabi::Token::Uint(ethabi::ethereum_types::U256::from(5u64)),
    ]);
    let raw = build_log([0x33u8; 20], vec![sig.as_bytes().to_vec()], data);
    assert!(matches!(
        DepositedEvent::from_log_entry_data(&raw),
        Err(ParseError::LogParseFailed(DecodeError::SchemaMismatch))
    ));
}

#[test]
fn from_log_entry_data_wrong_signature() {
    let sig = ethabi::long_signature("Withdrawn", &deposited_params());
    let sender_topic = {
        let mut t = vec![0u8; 12];
        t.extend_from_slice(&[0x22u8; 20]);
        t
    };
    let data = ethabi::encode(&[
        ethabi::Token::String("alice.near".to_string()),
        ethabi::Token::Uint(ethabi::ethereum_types::U256::from(100u64)),
        ethabi::Token::Uint(ethabi::ethereum_types::U256::from(5u64)),
    ]);
    let raw = build_log(
        [0x33u8; 20],
        vec![sig.as_bytes().to_vec(), sender_topic],
        data,
    );
    assert!(matches!(
        DepositedEvent::from_log_entry_data(&raw),
        Err(ParseError::LogParseFailed(DecodeError::SchemaMismatch))
    ));
}

#[test]
fn from_log_entry_data_amount_overflow() {
    // an amount of 2^128 must fail InvalidAmount, never truncate to zero
    let sig = ethabi::long_signature("Deposited", &deposited_params());
    let sender_topic = {
        let mut t = vec![0u8; 12];
        t.extend_from_slice(&[0x22u8; 20]);
        t
    };
    let big = ethabi::ethereum_types::U256::from(1u64) << 128;
    let data = ethabi::encode(&[
        ethabi::Token::String("alice.near".to_string()),
        ethabi::Token::Uint(big),
        ethabi::Token::Uint(ethabi::ethereum_types::U256::from(5u64)),
    ]);
    let raw = build_log(
        [0x33u8; 20],
        vec![sig.as_bytes().to_vec(), sender_topic],
        data,
    );
    assert!(matches!(
        DepositedEvent::from_log_entry_data(&raw),
        Err(ParseError::InvalidAmount)
    ));
}

#[test]
fn from_log_entry_data_bad_recipient() {
    let raw = build_deposited_log("a:b:c", 1, 1);
    assert!(matches!(
        DepositedEvent::from_log_entry_data(&raw),
        Err(ParseError::MessageParseFailed(
            ParseEventMessageError::TooManyParts
        ))
    ));
}

#[test]
fn wei_widening_conversions() {
    assert_eq!(Wei::from_fee(Fee::new(9)).raw(), U256::from_u128(9));
    assert_eq!(Wei::from_balance(Balance::new(8)).raw(), U256::from_u128(8));
    assert_eq!(Wei::from_nep141(NEP141Wei::new(7)).raw(), U256::from_u128(7));
}

#[test]
fn error_texts() {
    assert_eq!(DecodeError::RlpFailed.as_ref(), "ERR_RLP_FAILED");
    assert_eq!(DecodeError::SchemaMismatch.as_ref(), "ERR_PARSE_DEPOSIT_EVENT");
    assert_eq!(
        ParseEventMessageError::TooManyParts.as_ref(),
        "ERR_INVALID_EVENT_MESSAGE_FORMAT"
    );
    assert_eq!(
        ParseEventMessageError::InvalidAccount.as_ref(),
        "ERR_INVALID_ACCOUNT_ID"
    );
    assert_eq!(ParseError::InvalidSender.as_ref(), "ERR_INVALID_SENDER");
    assert_eq!(ParseError::InvalidAmount.as_ref(), "ERR_INVALID_AMOUNT");
    assert_eq!(ParseError::InvalidFee.as_ref(), "ERR_INVALID_FEE");
    assert_eq!(
        ParseError::MessageParseFailed(ParseEventMessageError::TooManyParts).as_ref(),
        "ERR_INVALID_EVENT_MESSAGE_FORMAT"
    );
    assert_eq!(
        ParseError::from(ParseEventMessageError::InvalidAccount).as_ref(),
        "ERR_INVALID_ACCOUNT_ID"
    );
}

#[test]
fn amount_overflow_wins_over_fee_and_message() {
    // when amount and fee both overflow and the message is also bad, the
    // amount error comes first
    let sig = ethabi::long_signature("Deposited", &deposited_params());
    let sender_topic = {
        let mut t = vec![0u8; 12];
        t.extend_from_slice(&[0x22u8; 20]);
        t
    };
    let big = ethabi::ethereum_types::U256::from(1u64) << 128;
    let data = ethabi::encode(&[
        ethabi::Token::String("a:b:c".to_string()),
        ethabi::Token::Uint(big),
        ethabi::Token::Uint(big),
    ]);
    let raw = build_log(
        [0x33u8; 20],
        vec![sig.as_bytes().to_vec(), sender_topic],
        data,
    );
    assert!(matches!(
        DepositedEvent::from_log_entry_data(&raw),
        Err(ParseError::InvalidAmount)
    ));
}

#[test]
fn fee_overflow_after_amount_in_range() {
    let sig = ethabi::long_signature("Deposited", &deposited_params());
    let sender_topic = {
        let mut t = vec![0u8; 12];
        t.extend_from_slice(&[0x22u8; 20]);
        t
    };
    let big = ethabi::ethereum_types::U256::from(1u64) << 128;
    let data = ethabi::encode(&[
        ethabi::Token::String("alice.near".to_string()),
        ethabi::Token::Uint(ethabi::ethereum_types::U256::from(5u64)),
        ethabi::Token::Uint(big),
    ]);
    let raw = build_log(
        [0x33u8; 20],
        vec![sig.as_bytes().to_vec(), sender_topic],
        data,
    );
    assert!(matches!(
        DepositedEvent::from_log_entry_data(&raw),
        Err(ParseError::InvalidFee)
    ));
}

//! Decoding layer for inbound bridge deposits: fixed-width balance types with
//! checked arithmetic, a structural log-record decoder, an event schema
//! matcher, a routing-message parser, and the assembler that turns a raw log
//! record into a normalized deposit record.

pub mod abi_event;
pub mod account;
pub mod balance;
pub mod bytesutil;
pub mod deposit_event;
pub mod hexcodec;
pub mod rlp_log;
pub mod u256;
pub mod wei;

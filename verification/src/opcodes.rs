//! The opcodes the generated scripts use, with the values `kaspa_txscript` gives them.

use vstd::prelude::*;

verus! {

pub const OP_FALSE: u8 = 0x00;
pub const OP_TRUE: u8 = 0x51;
pub const OP_IF: u8 = 0x63;
pub const OP_ELSE: u8 = 0x67;
pub const OP_END_IF: u8 = 0x68;
pub const OP_VERIFY: u8 = 0x69;
pub const OP_DROP: u8 = 0x75;
pub const OP_DUP: u8 = 0x76;
pub const OP_NIP: u8 = 0x77;
pub const OP_PICK: u8 = 0x79;
pub const OP_ROLL: u8 = 0x7a;
pub const OP_SWAP: u8 = 0x7c;
pub const OP_CAT: u8 = 0x7e;
pub const OP_SUBSTR: u8 = 0x7f;
pub const OP_SIZE: u8 = 0x82;
pub const OP_EQUAL: u8 = 0x87;
pub const OP_EQUAL_VERIFY: u8 = 0x88;
pub const OP_0_NOT_EQUAL: u8 = 0x92;
pub const OP_ADD: u8 = 0x93;
pub const OP_SUB: u8 = 0x94;
pub const OP_DIV: u8 = 0x96;
pub const OP_MOD: u8 = 0x97;
pub const OP_NUM_EQUAL: u8 = 0x9c;
pub const OP_NUM_EQUAL_VERIFY: u8 = 0x9d;
pub const OP_LESS_THAN: u8 = 0x9f;
pub const OP_GREATER_THAN: u8 = 0xa0;
pub const OP_LESS_THAN_OR_EQUAL: u8 = 0xa1;
pub const OP_GREATER_THAN_OR_EQUAL: u8 = 0xa2;
pub const OP_WITHIN: u8 = 0xa5;
pub const OP_BLAKE2B: u8 = 0xaa;
pub const OP_CHECK_LOCK_TIME_VERIFY: u8 = 0xb0;
pub const OP_CHECK_SEQUENCE_VERIFY: u8 = 0xb1;
pub const OP_TX_INPUT_INDEX: u8 = 0xb9;
pub const OP_TX_INPUT_SCRIPT_SIG_SUBSTR: u8 = 0xbc;
pub const OP_TX_INPUT_SPK: u8 = 0xbf;
pub const OP_TX_OUTPUT_SPK: u8 = 0xc3;
pub const OP_TX_INPUT_SCRIPT_SIG_LEN: u8 = 0xc9;
pub const OP_NUM2BIN: u8 = 0xcd;
pub const OP_BIN2NUM: u8 = 0xce;
pub const OP_BLAKE3: u8 = 0xd9;

/// The boundary between DAA-score and timestamp lock times (`kaspa_txscript::LOCK_TIME_THRESHOLD`).
pub const LOCK_TIME_THRESHOLD: u64 = 500_000_000_000;

} // verus!

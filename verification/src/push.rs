use vstd::prelude::*;

use crate::error::CompilerError;

verus! {

pub const OP_PUSH_DATA1: u8 = 0x4c;

pub const OP_PUSH_DATA2: u8 = 0x4d;

pub const OP_PUSH_DATA4: u8 = 0x4e;

/// The largest payload a single `OpData#` opcode (the length itself) can push.
pub const OP_DATA_MAX: usize = 75;

/// The explicit push header for a payload of `len` bytes: the length itself when it fits in
/// an `OpData#` opcode (0 pushes the empty payload), otherwise the smallest `OpPushData#`
/// opcode followed by the length in little-endian.
pub open spec fn push_header(len: nat) -> Seq<u8> {
    if len <= 75 {
        seq![len as u8]
    } else if len <= 0xff {
        seq![0x4cu8, len as u8]
    } else if len <= 0xffff {
        seq![0x4du8, (len % 0x100) as u8, (len / 0x100) as u8]
    } else {
        seq![
            0x4eu8,
            (len % 0x100) as u8,
            (len / 0x100 % 0x100) as u8,
            (len / 0x1_0000 % 0x100) as u8,
            (len / 0x100_0000) as u8,
        ]
    }
}

/// The width of the push header of a `len`-byte payload.
pub open spec fn header_len(len: nat) -> nat {
    if len <= 75 {
        1
    } else if len <= 0xff {
        2
    } else if len <= 0xffff {
        3
    } else {
        5
    }
}

pub proof fn lemma_header_len(len: nat)
    ensures
        push_header(len).len() == header_len(len),
        1 <= header_len(len) <= 5,
{
}

/// Whether a payload length can be pushed at all.
pub open spec fn pushable(len: nat) -> bool {
    len <= u32::MAX
}

/// The canonical push header the state encoder writes in front of a `payload_len`-byte field.
pub fn data_prefix(payload_len: usize) -> (r: Result<Vec<u8>, CompilerError>)
    ensures
        match r {
            Ok(prefix) => pushable(payload_len as nat) && prefix@ == push_header(payload_len as nat),
            Err(e) => !pushable(payload_len as nat) && e == CompilerError::PayloadTooLarge,
        },
{
    let mut prefix: Vec<u8> = Vec::new();
    if payload_len <= OP_DATA_MAX {
        prefix.push(payload_len as u8);
    } else if payload_len <= 0xff {
        prefix.push(OP_PUSH_DATA1);
        prefix.push(payload_len as u8);
    } else if payload_len <= 0xffff {
        prefix.push(OP_PUSH_DATA2);
        prefix.push((payload_len % 0x100) as u8);
        prefix.push((payload_len / 0x100) as u8);
    } else if payload_len <= 0xffff_ffff {
        prefix.push(OP_PUSH_DATA4);
        prefix.push((payload_len % 0x100) as u8);
        prefix.push((payload_len / 0x100 % 0x100) as u8);
        prefix.push((payload_len / 0x1_0000 % 0x100) as u8);
        prefix.push((payload_len / 0x100_0000) as u8);
    } else {
        return Err(CompilerError::PayloadTooLarge);
    }
    assert(prefix@ == push_header(payload_len as nat));
    Ok(prefix)
}

/// `a + b`, or an overflow error.
pub fn checked_add(a: usize, b: usize) -> (r: Result<usize, CompilerError>)
    ensures
        match r {
            Ok(n) => n == a + b,
            Err(e) => a + b > usize::MAX && e == CompilerError::ArithmeticOverflow,
        },
{
    match a.checked_add(b) {
        Some(n) => Ok(n),
        None => Err(CompilerError::ArithmeticOverflow),
    }
}

/// `a - b`, or an overflow error when `b > a`.
pub fn checked_sub(a: usize, b: usize) -> (r: Result<usize, CompilerError>)
    ensures
        match r {
            Ok(n) => n == a - b,
            Err(e) => b > a && e == CompilerError::ArithmeticOverflow,
        },
{
    match a.checked_sub(b) {
        Some(n) => Ok(n),
        None => Err(CompilerError::ArithmeticOverflow),
    }
}

} // verus!

//! What the emitted code does when it runs.
//!
//! A model of the script engine's data stack for the opcodes the compiler emits, taken from
//! their definitions in kaspa's script engine: the pushes of numbers and data, `OpDup`,
//! `OpDrop`, `OpSwap`, `OpPick`, `OpRoll`, `OpNip`, `OpAdd`, `OpSub`, `OpMod`, `OpCat`, `OpSubstr`, `OpSize`,
//! `OpNum2Bin`, `OpBin2Num`, `Op0NotEqual`, `OpLessThan`, `OpNumEqualVerify`, `OpEqualVerify`, `OpVerify`,
//! `OpBlake2b`, `OpBlake3`, `OpTxInputIndex`, `OpTxInputSpk`, `OpTxInputScriptSigLen`,
//! `OpTxInputScriptSigSubstr` and `OpTxOutputSpk`. The engine's resource metering is left
//! out. With it, the code is shown to do what it is for: the framing guard succeeds exactly
//! when the region it cuts out of a foreign input's signature script is canonically framed;
//! a state read's binding exactly when the input's scriptPubKey is the P2SH of the window the
//! reads are taken from; a templated read's validation exactly when, besides, the template
//! around the window's state hashes to the expected hash; a field read pushes exactly its
//! payload, decoded for a number or a bool; a parameter's size check passes exactly when the parameter's encoding has a
//! size its type accepts; the state encoder writes each field as its header and payload,
//! joined in field order; and the output check of `validateOutputState` passes exactly when
//! the output pays to this very script with its state replaced. Further: the template check
//! of `validateOutputStateWithTemplate` passes exactly when the template hashes to the
//! expected hash, and its output check exactly when the output pays to the prefix, the new
//! state and the suffix in that order; a templated read binds each field to the payload in
//! the state region that starts the template prefix's length into the window; an `if`
//! without `else` brings every binding back to where the scope before it had it; and an
//! entrypoint's epilogue leaves exactly its return values.

use vstd::prelude::*;

use crate::framing::{all_pushable, framing_ok, header_pinned, lemma_chunk_within_region};
use crate::layout::{chunk_start, region_len};
use crate::opcodes::{
    OP_ADD, OP_BLAKE2B, OP_CAT, OP_DROP, OP_DUP, OP_EQUAL, OP_EQUAL_VERIFY, OP_PICK, OP_SUBSTR, OP_SWAP,
    OP_TX_INPUT_SCRIPT_SIG_LEN, OP_TX_INPUT_SCRIPT_SIG_SUBSTR, OP_TX_INPUT_SPK, OP_SIZE, OP_NUM_EQUAL_VERIFY, OP_MOD,
    OP_LESS_THAN, OP_VERIFY, OP_0_NOT_EQUAL, OP_NUM2BIN, OP_TX_INPUT_INDEX, OP_SUB, OP_TX_OUTPUT_SPK, OP_BLAKE3, OP_BIN2NUM, OP_ROLL, OP_NIP, OP_IF, OP_END_IF,
};
use crate::push::{header_len, lemma_header_len, push_header};
use crate::script::{magnitude_le, script_num_bytes, Chunk, MAX_SCRIPT_ELEMENT_SIZE};
use crate::codegen::{expr_code, p2sh_chunks, program_code, Fault, StepV};
use crate::expr::ExprV;
use crate::stack::{binding_depth, copy_chunks, lemma_binding_depth, reorder_plan};
use crate::statement::{block_outcome, if_outcome, reorder_code, Scope, StmtEnv};
use crate::state_read::{base_def, find_binding, reads_from, template_read_stmt, BindingV};
use crate::locals::{base_name, fresh_base_index};
use crate::state::template_read_validation_code;
use crate::layout::{payload_lens, payload_start, spec_chunk_size, spec_payload_len, spec_state_len};
use crate::ast::Statement;
use crate::entrypoint::{epilogue_code, return_steps, roll_drops, exact_param_size, is_bool_type, is_dynamic_array_type, param_size_check, size_check};
use crate::types::{spec_array_element_size, ArrayDim, TypeRefV};
use crate::error::StateBuiltin;
use crate::output::{
    cat_ops, field_value_tail, output_rebuild_steps, prefix_rebuild_chunks, suffix_rebuild_chunks, template_check_steps,
    template_output_steps, template_preimage,
};
use crate::state::{add_v, field_read_expr, template_validation_steps};
use crate::codegen::{binary_opcode, cast_is_numeric, cat_code, lemma_cat_code_assoc3, program_delta};
use crate::expr::BinaryOp;
use crate::state::{guard_tail, header_check_chunks, header_checks, input_binding_steps};

verus! {

/// What the transaction shows a script: each input's signature script, the bytes of each
/// spent output's scriptPubKey (version and script) as the engine pushes them, the same of
/// each of the transaction's outputs, and the index of the input whose script runs.
pub struct TxView {
    pub sigs: Seq<Seq<u8>>,
    pub spks: Seq<Seq<u8>>,
    pub outs: Seq<Seq<u8>>,
    pub me: nat,
}

/// A value on the data stack: a number pushed or computed as one, or bytes.
pub enum Item {
    Num(int),
    Bytes(Seq<u8>),
}

/// The bytes the engine holds for an item.
pub open spec fn item_bytes(it: Item) -> Seq<u8> {
    match it {
        Item::Num(v) => script_num_bytes(v),
        Item::Bytes(d) => d,
    }
}

/// A number the engine reads as a non-negative `i32` offset or index.
pub open spec fn offset_of(it: Item) -> Option<nat> {
    match it {
        Item::Num(v) => if 0 <= v <= i32::MAX { Some(v as nat) } else { None },
        Item::Bytes(_) => None,
    }
}

/// A number the engine reads as an `i64` operand (the model reads only numbers it pushed or
/// computed).
pub open spec fn num_of(it: Item) -> Option<int> {
    match it {
        Item::Num(v) => if i64::MIN <= v <= i64::MAX { Some(v) } else { None },
        Item::Bytes(_) => None,
    }
}

/// The `size`-byte little-endian sign-magnitude encoding `OpNum2Bin` writes for `v`: the
/// magnitude's bytes (with a zero byte after a last byte whose top bit is set), padded with
/// zero bytes to `size`, and the sign in the top bit of the last byte; `None` where the
/// magnitude needs more than `size` bytes.
pub open spec fn fixed_num_bytes(v: int, size: nat) -> Option<Seq<u8>> {
    let m = magnitude_le(abs_int(v) as nat);
    let padded = if m.len() > 0 && m.last() >= 0x80 { m.push(0u8) } else { m };
    if padded.len() > size {
        None
    } else {
        let full = padded + Seq::new((size - padded.len()) as nat, |i: int| 0u8);
        if v < 0 {
            Some(full.update(full.len() - 1, full.last() | 0x80u8))
        } else {
            Some(full)
        }
    }
}

/// The value of little-endian bytes.
pub open spec fn le_value(d: Seq<u8>) -> nat
    decreases d.len(),
{
    if d.len() == 0 {
        0
    } else {
        d[0] as nat + 256 * le_value(d.drop_first())
    }
}

/// The number a sign-magnitude little-endian encoding stands for, as the engine reads a
/// numeric operand: the top bit of the last byte is the sign, the rest the magnitude.
pub open spec fn decode_num(d: Seq<u8>) -> int {
    if d.len() == 0 {
        0
    } else {
        let mag = le_value(d.drop_last().push(d.last() & 0x7fu8)) as int;
        if d.last() >= 0x80 { -mag } else { mag }
    }
}

/// The remainder of `a` divided by `b`, truncated toward zero, as `i64::checked_rem` gives it.
pub open spec fn truncated_rem(a: int, b: int) -> int {
    let r = abs_int(a) % abs_int(b);
    if a < 0 { -r } else { r }
}

pub open spec fn abs_int(a: int) -> int {
    if a < 0 { -a } else { a }
}

/// `data[start .. end]`, where the engine allows it.
pub open spec fn substring(data: Seq<u8>, start: nat, end: nat) -> Option<Seq<u8>> {
    if start <= end && end <= data.len() && end - start <= MAX_SCRIPT_ELEMENT_SIZE {
        Some(data.subrange(start as int, end as int))
    } else {
        None
    }
}

/// One chunk run on the stack `st` (top last), in a transaction whose inputs have the
/// signature scripts and scriptPubKeys `tx` shows, with `hash(op, d)` the digest of `d` that
/// the engine's hash opcode `op` (`OpBlake2b`, `OpBlake3`) computes; `None` where the engine
/// fails or the model says nothing.
pub open spec fn step(tx: TxView, hash: spec_fn(u8, Seq<u8>) -> Seq<u8>, st: Seq<Item>, c: Chunk) -> Option<Seq<Item>> {
    let n = st.len() as int;
    match c {
        Chunk::Int(v) => Some(st.push(Item::Num(v as int))),
        Chunk::Data(d) => Some(st.push(Item::Bytes(d))),
        Chunk::Op(op) => if op == OP_DUP {
            if n >= 1 { Some(st.push(st[n - 1])) } else { None }
        } else if op == OP_DROP {
            if n >= 1 { Some(st.drop_last()) } else { None }
        } else if op == OP_ADD {
            if n >= 2 {
                match (st[n - 2], st[n - 1]) {
                    (Item::Num(a), Item::Num(b)) => if i64::MIN <= a + b <= i64::MAX {
                        Some(st.subrange(0, n - 2).push(Item::Num(a + b)))
                    } else {
                        None
                    },
                    _ => None,
                }
            } else {
                None
            }
        } else if op == OP_SWAP {
            if n >= 2 { Some(st.subrange(0, n - 2).push(st[n - 1]).push(st[n - 2])) } else { None }
        } else if op == OP_PICK {
            if n >= 1 {
                match offset_of(st[n - 1]) {
                    Some(k) => if k < n - 1 { Some(st.drop_last().push(st[n - 2 - k])) } else { None },
                    None => None,
                }
            } else {
                None
            }
        } else if op == OP_CAT {
            if n >= 2 && item_bytes(st[n - 2]).len() + item_bytes(st[n - 1]).len() <= MAX_SCRIPT_ELEMENT_SIZE {
                Some(st.subrange(0, n - 2).push(Item::Bytes(item_bytes(st[n - 2]) + item_bytes(st[n - 1]))))
            } else {
                None
            }
        } else if op == OP_BLAKE2B {
            if n >= 1 { Some(st.drop_last().push(Item::Bytes(hash(OP_BLAKE2B, item_bytes(st[n - 1]))))) } else { None }
        } else if op == OP_BLAKE3 {
            if n >= 1 { Some(st.drop_last().push(Item::Bytes(hash(OP_BLAKE3, item_bytes(st[n - 1]))))) } else { None }
        } else if op == OP_TX_INPUT_SPK {
            if n >= 1 {
                match offset_of(st[n - 1]) {
                    Some(i) => if i < tx.spks.len() && tx.spks[i as int].len() <= MAX_SCRIPT_ELEMENT_SIZE {
                        Some(st.drop_last().push(Item::Bytes(tx.spks[i as int])))
                    } else {
                        None
                    },
                    None => None,
                }
            } else {
                None
            }
        } else if op == OP_TX_INPUT_SCRIPT_SIG_LEN {
            if n >= 1 {
                match offset_of(st[n - 1]) {
                    Some(i) => if i < tx.sigs.len() {
                        Some(st.drop_last().push(Item::Num(tx.sigs[i as int].len() as int)))
                    } else {
                        None
                    },
                    None => None,
                }
            } else {
                None
            }
        } else if op == OP_EQUAL_VERIFY {
            if n >= 2 && item_bytes(st[n - 2]) == item_bytes(st[n - 1]) {
                Some(st.subrange(0, n - 2))
            } else {
                None
            }
        } else if op == OP_SUBSTR {
            if n >= 3 {
                match (st[n - 3], offset_of(st[n - 2]), offset_of(st[n - 1])) {
                    (Item::Bytes(d), Some(s), Some(e)) => match substring(d, s, e) {
                        Some(x) => Some(st.subrange(0, n - 3).push(Item::Bytes(x))),
                        None => None,
                    },
                    _ => None,
                }
            } else {
                None
            }
        } else if op == OP_TX_INPUT_SCRIPT_SIG_SUBSTR {
            if n >= 3 {
                match (offset_of(st[n - 3]), offset_of(st[n - 2]), offset_of(st[n - 1])) {
                    (Some(i), Some(s), Some(e)) => if i < tx.sigs.len() {
                        match substring(tx.sigs[i as int], s, e) {
                            Some(x) => Some(st.subrange(0, n - 3).push(Item::Bytes(x))),
                            None => None,
                        }
                    } else {
                        None
                    },
                    _ => None,
                }
            } else {
                None
            }
        } else if op == OP_TX_INPUT_INDEX {
            if tx.me <= i64::MAX { Some(st.push(Item::Num(tx.me as int))) } else { None }
        } else if op == OP_SUB {
            if n >= 2 {
                match (num_of(st[n - 2]), num_of(st[n - 1])) {
                    (Some(a), Some(b)) => if i64::MIN <= a - b <= i64::MAX {
                        Some(st.subrange(0, n - 2).push(Item::Num(a - b)))
                    } else {
                        None
                    },
                    _ => None,
                }
            } else {
                None
            }
        } else if op == OP_TX_OUTPUT_SPK {
            if n >= 1 {
                match offset_of(st[n - 1]) {
                    Some(j) => if j < tx.outs.len() && tx.outs[j as int].len() <= MAX_SCRIPT_ELEMENT_SIZE {
                        Some(st.drop_last().push(Item::Bytes(tx.outs[j as int])))
                    } else {
                        None
                    },
                    None => None,
                }
            } else {
                None
            }
        } else if op == OP_ROLL {
            if n >= 1 {
                match offset_of(st[n - 1]) {
                    Some(k) => if k < n - 1 {
                        Some(st.drop_last().remove(n - 2 - k).push(st[n - 2 - k]))
                    } else {
                        None
                    },
                    None => None,
                }
            } else {
                None
            }
        } else if op == OP_NIP {
            if n >= 2 { Some(st.remove(n - 2)) } else { None }
        } else if op == OP_BIN2NUM {
            if n >= 1 {
                match st[n - 1] {
                    Item::Bytes(d) => if d.len() <= 8 { Some(st.drop_last().push(Item::Num(decode_num(d)))) } else { None },
                    Item::Num(v) => if i64::MIN <= v <= i64::MAX { Some(st) } else { None },
                }
            } else {
                None
            }
        } else if op == OP_0_NOT_EQUAL {
            if n >= 1 {
                match num_of(st[n - 1]) {
                    Some(v) => Some(st.drop_last().push(Item::Num(if v != 0 { 1 } else { 0 }))),
                    None => None,
                }
            } else {
                None
            }
        } else if op == OP_NUM2BIN {
            if n >= 2 {
                match (num_of(st[n - 2]), offset_of(st[n - 1])) {
                    (Some(v), Some(size)) => if size <= 8 {
                        match fixed_num_bytes(v, size) {
                            Some(x) => Some(st.subrange(0, n - 2).push(Item::Bytes(x))),
                            None => None,
                        }
                    } else {
                        None
                    },
                    _ => None,
                }
            } else {
                None
            }
        } else if op == OP_SIZE {
            if n >= 1 { Some(st.push(Item::Num(item_bytes(st[n - 1]).len() as int))) } else { None }
        } else if op == OP_NUM_EQUAL_VERIFY {
            if n >= 2 {
                match (num_of(st[n - 2]), num_of(st[n - 1])) {
                    (Some(a), Some(b)) => if a == b { Some(st.subrange(0, n - 2)) } else { None },
                    _ => None,
                }
            } else {
                None
            }
        } else if op == OP_MOD {
            if n >= 2 {
                match (num_of(st[n - 2]), num_of(st[n - 1])) {
                    (Some(a), Some(b)) => if b == 0 || (a == i64::MIN && b == -1) {
                        None
                    } else {
                        Some(st.subrange(0, n - 2).push(Item::Num(truncated_rem(a, b))))
                    },
                    _ => None,
                }
            } else {
                None
            }
        } else if op == OP_LESS_THAN {
            if n >= 2 {
                match (num_of(st[n - 2]), num_of(st[n - 1])) {
                    (Some(a), Some(b)) => Some(st.subrange(0, n - 2).push(Item::Num(if a < b { 1 } else { 0 }))),
                    _ => None,
                }
            } else {
                None
            }
        } else if op == OP_VERIFY {
            if n >= 1 {
                match num_of(st[n - 1]) {
                    Some(v) => if v != 0 { Some(st.drop_last()) } else { None },
                    None => None,
                }
            } else {
                None
            }
        } else {
            None
        },
    }
}

/// Chunks run in order; the first failure stops the run.
pub open spec fn run(tx: TxView, hash: spec_fn(u8, Seq<u8>) -> Seq<u8>, st: Seq<Item>, cs: Seq<Chunk>) -> Option<Seq<Item>>
    decreases cs.len(),
{
    if cs.len() == 0 {
        Some(st)
    } else {
        match step(tx, hash, st, cs[0]) {
            None => None,
            Some(st1) => run(tx, hash, st1, cs.drop_first()),
        }
    }
}

/// Running `a + b` is running `a`, then `b` on what it leaves.
pub proof fn lemma_run_append(tx: TxView, hash: spec_fn(u8, Seq<u8>) -> Seq<u8>, st: Seq<Item>, a: Seq<Chunk>, b: Seq<Chunk>)
    ensures
        run(tx, hash, st, a + b) == match run(tx, hash, st, a) {
            None => None,
            Some(st1) => run(tx, hash, st1, b),
        },
    decreases a.len(),
{
    if a.len() > 0 {
        assert((a + b).drop_first() == a.drop_first() + b);
        assert((a + b)[0] == a[0]);
        if let Some(st1) = step(tx, hash, st, a[0]) {
            lemma_run_append(tx, hash, st1, a.drop_first(), b);
        }
    } else {
        assert(a + b == b);
    }
}

/// One field's check, with the region on top: it passes, leaving the stack as it was,
/// exactly when the field's header is pinned.
#[verifier::rlimit(100)]
proof fn lemma_header_check_runs(tx: TxView, hash: spec_fn(u8, Seq<u8>) -> Seq<u8>, below: Seq<Item>, region: Seq<u8>, lens: Seq<nat>, i: int)
    requires
        0 <= i < lens.len(),
        region.len() == region_len(lens),
        region_len(lens) <= i32::MAX,
    ensures
        run(tx, hash, below.push(Item::Bytes(region)), header_check_chunks(chunk_start(lens, i), lens[i])) == if header_pinned(
            region,
            lens,
            i,
        ) {
            Some(below.push(Item::Bytes(region)))
        } else {
            None::<Seq<Item>>
        },
{
    lemma_chunk_within_region(lens, i);
    lemma_header_len(lens[i]);
    let st = below.push(Item::Bytes(region));
    let s = chunk_start(lens, i);
    let e = s + header_len(lens[i]);
    let cs = header_check_chunks(s, lens[i]);
    reveal_with_fuel(run, 7);
    let st1 = st.push(Item::Bytes(region));
    let st2 = st1.push(Item::Num(s as i64 as int));
    let st3 = st2.push(Item::Num(e as i64 as int));
    assert(s as i64 as int == s);
    assert(e as i64 as int == e);
    assert(st3.subrange(0, st3.len() - 3) == st);
    let cut = region.subrange(s as int, e as int);
    let st4 = st.push(Item::Bytes(cut));
    let st5 = st4.push(Item::Bytes(push_header(lens[i])));
    assert(st5.subrange(0, st5.len() - 2) == st);
    assert(step(tx, hash, st, cs[0]) == Some(st1));
    assert(step(tx, hash, st1, cs[1]) == Some(st2));
    assert(step(tx, hash, st2, cs[2]) == Some(st3));
    assert(step(tx, hash, st3, cs[3]) == Some(st4));
    assert(step(tx, hash, st4, cs[4]) == Some(st5));
    assert(cs.drop_first().drop_first().drop_first().drop_first().drop_first() == seq![cs[5]]);
}

/// The checks of the first `n` fields pass exactly when their headers are all pinned.
proof fn lemma_header_checks_run(tx: TxView, hash: spec_fn(u8, Seq<u8>) -> Seq<u8>, below: Seq<Item>, region: Seq<u8>, lens: Seq<nat>, n: int)
    requires
        0 <= n <= lens.len(),
        region.len() == region_len(lens),
        region_len(lens) <= i32::MAX,
    ensures
        run(tx, hash, below.push(Item::Bytes(region)), header_checks(lens, n)) == if forall|i: int|
            0 <= i < n ==> #[trigger] header_pinned(region, lens, i) {
            Some(below.push(Item::Bytes(region)))
        } else {
            None::<Seq<Item>>
        },
    decreases n,
{
    let st = below.push(Item::Bytes(region));
    if n > 0 {
        lemma_header_checks_run(tx, hash, below, region, lens, n - 1);
        lemma_run_append(tx, hash, st, header_checks(lens, n - 1), header_check_chunks(chunk_start(lens, n - 1), lens[n - 1]));
        lemma_header_check_runs(tx, hash, below, region, lens, n - 1);
    } else {
        assert(run(tx, hash, st, Seq::<Chunk>::empty()) == Some(st));
    }
}

/// The guard's head cuts the region out of the input's signature script.
proof fn lemma_guard_head_runs(tx: TxView, hash: spec_fn(u8, Seq<u8>) -> Seq<u8>, idx: int, base: int, start: int, l: nat)
    requires
        0 <= idx <= i32::MAX,
        i64::MIN <= base <= i64::MAX,
        i64::MIN <= start <= i64::MAX,
        0 <= base + start,
        base + start + l <= i32::MAX,
        l <= MAX_SCRIPT_ELEMENT_SIZE,
    ensures
        run(
            tx,
            hash,
            seq![Item::Num(idx), Item::Num(base), Item::Num(start)],
            seq![
                Chunk::Op(OP_ADD),
                Chunk::Op(OP_DUP),
                Chunk::Int(l as i64),
                Chunk::Op(OP_ADD),
                Chunk::Op(OP_TX_INPUT_SCRIPT_SIG_SUBSTR),
            ],
        ) == if idx < tx.sigs.len() && base + start + l <= tx.sigs[idx].len() {
            Some(seq![Item::Bytes(tx.sigs[idx].subrange(base + start, base + start + l))])
        } else {
            None::<Seq<Item>>
        },
{
    let p = base + start;
    let head = seq![
        Chunk::Op(OP_ADD),
        Chunk::Op(OP_DUP),
        Chunk::Int(l as i64),
        Chunk::Op(OP_ADD),
        Chunk::Op(OP_TX_INPUT_SCRIPT_SIG_SUBSTR),
    ];
    let st0 = seq![Item::Num(idx), Item::Num(base), Item::Num(start)];
    reveal_with_fuel(run, 6);
    assert(l as i64 as int == l);
    let st1 = seq![Item::Num(idx), Item::Num(p)];
    let st2 = st1.push(Item::Num(p));
    let st3 = st2.push(Item::Num(l as int));
    let st4 = st1.push(Item::Num(p + l));
    assert(st0.subrange(0, 1) == seq![Item::Num(idx)]);
    assert(step(tx, hash, st0, head[0]) == Some(st1));
    assert(step(tx, hash, st1, head[1]) == Some(st2));
    assert(step(tx, hash, st2, head[2]) == Some(st3));
    assert(st3.subrange(0, 2) == st1);
    assert(step(tx, hash, st3, head[3]) == Some(st4));
    assert(st4.subrange(0, 0) == Seq::<Item>::empty());
    assert(head.drop_first().drop_first().drop_first().drop_first() == seq![head[4]]);
    assert(head.drop_first().drop_first().drop_first().drop_first().drop_first() == Seq::<Chunk>::empty());
}

/// Law: the framing guard, once its three operands (the input index, the sigscript base and
/// the state's start offset) are on the stack, succeeds exactly when the input exists, the
/// state region `[base + start, base + start + region length)` lies inside its signature
/// script, and that region is canonically framed; it then leaves the stack empty.
pub proof fn lemma_guard_runs_iff_framed(tx: TxView, hash: spec_fn(u8, Seq<u8>) -> Seq<u8>, idx: int, base: int, start: int, lens: Seq<nat>)
    requires
        all_pushable(lens),
        0 <= idx <= i32::MAX,
        i64::MIN <= base <= i64::MAX,
        i64::MIN <= start <= i64::MAX,
        0 <= base + start,
        base + start + region_len(lens) <= i32::MAX,
        region_len(lens) <= MAX_SCRIPT_ELEMENT_SIZE,
    ensures
        run(tx, hash, seq![Item::Num(idx), Item::Num(base), Item::Num(start)], guard_tail(lens)) == if idx < tx.sigs.len()
            && base + start + region_len(lens) <= tx.sigs[idx].len() && framing_ok(
            tx.sigs[idx].subrange(base + start, base + start + region_len(lens)),
            lens,
        ) {
            Some(Seq::<Item>::empty())
        } else {
            None::<Seq<Item>>
        },
{
    let l = region_len(lens);
    let p = base + start;
    let head = seq![
        Chunk::Op(OP_ADD),
        Chunk::Op(OP_DUP),
        Chunk::Int(l as i64),
        Chunk::Op(OP_ADD),
        Chunk::Op(OP_TX_INPUT_SCRIPT_SIG_SUBSTR),
    ];
    let checks = header_checks(lens, lens.len() as int);
    let drop = seq![Chunk::Op(OP_DROP)];
    let st0 = seq![Item::Num(idx), Item::Num(base), Item::Num(start)];
    assert(guard_tail(lens) == head + checks + drop);
    lemma_run_append(tx, hash, st0, head + checks, drop);
    lemma_run_append(tx, hash, st0, head, checks);
    lemma_guard_head_runs(tx, hash, idx, base, start, l);
    if idx < tx.sigs.len() && p + l <= tx.sigs[idx].len() {
        let region = tx.sigs[idx].subrange(p, p + l);
        let st5 = Seq::<Item>::empty().push(Item::Bytes(region));
        assert(st5 == seq![Item::Bytes(region)]);
        lemma_header_checks_run(tx, hash, Seq::empty(), region, lens, lens.len() as int);
        if framing_ok(region, lens) {
            assert(run(tx, hash, st5, drop) == Some(Seq::<Item>::empty())) by {
                reveal_with_fuel(run, 2);
                assert(st5.drop_last() == Seq::<Item>::empty());
                assert(drop.drop_first() == Seq::<Chunk>::empty());
            }
        } else {
            assert(!(forall|i: int| 0 <= i < lens.len() ==> #[trigger] header_pinned(region, lens, i)));
        }
    }
}

/// The bytes of the P2SH scriptPubKey (version 0) whose redeem script hashes to `h`.
pub open spec fn p2sh_bytes(h: Seq<u8>) -> Seq<u8> {
    seq![0x00u8, 0x00u8, OP_BLAKE2B, 0x20u8] + h + seq![OP_EQUAL]
}

/// The P2SH chunks turn a redeem script on top of the stack into its scriptPubKey.
#[verifier::rlimit(100)]
proof fn lemma_p2sh_runs(tx: TxView, hash: spec_fn(u8, Seq<u8>) -> Seq<u8>, below: Seq<Item>, w: Seq<u8>)
    requires
        hash(OP_BLAKE2B, w).len() == 32,
    ensures
        run(tx, hash, below.push(Item::Bytes(w)), p2sh_chunks()) == Some(below.push(Item::Bytes(p2sh_bytes(hash(OP_BLAKE2B, w))))),
{
    let cs = p2sh_chunks();
    let h = hash(OP_BLAKE2B, w);
    reveal_with_fuel(run, 11);
    let s0 = below.push(Item::Bytes(w));
    let s1 = below.push(Item::Bytes(h));
    let s2 = s1.push(Item::Bytes(seq![0x00u8, 0x00u8]));
    let s3 = s2.push(Item::Bytes(seq![OP_BLAKE2B]));
    let s4 = s1.push(Item::Bytes(seq![0x00u8, 0x00u8, OP_BLAKE2B]));
    let s5 = s4.push(Item::Bytes(seq![0x20u8]));
    let s6 = s1.push(Item::Bytes(seq![0x00u8, 0x00u8, OP_BLAKE2B, 0x20u8]));
    let s7 = below.push(Item::Bytes(seq![0x00u8, 0x00u8, OP_BLAKE2B, 0x20u8])).push(Item::Bytes(h));
    let s8 = below.push(Item::Bytes(seq![0x00u8, 0x00u8, OP_BLAKE2B, 0x20u8] + h));
    let s9 = s8.push(Item::Bytes(seq![OP_EQUAL]));
    let s10 = below.push(Item::Bytes(p2sh_bytes(h)));
    assert(step(tx, hash, s0, cs[0]) == Some(s1));
    assert(step(tx, hash, s1, cs[1]) == Some(s2));
    assert(step(tx, hash, s2, cs[2]) == Some(s3));
    assert(s3.subrange(0, s3.len() - 2) == s1);
    assert(seq![0x00u8, 0x00u8] + seq![OP_BLAKE2B] == seq![0x00u8, 0x00u8, OP_BLAKE2B]);
    assert(step(tx, hash, s3, cs[3]) == Some(s4));
    assert(step(tx, hash, s4, cs[4]) == Some(s5));
    assert(s5.subrange(0, s5.len() - 2) == s1);
    assert(seq![0x00u8, 0x00u8, OP_BLAKE2B] + seq![0x20u8] == seq![0x00u8, 0x00u8, OP_BLAKE2B, 0x20u8]);
    assert(step(tx, hash, s5, cs[5]) == Some(s6));
    assert(s6.subrange(0, s6.len() - 2) == below);
    assert(step(tx, hash, s6, cs[6]) == Some(s7));
    assert(s7.subrange(0, s7.len() - 2) == below);
    assert(step(tx, hash, s7, cs[7]) == Some(s8));
    assert(step(tx, hash, s8, cs[8]) == Some(s9));
    assert(s9.subrange(0, s9.len() - 2) == below);
    assert(step(tx, hash, s9, cs[9]) == Some(s10));
    assert(cs.skip(10) == Seq::<Chunk>::empty());
    assert(cs.drop_first().drop_first().drop_first().drop_first().drop_first().drop_first().drop_first().drop_first().drop_first().drop_first() == Seq::<Chunk>::empty());
}

/// The code of the binding of a read of input `i` whose sigscript base is the local `n`.
proof fn lemma_binding_code(b: Seq<Seq<char>>, bs: Option<i64>, i: i64, n: Seq<char>)
    requires
        binding_depth(b, n) is Some,
        binding_depth(b, n)->Some_0 + 2 <= i64::MAX,
    ensures
        program_code(input_binding_steps(ExprV::Int(i), ExprV::Identifier(n)), b, bs, 0) == Ok::<Seq<Chunk>, Fault>(
            seq![Chunk::Int(i), Chunk::Op(OP_TX_INPUT_SPK)] + seq![
                Chunk::Int(i),
                Chunk::Int((binding_depth(b, n)->Some_0 + 2) as i64),
                Chunk::Op(OP_PICK),
                Chunk::Int(i),
                Chunk::Op(OP_TX_INPUT_SCRIPT_SIG_LEN),
                Chunk::Op(OP_TX_INPUT_SCRIPT_SIG_SUBSTR),
            ] + p2sh_chunks() + seq![Chunk::Op(OP_EQUAL_VERIFY)],
        ),
{
    let k = binding_depth(b, n)->Some_0;
    let steps = input_binding_steps(ExprV::Int(i), ExprV::Identifier(n));
    reveal_with_fuel(program_code, 4);
    let idx = ExprV::Int(i);
    let sig_len = ExprV::InputScriptSigLen(Box::new(idx));
    let window = ExprV::InputScriptSigSubstr(Box::new(idx), Box::new(ExprV::Identifier(n)), Box::new(sig_len));
    assert(seq![Chunk::Int(i)] + seq![Chunk::Op(OP_TX_INPUT_SPK)] =~= seq![Chunk::Int(i), Chunk::Op(OP_TX_INPUT_SPK)]);
    assert(seq![Chunk::Int(i)] + seq![Chunk::Op(OP_TX_INPUT_SCRIPT_SIG_LEN)] =~= seq![
        Chunk::Int(i),
        Chunk::Op(OP_TX_INPUT_SCRIPT_SIG_LEN),
    ]);
    assert(expr_code(idx, b, bs, 0) == Ok::<Seq<Chunk>, Fault>(seq![Chunk::Int(i)]));
    assert(expr_code(idx, b, bs, 1) == Ok::<Seq<Chunk>, Fault>(seq![Chunk::Int(i)]));
    assert(expr_code(idx, b, bs, 3) == Ok::<Seq<Chunk>, Fault>(seq![Chunk::Int(i)]));
    assert(expr_code(ExprV::InputScriptPubKey(Box::new(idx)), b, bs, 0) == Ok::<Seq<Chunk>, Fault>(
        seq![Chunk::Int(i), Chunk::Op(OP_TX_INPUT_SPK)],
    ));
    assert(expr_code(ExprV::Identifier(n), b, bs, 2) == Ok::<Seq<Chunk>, Fault>(
        seq![Chunk::Int((k + 2) as i64), Chunk::Op(OP_PICK)],
    ));
    assert(expr_code(sig_len, b, bs, 3) == Ok::<Seq<Chunk>, Fault>(
        seq![Chunk::Int(i), Chunk::Op(OP_TX_INPUT_SCRIPT_SIG_LEN)],
    ));
    let w = seq![
        Chunk::Int(i),
        Chunk::Int((k + 2) as i64),
        Chunk::Op(OP_PICK),
        Chunk::Int(i),
        Chunk::Op(OP_TX_INPUT_SCRIPT_SIG_LEN),
        Chunk::Op(OP_TX_INPUT_SCRIPT_SIG_SUBSTR),
    ];
    let c_len = seq![Chunk::Int(i), Chunk::Op(OP_TX_INPUT_SCRIPT_SIG_LEN)];
    let c_pick = seq![Chunk::Int((k + 2) as i64), Chunk::Op(OP_PICK)];
    let c_sub = seq![Chunk::Op(OP_TX_INPUT_SCRIPT_SIG_SUBSTR)];
    assert(seq![Chunk::Int(i)] + (c_pick + (c_len + c_sub)) =~= w);
    assert(expr_code(window, b, bs, 1) == Ok::<Seq<Chunk>, Fault>(w));
    assert(expr_code(ExprV::P2shFromRedeemScript(Box::new(window)), b, bs, 1) == Ok::<Seq<Chunk>, Fault>(
        w + p2sh_chunks(),
    ));
    assert(steps.drop_first().drop_first().drop_first() == Seq::<StepV>::empty());
    assert(seq![Chunk::Op(OP_EQUAL_VERIFY)] + Seq::<Chunk>::empty() == seq![Chunk::Op(OP_EQUAL_VERIFY)]);
    assert(program_code(steps.drop_first().drop_first(), b, bs, 2) == Ok::<Seq<Chunk>, Fault>(
        seq![Chunk::Op(OP_EQUAL_VERIFY)],
    ));
    let seg1 = seq![Chunk::Int(i), Chunk::Op(OP_TX_INPUT_SPK)];
    assert(seg1 + ((w + p2sh_chunks()) + seq![Chunk::Op(OP_EQUAL_VERIFY)]) =~= seg1 + w + p2sh_chunks() + seq![
        Chunk::Op(OP_EQUAL_VERIFY),
    ]);
}

/// The binding's first two segments leave the input's scriptPubKey and the window.
#[verifier::rlimit(100)]
proof fn lemma_binding_segments_run(tx: TxView, hash: spec_fn(u8, Seq<u8>) -> Seq<u8>, st: Seq<Item>, i: i64, k: nat, base: int)
    requires
        k + 2 <= i32::MAX,
        st.len() > k,
        st[st.len() - 1 - k] == Item::Num(base),
        0 <= i <= i32::MAX,
        i < tx.sigs.len(),
        i < tx.spks.len(),
        tx.spks[i as int].len() <= MAX_SCRIPT_ELEMENT_SIZE,
        0 <= base <= tx.sigs[i as int].len() <= i32::MAX,
        tx.sigs[i as int].len() - base <= MAX_SCRIPT_ELEMENT_SIZE,
    ensures
        run(tx, hash, st, seq![Chunk::Int(i), Chunk::Op(OP_TX_INPUT_SPK)]) == Some(st.push(Item::Bytes(tx.spks[i as int]))),
        run(
            tx,
            hash,
            st.push(Item::Bytes(tx.spks[i as int])),
            seq![
                Chunk::Int(i),
                Chunk::Int((k + 2) as i64),
                Chunk::Op(OP_PICK),
                Chunk::Int(i),
                Chunk::Op(OP_TX_INPUT_SCRIPT_SIG_LEN),
                Chunk::Op(OP_TX_INPUT_SCRIPT_SIG_SUBSTR),
            ],
        ) == Some(
            st.push(Item::Bytes(tx.spks[i as int])).push(
                Item::Bytes(tx.sigs[i as int].subrange(base, tx.sigs[i as int].len() as int)),
            ),
        ),
{
    let sig = tx.sigs[i as int];
    let spk = tx.spks[i as int];
    let win = sig.subrange(base, sig.len() as int);
    let seg1 = seq![Chunk::Int(i), Chunk::Op(OP_TX_INPUT_SPK)];
    let seg2 = seq![
        Chunk::Int(i),
        Chunk::Int((k + 2) as i64),
        Chunk::Op(OP_PICK),
        Chunk::Int(i),
        Chunk::Op(OP_TX_INPUT_SCRIPT_SIG_LEN),
        Chunk::Op(OP_TX_INPUT_SCRIPT_SIG_SUBSTR),
    ];
    reveal_with_fuel(run, 7);
    assert(step(tx, hash, st, seg1[0]) == Some(st.push(Item::Num(i as int))));
    assert(st.push(Item::Num(i as int)).drop_last() == st);
    assert(seg1.drop_first().drop_first() == Seq::<Chunk>::empty());
    let st1 = st.push(Item::Bytes(spk));
    let st2 = st1.push(Item::Bytes(win));
    let a1 = st1.push(Item::Num(i as int));
    let a2 = a1.push(Item::Num((k + 2) as int));
    assert((k + 2) as i64 as int == k + 2);
    let a3 = a1.push(Item::Num(base));
    assert(a2.drop_last() == a1);
    assert(a2[a2.len() - 2 - (k + 2)] == st[st.len() - 1 - k]);
    let a4 = a3.push(Item::Num(i as int));
    let a5 = a3.push(Item::Num(sig.len() as int));
    assert(a4.drop_last() == a3);
    assert(a5.subrange(0, a5.len() - 3) == st1);
    assert(step(tx, hash, st1, seg2[0]) == Some(a1));
    assert(step(tx, hash, a1, seg2[1]) == Some(a2));
    assert(step(tx, hash, a2, seg2[2]) == Some(a3));
    assert(step(tx, hash, a3, seg2[3]) == Some(a4));
    assert(step(tx, hash, a4, seg2[4]) == Some(a5));
    assert(step(tx, hash, a5, seg2[5]) == Some(st2));
    assert(seg2.drop_first().drop_first().drop_first().drop_first().drop_first().drop_first() == Seq::<Chunk>::empty());
}

/// `OpEqualVerify` on two byte strings passes, dropping both, exactly when they are equal.
proof fn lemma_equal_verify_runs(tx: TxView, hash: spec_fn(u8, Seq<u8>) -> Seq<u8>, st: Seq<Item>, x: Seq<u8>, y: Seq<u8>)
    ensures
        run(tx, hash, st.push(Item::Bytes(x)).push(Item::Bytes(y)), seq![Chunk::Op(OP_EQUAL_VERIFY)]) == if x == y {
            Some(st)
        } else {
            None::<Seq<Item>>
        },
{
    reveal_with_fuel(run, 2);
    let s2 = st.push(Item::Bytes(x)).push(Item::Bytes(y));
    assert(s2.subrange(0, s2.len() - 2) == st);
    assert(seq![Chunk::Op(OP_EQUAL_VERIFY)].drop_first() == Seq::<Chunk>::empty());
}

/// Law: the binding of a plain read succeeds exactly when input `i`'s scriptPubKey is the
/// P2SH of the window `[base, sigscript length)` of its signature script, the window the
/// reads are measured from; it leaves the stack as it was. Here `base` is the value bound to
/// the local `n`, and `hash(OpBlake2b, ..)` stands for the engine's BLAKE2b-256.
pub proof fn lemma_binding_runs_iff_committed(
    tx: TxView,
    hash: spec_fn(u8, Seq<u8>) -> Seq<u8>,
    st: Seq<Item>,
    b: Seq<Seq<char>>,
    bs: Option<i64>,
    i: i64,
    n: Seq<char>,
    base: int,
)
    requires
        forall|d: Seq<u8>| #[trigger] hash(OP_BLAKE2B, d).len() == 32,
        binding_depth(b, n) is Some,
        binding_depth(b, n)->Some_0 + 2 <= i32::MAX,
        st.len() > binding_depth(b, n)->Some_0,
        st[st.len() - 1 - binding_depth(b, n)->Some_0] == Item::Num(base),
        0 <= i <= i32::MAX,
        i < tx.sigs.len(),
        i < tx.spks.len(),
        tx.spks[i as int].len() <= MAX_SCRIPT_ELEMENT_SIZE,
        0 <= base <= tx.sigs[i as int].len() <= i32::MAX,
        tx.sigs[i as int].len() - base <= MAX_SCRIPT_ELEMENT_SIZE,
    ensures
        program_code(input_binding_steps(ExprV::Int(i), ExprV::Identifier(n)), b, bs, 0) matches Ok(cs) && run(
            tx,
            hash,
            st,
            cs,
        ) == if tx.spks[i as int] == p2sh_bytes(hash(OP_BLAKE2B, tx.sigs[i as int].subrange(base, tx.sigs[i as int].len() as int))) {
            Some(st)
        } else {
            None::<Seq<Item>>
        },
{
    let k = binding_depth(b, n)->Some_0;
    lemma_binding_code(b, bs, i, n);
    let sig = tx.sigs[i as int];
    let spk = tx.spks[i as int];
    let win = sig.subrange(base, sig.len() as int);
    let seg1 = seq![Chunk::Int(i), Chunk::Op(OP_TX_INPUT_SPK)];
    let seg2 = seq![
        Chunk::Int(i),
        Chunk::Int((k + 2) as i64),
        Chunk::Op(OP_PICK),
        Chunk::Int(i),
        Chunk::Op(OP_TX_INPUT_SCRIPT_SIG_LEN),
        Chunk::Op(OP_TX_INPUT_SCRIPT_SIG_SUBSTR),
    ];
    let seg3 = p2sh_chunks();
    let seg4 = seq![Chunk::Op(OP_EQUAL_VERIFY)];
    lemma_run_append(tx, hash, st, seg1 + seg2 + seg3, seg4);
    lemma_run_append(tx, hash, st, seg1 + seg2, seg3);
    lemma_run_append(tx, hash, st, seg1, seg2);
    let st1 = st.push(Item::Bytes(spk));
    let st2 = st1.push(Item::Bytes(win));
    lemma_binding_segments_run(tx, hash, st, i, k, base);
    let st3 = st1.push(Item::Bytes(p2sh_bytes(hash(OP_BLAKE2B, win))));
    lemma_p2sh_runs(tx, hash, st1, win);
    lemma_equal_verify_runs(tx, hash, st, spk, p2sh_bytes(hash(OP_BLAKE2B, win)));
}

/// Whether a parameter of type `t` whose encoding is `len` bytes long has a size its type
/// accepts: exactly its fixed size; for a dynamic array, a whole number of elements;
/// otherwise shorter than the widest script number (nine bytes) or bool (two bytes).
pub open spec fn size_accepted(t: TypeRefV, len: nat) -> bool {
    match exact_param_size(t) {
        Ok(Some(n)) => len == n,
        _ => if is_dynamic_array_type(t) {
            match spec_array_element_size(t) {
                Ok(Some(m)) => (len as int) % m == 0,
                _ => false,
            }
        } else {
            len < if is_bool_type(t) { 2nat } else { 9nat }
        },
    }
}

/// Copying the value `k` places below the top onto the top.
#[verifier::rlimit(100)]
proof fn lemma_copy_runs(tx: TxView, hash: spec_fn(u8, Seq<u8>) -> Seq<u8>, st: Seq<Item>, k: nat)
    requires
        k < st.len(),
        k <= i32::MAX,
    ensures
        run(tx, hash, st, copy_chunks(k as i64)) == Some(st.push(st[st.len() - 1 - k])),
{
    reveal_with_fuel(run, 3);
    let cs = copy_chunks(k as i64);
    if k == 0 {
        assert(step(tx, hash, st, cs[0]) == Some(st.push(st[st.len() - 1])));
        assert(cs.drop_first() =~= Seq::<Chunk>::empty());
    } else {
        let st1 = st.push(Item::Num(k as i64 as int));
        assert(k as i64 as int == k);
        assert(step(tx, hash, st, cs[0]) == Some(st1));
        assert(step(tx, hash, st1, cs[1]) == Some(st.push(st[st.len() - 1 - k]))) by {
            assert(st1.drop_last() == st);
        }
        assert(cs.drop_first().drop_first() =~= Seq::<Chunk>::empty());
    }
}

/// The size test itself, with the parameter and its size on top.
#[verifier::rlimit(100)]
proof fn lemma_size_test_runs(
    tx: TxView,
    hash: spec_fn(u8, Seq<u8>) -> Seq<u8>,
    st1: Seq<Item>,
    name: Seq<char>,
    t: TypeRefV,
    len: nat,
)
    requires
        size_check(name, t, exact_param_size(t)->Ok_0) is Ok,
        exact_param_size(t) is Ok,
        len <= MAX_SCRIPT_ELEMENT_SIZE,
        spec_array_element_size(t) matches Ok(Some(m)) ==> 0 < m <= i64::MAX,
    ensures
        run(tx, hash, st1.push(Item::Num(len as int)), size_check(name, t, exact_param_size(t)->Ok_0)->Ok_0) == if size_accepted(
            t,
            len,
        ) {
            Some(st1)
        } else {
            None::<Seq<Item>>
        },
{
    reveal_with_fuel(run, 5);
    let st2 = st1.push(Item::Num(len as int));
    let cs = size_check(name, t, exact_param_size(t)->Ok_0)->Ok_0;
    match exact_param_size(t)->Ok_0 {
        Some(n) => {
            let st3 = st2.push(Item::Num(n as i64 as int));
            assert(n as i64 as int == n);
            assert(step(tx, hash, st2, cs[0]) == Some(st3));
            assert(st3.subrange(0, st3.len() - 2) == st1);
            assert(cs.drop_first().drop_first() =~= Seq::<Chunk>::empty());
        },
        None => {
            if is_dynamic_array_type(t) {
                let m = spec_array_element_size(t)->Ok_0->Some_0;
                let st3 = st2.push(Item::Num(m as i64 as int));
                assert(m as i64 as int == m);
                assert(step(tx, hash, st2, cs[0]) == Some(st3));
                let st4 = st1.push(Item::Num(truncated_rem(len as int, m)));
                assert(st3.subrange(0, st3.len() - 2) == st1);
                assert(step(tx, hash, st3, cs[1]) == Some(st4));
                assert(truncated_rem(len as int, m) == (len as int) % m);
                let st5 = st4.push(Item::Num(0));
                assert(step(tx, hash, st4, cs[2]) == Some(st5));
                assert(st5.subrange(0, st5.len() - 2) == st1);
                assert(cs.drop_first().drop_first().drop_first().drop_first() =~= Seq::<Chunk>::empty());
            } else {
                let w: int = if is_bool_type(t) { 2 } else { 9 };
                let st3 = st2.push(Item::Num(w));
                assert(step(tx, hash, st2, cs[0]) == Some(st3));
                let st4 = st1.push(Item::Num(if len < w { 1 } else { 0 }));
                assert(st3.subrange(0, st3.len() - 2) == st1);
                assert(step(tx, hash, st3, cs[1]) == Some(st4));
                assert(st4.drop_last() == st1);
                assert(cs.drop_first().drop_first().drop_first() =~= Seq::<Chunk>::empty());
            }
        },
    }
}

/// What an entrypoint's size check of one parameter accepts: run with the parameter's
/// encoding `v` bound `k` values below the top of the stack, the check passes, leaving the
/// stack as it found it, exactly when `v` has a size the parameter's type accepts; otherwise
/// the script fails.
pub proof fn lemma_param_size_check_runs(
    tx: TxView,
    hash: spec_fn(u8, Seq<u8>) -> Seq<u8>,
    st: Seq<Item>,
    b: Seq<Seq<char>>,
    name: Seq<char>,
    t: TypeRefV,
    v: Seq<u8>,
)
    requires
        param_size_check(b, name, t) matches Ok(cs) && cs.len() > 0,
        binding_depth(b, name) matches Some(k) && k < st.len() && k <= i32::MAX && st[st.len() - 1 - k]
            == Item::Bytes(v),
        v.len() <= MAX_SCRIPT_ELEMENT_SIZE,
        spec_array_element_size(t) matches Ok(Some(m)) ==> 0 < m <= i64::MAX,
    ensures
        run(tx, hash, st, param_size_check(b, name, t)->Ok_0) == if size_accepted(t, v.len()) {
            Some(st)
        } else {
            None::<Seq<Item>>
        },
{
    let k = binding_depth(b, name)->Some_0;
    let exact = exact_param_size(t)->Ok_0;
    let copy = copy_chunks(k as i64);
    let size = seq![Chunk::Op(OP_SIZE)];
    let test = size_check(name, t, exact)->Ok_0;
    let drop = seq![Chunk::Op(OP_DROP)];
    assert(param_size_check(b, name, t)->Ok_0 == copy + (size + (test + drop)));
    let st1 = st.push(Item::Bytes(v));
    lemma_copy_runs(tx, hash, st, k);
    lemma_run_append(tx, hash, st, copy, size + (test + drop));
    lemma_run_append(tx, hash, st1, size, test + drop);
    assert(run(tx, hash, st1, size) == Some(st1.push(Item::Num(v.len() as int)))) by {
        reveal_with_fuel(run, 2);
        assert(size.drop_first() =~= Seq::<Chunk>::empty());
    }
    lemma_run_append(tx, hash, st1.push(Item::Num(v.len() as int)), test, drop);
    lemma_size_test_runs(tx, hash, st1, name, t, v.len());
    assert(run(tx, hash, st1, drop) == Some(st)) by {
        reveal_with_fuel(run, 2);
        assert(drop.drop_first() =~= Seq::<Chunk>::empty());
        assert(st1.drop_last() == st);
    }
}

/// The payload a state field of type `t` and width `n` carries for the value `val`: a bool
/// as the `n`-byte number 0 or 1, an int-like value as its `n`-byte number, any other value
/// as its bytes; `None` where the engine cannot write the number.
pub open spec fn field_payload(t: TypeRefV, n: nat, val: Item) -> Option<Seq<u8>> {
    if t.dims.len() == 0 && t.base is Bool {
        match num_of(val) {
            Some(v) => if n <= 8 { fixed_num_bytes(if v != 0 { 1 } else { 0 }, n) } else { None },
            None => None,
        }
    } else if t.dims.len() == 0 && (t.base is Int || t.base is Temporal) {
        match num_of(val) {
            Some(v) => if n <= 8 { fixed_num_bytes(v, n) } else { None },
            None => None,
        }
    } else {
        Some(item_bytes(val))
    }
}

/// What the state encoder writes for one field: with the field's push header under its new
/// value on the stack, the field's tail leaves the header followed by the field's payload
/// for that value, and fails where the engine cannot write the payload or the chunk exceeds
/// the element size.
#[verifier::rlimit(100)]
pub proof fn lemma_field_tail_runs(
    tx: TxView,
    hash: spec_fn(u8, Seq<u8>) -> Seq<u8>,
    st: Seq<Item>,
    t: TypeRefV,
    n: nat,
    header: Seq<u8>,
    val: Item,
)
    requires
        n <= MAX_SCRIPT_ELEMENT_SIZE,
    ensures
        run(tx, hash, st.push(Item::Bytes(header)).push(val), field_value_tail(t, n)) == match field_payload(t, n, val) {
            Some(p) => if header.len() + p.len() <= MAX_SCRIPT_ELEMENT_SIZE {
                Some(st.push(Item::Bytes(header + p)))
            } else {
                None
            },
            None => None,
        },
{
    reveal_with_fuel(run, 5);
    let st1 = st.push(Item::Bytes(header));
    let st2 = st1.push(val);
    let cs = field_value_tail(t, n);
    assert(n as i64 as int == n);
    if t.dims.len() == 0 && t.base is Bool {
        if let Some(v) = num_of(val) {
            let st3 = st1.push(Item::Num(if v != 0 { 1 } else { 0 }));
            assert(st2.drop_last() == st1);
            assert(step(tx, hash, st2, cs[0]) == Some(st3));
            let st4 = st3.push(Item::Num(n as i64 as int));
            assert(step(tx, hash, st3, cs[1]) == Some(st4));
            assert(st4.subrange(0, st4.len() - 2) == st1);
            assert(num_of(Item::Num(if v != 0 { 1 } else { 0 })) == Some(if v != 0 { 1int } else { 0int }));
            if n <= 8 {
                if let Some(p) = fixed_num_bytes(if v != 0 { 1 } else { 0 }, n) {
                    let st5 = st1.push(Item::Bytes(p));
                    assert(step(tx, hash, st4, cs[2]) == Some(st5));
                    assert(st5.subrange(0, st5.len() - 2) == st);
                }
            }
            assert(cs.drop_first().drop_first().drop_first().drop_first() =~= Seq::<Chunk>::empty());
        }
    } else if t.dims.len() == 0 && (t.base is Int || t.base is Temporal) {
        if let Some(v) = num_of(val) {
            let st3 = st2.push(Item::Num(n as i64 as int));
            assert(step(tx, hash, st2, cs[0]) == Some(st3));
            assert(st3.subrange(0, st3.len() - 2) == st1);
            if n <= 8 {
                if let Some(p) = fixed_num_bytes(v, n) {
                    let st4 = st1.push(Item::Bytes(p));
                    assert(step(tx, hash, st3, cs[1]) == Some(st4));
                    assert(st4.subrange(0, st4.len() - 2) == st);
                }
            }
            assert(cs.drop_first().drop_first().drop_first() =~= Seq::<Chunk>::empty());
        }
    } else {
        assert(st2.subrange(0, st2.len() - 2) == st);
        assert(cs.drop_first() =~= Seq::<Chunk>::empty());
    }
}

/// Byte strings concatenated in order.
pub open spec fn concat_all(items: Seq<Seq<u8>>) -> Seq<u8>
    decreases items.len(),
{
    if items.len() == 0 {
        Seq::empty()
    } else {
        concat_all(items.drop_last()) + items.last()
    }
}

/// The stack `st` with byte strings pushed in order, the last on top.
pub open spec fn push_all(st: Seq<Item>, items: Seq<Seq<u8>>) -> Seq<Item> {
    st + items.map_values(|d: Seq<u8>| Item::Bytes(d))
}

proof fn lemma_concat_all_prefix(items: Seq<Seq<u8>>, k: int)
    requires
        0 <= k <= items.len(),
    ensures
        concat_all(items.take(k)).len() <= concat_all(items).len(),
    decreases items.len(),
{
    if k < items.len() {
        assert(items.drop_last().take(k) == items.take(k));
        lemma_concat_all_prefix(items.drop_last(), k);
    } else {
        assert(items.take(k) == items);
    }
}

/// What the state encoder does with the fields' chunks: with `k + 1` chunks on the stack,
/// the last on top, its `k` concatenations leave one item, the chunks joined in order, as
/// long as that fits the element size.
pub proof fn lemma_cat_ops_run(tx: TxView, hash: spec_fn(u8, Seq<u8>) -> Seq<u8>, st: Seq<Item>, items: Seq<Seq<u8>>)
    requires
        items.len() >= 1,
        concat_all(items).len() <= MAX_SCRIPT_ELEMENT_SIZE,
    ensures
        run(tx, hash, push_all(st, items), cat_ops((items.len() - 1) as nat)) == Some(st.push(Item::Bytes(concat_all(items)))),
    decreases items.len(),
{
    let k = items.len() - 1;
    if k == 0 {
        assert(cat_ops(0) =~= Seq::<Chunk>::empty());
        assert(items.drop_last() =~= Seq::<Seq<u8>>::empty());
        assert(concat_all(items.drop_last()) == Seq::<u8>::empty());
        assert(concat_all(items) == concat_all(items.drop_last()) + items.last());
        assert(concat_all(items) =~= items[0]);
        assert(push_all(st, items) =~= st.push(Item::Bytes(items[0])));
    } else {
        let a = items[k - 1];
        let b = items[k];
        let merged = items.take(k - 1).push(a + b);
        let full = push_all(st, items);
        let n = full.len() as int;
        assert(concat_all(items) == concat_all(items.drop_last()) + b);
        assert(items.drop_last().drop_last() =~= items.take(k - 1));
        assert(items.drop_last().last() == a);
        assert(concat_all(items.drop_last()) == concat_all(items.take(k - 1)) + a);
        assert(merged.drop_last() =~= items.take(k - 1));
        assert(concat_all(merged) =~= concat_all(items));
        lemma_concat_all_prefix(items, k - 1);
        assert(items.take(k - 1) + seq![a, b] =~= items);
        assert(full[n - 2] == Item::Bytes(a));
        assert(full[n - 1] == Item::Bytes(b));
        assert(a.len() + b.len() <= MAX_SCRIPT_ELEMENT_SIZE);
        assert(full.subrange(0, n - 2).push(Item::Bytes(a + b)) =~= push_all(st, merged));
        let cs = cat_ops(k as nat);
        assert(cs[0] == Chunk::Op(OP_CAT));
        assert(cs.drop_first() =~= cat_ops((k - 1) as nat));
        assert(step(tx, hash, full, cs[0]) == Some(push_all(st, merged)));
        lemma_cat_ops_run(tx, hash, st, merged);
    }
}

/// The code of `base + (s + o)`, with the base a local `k` values below the top.
proof fn lemma_offset_code(b: Seq<Seq<char>>, bs: Option<i64>, name: Seq<char>, s: i64, o: i64, d: int)
    requires
        binding_depth(b, name) is Some,
        0 <= d,
        binding_depth(b, name)->Some_0 + d <= i64::MAX,
    ensures
        expr_code(add_v(ExprV::Identifier(name), add_v(ExprV::Int(s), ExprV::Int(o))), b, bs, d) == Ok::<
            Seq<Chunk>,
            Fault,
        >(
            copy_chunks((binding_depth(b, name)->Some_0 + d) as i64) + seq![
                Chunk::Int(s),
                Chunk::Int(o),
                Chunk::Op(OP_ADD),
                Chunk::Op(OP_ADD),
            ],
        ),
{
    let inner = add_v(ExprV::Int(s), ExprV::Int(o));
    assert(expr_code(ExprV::Int(s), b, bs, d + 1) == Ok::<Seq<Chunk>, Fault>(seq![Chunk::Int(s)]));
    assert(expr_code(ExprV::Int(o), b, bs, d + 2) == Ok::<Seq<Chunk>, Fault>(seq![Chunk::Int(o)]));
    assert(expr_code(ExprV::Identifier(name), b, bs, d) == Ok::<Seq<Chunk>, Fault>(
        copy_chunks((binding_depth(b, name)->Some_0 + d) as i64),
    ));
    assert(binary_opcode(BinaryOp::Add) == OP_ADD);
    assert(expr_code(inner, b, bs, d + 1) == Ok::<Seq<Chunk>, Fault>(seq![Chunk::Int(s), Chunk::Int(o), Chunk::Op(OP_ADD)])) by {
        assert(seq![Chunk::Int(o)] + seq![Chunk::Op(OP_ADD)] =~= seq![Chunk::Int(o), Chunk::Op(OP_ADD)]);
        assert(seq![Chunk::Int(s)] + seq![Chunk::Int(o), Chunk::Op(OP_ADD)] =~= seq![
            Chunk::Int(s),
            Chunk::Int(o),
            Chunk::Op(OP_ADD),
        ]);
    }
    assert(seq![Chunk::Int(s), Chunk::Int(o), Chunk::Op(OP_ADD)] + seq![Chunk::Op(OP_ADD)] =~= seq![
        Chunk::Int(s),
        Chunk::Int(o),
        Chunk::Op(OP_ADD),
        Chunk::Op(OP_ADD),
    ]);
}

/// The sum's tail: with the base on top, push `s` and `o` and add all three.
#[verifier::rlimit(100)]
proof fn lemma_sum_tail_runs(tx: TxView, hash: spec_fn(u8, Seq<u8>) -> Seq<u8>, st: Seq<Item>, base: int, s: i64, o: i64)
    requires
        0 <= base,
        0 <= s,
        0 <= o,
        base + s + o <= i32::MAX,
    ensures
        run(tx, hash, st.push(Item::Num(base)), seq![Chunk::Int(s), Chunk::Int(o), Chunk::Op(OP_ADD), Chunk::Op(OP_ADD)])
            == Some(st.push(Item::Num(base + s + o))),
{
    let tail = seq![Chunk::Int(s), Chunk::Int(o), Chunk::Op(OP_ADD), Chunk::Op(OP_ADD)];
    let st1 = st.push(Item::Num(base));
    let st2 = st1.push(Item::Num(s as int));
    let st3 = st2.push(Item::Num(o as int));
    let st4 = st1.push(Item::Num(s + o));
    let st5 = st.push(Item::Num(base + s + o));
    assert(step(tx, hash, st1, tail[0]) == Some(st2));
    assert(step(tx, hash, st2, tail[1]) == Some(st3));
    assert(st3.subrange(0, st3.len() - 2) == st1);
    assert(step(tx, hash, st3, tail[2]) == Some(st4));
    assert(st4.subrange(0, st4.len() - 2) == st);
    assert(step(tx, hash, st4, tail[3]) == Some(st5));
    let r3 = tail.drop_first().drop_first().drop_first();
    assert(r3 =~= seq![Chunk::Op(OP_ADD)]);
    assert(r3.drop_first() =~= Seq::<Chunk>::empty());
    assert(run(tx, hash, st5, r3.drop_first()) == Some(st5));
    assert(run(tx, hash, st4, r3) == Some(st5));
    assert(run(tx, hash, st3, tail.drop_first().drop_first()) == Some(st5));
    assert(run(tx, hash, st2, tail.drop_first()) == Some(st5));
}

/// Running the code of `base + (s + o)` pushes that sum.
proof fn lemma_offset_runs(tx: TxView, hash: spec_fn(u8, Seq<u8>) -> Seq<u8>, st: Seq<Item>, k: nat, base: int, s: i64, o: i64)
    requires
        k < st.len(),
        k <= i32::MAX,
        st[st.len() - 1 - k] == Item::Num(base),
        0 <= base,
        0 <= s,
        0 <= o,
        base + s + o <= i32::MAX,
    ensures
        run(tx, hash, st, copy_chunks(k as i64) + seq![Chunk::Int(s), Chunk::Int(o), Chunk::Op(OP_ADD), Chunk::Op(OP_ADD)])
            == Some(st.push(Item::Num(base + s + o))),
{
    let tail = seq![Chunk::Int(s), Chunk::Int(o), Chunk::Op(OP_ADD), Chunk::Op(OP_ADD)];
    lemma_copy_runs(tx, hash, st, k);
    lemma_run_append(tx, hash, st, copy_chunks(k as i64), tail);
    lemma_sum_tail_runs(tx, hash, st, base, s, o);
}

/// The code of a field read.
/// The code that pushes the bytes `[base + start + o, base + start + o + m)` of input `i`'s
/// signature script, with the base a local `k` values below the top.
pub open spec fn read_sub_code(k: nat, i: i64, start: i64, o: i64, m: i64) -> Seq<Chunk> {
    let tail = seq![Chunk::Int(start), Chunk::Int(o), Chunk::Op(OP_ADD), Chunk::Op(OP_ADD)];
    seq![Chunk::Int(i)] + ((copy_chunks((k + 1) as i64) + tail) + (((copy_chunks((k + 2) as i64) + tail) + seq![
        Chunk::Int(m),
        Chunk::Op(OP_ADD),
    ]) + seq![Chunk::Op(OP_TX_INPUT_SCRIPT_SIG_SUBSTR)]))
}

/// The code that turns a field's payload into its value: `OpBin2Num` for a number or a bool.
pub open spec fn cast_tail(t: TypeRefV) -> Seq<Chunk> {
    if cast_is_numeric(t) {
        seq![Chunk::Op(OP_BIN2NUM)]
    } else {
        Seq::empty()
    }
}

proof fn lemma_read_code(b: Seq<Seq<char>>, bs: Option<i64>, i: i64, t: TypeRefV, start: i64, name: Seq<char>, o: i64, m: i64)
    requires
        binding_depth(b, name) is Some,
        binding_depth(b, name)->Some_0 + 2 <= i64::MAX,
    ensures
        expr_code(
            ExprV::Cast(
                t,
                Box::new(
                    ExprV::InputScriptSigSubstr(
                        Box::new(ExprV::Int(i)),
                        Box::new(add_v(ExprV::Identifier(name), add_v(ExprV::Int(start), ExprV::Int(o)))),
                        Box::new(
                            add_v(add_v(ExprV::Identifier(name), add_v(ExprV::Int(start), ExprV::Int(o))), ExprV::Int(m)),
                        ),
                    ),
                ),
            ),
            b,
            bs,
            0,
        ) == Ok::<Seq<Chunk>, Fault>(read_sub_code(binding_depth(b, name)->Some_0, i, start, o, m) + cast_tail(t)),
{
    let k = binding_depth(b, name)->Some_0;
    let start_e = add_v(ExprV::Identifier(name), add_v(ExprV::Int(start), ExprV::Int(o)));
    let end_e = add_v(start_e, ExprV::Int(m));
    let tail = seq![Chunk::Int(start), Chunk::Int(o), Chunk::Op(OP_ADD), Chunk::Op(OP_ADD)];
    let c1 = copy_chunks((k + 1) as i64) + tail;
    let c2 = copy_chunks((k + 2) as i64) + tail;
    lemma_offset_code(b, bs, name, start, o, 1);
    lemma_offset_code(b, bs, name, start, o, 2);
    assert(expr_code(start_e, b, bs, 2) == Ok::<Seq<Chunk>, Fault>(c2));
    assert(expr_code(ExprV::Int(m), b, bs, 3) == Ok::<Seq<Chunk>, Fault>(seq![Chunk::Int(m)]));
    assert(seq![Chunk::Int(m)] + seq![Chunk::Op(OP_ADD)] =~= seq![Chunk::Int(m), Chunk::Op(OP_ADD)]);
    let c_end = c2 + seq![Chunk::Int(m), Chunk::Op(OP_ADD)];
    assert(expr_code(end_e, b, bs, 2) == cat_code(
        Ok(c2),
        cat_code(Ok(seq![Chunk::Int(m)]), Ok(seq![Chunk::Op(binary_opcode(BinaryOp::Add))])),
    ));
    assert(expr_code(end_e, b, bs, 2) == Ok::<Seq<Chunk>, Fault>(c_end));
    let sub = ExprV::InputScriptSigSubstr(Box::new(ExprV::Int(i)), Box::new(start_e), Box::new(end_e));
    let cs = seq![Chunk::Int(i)] + (c1 + (c_end + seq![Chunk::Op(OP_TX_INPUT_SCRIPT_SIG_SUBSTR)]));
    assert(expr_code(ExprV::Int(i), b, bs, 0) == Ok::<Seq<Chunk>, Fault>(seq![Chunk::Int(i)]));
    assert(expr_code(start_e, b, bs, 1) == Ok::<Seq<Chunk>, Fault>(c1));
    assert(expr_code(sub, b, bs, 0) == cat_code(
        Ok(seq![Chunk::Int(i)]),
        cat_code(Ok(c1), cat_code(Ok(c_end), Ok(seq![Chunk::Op(OP_TX_INPUT_SCRIPT_SIG_SUBSTR)]))),
    ));
    assert(expr_code(sub, b, bs, 0) == Ok::<Seq<Chunk>, Fault>(cs));
    assert(cs == read_sub_code(k, i, start, o, m));
    if !cast_is_numeric(t) {
        assert(cs + Seq::<Chunk>::empty() == cs);
    }
}

/// What a field read of payload `p` leaves: a number or a bool decoded from its bytes, any
/// other field its bytes.
pub open spec fn read_value(t: TypeRefV, p: Seq<u8>) -> Item {
    if cast_is_numeric(t) {
        Item::Num(decode_num(p))
    } else {
        Item::Bytes(p)
    }
}

/// The bytes of the read: `n` bytes of input `i`'s signature script at `base + start + offset`.
#[verifier::rlimit(100)]
proof fn lemma_read_sub_runs(
    tx: TxView,
    hash: spec_fn(u8, Seq<u8>) -> Seq<u8>,
    st: Seq<Item>,
    k: nat,
    i: i64,
    start: i64,
    offset: nat,
    n: nat,
    base: int,
)
    requires
        k + 2 <= i32::MAX,
        st.len() > k,
        st[st.len() - 1 - k] == Item::Num(base),
        0 <= i <= i32::MAX,
        i < tx.sigs.len(),
        0 <= base,
        0 <= start,
        offset <= i32::MAX,
        n <= MAX_SCRIPT_ELEMENT_SIZE,
        base + start + offset + n <= tx.sigs[i as int].len() <= i32::MAX,
    ensures
        run(tx, hash, st, read_sub_code(k, i, start, offset as i64, n as i64)) == Some(
            st.push(Item::Bytes(tx.sigs[i as int].subrange(base + start + offset, base + start + offset + n))),
        ),
{
    let o = offset as i64;
    let m = n as i64;
    assert(o as int == offset);
    assert(m as int == n);
    let tail = seq![Chunk::Int(start), Chunk::Int(o), Chunk::Op(OP_ADD), Chunk::Op(OP_ADD)];
    let c1 = copy_chunks((k + 1) as i64) + tail;
    let c2 = copy_chunks((k + 2) as i64) + tail;
    let c_end = c2 + seq![Chunk::Int(m), Chunk::Op(OP_ADD)];
    let a = base + start + offset;
    let sig = tx.sigs[i as int];
    let st1 = st.push(Item::Num(i as int));
    lemma_run_one(tx, hash, st, Chunk::Int(i));
    lemma_run_append(tx, hash, st, seq![Chunk::Int(i)], c1 + (c_end + seq![Chunk::Op(OP_TX_INPUT_SCRIPT_SIG_SUBSTR)]));
    assert(st1[st1.len() - 1 - (k + 1)] == Item::Num(base));
    lemma_offset_runs(tx, hash, st1, (k + 1) as nat, base, start, o);
    let st2 = st1.push(Item::Num(a));
    lemma_run_append(tx, hash, st1, c1, c_end + seq![Chunk::Op(OP_TX_INPUT_SCRIPT_SIG_SUBSTR)]);
    assert(st2[st2.len() - 1 - (k + 2)] == Item::Num(base));
    lemma_offset_runs(tx, hash, st2, (k + 2) as nat, base, start, o);
    let st3 = st2.push(Item::Num(a));
    lemma_run_append(tx, hash, st2, c_end, seq![Chunk::Op(OP_TX_INPUT_SCRIPT_SIG_SUBSTR)]);
    lemma_run_append(tx, hash, st2, c2, seq![Chunk::Int(m), Chunk::Op(OP_ADD)]);
    let st4 = st2.push(Item::Num(a + n));
    lemma_run_one(tx, hash, st3, Chunk::Int(m));
    lemma_run_append(tx, hash, st3, seq![Chunk::Int(m)], seq![Chunk::Op(OP_ADD)]);
    assert(seq![Chunk::Int(m)] + seq![Chunk::Op(OP_ADD)] =~= seq![Chunk::Int(m), Chunk::Op(OP_ADD)]);
    assert(binary_value(BinaryOp::Add, Item::Num(a), Item::Num(m as int)) == Some(Item::Num(a + n)));
    lemma_binary_step(tx, hash, st2, BinaryOp::Add, Item::Num(a), Item::Num(m as int));
    lemma_run_one(tx, hash, st3.push(Item::Num(m as int)), Chunk::Op(OP_ADD));
    assert(offset_of(Item::Num(i as int)) == Some(i as nat));
    assert(offset_of(Item::Num(a)) == Some(a as nat));
    assert(offset_of(Item::Num(a + n)) == Some((a + n) as nat));
    lemma_substr_step(tx, hash, st, Item::Num(i as int), Item::Num(a), Item::Num(a + n), sig.subrange(a, a + n));
    lemma_run_one(tx, hash, st4, Chunk::Op(OP_TX_INPUT_SCRIPT_SIG_SUBSTR));
    assert(read_sub_code(k, i, start, o, m) == seq![Chunk::Int(i)] + (c1 + (c_end + seq![Chunk::Op(OP_TX_INPUT_SCRIPT_SIG_SUBSTR)])));
}

/// Law: the read of a state field pushes exactly the field's value: its payload, the `n`
/// bytes of input `i`'s signature script at `base + start + offset`, decoded as a number for
/// a number or a bool (whose payload has at most eight bytes). Here `base` is the value bound
/// to the local `name` (the window the reads are measured from), `start` the state's start in
/// that window and `offset` the payload's place in the state.
#[verifier::rlimit(100)]
pub proof fn lemma_field_read_runs(
    tx: TxView,
    hash: spec_fn(u8, Seq<u8>) -> Seq<u8>,
    st: Seq<Item>,
    b: Seq<Seq<char>>,
    bs: Option<i64>,
    i: i64,
    t: TypeRefV,
    start: i64,
    name: Seq<char>,
    offset: nat,
    n: nat,
    base: int,
)
    requires
        cast_is_numeric(t) ==> n <= 8,
        binding_depth(b, name) is Some,
        binding_depth(b, name)->Some_0 + 2 <= i32::MAX,
        st.len() > binding_depth(b, name)->Some_0,
        st[st.len() - 1 - binding_depth(b, name)->Some_0] == Item::Num(base),
        0 <= i <= i32::MAX,
        i < tx.sigs.len(),
        0 <= base,
        0 <= start,
        offset <= i32::MAX,
        n <= MAX_SCRIPT_ELEMENT_SIZE,
        base + start + offset + n <= tx.sigs[i as int].len() <= i32::MAX,
    ensures
        expr_code(field_read_expr(ExprV::Int(i), t, ExprV::Int(start), ExprV::Identifier(name), offset, n), b, bs, 0)
            matches Ok(cs) && run(tx, hash, st, cs) == Some(
            st.push(read_value(t, tx.sigs[i as int].subrange(base + start + offset, base + start + offset + n))),
        ),
{
    let k = binding_depth(b, name)->Some_0;
    let o = offset as i64;
    let m = n as i64;
    lemma_read_code(b, bs, i, t, start, name, o, m);
    lemma_read_sub_runs(tx, hash, st, k, i, start, offset, n, base);
    let a = base + start + offset;
    let cs_sub = read_sub_code(k, i, start, o, m);
    let ct = cast_tail(t);
    let p = tx.sigs[i as int].subrange(a, a + n);
    lemma_run_append(tx, hash, st, cs_sub, ct);
    assert(run(tx, hash, st.push(Item::Bytes(p)), ct) == Some(st.push(read_value(t, p)))) by {
        reveal_with_fuel(run, 2);
        if cast_is_numeric(t) {
            assert(st.push(Item::Bytes(p)).drop_last() == st);
            assert(ct.drop_first() =~= Seq::<Chunk>::empty());
        }
    }
}

/// The redeem script of the input whose script runs: the last `bytecode_size` bytes of its
/// signature script.
pub open spec fn own_base(tx: TxView, bytecode_size: int) -> int {
    tx.sigs[tx.me as int].len() - bytecode_size
}

/// The input's own script with its state region, `[start, state_end)` of the redeem script,
/// replaced by `s`.
pub open spec fn script_with_state(tx: TxView, bytecode_size: int, start: nat, state_end: nat, s: Seq<u8>) -> Seq<u8> {
    let sig = tx.sigs[tx.me as int];
    let base = own_base(tx, bytecode_size);
    sig.subrange(base, base + start) + s + sig.subrange(base + state_end, sig.len() as int)
}

/// The facts about the running input that the rebuild of its script needs.
pub open spec fn own_script_fits(tx: TxView, bytecode_size: int, start: nat, state_end: nat) -> bool {
    &&& tx.me < tx.sigs.len()
    &&& tx.me <= i32::MAX
    &&& tx.sigs[tx.me as int].len() <= i32::MAX
    &&& 0 <= bytecode_size <= tx.sigs[tx.me as int].len()
    &&& start <= state_end <= bytecode_size
}

/// The prefix rebuild: with the new state on top, it leaves the redeem script's bytes before
/// the state region joined to it.
#[verifier::rlimit(100)]
proof fn lemma_prefix_rebuild_runs(tx: TxView, hash: spec_fn(u8, Seq<u8>) -> Seq<u8>, st: Seq<Item>, s: Seq<u8>, start: nat, bs: i64)
    requires
        own_script_fits(tx, bs as int, start, start),
        start + s.len() <= MAX_SCRIPT_ELEMENT_SIZE,
    ensures
        run(tx, hash, st.push(Item::Bytes(s)), prefix_rebuild_chunks(start, bs)) == Some(
            st.push(
                Item::Bytes(
                    tx.sigs[tx.me as int].subrange(own_base(tx, bs as int), own_base(tx, bs as int) + start) + s,
                ),
            ),
        ),
{
    let cs = prefix_rebuild_chunks(start, bs);
    let sig = tx.sigs[tx.me as int];
    let me = tx.me as int;
    let len = sig.len() as int;
    let base = len - bs;
    let pre = sig.subrange(base, base + start);
    reveal_with_fuel(run, 12);
    assert(start as i64 as int == start);
    let s0 = st.push(Item::Bytes(s));
    let s1 = s0.push(Item::Num(me));
    let s2 = s1.push(Item::Num(me));
    let s3 = s1.push(Item::Num(len));
    let s4 = s3.push(Item::Num(bs as int));
    let s5 = s1.push(Item::Num(base));
    let s6 = s5.push(Item::Num(base));
    let s7 = s6.push(Item::Num(start as int));
    let s8 = s5.push(Item::Num(base + start));
    let s9 = s0.push(Item::Bytes(pre));
    let s10 = st.push(Item::Bytes(pre)).push(Item::Bytes(s));
    let s11 = st.push(Item::Bytes(pre + s));
    assert(step(tx, hash, s0, cs[0]) == Some(s1));
    assert(step(tx, hash, s1, cs[1]) == Some(s2));
    assert(s2.drop_last() == s1);
    assert(step(tx, hash, s2, cs[2]) == Some(s3));
    assert(step(tx, hash, s3, cs[3]) == Some(s4));
    assert(s4.subrange(0, s4.len() - 2) == s1);
    assert(step(tx, hash, s4, cs[4]) == Some(s5));
    assert(step(tx, hash, s5, cs[5]) == Some(s6));
    assert(step(tx, hash, s6, cs[6]) == Some(s7));
    assert(s7.subrange(0, s7.len() - 2) == s5);
    assert(step(tx, hash, s7, cs[7]) == Some(s8));
    assert(s8.subrange(0, s8.len() - 3) == s0);
    assert(step(tx, hash, s8, cs[8]) == Some(s9));
    assert(s9.subrange(0, s9.len() - 2) == st);
    assert(step(tx, hash, s9, cs[9]) == Some(s10));
    assert(s10.subrange(0, s10.len() - 2) == st);
    assert(step(tx, hash, s10, cs[10]) == Some(s11));
    assert(cs.skip(11) == Seq::<Chunk>::empty());
    assert(cs.drop_first().drop_first().drop_first().drop_first().drop_first().drop_first().drop_first().drop_first().drop_first().drop_first().drop_first() == Seq::<Chunk>::empty());
}

/// The suffix rebuild: it joins the redeem script's bytes after the state region to what is
/// on top.
#[verifier::rlimit(100)]
proof fn lemma_suffix_rebuild_runs(tx: TxView, hash: spec_fn(u8, Seq<u8>) -> Seq<u8>, st: Seq<Item>, x: Seq<u8>, state_end: nat, bs: i64)
    requires
        own_script_fits(tx, bs as int, state_end, state_end),
        x.len() + (bs - state_end) <= MAX_SCRIPT_ELEMENT_SIZE,
    ensures
        run(tx, hash, st.push(Item::Bytes(x)), suffix_rebuild_chunks(state_end, bs)) == Some(
            st.push(
                Item::Bytes(
                    x + tx.sigs[tx.me as int].subrange(
                        own_base(tx, bs as int) + state_end,
                        tx.sigs[tx.me as int].len() as int,
                    ),
                ),
            ),
        ),
{
    let cs = suffix_rebuild_chunks(state_end, bs);
    let sig = tx.sigs[tx.me as int];
    let me = tx.me as int;
    let len = sig.len() as int;
    let a = len - bs + state_end;
    let suf = sig.subrange(a, len);
    reveal_with_fuel(run, 10);
    let d = ((state_end as i64) - bs) as i64;
    assert(d as int == state_end - bs);
    let s0 = st.push(Item::Bytes(x));
    let s1 = s0.push(Item::Num(me));
    let s2 = s1.push(Item::Num(me));
    let s3 = s1.push(Item::Num(len));
    let s4 = s3.push(Item::Num(len));
    let s5 = s4.push(Item::Num(d as int));
    let s6 = s3.push(Item::Num(a));
    let s7 = s1.push(Item::Num(a)).push(Item::Num(len));
    let s8 = s0.push(Item::Bytes(suf));
    let s9 = st.push(Item::Bytes(x + suf));
    assert(step(tx, hash, s0, cs[0]) == Some(s1));
    assert(step(tx, hash, s1, cs[1]) == Some(s2));
    assert(s2.drop_last() == s1);
    assert(step(tx, hash, s2, cs[2]) == Some(s3));
    assert(step(tx, hash, s3, cs[3]) == Some(s4));
    assert(step(tx, hash, s4, cs[4]) == Some(s5));
    assert(s5.subrange(0, s5.len() - 2) == s3);
    assert(step(tx, hash, s5, cs[5]) == Some(s6));
    assert(s6.subrange(0, s6.len() - 2) == s1);
    assert(step(tx, hash, s6, cs[6]) == Some(s7));
    assert(s7.subrange(0, s7.len() - 3) == s0);
    assert(step(tx, hash, s7, cs[7]) == Some(s8));
    assert(s8.subrange(0, s8.len() - 2) == st);
    assert(step(tx, hash, s8, cs[8]) == Some(s9));
    assert(cs.drop_first().drop_first().drop_first().drop_first().drop_first().drop_first().drop_first().drop_first().drop_first() == Seq::<Chunk>::empty());
}

/// The code of the output check of `validateOutputState` for output `j`.
proof fn lemma_output_rebuild_code(b: Seq<Seq<char>>, j: i64, start: nat, state_end: nat, bs: i64)
    ensures
        program_code(output_rebuild_steps(ExprV::Int(j), start, state_end, bs), b, Some(bs), 1) == Ok::<Seq<Chunk>, Fault>(
            (if start > 0 { prefix_rebuild_chunks(start, bs) } else { Seq::empty() }) + (suffix_rebuild_chunks(state_end, bs)
                + (p2sh_chunks() + (seq![Chunk::Int(j)] + seq![Chunk::Op(OP_TX_OUTPUT_SPK), Chunk::Op(OP_EQUAL_VERIFY)]))),
        ),
{
    let tail = seq![
        StepV::Fixed(suffix_rebuild_chunks(state_end, bs), 0),
        StepV::Fixed(p2sh_chunks(), 0),
        StepV::Eval(ExprV::Int(j)),
        StepV::Fixed(seq![Chunk::Op(OP_TX_OUTPUT_SPK), Chunk::Op(OP_EQUAL_VERIFY)], -2),
    ];
    let last = seq![Chunk::Op(OP_TX_OUTPUT_SPK), Chunk::Op(OP_EQUAL_VERIFY)];
    assert(expr_code(ExprV::Int(j), b, Some(bs), 1) == Ok::<Seq<Chunk>, Fault>(seq![Chunk::Int(j)]));
    assert(tail.drop_first().drop_first().drop_first().drop_first() =~= Seq::<StepV>::empty());
    assert(program_code(tail.drop_first().drop_first().drop_first(), b, Some(bs), 2) == Ok::<Seq<Chunk>, Fault>(last)) by {
        reveal_with_fuel(program_code, 2);
        assert(last + Seq::<Chunk>::empty() == last);
    }
    assert(program_code(tail.drop_first().drop_first(), b, Some(bs), 1) == Ok::<Seq<Chunk>, Fault>(
        seq![Chunk::Int(j)] + last,
    ));
    assert(program_code(tail.drop_first(), b, Some(bs), 1) == Ok::<Seq<Chunk>, Fault>(
        p2sh_chunks() + (seq![Chunk::Int(j)] + last),
    ));
    assert(program_code(tail, b, Some(bs), 1) == Ok::<Seq<Chunk>, Fault>(
        suffix_rebuild_chunks(state_end, bs) + (p2sh_chunks() + (seq![Chunk::Int(j)] + last)),
    ));
    if start > 0 {
        let steps = output_rebuild_steps(ExprV::Int(j), start, state_end, bs);
        assert(steps == seq![StepV::Fixed(prefix_rebuild_chunks(start, bs), 0)] + tail);
        assert(steps.drop_first() =~= tail);
    } else {
        assert(output_rebuild_steps(ExprV::Int(j), start, state_end, bs) =~= tail);
        assert(Seq::<Chunk>::empty() + (suffix_rebuild_chunks(state_end, bs) + (p2sh_chunks() + (seq![Chunk::Int(j)] + last)))
            == suffix_rebuild_chunks(state_end, bs) + (p2sh_chunks() + (seq![Chunk::Int(j)] + last)));
    }
}

/// The last check: the scriptPubKey on top is compared with output `j`'s.
#[verifier::rlimit(100)]
proof fn lemma_output_compare_runs(tx: TxView, hash: spec_fn(u8, Seq<u8>) -> Seq<u8>, st: Seq<Item>, w: Seq<u8>, j: i64)
    requires
        0 <= j <= i32::MAX,
        j < tx.outs.len(),
        tx.outs[j as int].len() <= MAX_SCRIPT_ELEMENT_SIZE,
    ensures
        run(tx, hash, st.push(Item::Bytes(w)), seq![Chunk::Int(j)] + seq![Chunk::Op(OP_TX_OUTPUT_SPK), Chunk::Op(OP_EQUAL_VERIFY)])
            == if w == tx.outs[j as int] {
            Some(st)
        } else {
            None::<Seq<Item>>
        },
{
    let cs = seq![Chunk::Int(j)] + seq![Chunk::Op(OP_TX_OUTPUT_SPK), Chunk::Op(OP_EQUAL_VERIFY)];
    reveal_with_fuel(run, 4);
    let s0 = st.push(Item::Bytes(w));
    let s1 = s0.push(Item::Num(j as int));
    let s2 = s0.push(Item::Bytes(tx.outs[j as int]));
    assert(step(tx, hash, s0, cs[0]) == Some(s1));
    assert(s1.drop_last() == s0);
    assert(step(tx, hash, s1, cs[1]) == Some(s2));
    assert(s2.subrange(0, s2.len() - 2) == st);
    assert(cs.drop_first().drop_first().drop_first() =~= Seq::<Chunk>::empty());
    assert(cs.drop_first().drop_first() =~= seq![Chunk::Op(OP_EQUAL_VERIFY)]);
}

/// Law: with the encoded new state `s` on top of the stack, the output check of
/// `validateOutputState` passes exactly when output `j` pays to the P2SH of this very
/// contract's script with its state region replaced by `s` (the redeem script being the last
/// `bytecode_size` bytes of the running input's signature script, and its state region
/// `[start, state_end)`); it then leaves the stack as it was under `s`. Here
/// `hash(OpBlake2b, ..)` stands for the engine's BLAKE2b-256.
pub proof fn lemma_output_check_runs_iff_paid(
    tx: TxView,
    hash: spec_fn(u8, Seq<u8>) -> Seq<u8>,
    st: Seq<Item>,
    b: Seq<Seq<char>>,
    s: Seq<u8>,
    j: i64,
    start: nat,
    state_end: nat,
    bytecode_size: i64,
)
    requires
        forall|d: Seq<u8>| #[trigger] hash(OP_BLAKE2B, d).len() == 32,
        own_script_fits(tx, bytecode_size as int, start, state_end),
        script_with_state(tx, bytecode_size as int, start, state_end, s).len() <= MAX_SCRIPT_ELEMENT_SIZE,
        0 <= j <= i32::MAX,
        j < tx.outs.len(),
        tx.outs[j as int].len() <= MAX_SCRIPT_ELEMENT_SIZE,
    ensures
        program_code(output_rebuild_steps(ExprV::Int(j), start, state_end, bytecode_size), b, Some(bytecode_size), 1)
            matches Ok(cs) && run(tx, hash, st.push(Item::Bytes(s)), cs) == if tx.outs[j as int] == p2sh_bytes(
            hash(OP_BLAKE2B, script_with_state(tx, bytecode_size as int, start, state_end, s)),
        ) {
            Some(st)
        } else {
            None::<Seq<Item>>
        },
{
    let bs = bytecode_size;
    let sig = tx.sigs[tx.me as int];
    let base = own_base(tx, bs as int);
    let pre = sig.subrange(base, base + start);
    let suf = sig.subrange(base + state_end, sig.len() as int);
    let whole = script_with_state(tx, bs as int, start, state_end, s);
    assert(whole == pre + s + suf);
    let last = seq![Chunk::Int(j)] + seq![Chunk::Op(OP_TX_OUTPUT_SPK), Chunk::Op(OP_EQUAL_VERIFY)];
    let rest = suffix_rebuild_chunks(state_end, bs) + (p2sh_chunks() + last);
    lemma_output_rebuild_code(b, j, start, state_end, bs);
    let s_top = st.push(Item::Bytes(s));
    let st_pre = st.push(Item::Bytes(pre + s));
    if start > 0 {
        lemma_prefix_rebuild_runs(tx, hash, st, s, start, bs);
        lemma_run_append(tx, hash, s_top, prefix_rebuild_chunks(start, bs), rest);
    } else {
        assert(pre =~= Seq::<u8>::empty());
        assert(pre + s == s);
        assert(Seq::<Chunk>::empty() + rest == rest);
    }
    lemma_suffix_rebuild_runs(tx, hash, st, pre + s, state_end, bs);
    lemma_run_append(tx, hash, st_pre, suffix_rebuild_chunks(state_end, bs), p2sh_chunks() + last);
    let st_w = st.push(Item::Bytes(whole));
    lemma_p2sh_runs(tx, hash, st, whole);
    lemma_run_append(tx, hash, st_w, p2sh_chunks(), last);
    lemma_output_compare_runs(tx, hash, st, p2sh_bytes(hash(OP_BLAKE2B, whole)), j);
}

/// The value a binary operator leaves for the operands `x` and `y`, as the engine computes it
/// for the operators the model covers.
pub open spec fn binary_value(op: BinaryOp, x: Item, y: Item) -> Option<Item> {
    match op {
        BinaryOp::Add => match (x, y) {
            (Item::Num(a), Item::Num(c)) => if i64::MIN <= a + c <= i64::MAX { Some(Item::Num(a + c)) } else { None },
            _ => None,
        },
        BinaryOp::Concat => if item_bytes(x).len() + item_bytes(y).len() <= MAX_SCRIPT_ELEMENT_SIZE {
            Some(Item::Bytes(item_bytes(x) + item_bytes(y)))
        } else {
            None
        },
        BinaryOp::Num2Bin => match (num_of(x), offset_of(y)) {
            (Some(v), Some(size)) => if size <= 8 {
                match fixed_num_bytes(v, size) {
                    Some(d) => Some(Item::Bytes(d)),
                    None => None,
                }
            } else {
                None
            },
            _ => None,
        },
        _ => None,
    }
}

/// The value an expression leaves on the stack, for the expressions the model covers:
/// numbers, bytes, names (`vals` holds the values bound to the names of `b`, in order),
/// `+`, `++`, fixed-width numbers, and an input's signature script length and bytes.
pub open spec fn eval(tx: TxView, e: ExprV, b: Seq<Seq<char>>, vals: Seq<Item>) -> Option<Item>
    decreases e,
{
    match e {
        ExprV::Int(v) => Some(Item::Num(v as int)),
        ExprV::Bytes(d) => Some(Item::Bytes(d)),
        ExprV::Identifier(n) => match binding_depth(b, n) {
            Some(k) => if k < vals.len() { Some(vals[k as int]) } else { None },
            None => None,
        },
        ExprV::Binary(op, l, r) => match (eval(tx, *l, b, vals), eval(tx, *r, b, vals)) {
            (Some(x), Some(y)) => binary_value(op, x, y),
            _ => None,
        },
        ExprV::Length(x) => match eval(tx, *x, b, vals) {
            Some(it) => Some(Item::Num(item_bytes(it).len() as int)),
            None => None,
        },
        ExprV::Cast(t, x) => match eval(tx, *x, b, vals) {
            Some(it) => if cast_is_numeric(t) {
                match it {
                    Item::Bytes(d) => if d.len() <= 8 { Some(Item::Num(decode_num(d))) } else { None },
                    Item::Num(v) => if i64::MIN <= v <= i64::MAX { Some(it) } else { None },
                }
            } else {
                Some(it)
            },
            None => None,
        },
        ExprV::InputScriptSigLen(x) => match eval(tx, *x, b, vals) {
            Some(it) => match offset_of(it) {
                Some(i) => if i < tx.sigs.len() { Some(Item::Num(tx.sigs[i as int].len() as int)) } else { None },
                None => None,
            },
            None => None,
        },
        ExprV::InputScriptSigSubstr(i, st, en) => match (eval(tx, *i, b, vals), eval(tx, *st, b, vals), eval(tx, *en, b, vals)) {
            (Some(a), Some(c), Some(d)) => match (offset_of(a), offset_of(c), offset_of(d)) {
                (Some(x), Some(y), Some(z)) => if x < tx.sigs.len() {
                    match substring(tx.sigs[x as int], y, z) {
                        Some(w) => Some(Item::Bytes(w)),
                        None => None,
                    }
                } else {
                    None
                },
                _ => None,
            },
            _ => None,
        },
        _ => None,
    }
}

/// Whether the values `vals` bound to names stand on the stack `st` under `d` other values.
pub open spec fn bound_on(st: Seq<Item>, vals: Seq<Item>, d: int) -> bool {
    &&& 0 <= d
    &&& vals.len() + d <= st.len()
    &&& forall|j: int| 0 <= j < vals.len() ==> st[st.len() - 1 - (j + d)] == #[trigger] vals[j]
}

proof fn lemma_bound_on_push(st: Seq<Item>, vals: Seq<Item>, d: int, x: Item)
    requires
        bound_on(st, vals, d),
    ensures
        bound_on(st.push(x), vals, d + 1),
{
    let s2 = st.push(x);
    assert forall|j: int| 0 <= j < vals.len() implies s2[s2.len() - 1 - (j + (d + 1))] == #[trigger] vals[j] by {
        assert(st[st.len() - 1 - (j + d)] == vals[j]);
        assert(s2[s2.len() - 1 - (j + (d + 1))] == st[st.len() - 1 - (j + d)]);
    }
}

/// The number of nodes of an expression.
pub open spec fn expr_size(e: ExprV) -> nat
    decreases e,
{
    match e {
        ExprV::Binary(_, l, r) => 1 + expr_size(*l) + expr_size(*r),
        ExprV::InputScriptSigLen(x) => 1 + expr_size(*x),
        ExprV::Length(x) => 1 + expr_size(*x),
        ExprV::Cast(_, x) => 1 + expr_size(*x),
        ExprV::InputScriptSigSubstr(i, s, x) => 1 + expr_size(*i) + expr_size(*s) + expr_size(*x),
        _ => 1,
    }
}

/// One opcode run on `st`.
proof fn lemma_run_one(tx: TxView, hash: spec_fn(u8, Seq<u8>) -> Seq<u8>, st: Seq<Item>, c: Chunk)
    ensures
        run(tx, hash, st, seq![c]) == step(tx, hash, st, c),
{
    reveal_with_fuel(run, 2);
    assert(seq![c].drop_first() =~= Seq::<Chunk>::empty());
    if let Some(s1) = step(tx, hash, st, c) {
        assert(run(tx, hash, s1, Seq::<Chunk>::empty()) == Some(s1));
    }
}

/// A binary operator on its two operands on top.
#[verifier::rlimit(100)]
proof fn lemma_binary_step(tx: TxView, hash: spec_fn(u8, Seq<u8>) -> Seq<u8>, st: Seq<Item>, op: BinaryOp, x: Item, y: Item)
    requires
        binary_value(op, x, y) is Some,
    ensures
        step(tx, hash, st.push(x).push(y), Chunk::Op(binary_opcode(op))) == Some(st.push(binary_value(op, x, y)->Some_0)),
{
    let s2 = st.push(x).push(y);
    assert(s2.subrange(0, s2.len() - 2) == st);
    assert(s2[s2.len() - 2] == x);
    assert(s2[s2.len() - 1] == y);
}

/// `OpSize` then `OpNip` replace an item by its length.
#[verifier::rlimit(100)]
proof fn lemma_length_tail(tx: TxView, hash: spec_fn(u8, Seq<u8>) -> Seq<u8>, st: Seq<Item>, a: Item)
    ensures
        run(tx, hash, st.push(a), seq![Chunk::Op(OP_SIZE), Chunk::Op(OP_NIP)]) == Some(
            st.push(Item::Num(item_bytes(a).len() as int)),
        ),
{
    let co = seq![Chunk::Op(OP_SIZE), Chunk::Op(OP_NIP)];
    let s1 = st.push(a);
    let s2 = s1.push(Item::Num(item_bytes(a).len() as int));
    assert(step(tx, hash, s1, co[0]) == Some(s2));
    assert(s2.remove(s2.len() - 2) =~= st.push(Item::Num(item_bytes(a).len() as int)));
    assert(step(tx, hash, s2, co[1]) == Some(st.push(Item::Num(item_bytes(a).len() as int))));
    lemma_run_one(tx, hash, s2, co[1]);
    assert(co.drop_first() =~= seq![co[1]]);
    reveal_with_fuel(run, 2);
}

/// A signature script's length, with the input index on top.
#[verifier::rlimit(100)]
proof fn lemma_siglen_step(tx: TxView, hash: spec_fn(u8, Seq<u8>) -> Seq<u8>, st: Seq<Item>, a: Item, i: nat)
    requires
        offset_of(a) == Some(i),
        i < tx.sigs.len(),
    ensures
        step(tx, hash, st.push(a), Chunk::Op(OP_TX_INPUT_SCRIPT_SIG_LEN)) == Some(
            st.push(Item::Num(tx.sigs[i as int].len() as int)),
        ),
{
    assert(st.push(a).drop_last() == st);
}

/// A cut of a signature script, with the input index, start and end on top.
#[verifier::rlimit(100)]
proof fn lemma_substr_step(tx: TxView, hash: spec_fn(u8, Seq<u8>) -> Seq<u8>, st: Seq<Item>, a: Item, c: Item, f: Item, w: Seq<u8>)
    requires
        offset_of(a) is Some,
        offset_of(c) is Some,
        offset_of(f) is Some,
        offset_of(a)->Some_0 < tx.sigs.len(),
        substring(tx.sigs[offset_of(a)->Some_0 as int], offset_of(c)->Some_0, offset_of(f)->Some_0) == Some(w),
    ensures
        step(tx, hash, st.push(a).push(c).push(f), Chunk::Op(OP_TX_INPUT_SCRIPT_SIG_SUBSTR)) == Some(st.push(Item::Bytes(w))),
{
    let s3 = st.push(a).push(c).push(f);
    assert(s3.subrange(0, s3.len() - 3) == st);
    assert(s3[s3.len() - 3] == a);
    assert(s3[s3.len() - 2] == c);
    assert(s3[s3.len() - 1] == f);
}

/// The decoding a numeric cast adds.
#[verifier::rlimit(100)]
proof fn lemma_bin2num_step(tx: TxView, hash: spec_fn(u8, Seq<u8>) -> Seq<u8>, st: Seq<Item>, a: Item, v: Item)
    requires
        match a {
            Item::Bytes(d) => d.len() <= 8 && v == Item::Num(decode_num(d)),
            Item::Num(x) => i64::MIN <= x <= i64::MAX && v == a,
        },
    ensures
        step(tx, hash, st.push(a), Chunk::Op(OP_BIN2NUM)) == Some(st.push(v)),
{
    assert(st.push(a).drop_last() == st);
}

/// Running the code of an expression the model covers pushes its value.
#[verifier::rlimit(100)]
pub proof fn lemma_expr_runs(
    tx: TxView,
    hash: spec_fn(u8, Seq<u8>) -> Seq<u8>,
    st: Seq<Item>,
    e: ExprV,
    b: Seq<Seq<char>>,
    bs: Option<i64>,
    vals: Seq<Item>,
    d: int,
)
    requires
        eval(tx, e, b, vals) is Some,
        bound_on(st, vals, d),
        vals.len() + d + 2 * expr_size(e) <= i32::MAX,
    ensures
        expr_code(e, b, bs, d) is Ok,
        run(tx, hash, st, expr_code(e, b, bs, d)->Ok_0) == Some(st.push(eval(tx, e, b, vals)->Some_0)),
    decreases e,
{
    let v = eval(tx, e, b, vals)->Some_0;
    match e {
        ExprV::Int(x) => {
            lemma_run_one(tx, hash, st, Chunk::Int(x));
        },
        ExprV::Bytes(x) => {
            lemma_run_one(tx, hash, st, Chunk::Data(x));
        },
        ExprV::Identifier(n) => {
            let k = binding_depth(b, n)->Some_0;
            assert(st[st.len() - 1 - (k + d)] == vals[k as int]);
            lemma_copy_runs(tx, hash, st, (k + d) as nat);
        },
        ExprV::Binary(op, l, r) => {
            let x = eval(tx, *l, b, vals)->Some_0;
            let y = eval(tx, *r, b, vals)->Some_0;
            lemma_expr_runs(tx, hash, st, *l, b, bs, vals, d);
            lemma_bound_on_push(st, vals, d, x);
            lemma_expr_runs(tx, hash, st.push(x), *r, b, bs, vals, d + 1);
            let cl = expr_code(*l, b, bs, d)->Ok_0;
            let cr = expr_code(*r, b, bs, d + 1)->Ok_0;
            let co = seq![Chunk::Op(binary_opcode(op))];
            assert(expr_code(e, b, bs, d)->Ok_0 == cl + (cr + co));
            lemma_run_append(tx, hash, st, cl, cr + co);
            lemma_run_append(tx, hash, st.push(x), cr, co);
            lemma_binary_step(tx, hash, st, op, x, y);
            lemma_run_one(tx, hash, st.push(x).push(y), co[0]);
        },
        ExprV::Length(x) => {
            let a = eval(tx, *x, b, vals)->Some_0;
            let cx = expr_code(*x, b, bs, d)->Ok_0;
            let co = seq![Chunk::Op(OP_SIZE), Chunk::Op(OP_NIP)];
            lemma_expr_runs(tx, hash, st, *x, b, bs, vals, d);
            assert(expr_code(e, b, bs, d)->Ok_0 == cx + co);
            lemma_run_append(tx, hash, st, cx, co);
            lemma_length_tail(tx, hash, st, a);
        },
        ExprV::Cast(ty, x) => {
            let a = eval(tx, *x, b, vals)->Some_0;
            let cx = expr_code(*x, b, bs, d)->Ok_0;
            lemma_expr_runs(tx, hash, st, *x, b, bs, vals, d);
            if cast_is_numeric(ty) {
                let co = seq![Chunk::Op(OP_BIN2NUM)];
                assert(expr_code(e, b, bs, d)->Ok_0 == cx + co);
                lemma_run_append(tx, hash, st, cx, co);
                lemma_bin2num_step(tx, hash, st, a, v);
                lemma_run_one(tx, hash, st.push(a), co[0]);
            } else {
                assert(cx + Seq::<Chunk>::empty() == cx);
                assert(expr_code(e, b, bs, d)->Ok_0 == cx);
            }
        },
        ExprV::InputScriptSigLen(x) => {
            let a = eval(tx, *x, b, vals)->Some_0;
            let cx = expr_code(*x, b, bs, d)->Ok_0;
            let co = seq![Chunk::Op(OP_TX_INPUT_SCRIPT_SIG_LEN)];
            lemma_expr_runs(tx, hash, st, *x, b, bs, vals, d);
            assert(expr_code(e, b, bs, d)->Ok_0 == cx + co);
            lemma_run_append(tx, hash, st, cx, co);
            lemma_siglen_step(tx, hash, st, a, offset_of(a)->Some_0);
            lemma_run_one(tx, hash, st.push(a), co[0]);
        },
        ExprV::InputScriptSigSubstr(i, s0, s1) => {
            let a = eval(tx, *i, b, vals)->Some_0;
            let c = eval(tx, *s0, b, vals)->Some_0;
            let f = eval(tx, *s1, b, vals)->Some_0;
            lemma_expr_runs(tx, hash, st, *i, b, bs, vals, d);
            lemma_bound_on_push(st, vals, d, a);
            lemma_expr_runs(tx, hash, st.push(a), *s0, b, bs, vals, d + 1);
            lemma_bound_on_push(st.push(a), vals, d + 1, c);
            lemma_expr_runs(tx, hash, st.push(a).push(c), *s1, b, bs, vals, d + 2);
            let ci = expr_code(*i, b, bs, d)->Ok_0;
            let cs0 = expr_code(*s0, b, bs, d + 1)->Ok_0;
            let cs1 = expr_code(*s1, b, bs, d + 2)->Ok_0;
            let co = seq![Chunk::Op(OP_TX_INPUT_SCRIPT_SIG_SUBSTR)];
            assert(expr_code(e, b, bs, d)->Ok_0 == ci + (cs0 + (cs1 + co)));
            lemma_run_append(tx, hash, st, ci, cs0 + (cs1 + co));
            lemma_run_append(tx, hash, st.push(a), cs0, cs1 + co);
            lemma_run_append(tx, hash, st.push(a).push(c), cs1, co);
            lemma_substr_step(tx, hash, st, a, c, f, item_bytes(v));
            lemma_run_one(tx, hash, st.push(a).push(c).push(f), co[0]);
        },
        _ => {},
    }
}

/// The code of steps in sequence is the code of the first, then the code of the second
/// compiled as deep as the first leaves the stack.
proof fn lemma_program_code_append(s1: Seq<StepV>, s2: Seq<StepV>, b: Seq<Seq<char>>, bs: Option<i64>, d: int)
    ensures
        program_code(s1 + s2, b, bs, d) == cat_code(program_code(s1, b, bs, d), program_code(s2, b, bs, d + program_delta(s1))),
    decreases s1.len(),
{
    if s1.len() == 0 {
        assert(s1 + s2 == s2);
        if let Ok(c) = program_code(s2, b, bs, d) {
            assert(Seq::<Chunk>::empty() + c == c);
        }
    } else {
        assert((s1 + s2)[0] == s1[0]);
        assert((s1 + s2).drop_first() == s1.drop_first() + s2);
        match s1[0] {
            StepV::Eval(e) => {
                lemma_program_code_append(s1.drop_first(), s2, b, bs, d + 1);
                lemma_cat_code_assoc3(
                    expr_code(e, b, bs, d),
                    program_code(s1.drop_first(), b, bs, d + 1),
                    program_code(s2, b, bs, d + program_delta(s1)),
                );
            },
            StepV::Fixed(cs, delta) => {
                lemma_program_code_append(s1.drop_first(), s2, b, bs, d + delta);
                lemma_cat_code_assoc3(
                    Ok(cs),
                    program_code(s1.drop_first(), b, bs, d + delta),
                    program_code(s2, b, bs, d + program_delta(s1)),
                );
            },
        }
    }
}

/// `magnitude_le` of a number below 2^24 takes at most three bytes.
proof fn lemma_small_magnitude(m: nat)
    requires
        m < 0x100_0000,
    ensures
        magnitude_le(m).len() <= 3,
{
    reveal_with_fuel(magnitude_le, 4);
    assert(m / 256 < 0x1_0000);
    assert((m / 256) / 256 < 256);
    assert(((m / 256) / 256) / 256 == 0);
}

/// The 8-byte number `OpNum2Bin` writes for a small non-negative length.
proof fn lemma_small_fixed(v: int)
    requires
        0 <= v < 0x100_0000,
    ensures
        fixed_num_bytes(v, 8) is Some,
{
    lemma_small_magnitude(v as nat);
}

/// The template a templated read of input `i` hashes: the 8-byte length of the prefix, the
/// prefix (the `prefix_len` bytes of the window from `base`), the 8-byte length of the
/// suffix, and the suffix (the `suffix_len` bytes after the `state_len` bytes of state).
pub open spec fn template_bytes(tx: TxView, i: int, base: int, prefix_len: int, suffix_len: int, state_len: nat) -> Seq<u8> {
    let sig = tx.sigs[i];
    let s = base + prefix_len + state_len;
    fixed_num_bytes(prefix_len, 8)->Some_0 + sig.subrange(base, base + prefix_len) + (fixed_num_bytes(suffix_len, 8)->Some_0
        + sig.subrange(s, s + suffix_len))
}

/// The values bound to names, read off a stack: the top first.
pub open spec fn stack_values(st: Seq<Item>) -> Seq<Item> {
    Seq::new(st.len(), |j: int| st[st.len() - 1 - j])
}

/// The template expression evaluates to the template's bytes.
#[verifier::rlimit(100)]
proof fn lemma_template_eval(
    tx: TxView,
    st: Seq<Item>,
    b: Seq<Seq<char>>,
    i: i64,
    pl: i64,
    sl: i64,
    name: Seq<char>,
    state_len: nat,
    base: int,
) -> (t: ExprV)
    requires
        binding_depth(b, name) is Some,
        st.len() > binding_depth(b, name)->Some_0,
        st[st.len() - 1 - binding_depth(b, name)->Some_0] == Item::Num(base),
        0 <= i <= i32::MAX,
        i < tx.sigs.len(),
        0 <= base,
        0 <= pl,
        0 <= sl,
        base + pl + state_len + sl <= tx.sigs[i as int].len() <= i32::MAX,
        16 + pl + sl <= MAX_SCRIPT_ELEMENT_SIZE,
    ensures
        t == template_validation_steps(
            ExprV::Int(i),
            ExprV::Int(pl),
            ExprV::Int(sl),
            ExprV::Int(0),
            ExprV::Identifier(name),
            state_len,
        )[4]->Eval_0,
        eval(tx, t, b, stack_values(st)) == Some(Item::Bytes(template_bytes(tx, i as int, base, pl as int, sl as int, state_len))),
        expr_size(t) == 29,
{
    let vals = stack_values(st);
    let k = binding_depth(b, name)->Some_0;
    let bv = ExprV::Identifier(name);
    assert(eval(tx, bv, b, vals) == Some(Item::Num(base)));
    let sig = tx.sigs[i as int];
    let idx = ExprV::Int(i);
    let prefix_end = add_v(bv, ExprV::Int(pl));
    let suffix_start = add_v(prefix_end, ExprV::Int(state_len as i64));
    let suffix_end = add_v(suffix_start, ExprV::Int(sl));
    assert(state_len as i64 as int == state_len);
    assert(eval(tx, ExprV::Int(pl), b, vals) == Some(Item::Num(pl as int)));
    assert(eval(tx, ExprV::Int(sl), b, vals) == Some(Item::Num(sl as int)));
    assert(eval(tx, ExprV::Int(state_len as i64), b, vals) == Some(Item::Num(state_len as int)));
    assert(eval(tx, idx, b, vals) == Some(Item::Num(i as int)));
    assert(binary_value(BinaryOp::Add, Item::Num(base), Item::Num(pl as int)) == Some(Item::Num(base + pl)));
    assert(eval(tx, prefix_end, b, vals) == Some(Item::Num(base + pl)));
    assert(binary_value(BinaryOp::Add, Item::Num(base + pl), Item::Num(state_len as int)) == Some(
        Item::Num(base + pl + state_len),
    ));
    assert(eval(tx, suffix_start, b, vals) == Some(Item::Num(base + pl + state_len)));
    assert(eval(tx, suffix_end, b, vals) == Some(Item::Num(base + pl + state_len + sl)));
    let prefix = ExprV::InputScriptSigSubstr(Box::new(idx), Box::new(bv), Box::new(prefix_end));
    let suffix = ExprV::InputScriptSigSubstr(Box::new(idx), Box::new(suffix_start), Box::new(suffix_end));
    let pre = sig.subrange(base, base + pl);
    let suf = sig.subrange(base + pl + state_len, base + pl + state_len + sl);
    assert(eval(tx, prefix, b, vals) == Some(Item::Bytes(pre)));
    assert(eval(tx, suffix, b, vals) == Some(Item::Bytes(suf)));
    lemma_small_fixed(pl as int);
    lemma_small_fixed(sl as int);
    let e8p = fixed_num_bytes(pl as int, 8)->Some_0;
    let e8s = fixed_num_bytes(sl as int, 8)->Some_0;
    assert(e8p.len() == 8);
    assert(e8s.len() == 8);
    let enc_pl = ExprV::Binary(BinaryOp::Num2Bin, Box::new(ExprV::Int(pl)), Box::new(ExprV::Int(8)));
    let enc_sl = ExprV::Binary(BinaryOp::Num2Bin, Box::new(ExprV::Int(sl)), Box::new(ExprV::Int(8)));
    assert(eval(tx, ExprV::Int(8), b, vals) == Some(Item::Num(8)));
    assert(offset_of(Item::Num(8)) == Some(8nat));
    assert(binary_value(BinaryOp::Num2Bin, Item::Num(pl as int), Item::Num(8)) == Some(Item::Bytes(e8p)));
    assert(binary_value(BinaryOp::Num2Bin, Item::Num(sl as int), Item::Num(8)) == Some(Item::Bytes(e8s)));
    assert(eval(tx, enc_pl, b, vals) == Some(Item::Bytes(e8p)));
    assert(eval(tx, enc_sl, b, vals) == Some(Item::Bytes(e8s)));
    let left = ExprV::Binary(BinaryOp::Concat, Box::new(enc_pl), Box::new(prefix));
    let right = ExprV::Binary(BinaryOp::Concat, Box::new(enc_sl), Box::new(suffix));
    assert(eval(tx, left, b, vals) == Some(Item::Bytes(e8p + pre)));
    assert(eval(tx, right, b, vals) == Some(Item::Bytes(e8s + suf)));
    let t = ExprV::Binary(BinaryOp::Concat, Box::new(left), Box::new(right));
    assert(eval(tx, t, b, vals) == Some(Item::Bytes(e8p + pre + (e8s + suf))));
    assert(expr_size(bv) == 1);
    assert(expr_size(idx) == 1);
    assert(expr_size(ExprV::Int(pl)) == 1);
    assert(expr_size(ExprV::Int(sl)) == 1);
    assert(expr_size(ExprV::Int(8)) == 1);
    assert(expr_size(ExprV::Int(state_len as i64)) == 1);
    assert(expr_size(prefix_end) == 3);
    assert(expr_size(suffix_start) == 5);
    assert(expr_size(suffix_end) == 7);
    assert(expr_size(prefix) == 6);
    assert(expr_size(suffix) == 14);
    assert(expr_size(enc_pl) == 3);
    assert(expr_size(enc_sl) == 3);
    assert(expr_size(left) == 10);
    assert(expr_size(right) == 18);
    t
}

/// Law: the validation of a templated read of input `i` passes exactly when the input's
/// scriptPubKey is the P2SH of the window `[base, sigscript length)` of its signature script
/// and the template around the window's state region (see [`template_bytes`]) hashes, by the
/// engine's BLAKE3, to the expected hash `h`; it then leaves the stack as it was. Here `base`
/// is the value bound to the local `name`, `pl` and `sl` the template's prefix and suffix
/// lengths, and `hash(OpBlake2b, ..)` the engine's BLAKE2b-256.
#[verifier::rlimit(100)]
pub proof fn lemma_template_validation_runs_iff(
    tx: TxView,
    hash: spec_fn(u8, Seq<u8>) -> Seq<u8>,
    st: Seq<Item>,
    b: Seq<Seq<char>>,
    bs: Option<i64>,
    i: i64,
    pl: i64,
    sl: i64,
    h: Seq<u8>,
    name: Seq<char>,
    state_len: nat,
    base: int,
)
    requires
        forall|d: Seq<u8>| #[trigger] hash(OP_BLAKE2B, d).len() == 32,
        binding_depth(b, name) is Some,
        st.len() > binding_depth(b, name)->Some_0,
        st.len() + 100 <= i32::MAX,
        st[st.len() - 1 - binding_depth(b, name)->Some_0] == Item::Num(base),
        0 <= i <= i32::MAX,
        i < tx.sigs.len(),
        i < tx.spks.len(),
        tx.spks[i as int].len() <= MAX_SCRIPT_ELEMENT_SIZE,
        0 <= base,
        0 <= pl,
        0 <= sl,
        base + pl + state_len + sl <= tx.sigs[i as int].len() <= i32::MAX,
        tx.sigs[i as int].len() - base <= MAX_SCRIPT_ELEMENT_SIZE,
        16 + pl + sl <= MAX_SCRIPT_ELEMENT_SIZE,
    ensures
        program_code(
            template_validation_steps(
                ExprV::Int(i),
                ExprV::Int(pl),
                ExprV::Int(sl),
                ExprV::Bytes(h),
                ExprV::Identifier(name),
                state_len,
            ),
            b,
            bs,
            0,
        ) matches Ok(cs) && run(tx, hash, st, cs) == if tx.spks[i as int] == p2sh_bytes(
            hash(OP_BLAKE2B, tx.sigs[i as int].subrange(base, tx.sigs[i as int].len() as int)),
        ) && h == hash(OP_BLAKE3, template_bytes(tx, i as int, base, pl as int, sl as int, state_len)) {
            Some(st)
        } else {
            None::<Seq<Item>>
        },
{
    let k = binding_depth(b, name)->Some_0;
    let steps = template_validation_steps(ExprV::Int(i), ExprV::Int(pl), ExprV::Int(sl), ExprV::Bytes(h), ExprV::Identifier(name), state_len);
    let t = lemma_template_eval(tx, st, b, i, pl, sl, name, state_len, base);
    let tb = template_bytes(tx, i as int, base, pl as int, sl as int, state_len);
    let binding = input_binding_steps(ExprV::Int(i), ExprV::Identifier(name));
    let check = seq![Chunk::Op(OP_BLAKE3), Chunk::Op(OP_EQUAL_VERIFY)];
    let rest = seq![StepV::Eval(ExprV::Bytes(h)), StepV::Eval(t), StepV::Fixed(check, -2)];
    assert(steps =~= binding + rest);
    assert(program_delta(binding) == 0) by {
        reveal_with_fuel(program_delta, 4);
        assert(binding.drop_first().drop_first().drop_first() =~= Seq::<StepV>::empty());
    }
    lemma_program_code_append(binding, rest, b, bs, 0);
    lemma_binding_code(b, bs, i, name);
    let bc = program_code(binding, b, bs, 0)->Ok_0;
    let vals = stack_values(st);
    assert(bound_on(st, vals, 0));
    let sh = st.push(Item::Bytes(h));
    lemma_bound_on_push(st, vals, 0, Item::Bytes(h));
    lemma_expr_runs(tx, hash, sh, t, b, bs, vals, 1);
    let tc = expr_code(t, b, bs, 1)->Ok_0;
    assert(program_code(rest, b, bs, 0) == Ok::<Seq<Chunk>, Fault>(seq![Chunk::Data(h)] + (tc + (check + Seq::<Chunk>::empty())))) by {
        reveal_with_fuel(program_code, 4);
        assert(rest.drop_first().drop_first().drop_first() =~= Seq::<StepV>::empty());
        assert(expr_code(ExprV::Bytes(h), b, bs, 0) == Ok::<Seq<Chunk>, Fault>(seq![Chunk::Data(h)]));
    }
    assert(check + Seq::<Chunk>::empty() == check);
    let rc = seq![Chunk::Data(h)] + (tc + check);
    lemma_binding_runs_iff_committed(tx, hash, st, b, bs, i, name, base);
    lemma_run_append(tx, hash, st, bc, rc);
    lemma_run_append(tx, hash, st, seq![Chunk::Data(h)], tc + check);
    assert(run(tx, hash, st, seq![Chunk::Data(h)]) == Some(sh)) by {
        reveal_with_fuel(run, 2);
        assert(seq![Chunk::Data(h)].drop_first() =~= Seq::<Chunk>::empty());
    }
    lemma_run_append(tx, hash, sh, tc, check);
    lemma_blake3_check_runs(tx, hash, st, h, tb);
}

/// The code of the output check of `validateOutputStateWithTemplate`.
proof fn lemma_template_output_code(b: Seq<Seq<char>>, bs: Option<i64>, j: i64, pe: ExprV, qe: ExprV, cp: Seq<Chunk>, cq: Seq<Chunk>)
    requires
        expr_code(pe, b, bs, 1) == Ok::<Seq<Chunk>, Fault>(cp),
        expr_code(qe, b, bs, 1) == Ok::<Seq<Chunk>, Fault>(cq),
    ensures
        program_code(template_output_steps(ExprV::Int(j), pe, qe), b, bs, 1) == Ok::<Seq<Chunk>, Fault>(
            cp + (seq![Chunk::Op(OP_SWAP), Chunk::Op(OP_CAT)] + (cq + (seq![Chunk::Op(OP_CAT)] + (p2sh_chunks() + (seq![
                Chunk::Int(j),
            ] + seq![Chunk::Op(OP_TX_OUTPUT_SPK), Chunk::Op(OP_EQUAL_VERIFY)]))))),
        ),
{
    let st = template_output_steps(ExprV::Int(j), pe, qe);
    let last = seq![Chunk::Op(OP_TX_OUTPUT_SPK), Chunk::Op(OP_EQUAL_VERIFY)];
    let t6 = st.skip(6);
    let t5 = st.skip(5);
    let t4 = st.skip(4);
    let t3 = st.skip(3);
    let t2 = st.skip(2);
    let t1 = st.skip(1);
    assert(t6.drop_first() =~= Seq::<StepV>::empty());
    assert(t5.drop_first() =~= t6);
    assert(t4.drop_first() =~= t5);
    assert(t3.drop_first() =~= t4);
    assert(t2.drop_first() =~= t3);
    assert(t1.drop_first() =~= t2);
    assert(st.drop_first() =~= t1);
    assert(program_code(Seq::<StepV>::empty(), b, bs, 0) == Ok::<Seq<Chunk>, Fault>(Seq::empty()));
    assert(program_code(t6, b, bs, 2) == Ok::<Seq<Chunk>, Fault>(last)) by {
        assert(last + Seq::<Chunk>::empty() == last);
    }
    assert(expr_code(ExprV::Int(j), b, bs, 1) == Ok::<Seq<Chunk>, Fault>(seq![Chunk::Int(j)]));
    assert(program_code(t5, b, bs, 1) == Ok::<Seq<Chunk>, Fault>(seq![Chunk::Int(j)] + last));
    assert(program_code(t4, b, bs, 1) == Ok::<Seq<Chunk>, Fault>(p2sh_chunks() + (seq![Chunk::Int(j)] + last)));
    assert(program_code(t3, b, bs, 2) == Ok::<Seq<Chunk>, Fault>(
        seq![Chunk::Op(OP_CAT)] + (p2sh_chunks() + (seq![Chunk::Int(j)] + last)),
    ));
    assert(program_code(t2, b, bs, 1) == Ok::<Seq<Chunk>, Fault>(
        cq + (seq![Chunk::Op(OP_CAT)] + (p2sh_chunks() + (seq![Chunk::Int(j)] + last))),
    ));
    assert(program_code(t1, b, bs, 2) == Ok::<Seq<Chunk>, Fault>(
        seq![Chunk::Op(OP_SWAP), Chunk::Op(OP_CAT)] + (cq + (seq![Chunk::Op(OP_CAT)] + (p2sh_chunks() + (seq![
            Chunk::Int(j),
        ] + last)))),
    ));
}

/// `OpSwap` then `OpCat`: joins the item below to the end of the item on top.
#[verifier::rlimit(100)]
proof fn lemma_swap_cat_runs(tx: TxView, hash: spec_fn(u8, Seq<u8>) -> Seq<u8>, st: Seq<Item>, x: Seq<u8>, y: Seq<u8>)
    requires
        x.len() + y.len() <= MAX_SCRIPT_ELEMENT_SIZE,
    ensures
        run(tx, hash, st.push(Item::Bytes(x)).push(Item::Bytes(y)), seq![Chunk::Op(OP_SWAP), Chunk::Op(OP_CAT)]) == Some(
            st.push(Item::Bytes(y + x)),
        ),
{
    let co = seq![Chunk::Op(OP_SWAP), Chunk::Op(OP_CAT)];
    let s2 = st.push(Item::Bytes(x)).push(Item::Bytes(y));
    let s3 = st.push(Item::Bytes(y)).push(Item::Bytes(x));
    assert(s2.subrange(0, s2.len() - 2) == st);
    assert(step(tx, hash, s2, co[0]) == Some(s3));
    assert(s3.subrange(0, s3.len() - 2) == st);
    assert(step(tx, hash, s3, co[1]) == Some(st.push(Item::Bytes(y + x))));
    lemma_run_one(tx, hash, s3, co[1]);
    assert(co.drop_first() =~= seq![co[1]]);
    reveal_with_fuel(run, 2);
}

/// `OpCat`: joins the item on top to the end of the item below.
#[verifier::rlimit(100)]
proof fn lemma_cat_runs(tx: TxView, hash: spec_fn(u8, Seq<u8>) -> Seq<u8>, st: Seq<Item>, x: Seq<u8>, y: Seq<u8>)
    requires
        x.len() + y.len() <= MAX_SCRIPT_ELEMENT_SIZE,
    ensures
        run(tx, hash, st.push(Item::Bytes(x)).push(Item::Bytes(y)), seq![Chunk::Op(OP_CAT)]) == Some(
            st.push(Item::Bytes(x + y)),
        ),
{
    let s2 = st.push(Item::Bytes(x)).push(Item::Bytes(y));
    assert(s2.subrange(0, s2.len() - 2) == st);
    lemma_run_one(tx, hash, s2, Chunk::Op(OP_CAT));
}

/// Law: with the encoded new state `s` on top of the stack, the output check of
/// `validateOutputStateWithTemplate(j, .., prefix, suffix, ..)` passes exactly when output
/// `j` pays to the P2SH of `p || s || q`, where `p` and `q` are the values of the template's
/// prefix and suffix: the prefix first, then the new state, then the suffix. It then leaves
/// the stack as it was under `s`. `hash(OpBlake2b, ..)` stands for the engine's BLAKE2b-256.
pub proof fn lemma_template_output_runs_iff_paid(
    tx: TxView,
    hash: spec_fn(u8, Seq<u8>) -> Seq<u8>,
    st: Seq<Item>,
    b: Seq<Seq<char>>,
    bs: Option<i64>,
    j: i64,
    prefix: ExprV,
    suffix: ExprV,
    p: Seq<u8>,
    q: Seq<u8>,
    s: Seq<u8>,
    vals: Seq<Item>,
)
    requires
        forall|d: Seq<u8>| #[trigger] hash(OP_BLAKE2B, d).len() == 32,
        bound_on(st, vals, 0),
        eval(tx, prefix, b, vals) == Some(Item::Bytes(p)),
        eval(tx, suffix, b, vals) == Some(Item::Bytes(q)),
        vals.len() + 2 + 2 * (expr_size(prefix) + expr_size(suffix)) <= i32::MAX,
        p.len() + s.len() + q.len() <= MAX_SCRIPT_ELEMENT_SIZE,
        0 <= j <= i32::MAX,
        j < tx.outs.len(),
        tx.outs[j as int].len() <= MAX_SCRIPT_ELEMENT_SIZE,
    ensures
        program_code(template_output_steps(ExprV::Int(j), prefix, suffix), b, bs, 1) matches Ok(cs) && run(
            tx,
            hash,
            st.push(Item::Bytes(s)),
            cs,
        ) == if tx.outs[j as int] == p2sh_bytes(hash(OP_BLAKE2B, p + s + q)) {
            Some(st)
        } else {
            None::<Seq<Item>>
        },
{
    let s1 = st.push(Item::Bytes(s));
    lemma_bound_on_push(st, vals, 0, Item::Bytes(s));
    lemma_expr_runs(tx, hash, s1, prefix, b, bs, vals, 1);
    let cp = expr_code(prefix, b, bs, 1)->Ok_0;
    let ps = st.push(Item::Bytes(p + s));
    lemma_bound_on_push(st, vals, 0, Item::Bytes(p + s));
    lemma_expr_runs(tx, hash, ps, suffix, b, bs, vals, 1);
    let cq = expr_code(suffix, b, bs, 1)->Ok_0;
    lemma_template_output_code(b, bs, j, prefix, suffix, cp, cq);
    let last = seq![Chunk::Int(j)] + seq![Chunk::Op(OP_TX_OUTPUT_SPK), Chunk::Op(OP_EQUAL_VERIFY)];
    let sc = seq![Chunk::Op(OP_SWAP), Chunk::Op(OP_CAT)];
    let c1 = seq![Chunk::Op(OP_CAT)];
    let whole = p + s + q;
    lemma_run_append(tx, hash, s1, cp, sc + (cq + (c1 + (p2sh_chunks() + last))));
    lemma_run_append(tx, hash, s1.push(Item::Bytes(p)), sc, cq + (c1 + (p2sh_chunks() + last)));
    lemma_swap_cat_runs(tx, hash, st, s, p);
    lemma_run_append(tx, hash, ps, cq, c1 + (p2sh_chunks() + last));
    lemma_run_append(tx, hash, ps.push(Item::Bytes(q)), c1, p2sh_chunks() + last);
    lemma_cat_runs(tx, hash, st, p + s, q);
    let sw = st.push(Item::Bytes(whole));
    lemma_run_append(tx, hash, sw, p2sh_chunks(), last);
    lemma_p2sh_runs(tx, hash, st, whole);
    lemma_output_compare_runs(tx, hash, st, p2sh_bytes(hash(OP_BLAKE2B, whole)), j);
}

/// `OpBlake3` then `OpEqualVerify`: passes, dropping both, exactly when the item below is the
/// BLAKE3 of the item on top.
#[verifier::rlimit(100)]
proof fn lemma_blake3_check_runs(tx: TxView, hash: spec_fn(u8, Seq<u8>) -> Seq<u8>, st: Seq<Item>, h: Seq<u8>, tb: Seq<u8>)
    ensures
        run(tx, hash, st.push(Item::Bytes(h)).push(Item::Bytes(tb)), seq![Chunk::Op(OP_BLAKE3), Chunk::Op(OP_EQUAL_VERIFY)])
            == if h == hash(OP_BLAKE3, tb) {
            Some(st)
        } else {
            None::<Seq<Item>>
        },
{
    let sh = st.push(Item::Bytes(h));
    let digest = hash(OP_BLAKE3, tb);
    let st3 = sh.push(Item::Bytes(digest));
    assert(sh.push(Item::Bytes(tb)).drop_last() == sh);
    assert(step(tx, hash, sh.push(Item::Bytes(tb)), Chunk::Op(OP_BLAKE3)) == Some(st3));
    lemma_run_one(tx, hash, sh.push(Item::Bytes(tb)), Chunk::Op(OP_BLAKE3));
    lemma_run_append(tx, hash, sh.push(Item::Bytes(tb)), seq![Chunk::Op(OP_BLAKE3)], seq![Chunk::Op(OP_EQUAL_VERIFY)]);
    assert(seq![Chunk::Op(OP_BLAKE3)] + seq![Chunk::Op(OP_EQUAL_VERIFY)] =~= seq![Chunk::Op(OP_BLAKE3), Chunk::Op(OP_EQUAL_VERIFY)]);
    lemma_equal_verify_runs(tx, hash, st, h, digest);
}

/// The 8-byte little-endian length `OpNum2Bin` writes in a template's preimage.
pub open spec fn len8(n: nat) -> Seq<u8> {
    fixed_num_bytes(n as int, 8)->Some_0
}

/// Law: the template check of `validateOutputStateWithTemplate` passes exactly when the
/// expected hash `h` is the BLAKE3 of `i64le(len(p)) || p || i64le(len(q)) || q`, where `p`
/// and `q` are the values of the template's prefix and suffix; it then leaves the stack as it
/// was.
#[verifier::rlimit(100)]
pub proof fn lemma_template_check_runs_iff(
    tx: TxView,
    hash: spec_fn(u8, Seq<u8>) -> Seq<u8>,
    st: Seq<Item>,
    b: Seq<Seq<char>>,
    bs: Option<i64>,
    expected: ExprV,
    prefix: ExprV,
    suffix: ExprV,
    h: Seq<u8>,
    p: Seq<u8>,
    q: Seq<u8>,
    vals: Seq<Item>,
)
    requires
        bound_on(st, vals, 0),
        eval(tx, expected, b, vals) == Some(Item::Bytes(h)),
        eval(tx, prefix, b, vals) == Some(Item::Bytes(p)),
        eval(tx, suffix, b, vals) == Some(Item::Bytes(q)),
        vals.len() + 20 + 2 * expr_size(expected) + 4 * (expr_size(prefix) + expr_size(suffix)) <= i32::MAX,
        16 + p.len() + q.len() <= MAX_SCRIPT_ELEMENT_SIZE,
    ensures
        program_code(template_check_steps(expected, prefix, suffix), b, bs, 0) matches Ok(cs) && run(tx, hash, st, cs) == if h
            == hash(OP_BLAKE3, len8(p.len()) + p + (len8(q.len()) + q)) {
            Some(st)
        } else {
            None::<Seq<Item>>
        },
{
    let pre = template_preimage(prefix, suffix);
    let eight = ExprV::Int(8);
    let pl = ExprV::Binary(BinaryOp::Num2Bin, Box::new(ExprV::Length(Box::new(prefix))), Box::new(eight));
    let ql = ExprV::Binary(BinaryOp::Num2Bin, Box::new(ExprV::Length(Box::new(suffix))), Box::new(eight));
    lemma_small_fixed(p.len() as int);
    lemma_small_fixed(q.len() as int);
    assert(len8(p.len()).len() == 8);
    assert(len8(q.len()).len() == 8);
    assert(eval(tx, eight, b, vals) == Some(Item::Num(8)));
    assert(offset_of(Item::Num(8)) == Some(8nat));
    assert(eval(tx, ExprV::Length(Box::new(prefix)), b, vals) == Some(Item::Num(p.len() as int)));
    assert(eval(tx, ExprV::Length(Box::new(suffix)), b, vals) == Some(Item::Num(q.len() as int)));
    assert(binary_value(BinaryOp::Num2Bin, Item::Num(p.len() as int), Item::Num(8)) == Some(Item::Bytes(len8(p.len()))));
    assert(binary_value(BinaryOp::Num2Bin, Item::Num(q.len() as int), Item::Num(8)) == Some(Item::Bytes(len8(q.len()))));
    assert(eval(tx, pl, b, vals) == Some(Item::Bytes(len8(p.len()))));
    assert(eval(tx, ql, b, vals) == Some(Item::Bytes(len8(q.len()))));
    let left = ExprV::Binary(BinaryOp::Concat, Box::new(pl), Box::new(prefix));
    let right = ExprV::Binary(BinaryOp::Concat, Box::new(ql), Box::new(suffix));
    assert(eval(tx, left, b, vals) == Some(Item::Bytes(len8(p.len()) + p)));
    assert(eval(tx, right, b, vals) == Some(Item::Bytes(len8(q.len()) + q)));
    let tb = len8(p.len()) + p + (len8(q.len()) + q);
    assert(eval(tx, pre, b, vals) == Some(Item::Bytes(tb)));
    assert(expr_size(eight) == 1);
    assert(expr_size(ExprV::Length(Box::new(prefix))) == 1 + expr_size(prefix));
    assert(expr_size(ExprV::Length(Box::new(suffix))) == 1 + expr_size(suffix));
    assert(expr_size(pl) == 3 + expr_size(prefix));
    assert(expr_size(ql) == 3 + expr_size(suffix));
    assert(expr_size(left) == 4 + 2 * expr_size(prefix));
    assert(expr_size(right) == 4 + 2 * expr_size(suffix));
    assert(pre == ExprV::Binary(BinaryOp::Concat, Box::new(left), Box::new(right)));
    assert(expr_size(pre) == 9 + 2 * expr_size(prefix) + 2 * expr_size(suffix));
    lemma_expr_runs(tx, hash, st, expected, b, bs, vals, 0);
    let ch = expr_code(expected, b, bs, 0)->Ok_0;
    let sh = st.push(Item::Bytes(h));
    lemma_bound_on_push(st, vals, 0, Item::Bytes(h));
    lemma_expr_runs(tx, hash, sh, pre, b, bs, vals, 1);
    let ct = expr_code(pre, b, bs, 1)->Ok_0;
    let check = seq![Chunk::Op(OP_BLAKE3), Chunk::Op(OP_EQUAL_VERIFY)];
    let steps = template_check_steps(expected, prefix, suffix);
    assert(program_code(steps, b, bs, 0) == Ok::<Seq<Chunk>, Fault>(ch + (ct + (check + Seq::<Chunk>::empty())))) by {
        reveal_with_fuel(program_code, 4);
        assert(steps.drop_first().drop_first().drop_first() =~= Seq::<StepV>::empty());
    }
    assert(check + Seq::<Chunk>::empty() == check);
    lemma_run_append(tx, hash, st, ch, ct + check);
    lemma_run_append(tx, hash, sh, ct, check);
    lemma_blake3_check_runs(tx, hash, st, h, tb);
}

/// Expressions evaluated one after another: each result stays on the stack.
pub proof fn lemma_eval_steps_run(
    tx: TxView,
    hash: spec_fn(u8, Seq<u8>) -> Seq<u8>,
    st: Seq<Item>,
    ss: Seq<StepV>,
    es: Seq<ExprV>,
    b: Seq<Seq<char>>,
    bs: Option<i64>,
    vals: Seq<Item>,
    vs: Seq<Item>,
    d: int,
)
    requires
        ss.len() == es.len(),
        vs.len() == es.len(),
        forall|i: int| 0 <= i < ss.len() ==> #[trigger] ss[i] == StepV::Eval(es[i]),
        forall|i: int| 0 <= i < es.len() ==> eval(tx, #[trigger] es[i], b, vals) == Some(vs[i]),
        forall|i: int| 0 <= i < es.len() ==> vals.len() + d + es.len() + 2 * expr_size(#[trigger] es[i]) <= i32::MAX,
        bound_on(st, vals, d),
    ensures
        program_code(ss, b, bs, d) matches Ok(c) && run(tx, hash, st, c) == Some(st + vs),
    decreases ss.len(),
{
    if ss.len() == 0 {
        assert(st + vs =~= st);
        assert(run(tx, hash, st, Seq::<Chunk>::empty()) == Some(st));
    } else {
        let e = es[0];
        let v = vs[0];
        assert(ss[0] == StepV::Eval(e));
        assert(eval(tx, e, b, vals) == Some(v));
        assert(vals.len() + d + es.len() + 2 * expr_size(e) <= i32::MAX);
        lemma_expr_runs(tx, hash, st, e, b, bs, vals, d);
        let ce = expr_code(e, b, bs, d)->Ok_0;
        lemma_bound_on_push(st, vals, d, v);
        let es1 = es.drop_first();
        assert forall|i: int| 0 <= i < ss.drop_first().len() implies #[trigger] ss.drop_first()[i] == StepV::Eval(es1[i]) by {
            assert(ss.drop_first()[i] == ss[i + 1]);
        }
        assert forall|i: int| 0 <= i < es1.len() implies eval(tx, #[trigger] es1[i], b, vals) == Some(vs.drop_first()[i]) by {
            assert(es1[i] == es[i + 1]);
        }
        assert forall|i: int| 0 <= i < es1.len() implies vals.len() + (d + 1) + es1.len() + 2 * expr_size(#[trigger] es1[i])
            <= i32::MAX by {
            assert(es1[i] == es[i + 1]);
        }
        lemma_eval_steps_run(tx, hash, st.push(v), ss.drop_first(), es1, b, bs, vals, vs.drop_first(), d + 1);
        let cr = program_code(ss.drop_first(), b, bs, d + 1)->Ok_0;
        assert(program_code(ss, b, bs, d) == Ok::<Seq<Chunk>, Fault>(ce + cr));
        lemma_run_append(tx, hash, st, ce, cr);
        assert(st.push(v) + vs.drop_first() =~= st + vs);
    }
}

/// One round of the epilogue's cleanup: the binding just under the `c` values on top is
/// rolled up and dropped.
#[verifier::rlimit(100)]
proof fn lemma_roll_drop_round(tx: TxView, hash: spec_fn(u8, Seq<u8>) -> Seq<u8>, y: Seq<Item>, x: Item, vs: Seq<Item>)
    requires
        vs.len() <= i32::MAX,
    ensures
        run(tx, hash, y.push(x) + vs, seq![Chunk::Int(vs.len() as i64), Chunk::Op(OP_ROLL), Chunk::Op(OP_DROP)]) == Some(y + vs),
{
    let c = vs.len();
    let s0 = y.push(x) + vs;
    let s1 = s0.push(Item::Num(c as i64 as int));
    assert(c as i64 as int == c);
    let n = s1.len() as int;
    assert(s1[n - 1] == Item::Num(c as int));
    assert(offset_of(s1[n - 1]) == Some(c as nat));
    assert(s1.drop_last() == s0);
    assert(s0[n - 2 - c] == x);
    let s2 = (y + vs).push(x);
    assert(s0.remove(n - 2 - c) =~= y + vs);
    assert(step(tx, hash, s1, Chunk::Op(OP_ROLL)) == Some(s2));
    assert(step(tx, hash, s2, Chunk::Op(OP_DROP)) == Some(y + vs));
    let cs = seq![Chunk::Int(c as i64), Chunk::Op(OP_ROLL), Chunk::Op(OP_DROP)];
    assert(step(tx, hash, s0, cs[0]) == Some(s1));
    reveal_with_fuel(run, 4);
    assert(cs.drop_first().drop_first().drop_first() =~= Seq::<Chunk>::empty());
}

/// `k` rounds of the cleanup remove the `k` values just under the values on top.
proof fn lemma_roll_drops_run(tx: TxView, hash: spec_fn(u8, Seq<u8>) -> Seq<u8>, below: Seq<Item>, xs: Seq<Item>, vs: Seq<Item>, k: nat)
    requires
        k <= xs.len(),
        vs.len() <= i32::MAX,
    ensures
        run(tx, hash, below + xs + vs, roll_drops(vs.len() as i64, k)) == Some(below + xs.take(xs.len() - k) + vs),
    decreases k,
{
    if k == 0 {
        assert(xs.take(xs.len() as int) == xs);
        assert(run(tx, hash, below + xs + vs, Seq::<Chunk>::empty()) == Some(below + xs + vs));
    } else {
        lemma_roll_drops_run(tx, hash, below, xs, vs, (k - 1) as nat);
        let round = seq![Chunk::Int(vs.len() as i64), Chunk::Op(OP_ROLL), Chunk::Op(OP_DROP)];
        lemma_run_append(tx, hash, below + xs + vs, roll_drops(vs.len() as i64, (k - 1) as nat), round);
        let m = xs.len() - k;
        let y = below + xs.take(m);
        assert(below + xs.take(m + 1) =~= y.push(xs[m]));
        lemma_roll_drop_round(tx, hash, y, xs[m], vs);
    }
}

/// The bindings' values laid on the stack: the value of binding `j` at depth `j`.
pub open spec fn laid(binds: Seq<Item>) -> Seq<Item> {
    Seq::new(binds.len(), |i: int| binds[binds.len() - 1 - i])
}

/// Law: with the body's bindings on the stack (the value of binding `j` of `b` at depth `j`,
/// over `below`), the epilogue of an entrypoint that returns values leaves exactly the return
/// values, in order, the first deepest, and none of the bindings.
pub proof fn lemma_epilogue_runs(
    tx: TxView,
    hash: spec_fn(u8, Seq<u8>) -> Seq<u8>,
    below: Seq<Item>,
    binds: Seq<Item>,
    b: Seq<Seq<char>>,
    bs: Option<i64>,
    rets: Seq<ExprV>,
    return_types: nat,
    vs: Seq<Item>,
)
    requires
        0 < rets.len() <= return_types,
        binds.len() == b.len(),
        vs.len() == rets.len(),
        forall|k: int| 0 <= k < rets.len() ==> eval(tx, #[trigger] rets[k], b, binds) == Some(vs[k]),
        forall|k: int| 0 <= k < rets.len() ==> binds.len() + rets.len() + 2 * expr_size(#[trigger] rets[k]) <= i32::MAX,
    ensures
        epilogue_code(b, bs, rets, return_types) matches Ok(c) && run(tx, hash, below + laid(binds), c) == Some(below + vs),
{
    let st = below + laid(binds);
    assert(bound_on(st, binds, 0)) by {
        assert forall|j: int| 0 <= j < binds.len() implies st[st.len() - 1 - (j + 0)] == #[trigger] binds[j] by {
            assert(st[st.len() - 1 - j] == laid(binds)[binds.len() - 1 - j]);
        }
    }
    let ss = return_steps(rets, rets.len());
    lemma_eval_steps_run(tx, hash, st, ss, rets, b, bs, binds, vs, 0);
    let c1 = program_code(ss, b, bs, 0)->Ok_0;
    let c2 = roll_drops(rets.len() as i64, b.len());
    assert(epilogue_code(b, bs, rets, return_types) == Ok::<Seq<Chunk>, Fault>(c1 + c2));
    lemma_run_append(tx, hash, st, c1, c2);
    lemma_roll_drops_run(tx, hash, below, laid(binds), vs, b.len());
    assert(laid(binds).take(0) =~= Seq::<Item>::empty());
    assert(below + laid(binds).take(0) + vs =~= below + vs);
}

/// Whether the top of `st` holds, for each name of `names` (the top first), the value `val`
/// gives that name.
pub open spec fn laid_out(st: Seq<Item>, names: Seq<Seq<char>>, val: spec_fn(Seq<char>) -> Item) -> bool {
    &&& names.len() <= st.len()
    &&& forall|i: int| 0 <= i < names.len() ==> st[st.len() - 1 - i] == val(#[trigger] names[i])
}

/// `OpRoll` of depth `k`: the value `k` places below the top moves to the top.
#[verifier::rlimit(100)]
proof fn lemma_roll_runs(tx: TxView, hash: spec_fn(u8, Seq<u8>) -> Seq<u8>, st: Seq<Item>, k: nat)
    requires
        k < st.len(),
        k <= i32::MAX,
    ensures
        run(tx, hash, st, seq![Chunk::Int(k as i64), Chunk::Op(OP_ROLL)]) == Some(
            st.remove(st.len() - 1 - k).push(st[st.len() - 1 - k]),
        ),
{
    let s1 = st.push(Item::Num(k as i64 as int));
    assert(k as i64 as int == k);
    let n = s1.len() as int;
    assert(s1[n - 1] == Item::Num(k as int));
    assert(offset_of(s1[n - 1]) == Some(k));
    assert(s1.drop_last() == st);
    assert(s1[n - 2 - k] == st[st.len() - 1 - k]);
    let s2 = st.remove(st.len() - 1 - k).push(st[st.len() - 1 - k]);
    assert(step(tx, hash, s1, Chunk::Op(OP_ROLL)) == Some(s2));
    lemma_run_one(tx, hash, st, Chunk::Int(k as i64));
    lemma_run_one(tx, hash, s1, Chunk::Op(OP_ROLL));
    lemma_run_append(tx, hash, st, seq![Chunk::Int(k as i64)], seq![Chunk::Op(OP_ROLL)]);
    assert(seq![Chunk::Int(k as i64)] + seq![Chunk::Op(OP_ROLL)] =~= seq![Chunk::Int(k as i64), Chunk::Op(OP_ROLL)]);
}

/// Rolling the value of binding `k` to the top moves its name to the front of the layout.
proof fn lemma_roll_laid(st: Seq<Item>, b: Seq<Seq<char>>, k: int, val: spec_fn(Seq<char>) -> Item)
    requires
        laid_out(st, b, val),
        0 < k < b.len(),
    ensures
        laid_out(st.remove(st.len() - 1 - k).push(st[st.len() - 1 - k]), seq![b[k]] + b.remove(k), val),
        st.remove(st.len() - 1 - k).push(st[st.len() - 1 - k]).len() == st.len(),
        st.remove(st.len() - 1 - k).push(st[st.len() - 1 - k]).subrange(0, st.len() - b.len()) == st.subrange(
            0,
            st.len() - b.len(),
        ),
{
    let l = st.len() as int;
    let p = l - 1 - k;
    let s1 = st.remove(p).push(st[p]);
    let b1 = seq![b[k]] + b.remove(k);
    assert(st[p] == val(b[k]));
    assert forall|i: int| 0 <= i < b1.len() implies s1[s1.len() - 1 - i] == val(#[trigger] b1[i]) by {
        if i == 0 {
            assert(b1[0] == b[k]);
        } else if i <= k {
            assert(b1[i] == b.remove(k)[i - 1]);
            assert(b.remove(k)[i - 1] == b[i - 1]);
            assert(s1[l - 1 - i] == st.remove(p)[l - 1 - i]);
            assert(st.remove(p)[l - 1 - i] == st[l - i]);
            assert(st[l - 1 - (i - 1)] == val(b[i - 1]));
        } else {
            assert(b1[i] == b.remove(k)[i - 1]);
            assert(b.remove(k)[i - 1] == b[i]);
            assert(s1[l - 1 - i] == st.remove(p)[l - 1 - i]);
            assert(st.remove(p)[l - 1 - i] == st[l - 1 - i]);
        }
    }
    assert(s1.subrange(0, l - b.len()) =~= st.subrange(0, l - b.len()));
}

/// The reordering code moves values just as it moves names: run on a stack laid out as `b`,
/// it leaves one laid out as the bindings the plan ends with, changing nothing below them.
pub proof fn lemma_reorder_runs(
    tx: TxView,
    hash: spec_fn(u8, Seq<u8>) -> Seq<u8>,
    st: Seq<Item>,
    b: Seq<Seq<char>>,
    target: Seq<Seq<char>>,
    j: int,
    val: spec_fn(Seq<char>) -> Item,
)
    requires
        laid_out(st, b, val),
        b.len() <= i32::MAX,
        j <= target.len(),
        reorder_plan(b, target, j) is Ok,
    ensures
        reorder_plan(b, target, j) matches Ok((c, left)) && run(tx, hash, st, c) matches Some(st2) && laid_out(st2, left, val)
            && left.len() == b.len() && st2.len() == st.len() && st2.subrange(0, st.len() - b.len()) == st.subrange(
            0,
            st.len() - b.len(),
        ),
    decreases j,
{
    if j <= 0 {
        assert(run(tx, hash, st, Seq::<Chunk>::empty()) == Some(st));
    } else {
        let name = target[j - 1];
        lemma_binding_depth(b, name);
        let k = binding_depth(b, name)->Some_0;
        if k == 0 {
            lemma_reorder_runs(tx, hash, st, b, target, j - 1, val);
        } else {
            let l = st.len() as int;
            let s1 = st.remove(l - 1 - k).push(st[l - 1 - k]);
            let b1 = seq![name] + b.remove(k as int);
            lemma_roll_runs(tx, hash, st, k);
            lemma_roll_laid(st, b, k as int, val);
            lemma_reorder_runs(tx, hash, s1, b1, target, j - 1, val);
            let rest = reorder_plan(b1, target, j - 1)->Ok_0;
            let roll = seq![Chunk::Int(k as i64), Chunk::Op(OP_ROLL)];
            lemma_run_append(tx, hash, st, roll, rest.0);
            let st2 = run(tx, hash, s1, rest.0)->Some_0;
            assert(st2.subrange(0, l - b.len()) =~= s1.subrange(0, l - b1.len()));
        }
    }
}

/// What a plan leaves: with `target[j ..]` already on top in order, the top ends as `target`.
proof fn lemma_plan_left(b: Seq<Seq<char>>, target: Seq<Seq<char>>, j: int, m: int)
    requires
        target.no_duplicates(),
        0 <= j,
        0 <= m,
        j + m <= target.len(),
        m <= b.len(),
        b.subrange(0, m) == target.subrange(j, j + m),
        reorder_plan(b, target, j) is Ok,
    ensures
        reorder_plan(b, target, j) matches Ok((_, left)) && left.len() == b.len() && left.subrange(0, j + m)
            == target.subrange(0, j + m),
    decreases j,
{
    if j > 0 {
        let name = target[j - 1];
        lemma_binding_depth(b, name);
        let k = binding_depth(b, name)->Some_0;
        assert(k >= m) by {
            if k < m {
                assert(b[k as int] == b.subrange(0, m)[k as int]);
                assert(target[j + k] == name);
                assert(target[j + k] == target[j - 1]);
            }
        }
        if k == 0 {
            assert(b.subrange(0, 1) =~= target.subrange(j - 1, j));
            lemma_plan_left(b, target, j - 1, 1);
        } else {
            let b1 = seq![name] + b.remove(k as int);
            assert(b1.subrange(0, m + 1) =~= target.subrange(j - 1, j + m)) by {
                assert forall|x: int| 0 <= x < m + 1 implies #[trigger] b1.subrange(0, m + 1)[x] == target.subrange(j - 1, j + m)[x] by {
                    if x > 0 {
                        assert(b1[x] == b.remove(k as int)[x - 1]);
                        assert(b.remove(k as int)[x - 1] == b[x - 1]);
                        assert(b[x - 1] == b.subrange(0, m)[x - 1]);
                    }
                }
            }
            lemma_plan_left(b1, target, j - 1, m + 1);
        }
    } else {
        assert(b.subrange(0, m) == target.subrange(0, m));
    }
}

/// Whether the code `x` takes any stack laid out as `from` to one laid out as `to`, each
/// name keeping its value, without changing the stack's height.
pub open spec fn restores_layout(
    tx: TxView,
    hash: spec_fn(u8, Seq<u8>) -> Seq<u8>,
    x: Seq<Chunk>,
    from: Seq<Seq<char>>,
    to: Seq<Seq<char>>,
) -> bool {
    forall|st: Seq<Item>, val: spec_fn(Seq<char>) -> Item|
        #[trigger] laid_out(st, from, val) ==> (run(tx, hash, st, x) matches Some(st2) && laid_out(st2, to, val)
            && st2.len() == st.len())
}

/// Law: an `if` without `else` leaves every binding where the scope before it had it, on the
/// path that runs the then-branch as on the one that does not. Its code is the condition,
/// `OpIf`, the then-branch, then code that takes the stack as the then-branch leaves its
/// bindings back to the layout of the scope before the statement, each name keeping its
/// value, and `OpEndIf`; the scope after the statement is the one before it.
pub proof fn lemma_if_without_else_restores(
    tx: TxView,
    hash: spec_fn(u8, Seq<u8>) -> Seq<u8>,
    env: StmtEnv,
    sc: Scope,
    s: Statement,
)
    requires
        s matches Statement::If { else_branch: None, .. },
        sc.bindings.no_duplicates(),
        sc.bindings.len() <= i32::MAX,
        if_outcome(env, sc, s) is Ok,
    ensures
        s matches Statement::If { condition, then_branch, .. } && expr_code(condition@, sc.bindings, env.bytecode_size, 0) matches Ok(
            cc,
        ) && block_outcome(env, sc, then_branch@) matches Ok((tc, ts, _)) && if_outcome(env, sc, s) matches Ok((code, sc2, _))
            && sc2 == sc && exists|x: Seq<Chunk>|
            #[trigger] restores_layout(tx, hash, x, ts.bindings, sc.bindings) && code == cc + seq![Chunk::Op(OP_IF)] + tc + x
                + seq![Chunk::Op(OP_END_IF)],
{
    if let Statement::If { condition, then_branch, .. } = s {
        let cc = expr_code(condition@, sc.bindings, env.bytecode_size, 0)->Ok_0;
        let bo = block_outcome(env, sc, then_branch@);
        let tc = bo->Ok_0.0;
        let ts = bo->Ok_0.1;
        let rc = reorder_code(ts.bindings, sc.bindings)->Ok_0;
        let code = cc + (seq![Chunk::Op(OP_IF)] + (tc + (rc + seq![Chunk::Op(OP_END_IF)])));
        assert(if_outcome(env, sc, s) == Ok::<(Seq<Chunk>, Scope, Seq<Seq<char>>), Fault>((code, sc, Seq::empty()))) by {
            assert(rc + seq![Chunk::Op(OP_END_IF)] + Seq::<Chunk>::empty() == rc + seq![Chunk::Op(OP_END_IF)]);
            assert(Seq::<Seq<char>>::empty() + Seq::<Seq<char>>::empty() == Seq::<Seq<char>>::empty());
        }
        assert(code == cc + seq![Chunk::Op(OP_IF)] + tc + rc + seq![Chunk::Op(OP_END_IF)]);
        let from = ts.bindings;
        let to = sc.bindings;
        assert(from.len() == to.len());
        assert(from.subrange(0, 0) =~= to.subrange(to.len() as int, to.len() as int));
        lemma_plan_left(from, to, to.len() as int, 0);
        let left = reorder_plan(from, to, to.len() as int)->Ok_0.1;
        assert(left.subrange(0, to.len() as int) == to.subrange(0, to.len() as int));
        assert(to.subrange(0, to.len() as int) =~= to);
        assert(left.subrange(0, left.len() as int) =~= left);
        assert(left =~= to);
        assert(restores_layout(tx, hash, rc, from, to)) by {
            assert forall|st: Seq<Item>, val: spec_fn(Seq<char>) -> Item| #[trigger] laid_out(st, from, val) implies (run(
                tx,
                hash,
                st,
                rc,
            ) matches Some(st2) && laid_out(st2, to, val) && st2.len() == st.len()) by {
                lemma_reorder_runs(tx, hash, st, from, to, to.len() as int, val);
            }
        }
    }
}

/// A number or a bool is at most eight bytes long.
proof fn lemma_numeric_payload(t: TypeRefV)
    requires
        cast_is_numeric(t),
    ensures
        spec_payload_len(t) matches Ok(n) && n <= 8,
{
    assert(t.dims.len() == 0);
    assert(t.dims =~= Seq::<ArrayDim>::empty());
}

/// A name bound under a new binding of another name is one place deeper.
proof fn lemma_depth_under(b: Seq<Seq<char>>, x: Seq<char>, n: Seq<char>)
    requires
        x != n,
        binding_depth(b, n) is Some,
    ensures
        binding_depth(seq![x] + b, n) == Some((binding_depth(b, n)->Some_0 + 1) as nat),
{
    let b1 = seq![x] + b;
    lemma_binding_depth(b, n);
    let k = binding_depth(b, n)->Some_0;
    assert(b1[(k + 1) as int] == n);
    assert(b1.contains(n));
    lemma_binding_depth(b1, n);
    let k1 = binding_depth(b1, n)->Some_0;
    if k1 < k + 1 {
        assert(k1 >= 1);
        assert(b[k1 - 1] == b1[k1 as int]);
    } else if k1 > k + 1 {
        assert(b1[(k + 1) as int] != n);
    }
}

/// The values a state read binds: field `k ..` of the fields of types `ts`, field `m` read
/// from the `payload_lens(ts)[m]` bytes of input `i`'s signature script at
/// `base + start + payload_start(payload_lens(ts), m)`.
pub open spec fn field_values(tx: TxView, i: int, base: int, start: int, ts: Seq<TypeRefV>, k: int) -> Seq<Item> {
    Seq::new(
        (ts.len() - k) as nat,
        |m: int|
            {
                let lens = payload_lens(ts);
                let q = base + start + payload_start(lens, k + m);
                read_value(ts[k + m], tx.sigs[i].subrange(q, q + lens[k + m]))
            },
    )
}

/// The types of a struct's fields.
pub open spec fn field_types_of(fields: Seq<(Seq<char>, TypeRefV)>) -> Seq<TypeRefV> {
    fields.map_values(|f: (Seq<char>, TypeRefV)| f.1)
}

/// Running the reads of fields `k ..` binds each to its value, in order.
#[verifier::rlimit(100)]
pub proof fn lemma_reads_run(
    tx: TxView,
    hash: spec_fn(u8, Seq<u8>) -> Seq<u8>,
    st: Seq<Item>,
    env: StmtEnv,
    sc: Scope,
    fields: Seq<(Seq<char>, TypeRefV)>,
    bsv: Seq<BindingV>,
    i: i64,
    start: i64,
    base_nm: Seq<char>,
    builtin: StateBuiltin,
    check_types: bool,
    k: int,
    base: int,
)
    requires
        0 <= k <= fields.len(),
        reads_from(env, sc, fields, bsv, ExprV::Int(i), ExprV::Int(start), base_nm, builtin, check_types, k, chunk_start(
            payload_lens(field_types_of(fields)),
            k,
        )) is Ok,
        binding_depth(sc.bindings, base_nm) is Some,
        binding_depth(sc.bindings, base_nm)->Some_0 + (fields.len() - k) + 2 <= i32::MAX,
        st.len() > binding_depth(sc.bindings, base_nm)->Some_0,
        st[st.len() - 1 - binding_depth(sc.bindings, base_nm)->Some_0] == Item::Num(base),
        0 <= i <= i32::MAX,
        i < tx.sigs.len(),
        0 <= base,
        0 <= start,
        base + start + region_len(payload_lens(field_types_of(fields))) <= tx.sigs[i as int].len() <= i32::MAX,
        forall|m: int| 0 <= m < fields.len() ==> #[trigger] payload_lens(field_types_of(fields))[m] <= MAX_SCRIPT_ELEMENT_SIZE,
    ensures
        reads_from(env, sc, fields, bsv, ExprV::Int(i), ExprV::Int(start), base_nm, builtin, check_types, k, chunk_start(
            payload_lens(field_types_of(fields)),
            k,
        )) matches Ok((c, _, _)) && run(tx, hash, st, c) == Some(st + field_values(tx, i as int, base, start as int, field_types_of(fields), k)),
    decreases fields.len() - k,
{
    let ts = field_types_of(fields);
    let lens = payload_lens(ts);
    let offset = chunk_start(lens, k);
    let vals = field_values(tx, i as int, base, start as int, ts, k);
    if k >= fields.len() {
        assert(vals =~= Seq::<Item>::empty());
        assert(st + vals =~= st);
        assert(run(tx, hash, st, Seq::<Chunk>::empty()) == Some(st));
    } else {
        let bd = find_binding(bsv, fields[k].0)->Some_0;
        let t = fields[k].1;
        assert(ts[k] == t);
        let n = spec_payload_len(t)->Ok_0;
        assert(lens[k] == n);
        let x = field_read_expr(ExprV::Int(i), t, ExprV::Int(start), ExprV::Identifier(base_nm), offset + header_len(n), n);
        let d0 = binding_depth(sc.bindings, base_nm)->Some_0;
        lemma_chunk_within_region(lens, k);
        lemma_header_len(n);
        assert(payload_start(lens, k) == offset + header_len(n));
        if cast_is_numeric(t) {
            lemma_numeric_payload(t);
        }
        lemma_field_read_runs(tx, hash, st, sc.bindings, env.bytecode_size, i, t, start, base_nm, offset + header_len(n), n, base);
        let c0 = expr_code(x, sc.bindings, env.bytecode_size, 0)->Ok_0;
        let v = read_value(t, tx.sigs[i as int].subrange(base + start + offset + header_len(n), base + start + offset + header_len(n) + n));
        assert(v == vals[0]);
        let sc1 = Scope { types: sc.types.insert(bd.1, bd.2), bindings: seq![bd.1] + sc.bindings };
        assert(sc.bindings.contains(base_nm)) by {
            lemma_binding_depth(sc.bindings, base_nm);
        }
        assert(bd.1 != base_nm);
        lemma_depth_under(sc.bindings, bd.1, base_nm);
        let st1 = st.push(v);
        assert(st1[st1.len() - 1 - (d0 + 1)] == Item::Num(base));
        assert(chunk_start(lens, k + 1) == offset + spec_chunk_size(t)->Ok_0);
        lemma_reads_run(tx, hash, st1, env, sc1, fields, bsv, i, start, base_nm, builtin, check_types, k + 1, base);
        let c_rest = reads_from(env, sc1, fields, bsv, ExprV::Int(i), ExprV::Int(start), base_nm, builtin, check_types, k + 1,
            chunk_start(lens, k + 1))->Ok_0.0;
        lemma_run_append(tx, hash, st, c0, c_rest);
        let rest_vals = field_values(tx, i as int, base, start as int, ts, k + 1);
        assert(vals =~= seq![v] + rest_vals) by {
            assert forall|m: int| 0 <= m < rest_vals.len() implies #[trigger] rest_vals[m] == vals[m + 1] by {
                assert(k + 1 + m == k + (m + 1));
            }
        }
        assert(st1 + rest_vals =~= st + vals);
    }
}

/// Whether running `rd`, with the read's base `base` on top of any stack, binds the fields of
/// types `ts` to their values read from the state region starting `pl` bytes past the base.
pub open spec fn binds_template_fields(
    tx: TxView,
    hash: spec_fn(u8, Seq<u8>) -> Seq<u8>,
    rd: Seq<Chunk>,
    i: i64,
    pl: i64,
    ts: Seq<TypeRefV>,
) -> bool {
    forall|st: Seq<Item>, base: int|
        #![trigger run(tx, hash, st, rd), field_values(tx, i as int, base, pl as int, ts, 0)]
        st.len() >= 1 && st.last() == Item::Num(base) && 0 <= base && base + pl + region_len(payload_lens(ts))
            <= tx.sigs[i as int].len() <= i32::MAX ==> run(tx, hash, st, rd) == Some(
            st + field_values(tx, i as int, base, pl as int, ts, 0),
        )
}

/// Law: a templated read `readInputStateWithTemplate(i, pl, sl, h)` binds each field of the
/// target struct, in order, to the value read from the state region that starts `pl` bytes
/// into the foreign input's window (the template prefix's length past the sigscript base):
/// field `m`'s payload is the `payload_lens(ts)[m]` bytes of input `i`'s signature script at
/// `base + pl + payload_start(payload_lens(ts), m)`, the region whose headers the framing
/// guard checks. Its code is the base's binding and the validation, then reads that do this
/// with the base on top of the stack.
pub proof fn lemma_template_read_binds(
    tx: TxView,
    hash: spec_fn(u8, Seq<u8>) -> Seq<u8>,
    env: StmtEnv,
    sc: Scope,
    structs: Seq<(String, crate::ast::StructSpec)>,
    target: Seq<char>,
    bsv: Seq<BindingV>,
    args: Seq<ExprV>,
    i: i64,
    pl: i64,
)
    requires
        args.len() == 4,
        args[0] == ExprV::Int(i),
        args[1] == ExprV::Int(pl),
        0 <= i <= i32::MAX,
        i < tx.sigs.len(),
        0 <= pl,
        template_read_stmt(env, sc, structs, target, bsv, args) is Ok,
        crate::ast::lookup_struct(structs, target) matches Some(sf) && sf.len() + 2 <= i32::MAX && forall|m: int|
            0 <= m < sf.len() ==> #[trigger] payload_lens(field_types_of(sf))[m] <= MAX_SCRIPT_ELEMENT_SIZE,
    ensures
        crate::ast::lookup_struct(structs, target) matches Some(sf) && template_read_stmt(env, sc, structs, target, bsv, args)
            matches Ok((code, _, _)) && exists|rd: Seq<Chunk>|
            #[trigger] binds_template_fields(tx, hash, rd, i, pl, field_types_of(sf)) && rd.len() <= code.len() && code.skip(
                code.len() - rd.len(),
            ) == rd,
{
    let sf = crate::ast::lookup_struct(structs, target)->Some_0;
    let ts = field_types_of(sf);
    assert(sf.map_values(|f: (Seq<char>, TypeRefV)| f.1) == ts);
    let total = spec_state_len(ts)->Ok_0;
    let bo = base_def(env, sc, args[0], add_v(add_v(args[1], ExprV::Int(total as i64)), args[2]));
    let c1 = bo->Ok_0.0;
    let sc1 = bo->Ok_0.1;
    let bn = base_name(fresh_base_index(sc.bindings));
    let vc = template_read_validation_code(args, ts, ExprV::Identifier(bn), sc1.bindings, env.bytecode_size)->Ok_0;
    assert(chunk_start(payload_lens(ts), 0) == 0);
    let ro = reads_from(env, sc1, sf, bsv, args[0], args[1], bn, StateBuiltin::ReadInputStateWithTemplate, false, 0, 0);
    let rd = ro->Ok_0.0;
    let code = template_read_stmt(env, sc, structs, target, bsv, args)->Ok_0.0;
    assert(code == c1 + (vc + rd));
    assert(code == (c1 + vc) + rd);
    assert(code.skip(code.len() - rd.len()) =~= rd);
    assert(sc1.bindings == seq![bn] + sc.bindings);
    assert(binding_depth(sc1.bindings, bn) == Some(0nat)) by {
        reveal_with_fuel(crate::stack::first_index_from, 2);
    }
    assert(binds_template_fields(tx, hash, rd, i, pl, ts)) by {
        assert forall|st: Seq<Item>, base: int|
            #![trigger run(tx, hash, st, rd), field_values(tx, i as int, base, pl as int, ts, 0)]
            st.len() >= 1 && st.last() == Item::Num(base) && 0 <= base && base + pl + region_len(payload_lens(ts))
                <= tx.sigs[i as int].len() <= i32::MAX implies run(tx, hash, st, rd) == Some(
                st + field_values(tx, i as int, base, pl as int, ts, 0),
            ) by {
            assert(st[st.len() - 1 - 0] == Item::Num(base));
            lemma_reads_run(tx, hash, st, env, sc1, sf, bsv, i, pl, bn, StateBuiltin::ReadInputStateWithTemplate, false, 0, base);
        }
    }
}

} // verus!

//! Reading, framing and writing contract state in scripts.

use vstd::prelude::*;

use kaspa_txscript::script_builder::ScriptBuilder;

use crate::codegen::{
    cat_code, code_outcome, compile_expr, emit_program, expr_code, lemma_expr_code_nonempty,
    lemma_outcome_stops, lemma_outcome_then, lemma_room_after, program_code, program_delta, steps_view,
    ExprEnv, Fault, Step, StepV,
};
use crate::error::{CompilerError, StateBuiltin};
use crate::expr::{binary_expr, exprs_view, BinaryOp, Expr, ExprV};
use crate::layout::{
    chunk_start, encoded_state_len_for_layout_field_types, field_types, fixed_state_payload_len,
    lemma_chunk_start_mono, lemma_state_len_is_region_len, payload_lens, region_len, spec_chunk_size,
    spec_payload_len, spec_state_len, spec_state_start_offset, state_start_offset, type_views,
    ContractFieldAst,
};
use crate::opcodes::{OP_ADD, OP_BLAKE3, OP_DROP, OP_DUP, OP_EQUAL_VERIFY, OP_SUBSTR, OP_TX_INPUT_SCRIPT_SIG_SUBSTR};
use crate::push::{checked_add, data_prefix, header_len, lemma_header_len, push_header, pushable};
use crate::script::{
    appended, code_of, depth_room, emit_chunks, emit_delta, emits, lemma_appended_seq, lemma_code_of_len,
    lemma_refused_within, script_of, Chunk, Emit, ScriptEmitter,
};
use crate::types::{TypeBase, TypeRef, TypeRefV};

verus! {

/// Whether an executable expression result is the given mathematical one.
pub open spec fn same_expr_result(r: Result<Expr, CompilerError>, s: Result<ExprV, CompilerError>) -> bool {
    match (r, s) {
        (Ok(x), Ok(y)) => x@ == y,
        (Err(e), Err(f)) => e == f,
        _ => false,
    }
}

/// `a + b`.
pub open spec fn add_v(a: ExprV, b: ExprV) -> ExprV {
    ExprV::Binary(BinaryOp::Add, Box::new(a), Box::new(b))
}

/// The length of an input's signature script.
pub fn input_sigscript_len_expr(input_idx: &Expr) -> (r: Expr)
    ensures
        r@ == ExprV::InputScriptSigLen(Box::new(input_idx@)),
{
    Expr::InputScriptSigLen(Box::new(input_idx.clone()))
}

/// `input_sigscript[start .. end]` of an input.
pub fn input_sigscript_substr_expr(input_idx: &Expr, start: Expr, end: Expr) -> (r: Expr)
    ensures
        r@ == ExprV::InputScriptSigSubstr(Box::new(input_idx@), Box::new(start@), Box::new(end@)),
{
    Expr::InputScriptSigSubstr(Box::new(input_idx.clone()), Box::new(start), Box::new(end))
}

/// The start of the window a state read measures from: the foreign input's sigscript length
/// minus the size of the script being read, so the window is that script's last
/// `bytecode_size` bytes and ends where the sigscript does.
pub fn input_sigscript_base_expr(input_idx: &Expr, bytecode_size_expr: Expr) -> (r: Expr)
    ensures
        r@ == ExprV::Binary(
            BinaryOp::Sub,
            Box::new(ExprV::InputScriptSigLen(Box::new(input_idx@))),
            Box::new(bytecode_size_expr@),
        ),
{
    binary_expr(BinaryOp::Sub, input_sigscript_len_expr(input_idx), bytecode_size_expr)
}

/// An input's scriptPubKey.
pub fn input_script_pubkey_expr(input_idx: &Expr) -> (r: Expr)
    ensures
        r@ == ExprV::InputScriptPubKey(Box::new(input_idx@)),
{
    Expr::InputScriptPubKey(Box::new(input_idx.clone()))
}

/// The size of a templated foreign script: its prefix, its state and its suffix.
pub fn templated_input_bytecode_size_expr(
    template_prefix_len: &Expr,
    template_suffix_len: &Expr,
    layout_field_types: &[TypeRef],
) -> (r: Result<Expr, CompilerError>)
    ensures
        same_expr_result(
            r,
            match spec_state_len(type_views(layout_field_types@)) {
                Err(e) => Err(e),
                Ok(total) => Ok(
                    add_v(
                        add_v(template_prefix_len@, ExprV::Int(total as i64)),
                        template_suffix_len@,
                    ),
                ),
            },
        ),
{
    let total_state_len = encoded_state_len_for_layout_field_types(layout_field_types)?;
    Ok(
        binary_expr(
            BinaryOp::Add,
            binary_expr(BinaryOp::Add, template_prefix_len.clone(), Expr::integer(total_state_len as i64)),
            template_suffix_len.clone(),
        ),
    )
}

/// Reading the bytes `substr` as a state field of type `t`.
pub open spec fn spec_cast_read(substr: ExprV, t: TypeRefV) -> Result<ExprV, CompilerError> {
    if t.base is Custom {
        Err(CompilerError::UnsupportedFieldType(StateBuiltin::ReadInputState))
    } else {
        Ok(ExprV::Cast(t, Box::new(substr)))
    }
}

pub fn cast_read_input_state_expr(substr: Expr, type_ref: &TypeRef) -> (r: Result<Expr, CompilerError>)
    ensures
        same_expr_result(r, spec_cast_read(substr@, type_ref@)),
{
    match type_ref.base {
        TypeBase::Custom(_) => Err(CompilerError::UnsupportedFieldType(StateBuiltin::ReadInputState)),
        _ => Ok(Expr::Cast(type_ref.clone(), Box::new(substr))),
    }
}

/// The read of one field: the `payload_len` bytes at `data_offset` past the state start, which
/// is itself measured from the sigscript base.
pub open spec fn field_read_expr(
    input_idx: ExprV,
    t: TypeRefV,
    state_start: ExprV,
    base: ExprV,
    data_offset: nat,
    payload_len: nat,
) -> ExprV {
    let start = add_v(base, add_v(state_start, ExprV::Int(data_offset as i64)));
    let end = add_v(start, ExprV::Int(payload_len as i64));
    ExprV::Cast(t, Box::new(ExprV::InputScriptSigSubstr(Box::new(input_idx), Box::new(start), Box::new(end))))
}

/// The read of the field of type `t` whose chunk starts `chunk_offset` bytes into the state.
pub open spec fn spec_read_field(
    input_idx: ExprV,
    t: TypeRefV,
    state_start: ExprV,
    chunk_offset: nat,
    base: ExprV,
    builtin: StateBuiltin,
) -> Result<ExprV, CompilerError> {
    match spec_payload_len(t) {
        Err(e) => Err(
            if e == CompilerError::ArithmeticOverflow {
                e
            } else {
                CompilerError::UnsupportedFieldType(builtin)
            },
        ),
        Ok(n) => if !pushable(n) {
            Err(CompilerError::PayloadTooLarge)
        } else if chunk_offset + header_len(n) > usize::MAX {
            Err(CompilerError::ArithmeticOverflow)
        } else if t.base is Custom {
            Err(CompilerError::UnsupportedFieldType(StateBuiltin::ReadInputState))
        } else {
            Ok(field_read_expr(input_idx, t, state_start, base, chunk_offset + header_len(n), n))
        },
    }
}

/// One field's read, at its constant offset from `sigscript_base_expr`.
///
/// The base is a parameter: it is the same value for every field of a call site, so a
/// caller that reads a whole state binds it once and passes a reference to it.
pub fn read_input_state_field_expr(
    input_idx: &Expr,
    field_type: &TypeRef,
    state_start_offset_expr: Expr,
    field_chunk_offset: usize,
    sigscript_base_expr: Expr,
    builtin: StateBuiltin,
) -> (r: Result<Expr, CompilerError>)
    ensures
        same_expr_result(
            r,
            spec_read_field(
                input_idx@,
                field_type@,
                state_start_offset_expr@,
                field_chunk_offset as nat,
                sigscript_base_expr@,
                builtin,
            ),
        ),
{
    let field_payload_len = match fixed_state_payload_len(field_type) {
        Ok(n) => n,
        Err(CompilerError::ArithmeticOverflow) => {
            return Err(CompilerError::ArithmeticOverflow);
        },
        Err(_) => {
            return Err(CompilerError::UnsupportedFieldType(builtin));
        },
    };
    let field_prefix_len = data_prefix(field_payload_len)?.len();
    proof {
        lemma_header_len(field_payload_len as nat);
    }
    let field_data_offset = checked_add(field_chunk_offset, field_prefix_len)?;
    let field_payload_offset = binary_expr(
        BinaryOp::Add,
        state_start_offset_expr,
        Expr::integer(field_data_offset as i64),
    );
    let start = binary_expr(BinaryOp::Add, sigscript_base_expr, field_payload_offset);
    let end = binary_expr(BinaryOp::Add, start.clone(), Expr::integer(field_payload_len as i64));
    let substr = input_sigscript_substr_expr(input_idx, start, end);
    cast_read_input_state_expr(substr, field_type)
}

/// The guard's check of one field: the bytes `[start, start + header width)` of the region
/// on top of the stack equal the field's canonical push header.
pub open spec fn header_check_chunks(start: nat, len: nat) -> Seq<Chunk> {
    seq![
        Chunk::Op(OP_DUP),
        Chunk::Int(start as i64),
        Chunk::Int((start + header_len(len)) as i64),
        Chunk::Op(OP_SUBSTR),
        Chunk::Data(push_header(len)),
        Chunk::Op(OP_EQUAL_VERIFY),
    ]
}

/// The checks of the first `n` fields of a region with payload widths `lens`.
pub open spec fn header_checks(lens: Seq<nat>, n: int) -> Seq<Chunk>
    decreases n,
{
    if n <= 0 {
        Seq::empty()
    } else {
        header_checks(lens, n - 1) + header_check_chunks(chunk_start(lens, n - 1), lens[n - 1])
    }
}

/// The whole framing guard: take the state region `[base + offset, base + offset + region
/// length)` of the input's sigscript, check every field's header, drop the region.
pub open spec fn guard_code(
    input_idx: ExprV,
    state_start: ExprV,
    base: ExprV,
    lens: Seq<nat>,
    b: Seq<Seq<char>>,
    bytecode_size: Option<i64>,
    depth: int,
) -> Result<Seq<Chunk>, Fault> {
    cat_code(
        expr_code(input_idx, b, bytecode_size, depth),
        cat_code(
            expr_code(base, b, bytecode_size, depth + 1),
            cat_code(
                expr_code(state_start, b, bytecode_size, depth + 2),
                Ok(
                    seq![
                        Chunk::Op(OP_ADD),
                        Chunk::Op(OP_DUP),
                        Chunk::Int(region_len(lens) as i64),
                        Chunk::Op(OP_ADD),
                        Chunk::Op(OP_TX_INPUT_SCRIPT_SIG_SUBSTR),
                    ] + header_checks(lens, lens.len() as int) + seq![Chunk::Op(OP_DROP)],
                ),
            ),
        ),
    )
}

/// Emits the header check of every field, with the state region on top of the stack.
fn emit_header_checks(
    layout_field_types: &[TypeRef],
    emitter: &mut ScriptEmitter,
    builder: &mut ScriptBuilder,
) -> (r: Result<(), CompilerError>)
    requires
        spec_state_len(type_views(layout_field_types@)) is Ok,
        -0x100_0000_0000 <= old(emitter).depth() <= 0x100_0000_0000,
    ensures
        appended(
            r,
            script_of(*old(builder)),
            script_of(*final(builder)),
            header_checks(
                payload_lens(type_views(layout_field_types@)),
                layout_field_types@.len() as int,
            ),
        ),
        r is Ok ==> final(emitter).depth() == old(emitter).depth(),
{
    let ghost ts = type_views(layout_field_types@);
    let ghost lens = payload_lens(ts);
    let ghost n = layout_field_types@.len() as int;
    let ghost s0 = script_of(*builder);
    proof {
        lemma_state_len_is_region_len(ts);
    }
    let mut field_chunk_offset: usize = 0;
    for i in 0..layout_field_types.len()
        invariant
            ts == type_views(layout_field_types@),
            lens == payload_lens(ts),
            n == layout_field_types@.len(),
            spec_state_len(ts) is Ok,
            spec_state_len(ts)->Ok_0 == region_len(lens),
            forall|j: int| 0 <= j < ts.len() ==> #[trigger] spec_chunk_size(ts[j]) is Ok,
            forall|j: int| 0 <= j < ts.len() ==> pushable(#[trigger] lens[j]),
            -0x100_0000_0000 <= old(emitter).depth() <= 0x100_0000_0000,
            s0 == script_of(*old(builder)),
            field_chunk_offset == chunk_start(lens, i as int),
            emits(s0, header_checks(lens, i as int)),
            script_of(*builder) == s0 + code_of(header_checks(lens, i as int)),
            emitter.depth() == old(emitter).depth(),
    {
        assert(ts[i as int] == layout_field_types@[i as int]@);
        assert(spec_chunk_size(ts[i as int]) is Ok);
        assert(lens[i as int] == spec_payload_len(ts[i as int])->Ok_0);
        assert(pushable(lens[i as int]));
        proof {
            lemma_chunk_start_mono(lens, i + 1, n);
        }
        let payload_len = match fixed_state_payload_len(&layout_field_types[i]) {
            Ok(n) => n,
            Err(e) => {
                assert(false);
                return Err(e);
            },
        };
        let expected_prefix = match data_prefix(payload_len) {
            Ok(p) => p,
            Err(e) => {
                assert(false);
                return Err(e);
            },
        };
        proof {
            lemma_header_len(payload_len as nat);
        }
        let header_end = match checked_add(field_chunk_offset, expected_prefix.len()) {
            Ok(h) => h,
            Err(e) => {
                assert(false);
                return Err(e);
            },
        };
        let items = vec![
            Emit::Op(OP_DUP, 1),
            Emit::Int(field_chunk_offset as i64),
            Emit::Int(header_end as i64),
            Emit::Op(OP_SUBSTR, -2),
            Emit::Data(expected_prefix),
            Emit::Op(OP_EQUAL_VERIFY, -2),
        ];
        let ghost step = header_check_chunks(field_chunk_offset as nat, payload_len as nat);
        assert(emit_chunks(items@) =~= step);
        assert(emit_delta(items@) == 0) by {
            reveal_with_fuel(emit_delta, 7);
        }
        let ghost s1 = script_of(*builder);
        let ghost done = header_checks(lens, i as int);
        assert(header_checks(lens, i + 1) == done + step);
        assert(header_checks(lens, n) == done + step + header_checks_rest(lens, i + 1, n)) by {
            lemma_header_checks_split(lens, i + 1, n);
        }
        let r = crate::codegen::emit_tail_pub(emitter, builder, items);
        proof {
            if r is Err {
                lemma_refused_within(s0, done, step, header_checks_rest(lens, i + 1, n));
            } else {
                lemma_appended_seq(s0, s1, script_of(*builder), done, step, r);
            }
        }
        r?;
        field_chunk_offset = match checked_add(header_end, payload_len) {
            Ok(o) => o,
            Err(e) => {
                assert(false);
                return Err(e);
            },
        };
    }
    Ok(())
}

/// The checks of fields `k .. n`.
pub open spec fn header_checks_rest(lens: Seq<nat>, k: int, n: int) -> Seq<Chunk>
    decreases n - k,
{
    if n <= k {
        Seq::empty()
    } else {
        header_check_chunks(chunk_start(lens, k), lens[k]) + header_checks_rest(lens, k + 1, n)
    }
}

pub proof fn lemma_header_checks_split(lens: Seq<nat>, k: int, n: int)
    requires
        0 <= k <= n,
    ensures
        header_checks(lens, n) == header_checks(lens, k) + header_checks_rest(lens, k, n),
    decreases n - k,
{
    if k < n {
        lemma_header_checks_split(lens, k + 1, n);
        assert(header_checks(lens, k + 1) == header_checks(lens, k) + header_check_chunks(
            chunk_start(lens, k),
            lens[k],
        ));
        assert(header_checks(lens, k) + header_check_chunks(chunk_start(lens, k), lens[k])
            + header_checks_rest(lens, k + 1, n) == header_checks(lens, k) + (header_check_chunks(
            chunk_start(lens, k),
            lens[k],
        ) + header_checks_rest(lens, k + 1, n)));
    } else {
        assert(header_checks(lens, k) + Seq::<Chunk>::empty() == header_checks(lens, k));
    }
}

/// The code after the three operands of the guard.
pub open spec fn guard_tail(lens: Seq<nat>) -> Seq<Chunk> {
    seq![
        Chunk::Op(OP_ADD),
        Chunk::Op(OP_DUP),
        Chunk::Int(region_len(lens) as i64),
        Chunk::Op(OP_ADD),
        Chunk::Op(OP_TX_INPUT_SCRIPT_SIG_SUBSTR),
    ] + header_checks(lens, lens.len() as int) + seq![Chunk::Op(OP_DROP)]
}

/// Emits the region extraction, the header checks and the final drop.
fn emit_guard_tail(
    layout_field_types: &[TypeRef],
    region_len_value: usize,
    emitter: &mut ScriptEmitter,
    builder: &mut ScriptBuilder,
) -> (r: Result<(), CompilerError>)
    requires
        spec_state_len(type_views(layout_field_types@)) == Ok::<nat, CompilerError>(
            region_len_value as nat,
        ),
        -0x100_0000_0000 + 3 <= old(emitter).depth() <= 0x100_0000_0000,
    ensures
        appended(
            r,
            script_of(*old(builder)),
            script_of(*final(builder)),
            guard_tail(payload_lens(type_views(layout_field_types@))),
        ),
        r is Ok ==> final(emitter).depth() == old(emitter).depth() - 3,
{
    let ghost ts = type_views(layout_field_types@);
    let ghost lens = payload_lens(ts);
    proof {
        lemma_state_len_is_region_len(ts);
        assert(ts.len() == lens.len());
    }
    let ghost s0 = script_of(*builder);
    let items = vec![
        Emit::Op(OP_ADD, -1),
        Emit::Op(OP_DUP, 1),
        Emit::Int(region_len_value as i64),
        Emit::Op(OP_ADD, -1),
        Emit::Op(OP_TX_INPUT_SCRIPT_SIG_SUBSTR, -2),
    ];
    let ghost a = seq![
        Chunk::Op(OP_ADD),
        Chunk::Op(OP_DUP),
        Chunk::Int(region_len(lens) as i64),
        Chunk::Op(OP_ADD),
        Chunk::Op(OP_TX_INPUT_SCRIPT_SIG_SUBSTR),
    ];
    let ghost c = header_checks(lens, lens.len() as int);
    let ghost d = seq![Chunk::Op(OP_DROP)];
    assert(emit_chunks(items@) =~= a);
    assert(emit_delta(items@) == -2) by {
        reveal_with_fuel(emit_delta, 6);
    }
    let r1 = crate::codegen::emit_tail_pub(emitter, builder, items);
    if r1.is_err() {
        proof {
            lemma_refused_within(s0, Seq::empty(), a, c + d);
            assert(Seq::<Chunk>::empty() + a + (c + d) == a + c + d);
            assert(code_of(Seq::<Chunk>::empty()) == Seq::<u8>::empty());
            assert(s0 + Seq::<u8>::empty() == s0);
        }
        return r1;
    }
    let ghost s1 = script_of(*builder);
    let r2 = emit_header_checks(layout_field_types, emitter, builder);
    proof {
        lemma_appended_seq(s0, s1, script_of(*builder), a, c, r2);
        if r2 is Err {
            lemma_refused_within(s0, a, c, d);
        }
    }
    r2?;
    let ghost s2 = script_of(*builder);
    let drop = vec![Emit::Op(OP_DROP, -1)];
    assert(emit_chunks(drop@) =~= d);
    assert(emit_delta(drop@) == -1) by {
        reveal_with_fuel(emit_delta, 2);
    }
    let r3 = crate::codegen::emit_tail_pub(emitter, builder, drop);
    proof {
        lemma_appended_seq(s0, s2, script_of(*builder), a + c, d, r3);
    }
    r3
}

/// Pins the push framing of a foreign input's state region.
///
/// State fields are decoded at offsets fixed at compile time, which is only meaningful if
/// every field is encoded with the canonical push header the state encoder emits. The script
/// engine also accepts non-minimal push encodings, so without this guard a foreign input
/// could widen one field's header and narrow another's, keep the region's total length, and
/// move every later field read onto bytes of its own choosing. Requiring each field's header
/// to equal its canonical header at its constant offset forces the whole region to be
/// canonically framed: the code emitted here succeeds exactly when the region it takes from
/// the input's signature script passes `framing_ok` (`machine::lemma_guard_runs_iff_framed`),
/// and a region that does is the canonical encoding of what the reads take out of it
/// (`framing::lemma_framing_guard_forces_canonical`).
pub fn emit_state_framing_guard(
    input_idx: &Expr,
    state_start_offset_expr: &Expr,
    layout_field_types: &[TypeRef],
    sigscript_base_expr: &Expr,
    env: &ExprEnv,
    emitter: &mut ScriptEmitter,
    builder: &mut ScriptBuilder,
) -> (r: Result<(), CompilerError>)
    requires
        depth_room(old(emitter).depth(), script_of(*old(builder))),
    ensures
        spec_state_len(type_views(layout_field_types@)) matches Err(e) ==> r == Err::<(), CompilerError>(e)
            && script_of(*final(builder)) == script_of(*old(builder)),
        spec_state_len(type_views(layout_field_types@)) is Ok ==> code_outcome(
            r,
            guard_code(
                input_idx@,
                state_start_offset_expr@,
                sigscript_base_expr@,
                payload_lens(type_views(layout_field_types@)),
                env.stack_bindings@,
                env.bytecode_size,
                old(emitter).depth(),
            ),
            script_of(*old(builder)),
            script_of(*final(builder)),
        ),
        r is Ok ==> final(emitter).depth() == old(emitter).depth(),
{
    let region_len_value = encoded_state_len_for_layout_field_types(layout_field_types)?;
    let ghost lens = payload_lens(type_views(layout_field_types@));
    let ghost b = env.stack_bindings@;
    let ghost bs = env.bytecode_size;
    let ghost d0 = emitter.depth();
    let ghost s0 = script_of(*builder);
    let ghost c1 = expr_code(input_idx@, b, bs, d0);
    let ghost c2 = expr_code(sigscript_base_expr@, b, bs, d0 + 1);
    let ghost c3 = expr_code(state_start_offset_expr@, b, bs, d0 + 2);
    let ghost tail: Result<Seq<Chunk>, Fault> = Ok(guard_tail(lens));
    let r1 = compile_expr(input_idx, env, emitter, builder);
    if r1.is_err() {
        proof {
            lemma_outcome_stops(s0, script_of(*builder), c1, cat_code(c2, cat_code(c3, tail)), r1, r1);
        }
        return r1;
    }
    let ghost s1 = script_of(*builder);
    proof {
        lemma_expr_code_nonempty(input_idx@, b, bs, d0);
        lemma_room_after(d0, s0, c1->Ok_0, 1);
    }
    let r2 = compile_expr(sigscript_base_expr, env, emitter, builder);
    if r2.is_err() {
        proof {
            lemma_outcome_stops(s1, script_of(*builder), c2, cat_code(c3, tail), r2, r2);
            lemma_outcome_then(s0, s1, script_of(*builder), c1, cat_code(c2, cat_code(c3, tail)), r1, r2);
        }
        return r2;
    }
    let ghost s2 = script_of(*builder);
    proof {
        lemma_expr_code_nonempty(sigscript_base_expr@, b, bs, d0 + 1);
        lemma_outcome_then(s0, s1, s2, c1, c2, r1, r2);
        lemma_code_of_len(c1->Ok_0);
        lemma_room_after(d0, s0, c1->Ok_0 + c2->Ok_0, 2);
    }
    let r3 = compile_expr(state_start_offset_expr, env, emitter, builder);
    if r3.is_err() {
        proof {
            lemma_outcome_stops(s2, script_of(*builder), c3, tail, r3, r3);
            lemma_outcome_then(s1, s2, script_of(*builder), c2, cat_code(c3, tail), r2, r3);
            lemma_outcome_then(s0, s1, script_of(*builder), c1, cat_code(c2, cat_code(c3, tail)), r1, r3);
        }
        return r3;
    }
    let ghost s3 = script_of(*builder);
    proof {
        lemma_outcome_then(s0, s2, s3, cat_code(c1, c2), c3, r2, r3);
        lemma_expr_code_nonempty(state_start_offset_expr@, b, bs, d0 + 2);
        lemma_code_of_len(c1->Ok_0 + c2->Ok_0);
        lemma_room_after(d0, s0, c1->Ok_0 + c2->Ok_0 + c3->Ok_0, 3);
    }
    let r4 = emit_guard_tail(layout_field_types, region_len_value, emitter, builder);
    proof {
        lemma_outcome_then(s2, s3, script_of(*builder), c3, tail, r3, r4);
        lemma_outcome_then(s1, s2, script_of(*builder), c2, cat_code(c3, tail), r2, r4);
        lemma_outcome_then(s0, s1, script_of(*builder), c1, cat_code(c2, cat_code(c3, tail)), r1, r4);
    }
    r4
}

/// The framing guard over a region of fields of types `ts`, or why there is none.
pub open spec fn framing_guard_code(
    input_idx: ExprV,
    state_start: ExprV,
    base: ExprV,
    ts: Seq<TypeRefV>,
    b: Seq<Seq<char>>,
    bytecode_size: Option<i64>,
) -> Result<Seq<Chunk>, Fault> {
    match spec_state_len(ts) {
        Err(e) => Err(Fault::Is(e)),
        Ok(_) => guard_code(input_idx, state_start, base, payload_lens(ts), b, bytecode_size, 0),
    }
}

/// Builds the expression environment and emitter for [`emit_state_framing_guard`].
pub fn compile_state_framing_guard(
    input_idx: &Expr,
    state_start_offset_expr: &Expr,
    layout_field_types: &[TypeRef],
    sigscript_base_expr: &Expr,
    stack_bindings: &crate::stack::StackBindings,
    types: &crate::type_map::TypeMap,
    builder: &mut ScriptBuilder,
    bytecode_size: Option<i64>,
) -> (r: Result<(), CompilerError>)
    ensures
        spec_state_len(type_views(layout_field_types@)) matches Err(e) ==> r == Err::<(), CompilerError>(e)
            && script_of(*final(builder)) == script_of(*old(builder)),
        spec_state_len(type_views(layout_field_types@)) is Ok ==> code_outcome(
            r,
            guard_code(
                input_idx@,
                state_start_offset_expr@,
                sigscript_base_expr@,
                payload_lens(type_views(layout_field_types@)),
                stack_bindings@,
                bytecode_size,
                0,
            ),
            script_of(*old(builder)),
            script_of(*final(builder)),
        ),
        code_outcome(
            r,
            framing_guard_code(
                input_idx@,
                state_start_offset_expr@,
                sigscript_base_expr@,
                type_views(layout_field_types@),
                stack_bindings@,
                bytecode_size,
            ),
            script_of(*old(builder)),
            script_of(*final(builder)),
        ),
{
    let env = ExprEnv { stack_bindings, types, bytecode_size };
    let mut emitter = ScriptEmitter::new(0);
    emit_state_framing_guard(
        input_idx,
        state_start_offset_expr,
        layout_field_types,
        sigscript_base_expr,
        &env,
        &mut emitter,
        builder,
    )
}

/// The window a plain state read measures from: `input_sigscript_len(idx) - this.bytecodeSize`.
pub open spec fn plain_base(input_idx: ExprV) -> ExprV {
    ExprV::Binary(
        BinaryOp::Sub,
        Box::new(ExprV::InputScriptSigLen(Box::new(input_idx))),
        Box::new(ExprV::ThisBytecodeSize),
    )
}

/// The read of `field` of the reading contract's own state, located from the reader's own
/// size and state end.
pub fn read_input_state_field_expr_symbolic(
    input_idx: &Expr,
    field: &ContractFieldAst,
    contract_fields: &[ContractFieldAst],
    state_end: usize,
    field_chunk_offset: usize,
) -> (r: Result<Expr, CompilerError>)
    ensures
        same_expr_result(
            r,
            match spec_state_start_offset(state_end as nat, field_types(contract_fields@)) {
                Err(e) => Err(e),
                Ok(start) => spec_read_field(
                    input_idx@,
                    field.type_ref@,
                    ExprV::Int(start as i64),
                    field_chunk_offset as nat,
                    plain_base(input_idx@),
                    StateBuiltin::ReadInputState,
                ),
            },
        ),
{
    let start = state_start_offset(state_end, contract_fields)?;
    let bytecode_size_expr = Expr::ThisBytecodeSize;
    read_input_state_field_expr(
        input_idx,
        &field.type_ref,
        Expr::integer(start as i64),
        field_chunk_offset,
        input_sigscript_base_expr(input_idx, bytecode_size_expr),
        StateBuiltin::ReadInputState,
    )
}

/// The steps that require an input's scriptPubKey to be the P2SH of the window
/// `input_sigscript[base .. input_sigscript_len]`.
pub open spec fn input_binding_steps(input_idx: ExprV, base: ExprV) -> Seq<StepV> {
    seq![
        StepV::Eval(ExprV::InputScriptPubKey(Box::new(input_idx))),
        StepV::Eval(
            ExprV::P2shFromRedeemScript(
                Box::new(
                    ExprV::InputScriptSigSubstr(
                        Box::new(input_idx),
                        Box::new(base),
                        Box::new(ExprV::InputScriptSigLen(Box::new(input_idx))),
                    ),
                ),
            ),
        ),
        StepV::Fixed(seq![Chunk::Op(OP_EQUAL_VERIFY)], -2),
    ]
}

/// Binds a plain state read's window to the foreign input's own scriptPubKey.
///
/// The window is placed from the reader's own size, which says nothing of the script being
/// read; a longer foreign script would shift every read. Requiring the window's P2SH to be
/// the input's scriptPubKey fixes the position, because a scriptPubKey commits to the whole
/// redeem script.
pub fn compile_input_script_binding(
    input_idx: &Expr,
    sigscript_base_expr: &Expr,
    stack_bindings: &crate::stack::StackBindings,
    types: &crate::type_map::TypeMap,
    builder: &mut ScriptBuilder,
    bytecode_size: Option<i64>,
) -> (r: Result<(), CompilerError>)
    ensures
        code_outcome(
            r,
            program_code(input_binding_steps(input_idx@, sigscript_base_expr@), stack_bindings@, bytecode_size, 0),
            script_of(*old(builder)),
            script_of(*final(builder)),
        ),
{
    let end = input_sigscript_len_expr(input_idx);
    let redeem = input_sigscript_substr_expr(input_idx, sigscript_base_expr.clone(), end);
    let expected_spk = Expr::P2shFromRedeemScript(Box::new(redeem));
    let env = ExprEnv { stack_bindings, types, bytecode_size };
    let mut emitter = ScriptEmitter::new(0);
    let check = vec![Emit::Op(OP_EQUAL_VERIFY, -2)];
    proof {
        assert(emit_chunks(check@) =~= seq![Chunk::Op(OP_EQUAL_VERIFY)]);
        assert(emit_delta(check@) == -2) by {
            reveal_with_fuel(emit_delta, 2);
        }
    }
    let steps = vec![
        Step::Eval(input_script_pubkey_expr(input_idx)),
        Step::Eval(expected_spk),
        Step::Fixed(check),
    ];
    proof {
        let sv = input_binding_steps(input_idx@, sigscript_base_expr@);
        assert(steps_view(steps@).len() == sv.len());
        assert forall|i: int| 0 <= i < sv.len() implies steps_view(steps@)[i] == sv[i] by {
        }
        assert(steps_view(steps@) =~= sv);
        assert forall|i: int| 0 <= i < steps@.len() implies (#[trigger] steps@[i]).well_sized() by {
        }
    }
    emit_program(steps.as_slice(), &env, &mut emitter, builder)
}

/// The validation steps of a templated state read, before its framing guard: the input's
/// scriptPubKey is the P2SH of the claimed redeem script, and the template of that script
/// hashes to the expected template hash.
pub open spec fn template_validation_steps(
    input_idx: ExprV,
    prefix_len: ExprV,
    suffix_len: ExprV,
    expected_hash: ExprV,
    base: ExprV,
    state_len: nat,
) -> Seq<StepV> {
    let prefix_end = add_v(base, prefix_len);
    let suffix_start = add_v(prefix_end, ExprV::Int(state_len as i64));
    let suffix_end = add_v(suffix_start, suffix_len);
    let sig_len = ExprV::InputScriptSigLen(Box::new(input_idx));
    let redeem = ExprV::InputScriptSigSubstr(Box::new(input_idx), Box::new(base), Box::new(sig_len));
    let prefix = ExprV::InputScriptSigSubstr(Box::new(input_idx), Box::new(base), Box::new(prefix_end));
    let suffix = ExprV::InputScriptSigSubstr(Box::new(input_idx), Box::new(suffix_start), Box::new(suffix_end));
    let enc_prefix_len = ExprV::Binary(BinaryOp::Num2Bin, Box::new(prefix_len), Box::new(ExprV::Int(8)));
    let enc_suffix_len = ExprV::Binary(BinaryOp::Num2Bin, Box::new(suffix_len), Box::new(ExprV::Int(8)));
    let template = ExprV::Binary(
        BinaryOp::Concat,
        Box::new(ExprV::Binary(BinaryOp::Concat, Box::new(enc_prefix_len), Box::new(prefix))),
        Box::new(ExprV::Binary(BinaryOp::Concat, Box::new(enc_suffix_len), Box::new(suffix))),
    );
    seq![
        StepV::Eval(ExprV::InputScriptPubKey(Box::new(input_idx))),
        StepV::Eval(ExprV::P2shFromRedeemScript(Box::new(redeem))),
        StepV::Fixed(seq![Chunk::Op(OP_EQUAL_VERIFY)], -2),
        StepV::Eval(expected_hash),
        StepV::Eval(template),
        StepV::Fixed(seq![Chunk::Op(OP_BLAKE3), Chunk::Op(OP_EQUAL_VERIFY)], -2),
    ]
}

/// The validation half of a templated state read with arguments `args`, over a target layout
/// of field types `layout`, or why it cannot be built.
pub open spec fn template_read_validation_code(
    args: Seq<ExprV>,
    layout: Seq<TypeRefV>,
    base: ExprV,
    b: Seq<Seq<char>>,
    bytecode_size: Option<i64>,
) -> Result<Seq<Chunk>, Fault> {
    if args.len() != 4 {
        Err(Fault::Is(CompilerError::ArgumentCount(StateBuiltin::ReadInputStateWithTemplate)))
    } else if layout.len() == 0 {
        Err(Fault::Is(CompilerError::EmptyStateLayout(StateBuiltin::ReadInputStateWithTemplate)))
    } else {
        match spec_state_len(layout) {
            Err(e) => Err(Fault::Is(e)),
            Ok(state_len) => cat_code(
                program_code(
                    template_validation_steps(args[0], args[1], args[2], args[3], base, state_len),
                    b,
                    bytecode_size,
                    0,
                ),
                guard_code(args[0], args[1], base, payload_lens(layout), b, bytecode_size, 0),
            ),
        }
    }
}

/// `int_to_fixed_bytes(value, 8)`.
pub fn eight_byte_expr(value: Expr) -> (r: Expr)
    ensures
        r@ == ExprV::Binary(BinaryOp::Num2Bin, Box::new(value@), Box::new(ExprV::Int(8))),
{
    binary_expr(BinaryOp::Num2Bin, value, Expr::integer(8))
}

/// Validation half of `readInputStateWithTemplate(input_idx, template_prefix_len,
/// template_suffix_len, expected_template_hash)`: before any field is decoded, the claimed
/// foreign redeem script must match both the template hash and the input's P2SH
/// scriptPubKey, and the state region must be canonically framed.
pub fn compile_read_input_state_with_template_validation(
    args: &[Expr],
    stack_bindings: &crate::stack::StackBindings,
    types: &crate::type_map::TypeMap,
    builder: &mut ScriptBuilder,
    layout_field_types: &[TypeRef],
    sigscript_base_expr: &Expr,
    current_bytecode_size: Option<i64>,
) -> (r: Result<(), CompilerError>)
    ensures
        args@.len() != 4 ==> r == Err::<(), CompilerError>(
            CompilerError::ArgumentCount(StateBuiltin::ReadInputStateWithTemplate),
        ) && script_of(*final(builder)) == script_of(*old(builder)),
        args@.len() == 4 && layout_field_types@.len() == 0 ==> r == Err::<(), CompilerError>(
            CompilerError::EmptyStateLayout(StateBuiltin::ReadInputStateWithTemplate),
        ) && script_of(*final(builder)) == script_of(*old(builder)),
        args@.len() == 4 && layout_field_types@.len() > 0 ==> match spec_state_len(
            type_views(layout_field_types@),
        ) {
            Err(e) => r == Err::<(), CompilerError>(e) && script_of(*final(builder)) == script_of(
                *old(builder),
            ),
            Ok(state_len) => code_outcome(
                r,
                cat_code(
                    program_code(
                        template_validation_steps(
                            args@[0]@,
                            args@[1]@,
                            args@[2]@,
                            args@[3]@,
                            sigscript_base_expr@,
                            state_len,
                        ),
                        stack_bindings@,
                        current_bytecode_size,
                        0,
                    ),
                    guard_code(
                        args@[0]@,
                        args@[1]@,
                        sigscript_base_expr@,
                        payload_lens(type_views(layout_field_types@)),
                        stack_bindings@,
                        current_bytecode_size,
                        0,
                    ),
                ),
                script_of(*old(builder)),
                script_of(*final(builder)),
            ),
        },
        code_outcome(
            r,
            template_read_validation_code(
                exprs_view(args@),
                type_views(layout_field_types@),
                sigscript_base_expr@,
                stack_bindings@,
                current_bytecode_size,
            ),
            script_of(*old(builder)),
            script_of(*final(builder)),
        ),
{
    if args.len() != 4 {
        return Err(CompilerError::ArgumentCount(StateBuiltin::ReadInputStateWithTemplate));
    }
    if layout_field_types.len() == 0 {
        return Err(CompilerError::EmptyStateLayout(StateBuiltin::ReadInputStateWithTemplate));
    }
    let input_idx = &args[0];
    let template_prefix_len = &args[1];
    let template_suffix_len = &args[2];
    let expected_template_hash = &args[3];
    let state_len = encoded_state_len_for_layout_field_types(layout_field_types)?;

    let bytecode_base_expr = sigscript_base_expr.clone();
    let prefix_end_expr = binary_expr(BinaryOp::Add, bytecode_base_expr.clone(), template_prefix_len.clone());
    let bytecode_end_expr = input_sigscript_len_expr(input_idx);
    let suffix_start_expr = binary_expr(BinaryOp::Add, prefix_end_expr.clone(), Expr::integer(state_len as i64));
    let suffix_end_expr = binary_expr(BinaryOp::Add, suffix_start_expr.clone(), template_suffix_len.clone());

    let input_redeem_script_expr = input_sigscript_substr_expr(input_idx, bytecode_base_expr.clone(), bytecode_end_expr);
    let prefix_expr = input_sigscript_substr_expr(input_idx, bytecode_base_expr, prefix_end_expr);
    let suffix_expr = input_sigscript_substr_expr(input_idx, suffix_start_expr, suffix_end_expr);
    let encoded_prefix_len_expr = eight_byte_expr(template_prefix_len.clone());
    let encoded_suffix_len_expr = eight_byte_expr(template_suffix_len.clone());
    let template_expr = binary_expr(
        BinaryOp::Concat,
        binary_expr(BinaryOp::Concat, encoded_prefix_len_expr, prefix_expr),
        binary_expr(BinaryOp::Concat, encoded_suffix_len_expr, suffix_expr),
    );
    let expected_input_spk_expr = Expr::P2shFromRedeemScript(Box::new(input_redeem_script_expr));
    let actual_input_spk_expr = input_script_pubkey_expr(input_idx);

    let env = ExprEnv { stack_bindings, types, bytecode_size: current_bytecode_size };
    let mut emitter = ScriptEmitter::new(0);
    let check = vec![Emit::Op(OP_EQUAL_VERIFY, -2)];
    let hash_check = vec![Emit::Op(OP_BLAKE3, 0), Emit::Op(OP_EQUAL_VERIFY, -2)];
    proof {
        assert(emit_chunks(check@) =~= seq![Chunk::Op(OP_EQUAL_VERIFY)]);
        assert(emit_delta(check@) == -2) by {
            reveal_with_fuel(emit_delta, 2);
        }
        assert(emit_chunks(hash_check@) =~= seq![Chunk::Op(OP_BLAKE3), Chunk::Op(OP_EQUAL_VERIFY)]);
        assert(emit_delta(hash_check@) == -2) by {
            reveal_with_fuel(emit_delta, 3);
        }
    }
    let steps = vec![
        Step::Eval(actual_input_spk_expr),
        Step::Eval(expected_input_spk_expr),
        Step::Fixed(check),
        Step::Eval(expected_template_hash.clone()),
        Step::Eval(template_expr),
        Step::Fixed(hash_check),
    ];
    let ghost sv = template_validation_steps(
        args@[0]@,
        args@[1]@,
        args@[2]@,
        args@[3]@,
        sigscript_base_expr@,
        state_len as nat,
    );
    proof {
        assert(steps_view(steps@).len() == sv.len());
        assert forall|i: int| 0 <= i < sv.len() implies steps_view(steps@)[i] == sv[i] by {
        }
        assert(steps_view(steps@) =~= sv);
        assert forall|i: int| 0 <= i < steps@.len() implies (#[trigger] steps@[i]).well_sized() by {
        }
    }
    let ghost s0 = script_of(*builder);
    let r1 = emit_program(steps.as_slice(), &env, &mut emitter, builder);
    let ghost s1 = script_of(*builder);
    let ghost c1 = program_code(sv, stack_bindings@, current_bytecode_size, 0);
    let ghost c2 = guard_code(
        args@[0]@,
        args@[1]@,
        sigscript_base_expr@,
        payload_lens(type_views(layout_field_types@)),
        stack_bindings@,
        current_bytecode_size,
        0,
    );
    if r1.is_err() {
        proof {
            lemma_outcome_stops(s0, s1, c1, c2, r1, r1);
        }
        return r1;
    }
    proof {
        assert(program_delta(sv) == 0) by {
            reveal_with_fuel(program_delta, 7);
        }
        lemma_code_of_len(c1->Ok_0);
    }
    let r2 = emit_state_framing_guard(
        input_idx,
        template_prefix_len,
        layout_field_types,
        sigscript_base_expr,
        &env,
        &mut emitter,
        builder,
    );
    proof {
        lemma_outcome_then(s0, s1, script_of(*builder), c1, c2, r1, r2);
    }
    r2
}

} // verus!

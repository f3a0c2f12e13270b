//! Writing contract state: encoding new field values the way the state region holds them,
//! and requiring an output to carry the script with that state in place.

use vstd::prelude::*;

use kaspa_txscript::script_builder::ScriptBuilder;

use crate::codegen::{
    cat_code, code_outcome, emit_program, p2sh_chunks, p2sh_items, infer_expr_type, lemma_cat_code_assoc,
    lemma_cat_code_assoc3, lemma_outcome_stops, lemma_outcome_then, program_code, program_delta,
    spec_infer_type, steps_view, ExprEnv, Fault, Step, StepV,
};
use crate::error::{CompilerError, StateBuiltin};
use crate::expr::{binary_expr, exprs_view, BinaryOp, Expr, ExprV};
use crate::layout::{
    chunk_start, field_types, fixed_state_payload_len, lemma_state_len_is_region_len, payload_lens, spec_chunk_size,
    spec_payload_len, spec_state_len, spec_state_start_offset, state_start_offset, ContractFieldAst,
};
use crate::opcodes::{
    OP_0_NOT_EQUAL, OP_ADD, OP_BLAKE3, OP_CAT, OP_DUP, OP_EQUAL_VERIFY, OP_NUM2BIN, OP_SUB, OP_SWAP,
    OP_TX_INPUT_INDEX, OP_TX_INPUT_SCRIPT_SIG_LEN, OP_TX_INPUT_SCRIPT_SIG_SUBSTR, OP_TX_OUTPUT_SPK,
};
use crate::push::{data_prefix, push_header, pushable};
use crate::script::{
    code_of, emit_chunks, emit_delta, emits, lemma_appended_seq, lemma_code_of_append, lemma_code_of_len,
    lemma_refused_within, script_of, Chunk, Emit, ScriptEmitter,
};
use crate::stack::StackBindings;
use crate::state::{eight_byte_expr, header_check_chunks};
use crate::type_map::TypeMap;
use crate::types::TypeRefV;

verus! {

/// The code that turns a field's value, on top of the field's push header, into the field's
/// encoded chunk: a bool is normalised to 0 or 1 and an int-like value is written as a
/// fixed-width number before the two are concatenated.
pub open spec fn field_value_tail(t: TypeRefV, n: nat) -> Seq<Chunk> {
    if t.dims.len() == 0 && t.base is Bool {
        seq![Chunk::Op(OP_0_NOT_EQUAL), Chunk::Int(n as i64), Chunk::Op(OP_NUM2BIN), Chunk::Op(OP_CAT)]
    } else if t.dims.len() == 0 && (t.base is Int || t.base is Temporal) {
        seq![Chunk::Int(n as i64), Chunk::Op(OP_NUM2BIN), Chunk::Op(OP_CAT)]
    } else {
        seq![Chunk::Op(OP_CAT)]
    }
}

/// The steps that push the encoded chunk of a field of type `t` and payload width `n`.
pub open spec fn field_steps(e: ExprV, t: TypeRefV, n: nat) -> Seq<StepV> {
    seq![
        StepV::Fixed(seq![Chunk::Data(push_header(n))], 1),
        StepV::Eval(e),
        StepV::Fixed(field_value_tail(t, n), -1),
    ]
}

/// The code that pushes the encoded chunk of the state field whose new value is `e`,
/// compiled `depth` values above the bindings.
pub open spec fn field_encoding_code(
    e: ExprV,
    types: Map<Seq<char>, TypeRefV>,
    b: Seq<Seq<char>>,
    bytecode_size: Option<i64>,
    depth: int,
    builtin: StateBuiltin,
) -> Result<Seq<Chunk>, Fault> {
    match spec_infer_type(e, types) {
        Err(f) => Err(f),
        Ok(t) => match spec_payload_len(t) {
            Err(_) => Err(Fault::Is(CompilerError::UnsupportedFieldType(builtin))),
            Ok(n) => if !pushable(n) {
                Err(Fault::Is(CompilerError::PayloadTooLarge))
            } else {
                program_code(field_steps(e, t, n), b, bytecode_size, depth)
            },
        },
    }
}

/// The chunks of fields `k ..` of `es`, field `k` compiled `k` values above the bindings.
pub open spec fn fields_from(
    es: Seq<ExprV>,
    k: int,
    types: Map<Seq<char>, TypeRefV>,
    b: Seq<Seq<char>>,
    bytecode_size: Option<i64>,
    builtin: StateBuiltin,
) -> Result<Seq<Chunk>, Fault>
    decreases es.len() - k,
{
    if k >= es.len() || k < 0 {
        Ok(Seq::empty())
    } else {
        cat_code(
            field_encoding_code(es[k], types, b, bytecode_size, k, builtin),
            fields_from(es, k + 1, types, b, bytecode_size, builtin),
        )
    }
}

/// Law: the state encoder writes, in front of each field's value, the very header the
/// framing guard pins for that field. When every new value has its field's type and the
/// layout's length is computed without error, the code of field `i` starts by pushing
/// `push_header` of the field's payload width, the header the guard compares at the
/// field's chunk start.
pub proof fn lemma_encoder_writes_pinned_headers(
    es: Seq<ExprV>,
    ts: Seq<TypeRefV>,
    types: Map<Seq<char>, TypeRefV>,
    b: Seq<Seq<char>>,
    bytecode_size: Option<i64>,
    builtin: StateBuiltin,
    i: int,
)
    requires
        es.len() == ts.len(),
        0 <= i < es.len(),
        spec_infer_type(es[i], types) == Ok::<TypeRefV, Fault>(ts[i]),
        spec_state_len(ts) is Ok,
    ensures
        field_encoding_code(es[i], types, b, bytecode_size, i, builtin) matches Ok(c) ==> c.len() > 0
            && c[0] == Chunk::Data(push_header(payload_lens(ts)[i])),
        header_check_chunks(chunk_start(payload_lens(ts), i), payload_lens(ts)[i])[4] == Chunk::Data(
            push_header(payload_lens(ts)[i]),
        ),
{
    lemma_state_len_is_region_len(ts);
    assert(spec_chunk_size(ts[i]) is Ok);
    let n = payload_lens(ts)[i];
    assert(spec_payload_len(ts[i]) == Ok::<nat, CompilerError>(n));
    let steps = field_steps(es[i], ts[i], n);
    assert(steps[0] == StepV::Fixed(seq![Chunk::Data(push_header(n))], 1));
    if let Ok(c) = field_encoding_code(es[i], types, b, bytecode_size, i, builtin) {
        assert(program_code(steps, b, bytecode_size, i) == cat_code(
            Ok(seq![Chunk::Data(push_header(n))]),
            program_code(steps.drop_first(), b, bytecode_size, i + 1),
        ));
    }
}

/// `k` concatenations.
pub open spec fn cat_ops(k: nat) -> Seq<Chunk> {
    Seq::new(k, |i: int| Chunk::Op(OP_CAT))
}

/// The code that leaves the encoded state of new field values `es` on the stack: each
/// field's chunk in turn, then the concatenation of all of them into one.
pub open spec fn state_encoding_code(
    es: Seq<ExprV>,
    types: Map<Seq<char>, TypeRefV>,
    b: Seq<Seq<char>>,
    bytecode_size: Option<i64>,
    builtin: StateBuiltin,
) -> Result<Seq<Chunk>, Fault> {
    cat_code(
        fields_from(es, 0, types, b, bytecode_size, builtin),
        Ok(cat_ops(if es.len() == 0 { 0 } else { (es.len() - 1) as nat })),
    )
}

/// A state field paired with its new value.
pub struct StateFieldExpr {
    pub name: String,
    pub expr: Expr,
}

/// Emits the encoded state of new field values, as the state region holds them: one push
/// chunk per field, concatenated. Returns the number of values it leaves on the stack.
pub fn compile_encoded_state_fields(
    state_fields: &[Expr],
    stack_bindings: &StackBindings,
    types: &TypeMap,
    builder: &mut ScriptBuilder,
    bytecode_size: Option<i64>,
    builtin: StateBuiltin,
) -> (r: Result<i64, CompilerError>)
    ensures
        code_outcome(
            r,
            state_encoding_code(exprs_view(state_fields@), types@, stack_bindings@, bytecode_size, builtin),
            script_of(*old(builder)),
            script_of(*final(builder)),
        ),
        r matches Ok(d) ==> d == (if state_fields@.len() == 0 { 0i64 } else { 1i64 }),
{
    let ghost es = exprs_view(state_fields@);
    let ghost b = stack_bindings@;
    let ghost n = state_fields@.len() as int;
    let ghost cats = cat_ops(if n == 0 { 0 } else { (n - 1) as nat });
    let ghost whole = state_encoding_code(es, types@, b, bytecode_size, builtin);
    let ghost s0 = script_of(*builder);
    let ghost mut done: Seq<Chunk> = Seq::empty();
    let field_count = state_fields.len();
    let env = ExprEnv { stack_bindings, types, bytecode_size };
    let mut emitter = ScriptEmitter::new(0);
    proof {
        assert(cat_code(Ok(done), cat_code(fields_from(es, 0, types@, b, bytecode_size, builtin), Ok(cats)))
            == whole) by {
            lemma_cat_code_assoc(done, fields_from(es, 0, types@, b, bytecode_size, builtin), Ok(cats));
            if let Ok(c) = fields_from(es, 0, types@, b, bytecode_size, builtin) {
                assert(done + c == c);
            }
        }
    }
    for i in 0..field_count
        invariant
            field_count == state_fields@.len(),
            n == field_count,
            es == exprs_view(state_fields@),
            b == stack_bindings@,
            env.stack_bindings == stack_bindings,
            env.types == types,
            env.bytecode_size == bytecode_size,
            cats == cat_ops(if n == 0 { 0 } else { (n - 1) as nat }),
            whole == state_encoding_code(es, types@, b, bytecode_size, builtin),
            whole == cat_code(
                Ok(done),
                cat_code(fields_from(es, i as int, types@, b, bytecode_size, builtin), Ok(cats)),
            ),
            s0 == script_of(*old(builder)),
            emits(s0, done),
            script_of(*builder) == s0 + code_of(done),
            done.len() >= i,
            emitter.depth() == i,
    {
        let ghost s1 = script_of(*builder);
        let ghost rest = fields_from(es, i + 1, types@, b, bytecode_size, builtin);
        let ghost fc = field_encoding_code(es[i as int], types@, b, bytecode_size, i as int, builtin);
        assert(es[i as int] == state_fields@[i as int]@);
        proof {
            assert(fields_from(es, i as int, types@, b, bytecode_size, builtin) == cat_code(fc, rest));
            lemma_cat_code_assoc3(fc, rest, Ok(cats));
            lemma_code_of_len(done);
        }
        let value = &state_fields[i];
        let type_ref = infer_expr_type(value, types)?;
        let field_size = match fixed_state_payload_len(&type_ref) {
            Ok(size) => size,
            Err(_) => {
                return Err(CompilerError::UnsupportedFieldType(builtin));
            },
        };
        let prefix = data_prefix(field_size)?;
        let tail = if type_ref.is_bool() {
            vec![
                Emit::Op(OP_0_NOT_EQUAL, 0),
                Emit::Int(field_size as i64),
                Emit::Op(OP_NUM2BIN, -1),
                Emit::Op(OP_CAT, -1),
            ]
        } else if type_ref.is_int_like() {
            vec![Emit::Int(field_size as i64), Emit::Op(OP_NUM2BIN, -1), Emit::Op(OP_CAT, -1)]
        } else {
            vec![Emit::Op(OP_CAT, -1)]
        };
        let ghost t = type_ref@;
        let ghost len = field_size as nat;
        proof {
            assert(emit_chunks(tail@) =~= field_value_tail(t, len));
            assert(emit_delta(tail@) == -1) by {
                reveal_with_fuel(emit_delta, 5);
            }
        }
        let head = vec![Emit::Data(prefix)];
        proof {
            assert(emit_chunks(head@) =~= seq![Chunk::Data(push_header(len))]);
            assert(emit_delta(head@) == 1) by {
                reveal_with_fuel(emit_delta, 2);
            }
        }
        let steps = vec![Step::Fixed(head), Step::Eval(value.clone()), Step::Fixed(tail)];
        let ghost sv = field_steps(es[i as int], t, len);
        proof {
            assert(steps_view(steps@).len() == sv.len());
            assert forall|j: int| 0 <= j < sv.len() implies steps_view(steps@)[j] == sv[j] by {}
            assert(steps_view(steps@) =~= sv);
            assert forall|j: int| 0 <= j < steps@.len() implies (#[trigger] steps@[j]).well_sized() by {}
            assert(fc == program_code(sv, b, bytecode_size, i as int));
            assert(program_delta(sv) == 1) by {
                reveal_with_fuel(program_delta, 4);
            }
        }
        let r1 = emit_program(steps.as_slice(), &env, &mut emitter, builder);
        proof {
            if r1 is Err {
                lemma_outcome_stops(s1, script_of(*builder), fc, cat_code(rest, Ok(cats)), r1, r1);
                lemma_outcome_then(
                    s0,
                    s1,
                    script_of(*builder),
                    Ok(done),
                    cat_code(fc, cat_code(rest, Ok(cats))),
                    Ok::<(), CompilerError>(()),
                    r1,
                );
            } else {
                let c = fc->Ok_0;
                assert(c.len() >= 1);
                lemma_appended_seq(s0, s1, script_of(*builder), done, c, r1);
                lemma_code_of_append(done, c);
                lemma_cat_code_assoc(done, Ok(c), cat_code(rest, Ok(cats)));
            }
        }
        if let Err(e) = r1 {
            return Err(e);
        }
        proof {
            done = done + fc->Ok_0;
        }
    }
    let ghost s1 = script_of(*builder);
    proof {
        assert(fields_from(es, n, types@, b, bytecode_size, builtin) == Ok::<Seq<Chunk>, Fault>(Seq::empty()));
        assert(whole == Ok::<Seq<Chunk>, Fault>(done + cats)) by {
            assert(Seq::<Chunk>::empty() + cats == cats);
        }
        lemma_code_of_len(done);
    }
    let mut k: usize = 1;
    while k < field_count
        invariant
            field_count == n,
            1 <= k,
            n >= 1 ==> k <= n,
            n == 0 ==> k == 1,
            cats == cat_ops(if n == 0 { 0 } else { (n - 1) as nat }),
            es == exprs_view(state_fields@),
            b == stack_bindings@,
            whole == state_encoding_code(es, types@, b, bytecode_size, builtin),
            whole == Ok::<Seq<Chunk>, Fault>(done + cats),
            s0 == script_of(*old(builder)),
            emits(s0, done),
            s1 == s0 + code_of(done),
            done.len() >= n,
            emits(s1, cat_ops((k - 1) as nat)),
            script_of(*builder) == s1 + code_of(cat_ops((k - 1) as nat)),
            emitter.depth() == n - (k - 1),
        decreases field_count - k,
    {
        let ghost s2 = script_of(*builder);
        let ghost before = cat_ops((k - 1) as nat);
        let ghost after = cat_ops((n - 1 - k) as nat);
        assert(before + seq![Chunk::Op(OP_CAT)] =~= cat_ops(k as nat));
        assert(before + seq![Chunk::Op(OP_CAT)] + after =~= cats);
        let r = emitter.emit_op(builder, OP_CAT, -1);
        proof {
            if r is Err {
                lemma_refused_within(s1, before, seq![Chunk::Op(OP_CAT)], after);
                lemma_refused_within(s0, done, cats, Seq::empty());
                assert(done + cats + Seq::<Chunk>::empty() == done + cats);
            } else {
                lemma_appended_seq(s1, s2, script_of(*builder), before, seq![Chunk::Op(OP_CAT)], r);
            }
        }
        if let Err(e) = r {
            return Err(e);
        }
        k = k + 1;
    }
    proof {
        assert(cat_ops((k - 1) as nat) =~= cats);
        lemma_appended_seq(
            s0,
            s1,
            script_of(*builder),
            done,
            cats,
            Ok::<(), CompilerError>(()),
        );
    }
    Ok(emitter.stack_depth())
}

/// Emits the encoded state of new field values given as a flat list of expressions.
pub fn compile_encoded_flat_state_fields(
    state_fields: &[Expr],
    stack_bindings: &StackBindings,
    types: &TypeMap,
    builder: &mut ScriptBuilder,
    bytecode_size: Option<i64>,
    builtin: StateBuiltin,
) -> (r: Result<i64, CompilerError>)
    ensures
        code_outcome(
            r,
            state_encoding_code(exprs_view(state_fields@), types@, stack_bindings@, bytecode_size, builtin),
            script_of(*old(builder)),
            script_of(*final(builder)),
        ),
        r matches Ok(d) ==> d == (if state_fields@.len() == 0 { 0i64 } else { 1i64 }),
{
    compile_encoded_state_fields(state_fields, stack_bindings, types, builder, bytecode_size, builtin)
}

/// The new values of a list of field entries.
pub open spec fn entry_values(entries: Seq<StateFieldExpr>) -> Seq<ExprV> {
    entries.map_values(|entry: StateFieldExpr| entry.expr@)
}

/// Emits the encoded state of new field values given as named entries, in entry order.
pub fn compile_encoded_state_object(
    state_entries: &[StateFieldExpr],
    stack_bindings: &StackBindings,
    types: &TypeMap,
    builder: &mut ScriptBuilder,
    bytecode_size: Option<i64>,
    builtin: StateBuiltin,
) -> (r: Result<i64, CompilerError>)
    ensures
        code_outcome(
            r,
            state_encoding_code(entry_values(state_entries@), types@, stack_bindings@, bytecode_size, builtin),
            script_of(*old(builder)),
            script_of(*final(builder)),
        ),
        r matches Ok(d) ==> d == (if state_entries@.len() == 0 { 0i64 } else { 1i64 }),
{
    let mut values: Vec<Expr> = Vec::new();
    for i in 0..state_entries.len()
        invariant
            values@.len() == i,
            forall|j: int| 0 <= j < i ==> (#[trigger] values@[j])@ == state_entries@[j].expr@,
    {
        values.push(state_entries[i].expr.clone());
    }
    assert(exprs_view(values@) =~= entry_values(state_entries@));
    compile_encoded_state_fields(values.as_slice(), stack_bindings, types, builder, bytecode_size, builtin)
}

/// The code that, with the encoded new state on top of the stack, rebuilds
/// `prefix || new_state || suffix` from the spending input's own redeem script (which starts
/// `bytecode_size` bytes before the end of its sigscript), wraps it as a P2SH scriptPubKey
/// and requires the output at `output_idx` to carry that scriptPubKey.
pub open spec fn output_rebuild_steps(
    output_idx: ExprV,
    state_start: nat,
    state_end: nat,
    bytecode_size: i64,
) -> Seq<StepV> {
    (if state_start > 0 {
        seq![StepV::Fixed(prefix_rebuild_chunks(state_start, bytecode_size), 0)]
    } else {
        Seq::empty()
    }) + seq![
        StepV::Fixed(suffix_rebuild_chunks(state_end, bytecode_size), 0),
        StepV::Fixed(p2sh_chunks(), 0),
        StepV::Eval(output_idx),
        StepV::Fixed(seq![Chunk::Op(OP_TX_OUTPUT_SPK), Chunk::Op(OP_EQUAL_VERIFY)], -2),
    ]
}

/// Prepends the bytes of the spending input's redeem script before its state region,
/// `sigscript[base .. base + state_start]` with `base = sigscript_len - bytecode_size`.
pub open spec fn prefix_rebuild_chunks(state_start: nat, bytecode_size: i64) -> Seq<Chunk> {
    seq![
        Chunk::Op(OP_TX_INPUT_INDEX),
        Chunk::Op(OP_DUP),
        Chunk::Op(OP_TX_INPUT_SCRIPT_SIG_LEN),
        Chunk::Int(bytecode_size),
        Chunk::Op(OP_SUB),
        Chunk::Op(OP_DUP),
        Chunk::Int(state_start as i64),
        Chunk::Op(OP_ADD),
        Chunk::Op(OP_TX_INPUT_SCRIPT_SIG_SUBSTR),
        Chunk::Op(OP_SWAP),
        Chunk::Op(OP_CAT),
    ]
}

/// Appends the bytes of the spending input's redeem script after its state region,
/// `sigscript[sigscript_len + state_end - bytecode_size .. sigscript_len]`.
pub open spec fn suffix_rebuild_chunks(state_end: nat, bytecode_size: i64) -> Seq<Chunk> {
    seq![
        Chunk::Op(OP_TX_INPUT_INDEX),
        Chunk::Op(OP_DUP),
        Chunk::Op(OP_TX_INPUT_SCRIPT_SIG_LEN),
        Chunk::Op(OP_DUP),
        Chunk::Int(((state_end as i64) - bytecode_size) as i64),
        Chunk::Op(OP_ADD),
        Chunk::Op(OP_SWAP),
        Chunk::Op(OP_TX_INPUT_SCRIPT_SIG_SUBSTR),
        Chunk::Op(OP_CAT),
    ]
}

/// The code of `validateOutputState(output_idx, ..new_field_values)` for a contract whose
/// state fields have types `fields` and whose state region ends at `state_end`.
pub open spec fn validate_output_code(
    args: Seq<ExprV>,
    fields: Seq<TypeRefV>,
    state_end: nat,
    types: Map<Seq<char>, TypeRefV>,
    b: Seq<Seq<char>>,
    bytecode_size: Option<i64>,
) -> Result<Seq<Chunk>, Fault> {
    cat_code(
        state_encoding_code(args.drop_first(), types, b, bytecode_size, StateBuiltin::ValidateOutputState),
        match spec_state_start_offset(state_end, fields) {
            Err(e) => Err(Fault::Is(e)),
            Ok(start) => match bytecode_size {
                None => Err(Fault::Is(CompilerError::MissingBytecodeSize(StateBuiltin::ValidateOutputState))),
                Some(v) => program_code(output_rebuild_steps(args[0], start, state_end, v), b, Some(v), 1),
            },
        },
    )
}

/// `validateOutputState(output_idx, ..new_field_values)`: requires the output at
/// `output_idx` to pay to this very contract with its state replaced by the new values.
pub fn compile_validate_output_state_inner_statement(
    args: &[Expr],
    stack_bindings: &StackBindings,
    types: &TypeMap,
    builder: &mut ScriptBuilder,
    contract_fields: &[ContractFieldAst],
    state_end: usize,
    bytecode_size: Option<i64>,
) -> (r: Result<(), CompilerError>)
    requires
        ({
            &&& args@.len() == contract_fields@.len() + 1
            &&& contract_fields@.len() > 0
            &&& state_encoding_code(
                exprs_view(args@).drop_first(),
                types@,
                stack_bindings@,
                bytecode_size,
                StateBuiltin::ValidateOutputState,
            ) is Ok
            &&& spec_state_start_offset(state_end as nat, field_types(contract_fields@)) is Ok
            &&& bytecode_size is Some
        }) ==> i64::MIN <= (state_end as i64) - bytecode_size->Some_0 <= i64::MAX,
    ensures
        args@.len() != contract_fields@.len() + 1 ==> r == Err::<(), CompilerError>(
            CompilerError::ArgumentCount(StateBuiltin::ValidateOutputState),
        ) && script_of(*final(builder)) == script_of(*old(builder)),
        args@.len() == contract_fields@.len() + 1 && contract_fields@.len() == 0 ==> r == Err::<
            (),
            CompilerError,
        >(CompilerError::MissingContractFields(StateBuiltin::ValidateOutputState)) && script_of(
            *final(builder),
        ) == script_of(*old(builder)),
        args@.len() == contract_fields@.len() + 1 && contract_fields@.len() > 0 ==> code_outcome(
            r,
            validate_output_code(
                exprs_view(args@),
                field_types(contract_fields@),
                state_end as nat,
                types@,
                stack_bindings@,
                bytecode_size,
            ),
            script_of(*old(builder)),
            script_of(*final(builder)),
        ),
{
    if args.len() == 0 || args.len() - 1 != contract_fields.len() {
        return Err(CompilerError::ArgumentCount(StateBuiltin::ValidateOutputState));
    }
    if contract_fields.len() == 0 {
        return Err(CompilerError::MissingContractFields(StateBuiltin::ValidateOutputState));
    }
    let output_idx = &args[0];
    let mut state_fields: Vec<StateFieldExpr> = Vec::new();
    for i in 0..contract_fields.len()
        invariant
            args@.len() == contract_fields@.len() + 1,
            state_fields@.len() == i,
            forall|j: int| 0 <= j < i ==> (#[trigger] state_fields@[j]).expr@ == args@[j + 1]@,
    {
        state_fields.push(StateFieldExpr { name: contract_fields[i].name.clone(), expr: args[i + 1].clone() });
    }
    let ghost es = exprs_view(args@);
    let ghost b = stack_bindings@;
    assert(entry_values(state_fields@) =~= es.drop_first());
    let ghost enc = state_encoding_code(
        es.drop_first(),
        types@,
        b,
        bytecode_size,
        StateBuiltin::ValidateOutputState,
    );
    let ghost s0 = script_of(*builder);
    let r1 = compile_encoded_state_object(
        state_fields.as_slice(),
        stack_bindings,
        types,
        builder,
        bytecode_size,
        StateBuiltin::ValidateOutputState,
    );
    let ghost s1 = script_of(*builder);
    let ghost rest = match spec_state_start_offset(state_end as nat, field_types(contract_fields@)) {
        Err(e) => Err(Fault::Is(e)),
        Ok(start) => match bytecode_size {
            None => Err(Fault::Is(CompilerError::MissingBytecodeSize(StateBuiltin::ValidateOutputState))),
            Some(v) => program_code(output_rebuild_steps(es[0], start, state_end as nat, v), b, Some(v), 1),
        },
    };
    let stack_depth = match r1 {
        Ok(d) => d,
        Err(e) => {
            proof {
                lemma_outcome_stops(s0, s1, enc, rest, r1, Err::<(), CompilerError>(e));
            }
            return Err(e);
        },
    };
    let state_start = match state_start_offset(state_end, contract_fields) {
        Ok(start) => start,
        Err(e) => {
            proof {
                lemma_outcome_then(s0, s1, s1, enc, rest, r1, Err::<(), CompilerError>(e));
            }
            return Err(e);
        },
    };
    let bytecode_size_value = match bytecode_size {
        Some(v) => v,
        None => {
            proof {
                lemma_outcome_then(
                    s0,
                    s1,
                    s1,
                    enc,
                    rest,
                    r1,
                    Err::<(), CompilerError>(CompilerError::MissingBytecodeSize(StateBuiltin::ValidateOutputState)),
                );
            }
            return Err(CompilerError::MissingBytecodeSize(StateBuiltin::ValidateOutputState));
        },
    };
    let mut steps: Vec<Step> = Vec::new();
    if state_start > 0 {
        let prefix = vec![
            Emit::Op(OP_TX_INPUT_INDEX, 1),
            Emit::Op(OP_DUP, 1),
            Emit::Op(OP_TX_INPUT_SCRIPT_SIG_LEN, 0),
            Emit::Int(bytecode_size_value),
            Emit::Op(OP_SUB, -1),
            Emit::Op(OP_DUP, 1),
            Emit::Int(state_start as i64),
            Emit::Op(OP_ADD, -1),
            Emit::Op(OP_TX_INPUT_SCRIPT_SIG_SUBSTR, -2),
            Emit::Op(OP_SWAP, 0),
            Emit::Op(OP_CAT, -1),
        ];
        assert(emit_delta(prefix@) == 0) by {
            reveal_with_fuel(emit_delta, 12);
        }
        assert(emit_chunks(prefix@) =~= prefix_rebuild_chunks(state_start as nat, bytecode_size_value));
        steps.push(Step::Fixed(prefix));
    }
    let ghost head = steps@;
    assert(head.len() == (if state_start > 0 { 1int } else { 0int }));
    assert(state_start > 0 ==> head[0].view_step() == StepV::Fixed(
        prefix_rebuild_chunks(state_start as nat, bytecode_size_value),
        0,
    ));
    let suffix_start_delta: i64 = state_end as i64 - bytecode_size_value;
    let suffix = vec![
        Emit::Op(OP_TX_INPUT_INDEX, 1),
        Emit::Op(OP_DUP, 1),
        Emit::Op(OP_TX_INPUT_SCRIPT_SIG_LEN, 0),
        Emit::Op(OP_DUP, 1),
        Emit::Int(suffix_start_delta),
        Emit::Op(OP_ADD, -1),
        Emit::Op(OP_SWAP, 0),
        Emit::Op(OP_TX_INPUT_SCRIPT_SIG_SUBSTR, -2),
        Emit::Op(OP_CAT, -1),
    ];
    assert(emit_delta(suffix@) == 0) by {
        reveal_with_fuel(emit_delta, 10);
    }
    assert(emit_chunks(suffix@) =~= suffix_rebuild_chunks(state_end as nat, bytecode_size_value));
    steps.push(Step::Fixed(suffix));
    steps.push(Step::Fixed(p2sh_items()));
    steps.push(Step::Eval(output_idx.clone()));
    let check = vec![Emit::Op(OP_TX_OUTPUT_SPK, 0), Emit::Op(OP_EQUAL_VERIFY, -2)];
    assert(emit_delta(check@) == -2) by {
        reveal_with_fuel(emit_delta, 3);
    }
    assert(emit_chunks(check@) =~= seq![Chunk::Op(OP_TX_OUTPUT_SPK), Chunk::Op(OP_EQUAL_VERIFY)]);
    steps.push(Step::Fixed(check));
    let ghost sv = output_rebuild_steps(es[0], state_start as nat, state_end as nat, bytecode_size_value);
    proof {
        assert(steps_view(steps@).len() == sv.len());
        assert forall|j: int| 0 <= j < sv.len() implies steps_view(steps@)[j] == sv[j] by {}
        assert(steps_view(steps@) =~= sv);
        assert forall|j: int| 0 <= j < steps@.len() implies (#[trigger] steps@[j]).well_sized() by {}
    }
    let env = ExprEnv { stack_bindings, types, bytecode_size: Some(bytecode_size_value) };
    let mut emitter = ScriptEmitter::new(stack_depth);
    let r2 = emit_program(steps.as_slice(), &env, &mut emitter, builder);
    proof {
        lemma_outcome_then(s0, s1, script_of(*builder), enc, rest, r1, r2);
    }
    r2
}

/// The template preimage `i64le(len(prefix)) || prefix || i64le(len(suffix)) || suffix`.
pub open spec fn template_preimage(prefix: ExprV, suffix: ExprV) -> ExprV {
    let eight = ExprV::Int(8);
    let prefix_len = ExprV::Binary(BinaryOp::Num2Bin, Box::new(ExprV::Length(Box::new(prefix))), Box::new(eight));
    let suffix_len = ExprV::Binary(BinaryOp::Num2Bin, Box::new(ExprV::Length(Box::new(suffix))), Box::new(eight));
    ExprV::Binary(
        BinaryOp::Concat,
        Box::new(ExprV::Binary(BinaryOp::Concat, Box::new(prefix_len), Box::new(prefix))),
        Box::new(ExprV::Binary(BinaryOp::Concat, Box::new(suffix_len), Box::new(suffix))),
    )
}

/// The check that the template hashes to the expected template hash.
pub open spec fn template_check_steps(expected_hash: ExprV, prefix: ExprV, suffix: ExprV) -> Seq<StepV> {
    seq![
        StepV::Eval(expected_hash),
        StepV::Eval(template_preimage(prefix, suffix)),
        StepV::Fixed(seq![Chunk::Op(OP_BLAKE3), Chunk::Op(OP_EQUAL_VERIFY)], -2),
    ]
}

/// With the encoded new state on top of the stack: wrap it as `prefix || state || suffix`,
/// turn that into its P2SH scriptPubKey and require the output at `output_idx` to carry it.
pub open spec fn template_output_steps(output_idx: ExprV, prefix: ExprV, suffix: ExprV) -> Seq<StepV> {
    seq![
        StepV::Eval(prefix),
        StepV::Fixed(seq![Chunk::Op(OP_SWAP), Chunk::Op(OP_CAT)], -1),
        StepV::Eval(suffix),
        StepV::Fixed(seq![Chunk::Op(OP_CAT)], -1),
        StepV::Fixed(p2sh_chunks(), 0),
        StepV::Eval(output_idx),
        StepV::Fixed(seq![Chunk::Op(OP_TX_OUTPUT_SPK), Chunk::Op(OP_EQUAL_VERIFY)], -2),
    ]
}

/// The code of `validateOutputStateWithTemplate(output_idx, ..new_field_values,
/// template_prefix, template_suffix, expected_template_hash)`.
pub open spec fn validate_output_with_template_code(
    args: Seq<ExprV>,
    types: Map<Seq<char>, TypeRefV>,
    b: Seq<Seq<char>>,
    bytecode_size: Option<i64>,
) -> Result<Seq<Chunk>, Fault> {
    let n = args.len() as int;
    cat_code(
        program_code(template_check_steps(args[n - 1], args[n - 3], args[n - 2]), b, bytecode_size, 0),
        cat_code(
            state_encoding_code(
                args.subrange(1, n - 3),
                types,
                b,
                bytecode_size,
                StateBuiltin::ValidateOutputStateWithTemplate,
            ),
            program_code(template_output_steps(args[0], args[n - 3], args[n - 2]), b, bytecode_size, 1),
        ),
    )
}

/// `validateOutputStateWithTemplate(...)`: requires the template to hash to the expected
/// template hash, and the output at `output_idx` to pay to the template with the new state
/// between its prefix and suffix.
pub fn compile_validate_output_state_with_template_inner_statement(
    args: &[Expr],
    stack_bindings: &StackBindings,
    types: &TypeMap,
    builder: &mut ScriptBuilder,
    bytecode_size: Option<i64>,
) -> (r: Result<(), CompilerError>)
    ensures
        args@.len() < 5 ==> r == Err::<(), CompilerError>(
            CompilerError::ArgumentCount(StateBuiltin::ValidateOutputStateWithTemplate),
        ) && script_of(*final(builder)) == script_of(*old(builder)),
        args@.len() >= 5 ==> code_outcome(
            r,
            validate_output_with_template_code(exprs_view(args@), types@, stack_bindings@, bytecode_size),
            script_of(*old(builder)),
            script_of(*final(builder)),
        ),
{
    let n = args.len();
    if n < 5 {
        return Err(CompilerError::ArgumentCount(StateBuiltin::ValidateOutputStateWithTemplate));
    }
    let output_idx = &args[0];
    let state_fields = vstd::slice::slice_subrange(args, 1, n - 3);
    let template_prefix = &args[n - 3];
    let template_suffix = &args[n - 2];
    let expected_template_hash = &args[n - 1];
    if state_fields.len() == 0 {
        return Err(CompilerError::MissingContractFields(StateBuiltin::ValidateOutputStateWithTemplate));
    }
    let ghost es = exprs_view(args@);
    let ghost b = stack_bindings@;
    let ghost s0 = script_of(*builder);
    let env = ExprEnv { stack_bindings, types, bytecode_size };

    let encoded_prefix_len = eight_byte_expr(Expr::Length(Box::new(template_prefix.clone())));
    let encoded_suffix_len = eight_byte_expr(Expr::Length(Box::new(template_suffix.clone())));
    let template_image = binary_expr(
        BinaryOp::Concat,
        binary_expr(BinaryOp::Concat, encoded_prefix_len, template_prefix.clone()),
        binary_expr(BinaryOp::Concat, encoded_suffix_len, template_suffix.clone()),
    );
    let hash_check = vec![Emit::Op(OP_BLAKE3, 0), Emit::Op(OP_EQUAL_VERIFY, -2)];
    assert(emit_chunks(hash_check@) =~= seq![Chunk::Op(OP_BLAKE3), Chunk::Op(OP_EQUAL_VERIFY)]);
    assert(emit_delta(hash_check@) == -2) by {
        reveal_with_fuel(emit_delta, 3);
    }
    let check_steps = vec![
        Step::Eval(expected_template_hash.clone()),
        Step::Eval(template_image),
        Step::Fixed(hash_check),
    ];
    let ghost cv = template_check_steps(es[n - 1], es[n - 3], es[n - 2]);
    proof {
        assert(steps_view(check_steps@).len() == cv.len());
        assert forall|j: int| 0 <= j < cv.len() implies steps_view(check_steps@)[j] == cv[j] by {}
        assert(steps_view(check_steps@) =~= cv);
        assert forall|j: int| 0 <= j < check_steps@.len() implies (#[trigger] check_steps@[j]).well_sized() by {}
        assert(program_delta(cv) == 0) by {
            reveal_with_fuel(program_delta, 4);
        }
    }
    let ghost c1 = program_code(cv, b, bytecode_size, 0);
    let ghost c2 = state_encoding_code(
        es.subrange(1, n - 3),
        types@,
        b,
        bytecode_size,
        StateBuiltin::ValidateOutputStateWithTemplate,
    );
    let ghost ov = template_output_steps(es[0], es[n - 3], es[n - 2]);
    let ghost c3 = program_code(ov, b, bytecode_size, 1);
    let mut emitter = ScriptEmitter::new(0);
    let r1 = emit_program(check_steps.as_slice(), &env, &mut emitter, builder);
    let ghost s1 = script_of(*builder);
    if let Err(e) = r1 {
        proof {
            lemma_outcome_stops(s0, s1, c1, cat_code(c2, c3), r1, r1);
        }
        return Err(e);
    }
    assert(exprs_view(state_fields@) =~= es.subrange(1, n - 3));
    let r2 = compile_encoded_flat_state_fields(
        state_fields,
        stack_bindings,
        types,
        builder,
        bytecode_size,
        StateBuiltin::ValidateOutputStateWithTemplate,
    );
    let ghost s2 = script_of(*builder);
    let stack_depth = match r2 {
        Ok(d) => d,
        Err(e) => {
            proof {
                lemma_outcome_stops(s1, s2, c2, c3, r2, r2);
                lemma_outcome_then(s0, s1, s2, c1, cat_code(c2, c3), r1, r2);
            }
            return Err(e);
        },
    };
    let swap_cat = vec![Emit::Op(OP_SWAP, 0), Emit::Op(OP_CAT, -1)];
    assert(emit_chunks(swap_cat@) =~= seq![Chunk::Op(OP_SWAP), Chunk::Op(OP_CAT)]);
    assert(emit_delta(swap_cat@) == -1) by {
        reveal_with_fuel(emit_delta, 3);
    }
    let cat = vec![Emit::Op(OP_CAT, -1)];
    assert(emit_chunks(cat@) =~= seq![Chunk::Op(OP_CAT)]);
    assert(emit_delta(cat@) == -1) by {
        reveal_with_fuel(emit_delta, 2);
    }
    let check = vec![Emit::Op(OP_TX_OUTPUT_SPK, 0), Emit::Op(OP_EQUAL_VERIFY, -2)];
    assert(emit_chunks(check@) =~= seq![Chunk::Op(OP_TX_OUTPUT_SPK), Chunk::Op(OP_EQUAL_VERIFY)]);
    assert(emit_delta(check@) == -2) by {
        reveal_with_fuel(emit_delta, 3);
    }
    let output_steps = vec![
        Step::Eval(template_prefix.clone()),
        Step::Fixed(swap_cat),
        Step::Eval(template_suffix.clone()),
        Step::Fixed(cat),
        Step::Fixed(p2sh_items()),
        Step::Eval(output_idx.clone()),
        Step::Fixed(check),
    ];
    proof {
        assert(steps_view(output_steps@).len() == ov.len());
        assert forall|j: int| 0 <= j < ov.len() implies steps_view(output_steps@)[j] == ov[j] by {}
        assert(steps_view(output_steps@) =~= ov);
        assert forall|j: int| 0 <= j < output_steps@.len() implies (#[trigger] output_steps@[j]).well_sized() by {}
    }
    let mut emitter = ScriptEmitter::new(stack_depth);
    let r3 = emit_program(output_steps.as_slice(), &env, &mut emitter, builder);
    proof {
        lemma_outcome_then(s1, s2, script_of(*builder), c2, c3, r2, r3);
        lemma_outcome_then(s0, s1, script_of(*builder), c1, cat_code(c2, c3), r1, r3);
    }
    r3
}

} // verus!

//! Compiling an entrypoint: the checks of its parameters' encoded sizes, its body, and the
//! epilogue that leaves only its return values (or `true`) on the stack.

use vstd::prelude::*;

use kaspa_txscript::script_builder::ScriptBuilder;

use crate::recorder::{extends, lemma_extends_push, lemma_extends_refl, lemma_extends_trans, DebugRecorder, EventV};
use crate::ast::{BuiltinRegistry, ConstantAst, FunctionAst, ParamAst, Statement, StructRegistry};
use crate::layout::ContractFieldAst;
use crate::state_read::contract_fields_view;
use crate::type_map::TypeMap;
use crate::codegen::{
    cat_code, code_outcome, emit_program, is_fault, lemma_outcome_stops, lemma_outcome_then, program_code,
    steps_view, ExprEnv, Fault, NameFault, Step, StepV,
};
use crate::expr::{exprs_view, Expr, ExprV};
use crate::error::CompilerError;
use crate::opcodes::{
    OP_DIV, OP_DROP, OP_DUP, OP_LESS_THAN, OP_MOD, OP_NUM_EQUAL_VERIFY, OP_ROLL, OP_SIZE, OP_SWAP, OP_TRUE,
    OP_VERIFY,
};
use crate::script::{appended, code_of, emit_chunks, emits, lemma_appended_seq, Chunk, Emit};
use crate::stack::{binding_depth, copy_chunks, lemma_binding_depth, StackBindings};
use crate::statement::{
    block_calls_validate, blocks_from, compile_statement, join, lemma_block_calls_validate,
    lemma_block_calls_witness, lemma_blocks_from_end, lemma_blocks_from_step, lemma_join, lemma_join_refused,
    names_view, same_name, scope_done, state_offsets_fit, stmt_calls_validate, stmt_outcome,
    CompileStatementContext, Outcome, Scope, StmtEnv,
};
use crate::state_read::lemma_join_assoc;
use crate::types::{
    array_element_size, base_byte_sequence_len, fixed_type_size, spec_array_element_size,
    spec_fixed_type_size, ArrayDim, TypeRefV,
};
use crate::script::script_of;

verus! {

/// The name and type of each parameter.
pub open spec fn params_view(ps: Seq<ParamAst>) -> Seq<(Seq<char>, TypeRefV)> {
    ps.map_values(|p: ParamAst| (p.name@, p.type_ref@))
}

/// The names of each group.
pub open spec fn groups_view(gs: Seq<Vec<String>>) -> Seq<Seq<Seq<char>>> {
    gs.map_values(|g: Vec<String>| names_view(g@))
}

/// Whether `name` is a leaf of one of the struct-array parameter groups.
pub open spec fn is_grouped(gs: Seq<Seq<Seq<char>>>, name: Seq<char>) -> bool {
    exists|i: int| 0 <= i < gs.len() && #[trigger] gs[i].contains(name)
}

/// The first parameter named `name`.
pub open spec fn find_param(ps: Seq<(Seq<char>, TypeRefV)>, name: Seq<char>) -> Option<(Seq<char>, TypeRefV)>
    decreases ps.len(),
{
    if ps.len() == 0 {
        None
    } else if ps[0].0 == name {
        Some(ps[0])
    } else {
        find_param(ps.drop_first(), name)
    }
}

/// The exact encoded size of a parameter of type `t`, where it has one.
pub open spec fn exact_param_size(t: TypeRefV) -> Result<Option<nat>, CompilerError> {
    if t.dims.len() > 0 {
        spec_fixed_type_size(t)
    } else if t.base is Byte {
        Ok(Some(1))
    } else {
        Ok(base_byte_sequence_len(t.base))
    }
}

/// Whether `t`'s outermost dimension is a run-time length.
pub open spec fn is_dynamic_array_type(t: TypeRefV) -> bool {
    t.dims.len() > 0 && t.dims.last() == ArrayDim::Dynamic
}

/// Whether `t` is a single script number.
pub open spec fn is_int_like_type(t: TypeRefV) -> bool {
    t.dims.len() == 0 && (t.base is Int || t.base is Temporal)
}

/// Whether `t` is a single bool.
pub open spec fn is_bool_type(t: TypeRefV) -> bool {
    t.dims.len() == 0 && t.base is Bool
}

/// The check, with the parameter's size on top of the stack, that the size is right: equal
/// to an exact size; a multiple of the element size for a dynamic array; otherwise below
/// the widest encoding of a script number (nine bytes) or of a bool (two).
pub open spec fn size_check(name: Seq<char>, t: TypeRefV, exact: Option<nat>) -> Result<Seq<Chunk>, Fault> {
    match exact {
        Some(n) => if n > i64::MAX {
            Err(Fault::Named(NameFault::ParameterTooLarge, name))
        } else {
            Ok(seq![Chunk::Int(n as i64), Chunk::Op(OP_NUM_EQUAL_VERIFY)])
        },
        None => if is_dynamic_array_type(t) {
            match spec_array_element_size(t) {
                Err(e) => Err(Fault::Is(e)),
                Ok(Some(m)) => Ok(seq![Chunk::Int(m as i64), Chunk::Op(OP_MOD), Chunk::Int(0), Chunk::Op(OP_NUM_EQUAL_VERIFY)]),
                Ok(None) => Err(Fault::Unsupported),
            }
        } else {
            Ok(seq![Chunk::Int(if is_bool_type(t) { 2 } else { 9 }), Chunk::Op(OP_LESS_THAN), Chunk::Op(OP_VERIFY)])
        },
    }
}

/// The check of one parameter's encoded size: copy it, take its size, check the size, drop
/// it. Parameters of a type with no size to check get none.
pub open spec fn param_size_check(b: Seq<Seq<char>>, name: Seq<char>, t: TypeRefV) -> Result<Seq<Chunk>, Fault> {
    match exact_param_size(t) {
        Err(e) => Err(Fault::Is(e)),
        Ok(exact) => if exact is None && !is_dynamic_array_type(t) && !is_int_like_type(t) && !is_bool_type(t) {
            Ok(Seq::empty())
        } else {
            match binding_depth(b, name) {
                None => Err(Fault::Undefined(name)),
                Some(k) => if k > i64::MAX {
                    Err(Fault::Overflow)
                } else {
                    cat_code(
                        Ok(copy_chunks(k as i64)),
                        cat_code(
                            Ok(seq![Chunk::Op(OP_SIZE)]),
                            cat_code(size_check(name, t, exact), Ok(seq![Chunk::Op(OP_DROP)])),
                        ),
                    )
                },
            }
        },
    }
}

/// The size checks of parameters `i ..`, skipping the grouped ones.
pub open spec fn params_check_from(
    b: Seq<Seq<char>>,
    ps: Seq<(Seq<char>, TypeRefV)>,
    gs: Seq<Seq<Seq<char>>>,
    i: int,
) -> Result<Seq<Chunk>, Fault>
    decreases ps.len() - i,
{
    if i < 0 || i >= ps.len() {
        Ok(Seq::empty())
    } else {
        cat_code(
            if is_grouped(gs, ps[i].0) {
                Ok(Seq::empty())
            } else {
                param_size_check(b, ps[i].0, ps[i].1)
            },
            params_check_from(b, ps, gs, i + 1),
        )
    }
}

/// Copies the dynamic-array parameter `name` (`depth` values above the bindings), checks
/// that its size is a multiple of its element size, and leaves its element count.
pub open spec fn leaf_length_code(b: Seq<Seq<char>>, ps: Seq<(Seq<char>, TypeRefV)>, name: Seq<char>, depth: int) -> Result<
    Seq<Chunk>,
    Fault,
> {
    match find_param(ps, name) {
        None => Err(Fault::Undefined(name)),
        Some(p) => match spec_array_element_size(p.1) {
            Err(e) => Err(Fault::Is(e)),
            Ok(None) => Err(Fault::Unsupported),
            Ok(Some(m)) => match binding_depth(b, name) {
                None => Err(Fault::Undefined(name)),
                Some(k) => if k > i64::MAX || k + depth > i64::MAX {
                    Err(Fault::Overflow)
                } else {
                    Ok(
                        copy_chunks((k + depth) as i64) + seq![
                            Chunk::Op(OP_SIZE),
                            Chunk::Op(OP_DUP),
                            Chunk::Int(m as i64),
                            Chunk::Op(OP_MOD),
                            Chunk::Int(0),
                            Chunk::Op(OP_NUM_EQUAL_VERIFY),
                            Chunk::Op(OP_SWAP),
                            Chunk::Op(OP_DROP),
                        ] + if m != 1 {
                            seq![Chunk::Int(m as i64), Chunk::Op(OP_DIV)]
                        } else {
                            Seq::empty()
                        },
                    )
                },
            },
        },
    }
}

/// The leaves `i ..` of a group after its first: each one's element count, checked equal
/// to the first one's.
pub open spec fn leaves_from(b: Seq<Seq<char>>, ps: Seq<(Seq<char>, TypeRefV)>, g: Seq<Seq<char>>, i: int) -> Result<
    Seq<Chunk>,
    Fault,
>
    decreases g.len() - i,
{
    if i < 1 || i >= g.len() {
        Ok(Seq::empty())
    } else {
        cat_code(
            Ok(seq![Chunk::Op(OP_DUP)]),
            cat_code(
                leaf_length_code(b, ps, g[i], 2),
                cat_code(Ok(seq![Chunk::Op(OP_NUM_EQUAL_VERIFY)]), leaves_from(b, ps, g, i + 1)),
            ),
        )
    }
}

/// The check that every leaf of a struct-array group holds the same number of elements.
pub open spec fn group_code(b: Seq<Seq<char>>, ps: Seq<(Seq<char>, TypeRefV)>, g: Seq<Seq<char>>) -> Result<
    Seq<Chunk>,
    Fault,
> {
    if g.len() == 0 {
        Ok(Seq::empty())
    } else {
        cat_code(
            leaf_length_code(b, ps, g[0], 0),
            cat_code(leaves_from(b, ps, g, 1), Ok(seq![Chunk::Op(OP_DROP)])),
        )
    }
}

/// The checks of groups `j ..`.
pub open spec fn groups_from(b: Seq<Seq<char>>, ps: Seq<(Seq<char>, TypeRefV)>, gs: Seq<Seq<Seq<char>>>, j: int) -> Result<
    Seq<Chunk>,
    Fault,
>
    decreases gs.len() - j,
{
    if j < 0 || j >= gs.len() {
        Ok(Seq::empty())
    } else {
        cat_code(group_code(b, ps, gs[j]), groups_from(b, ps, gs, j + 1))
    }
}

/// All the size checks of an entrypoint's parameters.
pub open spec fn param_validations_code(
    b: Seq<Seq<char>>,
    ps: Seq<(Seq<char>, TypeRefV)>,
    gs: Seq<Seq<Seq<char>>>,
) -> Result<Seq<Chunk>, Fault> {
    cat_code(params_check_from(b, ps, gs, 0), groups_from(b, ps, gs, 0))
}

/// What type checking and struct lowering guarantee of an entrypoint's parameters: each is
/// bound on the stack, each dynamic array has elements of a fixed size, and each leaf of a
/// struct-array group is such a parameter.
pub open spec fn params_checkable(b: Seq<Seq<char>>, ps: Seq<(Seq<char>, TypeRefV)>, gs: Seq<Seq<Seq<char>>>) -> bool {
    &&& forall|i: int| 0 <= i < ps.len() ==> b.contains(#[trigger] ps[i].0)
    &&& forall|i: int| 0 <= i < ps.len() && is_dynamic_array_type(#[trigger] ps[i].1) ==> spec_array_element_size(ps[i].1) != Ok::<Option<int>, CompilerError>(None)
    &&& forall|j: int, k: int| 0 <= j < gs.len() && 0 <= k < gs[j].len() ==> leaf_checkable(b, ps, #[trigger] gs[j][k])
}

/// Whether `name` is a bound parameter with a dynamic array of fixed-size elements.
pub open spec fn leaf_checkable(b: Seq<Seq<char>>, ps: Seq<(Seq<char>, TypeRefV)>, name: Seq<char>) -> bool {
    &&& find_param(ps, name) matches Some(p) && p.1.dims.len() > 0 && spec_array_element_size(p.1) != Ok::<
        Option<int>,
        CompilerError,
    >(None)
    &&& b.contains(name)
}

/// Whether `name` is a leaf of one of `groups`.
fn is_grouped_leaf(groups: &[Vec<String>], name: &str) -> (r: bool)
    ensures
        r == is_grouped(groups_view(groups@), name@),
{
    let ghost gs = groups_view(groups@);
    for i in 0..groups.len()
        invariant
            gs == groups_view(groups@),
            forall|j: int| 0 <= j < i ==> !(#[trigger] gs[j]).contains(name@),
    {
        assert(gs[i as int] == names_view(groups@[i as int]@));
        let group = &groups[i];
        for k in 0..group.len()
            invariant
                group@ == groups@[i as int]@,
                gs == groups_view(groups@),
                i < groups@.len(),
                gs[i as int] == names_view(groups@[i as int]@),
                forall|q: int| 0 <= q < k ==> gs[i as int][q] != name@,
        {
            if same_name(group[k].as_str(), name) {
                assert(gs[i as int][k as int] == name@);
                assert(gs[i as int].contains(name@));
                return true;
            }
        }
        assert(!gs[i as int].contains(name@));
    }
    false
}

/// Emits a short fixed run of code.
fn emit_fixed(builder: &mut ScriptBuilder, items: Vec<Emit>) -> (r: Result<(), CompilerError>)
    requires
        items@.len() <= 16,
        forall|i: int| 0 <= i < items@.len() ==> -2 <= #[trigger] items@[i].delta() <= 2,
    ensures
        appended(r, script_of(*old(builder)), script_of(*final(builder)), emit_chunks(items@)),
{
    let mut emitter = crate::script::ScriptEmitter::new(0);
    crate::codegen::emit_tail_pub(&mut emitter, builder, items)
}

/// The check of one parameter's size.
fn emit_param_size_check(param: &ParamAst, stack_bindings: &StackBindings, builder: &mut ScriptBuilder) -> (r:
    Result<(), CompilerError>)
    requires
        stack_bindings@.contains(param.name@),
        is_dynamic_array_type(param.type_ref@) ==> spec_array_element_size(param.type_ref@) != Ok::<
            Option<int>,
            CompilerError,
        >(None),
    ensures
        code_outcome(
            r,
            param_size_check(stack_bindings@, param.name@, param.type_ref@),
            script_of(*old(builder)),
            script_of(*final(builder)),
        ),
{
    let ghost b = stack_bindings@;
    let ghost t = param.type_ref@;
    let ghost name = param.name@;
    let ghost s0 = script_of(*builder);
    let exact_size: Option<usize> = if param.type_ref.is_array() {
        fixed_type_size(&param.type_ref)?
    } else if param.type_ref.is_byte() {
        Some(1)
    } else {
        param.type_ref.base.fixed_byte_sequence_len()
    };
    let ghost exact: Option<nat> = match exact_size {
        Some(n) => Some(n as nat),
        None => None,
    };
    assert(exact_param_size(t) == Ok::<Option<nat>, CompilerError>(exact));
    let is_dynamic_array = param.type_ref.is_dynamic_array();
    if exact_size.is_none() && !is_dynamic_array && !param.type_ref.is_int_like() && !param.type_ref.is_bool() {
        return Ok(());
    }
    proof {
        lemma_binding_depth(b, name);
    }
    let ghost k = binding_depth(b, name)->Some_0;
    let ghost check = size_check(name, t, exact);
    let ghost tail = cat_code(Ok(seq![Chunk::Op(OP_SIZE)]), cat_code(check, Ok(seq![Chunk::Op(OP_DROP)])));
    let mut stack_depth: i64 = 0;
    let r0 = stack_bindings.emit_copy_binding_to_top(param.name.as_str(), &mut stack_depth, builder);
    let ghost s1 = script_of(*builder);
    if let Err(e) = r0 {
        proof {
            if k <= i64::MAX {
                lemma_outcome_stops(s0, s1, Ok(copy_chunks(k as i64)), tail, r0, r0);
            }
        }
        return Err(e);
    }
    let r1 = crate::script::add_op(builder, OP_SIZE);
    let ghost s2 = script_of(*builder);
    if let Err(e) = r1 {
        proof {
            lemma_outcome_stops(s1, s2, Ok(seq![Chunk::Op(OP_SIZE)]), cat_code(check, Ok(seq![Chunk::Op(OP_DROP)])), r1, r1);
            lemma_outcome_then(s0, s1, s2, Ok(copy_chunks(k as i64)), tail, r0, r1);
        }
        return Err(e);
    }
    let r2 = match exact_size {
        Some(expected_size) => {
            if expected_size as u64 > i64::MAX as u64 {
                Err(CompilerError::ParameterTooLarge(param.name.clone()))
            } else {
                let items = vec![Emit::Int(expected_size as i64), Emit::Op(OP_NUM_EQUAL_VERIFY, -2)];
                assert(emit_chunks(items@) =~= check->Ok_0);
                emit_fixed(builder, items)
            }
        },
        None => {
            if is_dynamic_array {
                match array_element_size(&param.type_ref) {
                    Err(e) => Err(e),
                    Ok(None) => Err(CompilerError::UnsupportedExpression),
                    Ok(Some(element_size)) => {
                        let items = vec![
                            Emit::Int(element_size),
                            Emit::Op(OP_MOD, -1),
                            Emit::Int(0),
                            Emit::Op(OP_NUM_EQUAL_VERIFY, -2),
                        ];
                        assert(emit_chunks(items@) =~= check->Ok_0);
                        emit_fixed(builder, items)
                    },
                }
            } else {
                let exclusive_max_size: i64 = if param.type_ref.is_bool() {
                    2
                } else {
                    9
                };
                let items = vec![
                    Emit::Int(exclusive_max_size),
                    Emit::Op(OP_LESS_THAN, -1),
                    Emit::Op(OP_VERIFY, -1),
                ];
                assert(emit_chunks(items@) =~= check->Ok_0);
                emit_fixed(builder, items)
            }
        },
    };
    let ghost s3 = script_of(*builder);
    assert(code_outcome(r2, check, s2, s3));
    if let Err(e) = r2 {
        proof {
            lemma_outcome_stops(s2, s3, check, Ok(seq![Chunk::Op(OP_DROP)]), r2, r2);
            lemma_outcome_then(s1, s2, s3, Ok(seq![Chunk::Op(OP_SIZE)]), cat_code(check, Ok(seq![Chunk::Op(OP_DROP)])), r1, r2);
            lemma_outcome_then(s0, s1, s3, Ok(copy_chunks(k as i64)), tail, r0, r2);
        }
        return Err(e);
    }
    let r3 = crate::script::add_op(builder, OP_DROP);
    proof {
        lemma_outcome_then(s2, s3, script_of(*builder), check, Ok(seq![Chunk::Op(OP_DROP)]), r2, r3);
        lemma_outcome_then(s1, s2, script_of(*builder), Ok(seq![Chunk::Op(OP_SIZE)]), cat_code(check, Ok(seq![Chunk::Op(OP_DROP)])), r1, r3);
        lemma_outcome_then(s0, s1, script_of(*builder), Ok(copy_chunks(k as i64)), tail, r0, r3);
    }
    r3
}

/// The position of the first parameter named `name`.
fn find_param_index(params: &[ParamAst], name: &str) -> (r: Option<usize>)
    ensures
        match r {
            Some(p) => p < params@.len() && find_param(params_view(params@), name@) == Some(
                params_view(params@)[p as int],
            ),
            None => find_param(params_view(params@), name@) is None,
        },
{
    let ghost pv = params_view(params@);
    let mut p: usize = 0;
    assert(pv.skip(0) == pv);
    while p < params.len()
        invariant
            pv == params_view(params@),
            p <= params@.len(),
            find_param(pv, name@) == find_param(pv.skip(p as int), name@),
        decreases params@.len() - p,
    {
        assert(pv.skip(p as int)[0] == pv[p as int]);
        assert(pv.skip(p as int).drop_first() == pv.skip(p + 1));
        if same_name(params[p].name.as_str(), name) {
            return Some(p);
        }
        p = p + 1;
    }
    None
}

/// Copies a dynamic-array parameter, verifies that its encoded byte size is divisible by its
/// fixed element size, and leaves the resulting element count on top of the stack. On
/// success, `stack_depth` therefore increases by exactly one.
pub fn emit_checked_dynamic_array_length(
    function: &FunctionAst,
    param_name: &str,
    stack_bindings: &StackBindings,
    stack_depth: &mut i64,
    builder: &mut ScriptBuilder,
) -> (r: Result<(), CompilerError>)
    requires
        leaf_checkable(stack_bindings@, params_view(function.params@), param_name@),
        *old(stack_depth) < i64::MAX,
    ensures
        code_outcome(
            r,
            leaf_length_code(stack_bindings@, params_view(function.params@), param_name@, *old(stack_depth) as int),
            script_of(*old(builder)),
            script_of(*final(builder)),
        ),
        r is Ok ==> *final(stack_depth) == *old(stack_depth) + 1,
{
    let ghost b = stack_bindings@;
    let ghost ps = params_view(function.params@);
    let ghost s0 = script_of(*builder);
    let ghost d0 = *stack_depth as int;
    let p = match find_param_index(function.params.as_slice(), param_name) {
        Some(p) => p,
        None => {
            return Err(CompilerError::UndefinedIdentifier(param_name.to_owned()));
        },
    };
    let param = &function.params[p];
    assert(ps[p as int] == (param.name@, param.type_ref@));
    let element_size = match array_element_size(&param.type_ref)? {
        Some(m) => m,
        None => {
            return Err(CompilerError::UnsupportedExpression);
        },
    };
    proof {
        lemma_binding_depth(b, param_name@);
    }
    let ghost k = binding_depth(b, param_name@)->Some_0;
    let mut items = vec![
        Emit::Op(OP_SIZE, 1),
        Emit::Op(OP_DUP, 1),
        Emit::Int(element_size),
        Emit::Op(OP_MOD, -1),
        Emit::Int(0),
        Emit::Op(OP_NUM_EQUAL_VERIFY, -2),
        Emit::Op(OP_SWAP, 0),
        Emit::Op(OP_DROP, -1),
    ];
    if element_size != 1 {
        items.push(Emit::Int(element_size));
        items.push(Emit::Op(OP_DIV, -1));
    }
    let ghost tail = emit_chunks(items@);
    assert(tail =~= seq![
        Chunk::Op(OP_SIZE),
        Chunk::Op(OP_DUP),
        Chunk::Int(element_size),
        Chunk::Op(OP_MOD),
        Chunk::Int(0),
        Chunk::Op(OP_NUM_EQUAL_VERIFY),
        Chunk::Op(OP_SWAP),
        Chunk::Op(OP_DROP),
    ] + if element_size != 1 {
        seq![Chunk::Int(element_size), Chunk::Op(OP_DIV)]
    } else {
        Seq::empty()
    });
    proof {
        if k <= i64::MAX && k + d0 <= i64::MAX {
            let fixed = seq![
                Chunk::Op(OP_SIZE),
                Chunk::Op(OP_DUP),
                Chunk::Int(element_size),
                Chunk::Op(OP_MOD),
                Chunk::Int(0),
                Chunk::Op(OP_NUM_EQUAL_VERIFY),
                Chunk::Op(OP_SWAP),
                Chunk::Op(OP_DROP),
            ];
            let extra = if element_size != 1 {
                seq![Chunk::Int(element_size), Chunk::Op(OP_DIV)]
            } else {
                Seq::empty()
            };
            let copy = copy_chunks((k + d0) as i64);
            assert(copy + fixed + extra =~= copy + tail);
        }
    }
    let copied = match stack_bindings.emit_copy_binding_to_top(param_name, stack_depth, builder) {
        Ok(c) => c,
        Err(e) => {
            proof {
                if k <= i64::MAX && k + d0 <= i64::MAX {
                    crate::script::lemma_emits_append(s0, copy_chunks((k + d0) as i64), tail);
                }
            }
            return Err(e);
        },
    };
    if !copied {
        return Err(CompilerError::UndefinedIdentifier(param_name.to_owned()));
    }
    let ghost s1 = script_of(*builder);
    let r = emit_fixed(builder, items);
    proof {
        lemma_appended_seq(s0, s1, script_of(*builder), copy_chunks((k + d0) as i64), tail, r);
    }
    r
}

/// The check that every leaf of one struct-array group holds the same number of elements.
fn emit_group_check(
    function: &FunctionAst,
    group: &Vec<String>,
    stack_bindings: &StackBindings,
    builder: &mut ScriptBuilder,
) -> (r: Result<(), CompilerError>)
    requires
        forall|k: int| 0 <= k < group@.len() ==> leaf_checkable(stack_bindings@, params_view(function.params@), #[trigger] group@[k]@),
    ensures
        code_outcome(
            r,
            group_code(stack_bindings@, params_view(function.params@), names_view(group@)),
            script_of(*old(builder)),
            script_of(*final(builder)),
        ),
{
    let ghost b = stack_bindings@;
    let ghost ps = params_view(function.params@);
    let ghost g = names_view(group@);
    let ghost s0 = script_of(*builder);
    if group.len() == 0 {
        return Ok(());
    }
    let ghost drop = Ok::<Seq<Chunk>, Fault>(seq![Chunk::Op(OP_DROP)]);
    let ghost whole = group_code(b, ps, g);
    let ghost first = leaf_length_code(b, ps, g[0], 0);
    assert(g[0] == group@[0]@);
    let mut transient_stack_depth: i64 = 0;
    let r0 = emit_checked_dynamic_array_length(function, group[0].as_str(), stack_bindings, &mut transient_stack_depth, builder);
    let ghost s1 = script_of(*builder);
    if let Err(e) = r0 {
        proof {
            lemma_outcome_stops(s0, s1, first, cat_code(leaves_from(b, ps, g, 1), drop), r0, r0);
        }
        return Err(e);
    }
    let ghost mut done: Seq<Chunk> = first->Ok_0;
    proof {
        assert(whole == cat_code(Ok(done), cat_code(leaves_from(b, ps, g, 1), drop)));
    }
    let mut i: usize = 1;
    while i < group.len()
        invariant
            1 <= i <= group@.len(),
            g == names_view(group@),
            b == stack_bindings@,
            ps == params_view(function.params@),
            forall|k: int| 0 <= k < group@.len() ==> leaf_checkable(b, ps, #[trigger] group@[k]@),
            whole == group_code(b, ps, g),
            whole == cat_code(Ok(done), cat_code(leaves_from(b, ps, g, i as int), drop)),
            s0 == script_of(*old(builder)),
            emits(s0, done),
            script_of(*builder) == s0 + code_of(done),
            transient_stack_depth == 1,
        decreases group@.len() - i,
    {
        let ghost s2 = script_of(*builder);
        let ghost leaf = leaf_length_code(b, ps, g[i as int], 2);
        let ghost after = cat_code(Ok(seq![Chunk::Op(OP_NUM_EQUAL_VERIFY)]), leaves_from(b, ps, g, i + 1));
        let ghost step = cat_code(Ok(seq![Chunk::Op(OP_DUP)]), cat_code(leaf, after));
        assert(leaves_from(b, ps, g, i as int) == step);
        assert(g[i as int] == group@[i as int]@);
        proof {
            crate::codegen::lemma_cat_code_assoc3(step, drop, Ok(Seq::empty()));
            crate::codegen::lemma_cat_code_assoc(done, step, drop);
        }
        let ghost step_rest = cat_code(cat_code(leaf, after), drop);
        let r1 = crate::script::add_op(builder, OP_DUP);
        let ghost s3 = script_of(*builder);
        proof {
            crate::codegen::lemma_cat_code_assoc3(Ok(seq![Chunk::Op(OP_DUP)]), cat_code(leaf, after), drop);
        }
        if let Err(e) = r1 {
            proof {
                lemma_outcome_stops(s2, s3, Ok(seq![Chunk::Op(OP_DUP)]), step_rest, r1, r1);
                lemma_outcome_then(s0, s2, s3, Ok(done), cat_code(Ok(seq![Chunk::Op(OP_DUP)]), step_rest), Ok::<(), CompilerError>(()), r1);
            }
            return Err(e);
        }
        transient_stack_depth = transient_stack_depth + 1;
        let r2 = emit_checked_dynamic_array_length(function, group[i].as_str(), stack_bindings, &mut transient_stack_depth, builder);
        let ghost s4 = script_of(*builder);
        proof {
            crate::codegen::lemma_cat_code_assoc3(leaf, after, drop);
        }
        if let Err(e) = r2 {
            proof {
                lemma_outcome_stops(s3, s4, leaf, cat_code(after, drop), r2, r2);
                lemma_outcome_then(s2, s3, s4, Ok(seq![Chunk::Op(OP_DUP)]), step_rest, r1, r2);
                lemma_outcome_then(s0, s2, s4, Ok(done), cat_code(Ok(seq![Chunk::Op(OP_DUP)]), step_rest), Ok::<(), CompilerError>(()), r2);
            }
            return Err(e);
        }
        let r3 = crate::script::add_op(builder, OP_NUM_EQUAL_VERIFY);
        let ghost s5 = script_of(*builder);
        let ghost rest2 = cat_code(leaves_from(b, ps, g, i + 1), drop);
        proof {
            crate::codegen::lemma_cat_code_assoc3(Ok(seq![Chunk::Op(OP_NUM_EQUAL_VERIFY)]), leaves_from(b, ps, g, i + 1), drop);
        }
        if let Err(e) = r3 {
            proof {
                lemma_outcome_stops(s4, s5, Ok(seq![Chunk::Op(OP_NUM_EQUAL_VERIFY)]), rest2, r3, r3);
                lemma_outcome_then(s3, s4, s5, leaf, cat_code(after, drop), r2, r3);
                lemma_outcome_then(s2, s3, s5, Ok(seq![Chunk::Op(OP_DUP)]), step_rest, r1, r3);
                lemma_outcome_then(s0, s2, s5, Ok(done), cat_code(Ok(seq![Chunk::Op(OP_DUP)]), step_rest), Ok::<(), CompilerError>(()), r3);
            }
            return Err(e);
        }
        transient_stack_depth = transient_stack_depth - 2;
        let ghost piece = seq![Chunk::Op(OP_DUP)] + leaf->Ok_0 + seq![Chunk::Op(OP_NUM_EQUAL_VERIFY)];
        proof {
            lemma_appended_seq(s2, s3, s4, seq![Chunk::Op(OP_DUP)], leaf->Ok_0, r2);
            lemma_appended_seq(s2, s4, s5, seq![Chunk::Op(OP_DUP)] + leaf->Ok_0, seq![Chunk::Op(OP_NUM_EQUAL_VERIFY)], r3);
            lemma_appended_seq(s0, s2, s5, done, piece, r3);
            assert(cat_code(Ok(done), cat_code(Ok(piece), rest2)) == whole) by {
                crate::codegen::lemma_cat_code_assoc(seq![Chunk::Op(OP_DUP)] + leaf->Ok_0, Ok(seq![Chunk::Op(OP_NUM_EQUAL_VERIFY)]), rest2);
                crate::codegen::lemma_cat_code_assoc(seq![Chunk::Op(OP_DUP)], leaf, cat_code(Ok(seq![Chunk::Op(OP_NUM_EQUAL_VERIFY)]), rest2));
            }
            crate::codegen::lemma_cat_code_assoc(done, Ok(piece), rest2);
            done = done + piece;
        }
        i = i + 1;
    }
    let ghost s6 = script_of(*builder);
    let r4 = crate::script::add_op(builder, OP_DROP);
    proof {
        assert(leaves_from(b, ps, g, i as int) == Ok::<Seq<Chunk>, Fault>(Seq::empty()));
        lemma_appended_seq(s0, s6, script_of(*builder), done, seq![Chunk::Op(OP_DROP)], r4);
        assert(Seq::<Chunk>::empty() + seq![Chunk::Op(OP_DROP)] == seq![Chunk::Op(OP_DROP)]);
    }
    r4
}

/// Checks the encoded size of each entrypoint parameter against its type, and that every
/// leaf of each struct-array parameter group holds the same number of elements.
pub fn compile_param_size_validations(
    function: &FunctionAst,
    struct_array_param_groups: &[Vec<String>],
    stack_bindings: &StackBindings,
    builder: &mut ScriptBuilder,
) -> (r: Result<(), CompilerError>)
    requires
        params_checkable(stack_bindings@, params_view(function.params@), groups_view(struct_array_param_groups@)),
    ensures
        code_outcome(
            r,
            param_validations_code(stack_bindings@, params_view(function.params@), groups_view(struct_array_param_groups@)),
            script_of(*old(builder)),
            script_of(*final(builder)),
        ),
{
    let ghost b = stack_bindings@;
    let ghost ps = params_view(function.params@);
    let ghost gs = groups_view(struct_array_param_groups@);
    let ghost s0 = script_of(*builder);
    let ghost whole = param_validations_code(b, ps, gs);
    let ghost mut done: Seq<Chunk> = Seq::empty();
    proof {
        crate::codegen::lemma_cat_code_assoc(done, params_check_from(b, ps, gs, 0), groups_from(b, ps, gs, 0));
        if let Ok(c) = whole {
            assert(done + c == c);
        }
    }
    for i in 0..function.params.len()
        invariant
            b == stack_bindings@,
            ps == params_view(function.params@),
            gs == groups_view(struct_array_param_groups@),
            params_checkable(b, ps, gs),
            whole == param_validations_code(b, ps, gs),
            whole == cat_code(Ok(done), cat_code(params_check_from(b, ps, gs, i as int), groups_from(b, ps, gs, 0))),
            s0 == script_of(*old(builder)),
            emits(s0, done),
            script_of(*builder) == s0 + code_of(done),
    {
        let param = &function.params[i];
        assert(ps[i as int] == (param.name@, param.type_ref@));
        let ghost pc = if is_grouped(gs, param.name@) {
            Ok(Seq::empty())
        } else {
            param_size_check(b, param.name@, param.type_ref@)
        };
        let ghost rest = cat_code(params_check_from(b, ps, gs, i + 1), groups_from(b, ps, gs, 0));
        proof {
            crate::codegen::lemma_cat_code_assoc3(pc, params_check_from(b, ps, gs, i + 1), groups_from(b, ps, gs, 0));
        }
        // Grouped leaves are always dynamic arrays; their shape check is fused with the
        // group's element-count check below.
        if is_grouped_leaf(struct_array_param_groups, param.name.as_str()) {
            proof {
                assert(done + Seq::<Chunk>::empty() == done);
                crate::codegen::lemma_cat_code_assoc(done, Ok(Seq::empty()), rest);
            }
        } else {
            let ghost s1 = script_of(*builder);
            let r1 = emit_param_size_check(param, stack_bindings, builder);
            if let Err(e) = r1 {
                proof {
                    lemma_outcome_stops(s1, script_of(*builder), pc, rest, r1, r1);
                    lemma_outcome_then(s0, s1, script_of(*builder), Ok(done), cat_code(pc, rest), Ok::<(), CompilerError>(()), r1);
                }
                return Err(e);
            }
            proof {
                lemma_appended_seq(s0, s1, script_of(*builder), done, pc->Ok_0, r1);
                crate::script::lemma_code_of_append(done, pc->Ok_0);
                crate::codegen::lemma_cat_code_assoc(done, pc, rest);
                done = done + pc->Ok_0;
            }
        }
    }
    proof {
        assert(params_check_from(b, ps, gs, function.params@.len() as int) == Ok::<Seq<Chunk>, Fault>(Seq::empty()));
        crate::codegen::lemma_cat_code_assoc(done, Ok(Seq::empty()), groups_from(b, ps, gs, 0));
        assert(done + Seq::<Chunk>::empty() == done);
    }
    for j in 0..struct_array_param_groups.len()
        invariant
            b == stack_bindings@,
            ps == params_view(function.params@),
            gs == groups_view(struct_array_param_groups@),
            params_checkable(b, ps, gs),
            whole == param_validations_code(b, ps, gs),
            whole == cat_code(Ok(done), groups_from(b, ps, gs, j as int)),
            s0 == script_of(*old(builder)),
            emits(s0, done),
            script_of(*builder) == s0 + code_of(done),
    {
        let group = &struct_array_param_groups[j];
        assert(gs[j as int] == names_view(group@));
        let ghost gc = group_code(b, ps, gs[j as int]);
        let ghost rest = groups_from(b, ps, gs, j + 1);
        assert forall|k: int| 0 <= k < group@.len() implies leaf_checkable(b, ps, #[trigger] group@[k]@) by {
            assert(gs[j as int][k] == group@[k]@);
        }
        let ghost s1 = script_of(*builder);
        let r1 = emit_group_check(function, group, stack_bindings, builder);
        if let Err(e) = r1 {
            proof {
                lemma_outcome_stops(s1, script_of(*builder), gc, rest, r1, r1);
                lemma_outcome_then(s0, s1, script_of(*builder), Ok(done), cat_code(gc, rest), Ok::<(), CompilerError>(()), r1);
            }
            return Err(e);
        }
        proof {
            lemma_appended_seq(s0, s1, script_of(*builder), done, gc->Ok_0, r1);
            crate::script::lemma_code_of_append(done, gc->Ok_0);
            crate::codegen::lemma_cat_code_assoc(done, gc, rest);
            done = done + gc->Ok_0;
        }
    }
    proof {
        assert(groups_from(b, ps, gs, struct_array_param_groups@.len() as int) == Ok::<Seq<Chunk>, Fault>(Seq::empty()));
        assert(done + Seq::<Chunk>::empty() == done);
    }
    Ok(())
}

/// `n` drops.
pub open spec fn drop_all(n: nat) -> Seq<Chunk> {
    Seq::new(n, |i: int| Chunk::Op(OP_DROP))
}

/// `n` times: roll the value under the `count` return values to the top, and drop it.
pub open spec fn roll_drops(count: i64, n: nat) -> Seq<Chunk>
    decreases n,
{
    if n == 0 {
        Seq::empty()
    } else {
        roll_drops(count, (n - 1) as nat) + seq![Chunk::Int(count), Chunk::Op(OP_ROLL), Chunk::Op(OP_DROP)]
    }
}

pub proof fn lemma_roll_drops_prefix(count: i64, k: nat, n: nat)
    requires
        k <= n,
    ensures
        roll_drops(count, n).len() == 3 * n,
        roll_drops(count, n) == roll_drops(count, k) + roll_drops(count, n).skip(3 * k as int),
    decreases n,
{
    if n > 0 {
        if k < n {
            lemma_roll_drops_prefix(count, k, (n - 1) as nat);
            let prev = roll_drops(count, (n - 1) as nat);
            let step = seq![Chunk::Int(count), Chunk::Op(OP_ROLL), Chunk::Op(OP_DROP)];
            assert(roll_drops(count, n) =~= roll_drops(count, k) + roll_drops(count, n).skip(3 * k as int)) by {
                assert(prev =~= roll_drops(count, k) + prev.skip(3 * k as int));
                assert(roll_drops(count, n).skip(3 * k as int) =~= prev.skip(3 * k as int) + step);
            }
        } else {
            lemma_roll_drops_prefix(count, (n - 1) as nat, (n - 1) as nat);
            assert(roll_drops(count, n).skip(3 * k as int) =~= Seq::<Chunk>::empty());
        }
    } else {
        assert(roll_drops(count, n).skip(3 * k as int) =~= Seq::<Chunk>::empty());
    }
}

/// The steps that compute the first `m` return values.
pub open spec fn return_steps(rets: Seq<ExprV>, m: nat) -> Seq<StepV> {
    Seq::new(m, |k: int| StepV::Eval(rets[k]))
}

/// The end of an entrypoint, over the bindings `b` its body leaves: without return values,
/// drop every binding and push `true`; with them, compute each (paired with its declared
/// type) and then drop every binding from under them.
pub open spec fn epilogue_code(b: Seq<Seq<char>>, bytecode_size: Option<i64>, rets: Seq<ExprV>, return_types: nat) -> Result<
    Seq<Chunk>,
    Fault,
> {
    if rets.len() == 0 {
        Ok(drop_all(b.len()) + seq![Chunk::Op(OP_TRUE)])
    } else {
        cat_code(
            program_code(
                return_steps(rets, if rets.len() <= return_types { rets.len() } else { return_types }),
                b,
                bytecode_size,
                0,
            ),
            Ok(roll_drops(rets.len() as i64, b.len())),
        )
    }
}

/// Emits the end of an entrypoint.
fn emit_epilogue(ctx: &mut CompileStatementContext, return_exprs: &[Expr], return_types: usize) -> (r: Result<
    (),
    CompilerError,
>)
    ensures
        code_outcome(
            r,
            epilogue_code(old(ctx).stack_bindings@, old(ctx).bytecode_size, exprs_view(return_exprs@), return_types as nat),
            old(ctx).script(),
            final(ctx).script(),
        ),
        final(ctx).recorder@ == old(ctx).recorder@,
{
    let ghost b = ctx.stack_bindings@;
    let ghost s0 = ctx.script();
    let n = ctx.stack_bindings.len();
    let return_count = return_exprs.len();
    if return_count == 0 {
        let ghost whole = drop_all(n as nat) + seq![Chunk::Op(OP_TRUE)];
        for k in 0..n
            invariant
                n == b.len(),
                b == old(ctx).stack_bindings@,
                ctx.recorder@ == old(ctx).recorder@,
                return_exprs@.len() == 0,
                s0 == old(ctx).script(),
                whole == drop_all(n as nat) + seq![Chunk::Op(OP_TRUE)],
                emits(s0, drop_all(k as nat)),
                ctx.script() == s0 + code_of(drop_all(k as nat)),
        {
            let ghost s1 = ctx.script();
            let r = crate::script::add_op(&mut ctx.builder, OP_DROP);
            proof {
                assert(drop_all(k as nat) + seq![Chunk::Op(OP_DROP)] =~= drop_all((k + 1) as nat));
                if r is Err {
                    crate::script::lemma_refused_within(
                        s0,
                        drop_all(k as nat),
                        seq![Chunk::Op(OP_DROP)],
                        drop_all((n - k - 1) as nat) + seq![Chunk::Op(OP_TRUE)],
                    );
                    assert(drop_all(k as nat) + seq![Chunk::Op(OP_DROP)] + (drop_all((n - k - 1) as nat) + seq![
                        Chunk::Op(OP_TRUE),
                    ]) =~= whole);
                } else {
                    lemma_appended_seq(s0, s1, ctx.script(), drop_all(k as nat), seq![Chunk::Op(OP_DROP)], r);
                }
            }
            r?;
        }
        let ghost s1 = ctx.script();
        let r = crate::script::add_op(&mut ctx.builder, OP_TRUE);
        proof {
            lemma_appended_seq(s0, s1, ctx.script(), drop_all(n as nat), seq![Chunk::Op(OP_TRUE)], r);
        }
        return r;
    }
    let m = if return_count <= return_types {
        return_count
    } else {
        return_types
    };
    let mut steps: Vec<Step> = Vec::new();
    for k in 0..m
        invariant
            m <= return_exprs@.len(),
            steps@.len() == k,
            forall|j: int| 0 <= j < k ==> (#[trigger] steps@[j]).view_step() == StepV::Eval(return_exprs@[j]@),
            forall|j: int| 0 <= j < k ==> (#[trigger] steps@[j]).well_sized(),
    {
        steps.push(Step::Eval(return_exprs[k].clone()));
    }
    let ghost sv = return_steps(exprs_view(return_exprs@), m as nat);
    assert(steps_view(steps@) =~= sv);
    let ghost prog = program_code(sv, b, ctx.bytecode_size, 0);
    let ghost tail = roll_drops(return_count as i64, n as nat);
    let r1 = {
        let env = ExprEnv { stack_bindings: &ctx.stack_bindings, types: &ctx.types, bytecode_size: ctx.bytecode_size };
        let mut emitter = crate::script::ScriptEmitter::new(0);
        emit_program(steps.as_slice(), &env, &mut emitter, &mut ctx.builder)
    };
    let ghost s1 = ctx.script();
    if let Err(e) = r1 {
        proof {
            lemma_outcome_stops(s0, s1, prog, Ok(tail), r1, r1);
        }
        return Err(e);
    }
    let ghost pc = prog->Ok_0;
    proof {
        lemma_roll_drops_prefix(return_count as i64, 0, n as nat);
    }
    for k in 0..n
        invariant
            n == b.len(),
            b == old(ctx).stack_bindings@,
            ctx.recorder@ == old(ctx).recorder@,
            s0 == old(ctx).script(),
            tail == roll_drops(return_count as i64, n as nat),
            tail.len() == 3 * n,
            prog == Ok::<Seq<Chunk>, Fault>(pc),
            emits(s0, pc),
            s1 == s0 + code_of(pc),
            epilogue_code(b, old(ctx).bytecode_size, exprs_view(return_exprs@), return_types as nat) == cat_code(
                prog,
                Ok(tail),
            ),
            emits(s1, roll_drops(return_count as i64, k as nat)),
            ctx.script() == s1 + code_of(roll_drops(return_count as i64, k as nat)),
    {
        let ghost s2 = ctx.script();
        let step = vec![Emit::Int(return_count as i64), Emit::Op(OP_ROLL, -1), Emit::Op(OP_DROP, -1)];
        let ghost stepc = seq![Chunk::Int(return_count as i64), Chunk::Op(OP_ROLL), Chunk::Op(OP_DROP)];
        assert(emit_chunks(step@) =~= stepc);
        let r = emit_fixed(&mut ctx.builder, step);
        proof {
            assert(roll_drops(return_count as i64, (k + 1) as nat) == roll_drops(return_count as i64, k as nat) + stepc);
            if r is Err {
                lemma_roll_drops_prefix(return_count as i64, (k + 1) as nat, n as nat);
                crate::script::lemma_refused_within(s1, roll_drops(return_count as i64, k as nat), stepc, tail.skip(3 * (k + 1) as int));
                crate::script::lemma_emits_append(s0, pc, tail);
            } else {
                lemma_appended_seq(s1, s2, ctx.script(), roll_drops(return_count as i64, k as nat), stepc, r);
            }
        }
        if let Err(e) = r {
            return Err(e);
        }
    }
    proof {
        lemma_appended_seq(s0, s1, ctx.script(), pc, tail, Ok::<(), CompilerError>(()));
    }
    Ok(())
}

/// Each name given its type, in order: a later entry overrides an earlier one.
pub open spec fn insert_all(m: Map<Seq<char>, TypeRefV>, es: Seq<(Seq<char>, TypeRefV)>) -> Map<Seq<char>, TypeRefV>
    decreases es.len(),
{
    if es.len() == 0 {
        m
    } else {
        insert_all(m, es.drop_last()).insert(es.last().0, es.last().1)
    }
}

/// The name and type of each constant.
pub open spec fn constants_view(cs: Seq<ConstantAst>) -> Seq<(Seq<char>, TypeRefV)> {
    cs.map_values(|c: ConstantAst| (c.name@, c.type_ref@))
}

/// The names of `es`, the last first.
pub open spec fn reversed_names(es: Seq<(Seq<char>, TypeRefV)>) -> Seq<Seq<char>> {
    Seq::new(es.len(), |i: int| es[es.len() - 1 - i].0)
}

/// The scope an entrypoint's body starts in: the contract's parameters, constants, the
/// entrypoint's parameters and the contract's fields declared, in that order; the
/// parameters bound on the stack with the last one on top, and the fields above them with
/// the last one on top.
pub open spec fn entry_scope(
    contract_params: Seq<(Seq<char>, TypeRefV)>,
    constants: Seq<(Seq<char>, TypeRefV)>,
    params: Seq<(Seq<char>, TypeRefV)>,
    fields: Seq<(Seq<char>, TypeRefV)>,
) -> Scope {
    Scope {
        types: insert_all(insert_all(insert_all(insert_all(Map::empty(), contract_params), constants), params), fields),
        bindings: reversed_names(fields) + reversed_names(params),
    }
}

/// Whether a body ends in a `return`.
pub open spec fn ends_in_return(body: Seq<Statement>) -> bool {
    body.len() > 0 && body.last() is Return
}

/// The statements of a body that are compiled as statements: all but a final `return`.
pub open spec fn body_statements(body: Seq<Statement>) -> Seq<Statement> {
    if ends_in_return(body) {
        body.drop_last()
    } else {
        body
    }
}

/// The values a body returns: those of its final `return`, if it has one.
pub open spec fn return_values(body: Seq<Statement>) -> Seq<ExprV> {
    if ends_in_return(body) {
        match body.last() {
            Statement::Return { exprs } => exprs_view(exprs@),
            _ => Seq::empty(),
        }
    } else {
        Seq::empty()
    }
}

/// The code of an entrypoint: its parameter checks, its body's statements, and its epilogue
/// over the bindings the body leaves.
pub open spec fn entry_code(
    env: StmtEnv,
    sc0: Scope,
    ps: Seq<(Seq<char>, TypeRefV)>,
    gs: Seq<Seq<Seq<char>>>,
    body: Seq<Statement>,
    return_types: nat,
) -> Result<Seq<Chunk>, Fault> {
    cat_code(
        param_validations_code(sc0.bindings, ps, gs),
        match blocks_from(env, sc0, body_statements(body), 0) {
            Err(f) => Err(f),
            Ok((bc, sc1, _)) => cat_code(
                Ok(bc),
                epilogue_code(sc1.bindings, env.bytecode_size, return_values(body), return_types),
            ),
        },
    )
}

/// Whether the result of compiling an entrypoint is its code `code`: its name and exactly
/// that script when the builder takes it all; otherwise the fault, or the builder's refusal.
pub open spec fn entry_done(r: Result<(String, Vec<u8>), CompilerError>, name: Seq<char>, code: Result<Seq<Chunk>, Fault>) -> bool {
    match code {
        Ok(cs) => {
            &&& (r is Ok <==> emits(Seq::empty(), cs))
            &&& (r matches Ok((n, bytes)) ==> n@ == name && bytes@ == code_of(cs))
            &&& (r matches Err(e) ==> e == CompilerError::ScriptRejected)
        },
        Err(f) => r matches Err(e) && (is_fault(e, f) || e == CompilerError::ScriptRejected),
    }
}

/// What type checking and struct lowering guarantee of an entrypoint's parameters: each
/// dynamic array has elements of a fixed size, and each leaf of a struct-array group is such
/// a parameter.
pub open spec fn params_typed(ps: Seq<(Seq<char>, TypeRefV)>, gs: Seq<Seq<Seq<char>>>) -> bool {
    &&& forall|i: int| 0 <= i < ps.len() && is_dynamic_array_type(#[trigger] ps[i].1) ==> spec_array_element_size(ps[i].1) != Ok::<Option<int>, CompilerError>(None)
    &&& forall|j: int, k: int| 0 <= j < gs.len() && 0 <= k < gs[j].len() ==> leaf_typed(ps, #[trigger] gs[j][k])
}

/// Whether `name` is a parameter with a dynamic array of fixed-size elements.
pub open spec fn leaf_typed(ps: Seq<(Seq<char>, TypeRefV)>, name: Seq<char>) -> bool {
    find_param(ps, name) matches Some(p) && p.1.dims.len() > 0 && spec_array_element_size(p.1) != Ok::<
        Option<int>,
        CompilerError,
    >(None)
}

pub proof fn lemma_find_param_is_param(ps: Seq<(Seq<char>, TypeRefV)>, name: Seq<char>)
    requires
        find_param(ps, name) is Some,
    ensures
        exists|q: int| 0 <= q < ps.len() && ps[q].0 == name,
    decreases ps.len(),
{
    if ps[0].0 != name {
        lemma_find_param_is_param(ps.drop_first(), name);
        let q = choose|q: int| 0 <= q < ps.drop_first().len() && ps.drop_first()[q].0 == name;
        assert(ps[q + 1].0 == name);
    }
}

/// Gives each entry its type, in order.
fn insert_params(types: &mut TypeMap, params: &[ParamAst])
    ensures
        final(types)@ == insert_all(old(types)@, params_view(params@)),
{
    let ghost pv = params_view(params@);
    for i in 0..params.len()
        invariant
            pv == params_view(params@),
            types@ == insert_all(old(types)@, pv.take(i as int)),
    {
        types.insert(params[i].name.clone(), params[i].type_ref.clone());
        assert(pv.take(i + 1).drop_last() == pv.take(i as int));
    }
    assert(pv.take(params@.len() as int) == pv);
}

fn insert_constants(types: &mut TypeMap, constants: &[ConstantAst])
    ensures
        final(types)@ == insert_all(old(types)@, constants_view(constants@)),
{
    let ghost cv = constants_view(constants@);
    for i in 0..constants.len()
        invariant
            cv == constants_view(constants@),
            types@ == insert_all(old(types)@, cv.take(i as int)),
    {
        types.insert(constants[i].name.clone(), constants[i].type_ref.clone());
        assert(cv.take(i + 1).drop_last() == cv.take(i as int));
    }
    assert(cv.take(constants@.len() as int) == cv);
}

fn insert_fields(types: &mut TypeMap, fields: &[ContractFieldAst])
    ensures
        final(types)@ == insert_all(old(types)@, contract_fields_view(fields@)),
{
    let ghost fv = contract_fields_view(fields@);
    for i in 0..fields.len()
        invariant
            fv == contract_fields_view(fields@),
            types@ == insert_all(old(types)@, fv.take(i as int)),
    {
        types.insert(fields[i].name.clone(), fields[i].type_ref.clone());
        assert(fv.take(i + 1).drop_last() == fv.take(i as int));
    }
    assert(fv.take(fields@.len() as int) == fv);
}

/// The entrypoint's parameters bound on the stack, the last one on top, with the contract's
/// fields above them, the last one on top.
fn entry_stack_bindings(params: &[ParamAst], fields: &[ContractFieldAst]) -> (r: StackBindings)
    requires
        params@.len() <= i64::MAX,
    ensures
        r@ == reversed_names(contract_fields_view(fields@)) + reversed_names(params_view(params@)),
{
    let ghost pv = params_view(params@);
    let param_count = params.len();
    let mut depths: Vec<(String, i64)> = Vec::new();
    for index in 0..param_count
        invariant
            param_count == params@.len(),
            param_count <= i64::MAX,
            depths@.len() == index,
            forall|j: int| 0 <= j < index ==> (#[trigger] depths@[j]).0@ == params@[j].name@ && depths@[j].1 == param_count - 1 - j,
    {
        depths.push((params[index].name.clone(), (param_count - 1 - index) as i64));
    }
    let mut stack_bindings = StackBindings::from_depths(depths);
    assert(stack_bindings@ =~= reversed_names(pv)) by {
        assert forall|j: int| 0 <= j < pv.len() implies stack_bindings@[j] == reversed_names(pv)[j] by {
            let i = pv.len() - 1 - j;
            assert(depths@[i].1 == j);
            assert(stack_bindings@[depths@[i].1 as int] == depths@[i].0@);
        }
    }
    let ghost fv = contract_fields_view(fields@);
    for i in 0..fields.len()
        invariant
            fv == contract_fields_view(fields@),
            stack_bindings@ == reversed_names(fv.take(i as int)) + reversed_names(pv),
    {
        let ghost before = stack_bindings@;
        stack_bindings.push_binding(fields[i].name.as_str());
        assert(reversed_names(fv.take(i + 1)) =~= seq![fields@[i as int].name@] + reversed_names(fv.take(i as int)));
        assert(stack_bindings@ =~= reversed_names(fv.take(i + 1)) + reversed_names(pv));
    }
    assert(fv.take(fields@.len() as int) == fv);
    stack_bindings
}

/// A statement fault met in an entrypoint's body, or the builder's refusal of its code, is
/// the entrypoint's.
pub proof fn lemma_body_err<T>(
    s1: Seq<u8>,
    s2: Seq<u8>,
    o: Outcome,
    r: Result<T, CompilerError>,
    sc: Scope,
    bytecode_size: Option<i64>,
    rets: Seq<ExprV>,
    return_types: nat,
)
    requires
        scope_done(r, o, s1, s2, sc),
        r is Err,
    ensures
        code_outcome(
            r,
            match o {
                Err(f) => Err(f),
                Ok((c, s, _)) => cat_code(Ok(c), epilogue_code(s.bindings, bytecode_size, rets, return_types)),
            },
            s1,
            s2,
        ),
{
    if let Ok((c, s, _)) = o {
        if let Ok(t) = epilogue_code(s.bindings, bytecode_size, rets, return_types) {
            crate::script::lemma_emits_append(s1, c, t);
        }
    }
}

/// Compiles the statements of an entrypoint's body in turn. Unlike a block's, the stack
/// locals they add stay bound: the epilogue drops every binding at once.
fn compile_body_statements(ctx: &mut CompileStatementContext, statements: &[Statement]) -> (r: Result<(), CompilerError>)
    requires
        block_calls_validate(statements@, 0) ==> state_offsets_fit(old(ctx).env()),
    ensures
        scope_done(r, blocks_from(old(ctx).env(), old(ctx).scope(), statements@, 0), old(ctx).script(), final(ctx).script(), final(ctx).scope()),
        final(ctx).env() == old(ctx).env(),
        crate::recorder::extends(old(ctx).recorder@, final(ctx).recorder@),
{
    let ghost env = ctx.env();
    let ghost sc0 = ctx.scope();
    let ghost s0 = ctx.script();
    proof {
        lemma_extends_refl(old(ctx).recorder@);
    }
    let ghost steps = blocks_from(env, sc0, statements@, 0);
    let ghost mut done: Seq<Chunk> = Seq::empty();
    let ghost mut added: Seq<Seq<char>> = Seq::empty();
    proof {
        assert(join(done, added, steps) == steps) by {
            if let Ok((c, _, a)) = steps {
                assert(done + c == c);
                assert(added + a == a);
            }
        }
    }
    for i in 0..statements.len()
        invariant
            env == ctx.env(),
            env == old(ctx).env(),
            block_calls_validate(statements@, 0) ==> state_offsets_fit(env),
            s0 == old(ctx).script(),
            sc0 == old(ctx).scope(),
            steps == blocks_from(env, sc0, statements@, 0),
            steps == join(done, added, blocks_from(env, ctx.scope(), statements@, i as int)),
            emits(s0, done),
            ctx.script() == s0 + code_of(done),
            extends(old(ctx).recorder@, ctx.recorder@),
    {
        let ghost sc = ctx.scope();
        let ghost s1 = ctx.script();
        let ghost o = stmt_outcome(env, sc, statements@[i as int]);
        let ghost rest_of = |sc1: Scope| blocks_from(env, sc1, statements@, i + 1);
        proof {
            lemma_blocks_from_step(env, sc, statements@, i as int);
            if stmt_calls_validate(statements@[i as int]) {
                lemma_block_calls_validate(statements@, 0, i as int);
            }
        }
        let ghost rec_i = ctx.recorder@;
        let r1 = compile_statement(ctx, &statements[i]);
        proof {
            lemma_extends_push(rec_i, EventV::StatementBegin(s1.len(), sc.bindings), ctx.recorder@);
            lemma_extends_trans(old(ctx).recorder@, rec_i, ctx.recorder@);
        }
        if let Err(e) = r1 {
            proof {
                if let Ok((c, sc1, a)) = o {
                    lemma_join_refused(s1, ctx.script(), c, a, rest_of(sc1), r1, ctx.scope());
                }
                lemma_join(s0, s1, ctx.script(), done, added, blocks_from(env, sc, statements@, i as int), r1, ctx.scope());
            }
            return Err(e);
        }
        let ghost c = o->Ok_0.0;
        let ghost a = o->Ok_0.2;
        proof {
            lemma_join_assoc(done, added, c, a, rest_of(ctx.scope()));
            crate::script::lemma_emits_append(s0, done, c);
            crate::script::lemma_code_of_append(done, c);
            done = done + c;
            added = added + a;
        }
    }
    proof {
        lemma_blocks_from_end(env, ctx.scope(), statements@);
        assert(done + Seq::<Chunk>::empty() == done);
        assert(added + Seq::<Seq<char>>::empty() == added);
    }
    Ok(())
}

/// Compiles an entrypoint into its name and script.
pub fn compile_entrypoint_function(
    function: &FunctionAst,
    contract_params: &[ParamAst],
    contract_fields: &[ContractFieldAst],
    contract_constants: &[ConstantAst],
    state_end: usize,
    structs: &StructRegistry,
    builtins: &BuiltinRegistry,
    bytecode_size: Option<i64>,
    struct_array_param_groups: &[Vec<String>],
    debug_recorder: &mut DebugRecorder,
) -> (r: Result<(String, Vec<u8>), CompilerError>)
    requires
        function.params@.len() <= i64::MAX,
        forall|i: int| 0 <= i < function.body@.len() - 1 ==> !(#[trigger] function.body@[i] is Return),
        params_typed(params_view(function.params@), groups_view(struct_array_param_groups@)),
        block_calls_validate(function.body@, 0) ==> state_offsets_fit(
            StmtEnv {
                fields: contract_fields@,
                state_end: state_end as nat,
                structs: structs.structs@,
                builtins: builtins.builtins@,
                bytecode_size,
            },
        ),
    ensures
        entry_done(
            r,
            function.name@,
            entry_code(
                StmtEnv { fields: contract_fields@, state_end: state_end as nat, structs: structs.structs@, builtins: builtins.builtins@, bytecode_size },
                entry_scope(
                    params_view(contract_params@),
                    constants_view(contract_constants@),
                    params_view(function.params@),
                    contract_fields_view(contract_fields@),
                ),
                params_view(function.params@),
                groups_view(struct_array_param_groups@),
                function.body@,
                function.return_types@.len(),
            ),
        ),
        extends(old(debug_recorder)@.push(EventV::EntrypointBegin(function.name@)), final(debug_recorder)@),
        r matches Ok((_, bytes)) ==> final(debug_recorder)@.last() == EventV::EntrypointEnd(bytes@.len()),
{
    debug_recorder.begin_entrypoint(function.name.as_str());
    let ghost rec0 = debug_recorder@;
    proof {
        lemma_extends_refl(rec0);
    }
    let ghost env = StmtEnv { fields: contract_fields@, state_end: state_end as nat, structs: structs.structs@, builtins: builtins.builtins@, bytecode_size };
    let ghost ps = params_view(function.params@);
    let ghost gs = groups_view(struct_array_param_groups@);
    let ghost sc0 = entry_scope(params_view(contract_params@), constants_view(contract_constants@), ps, contract_fields_view(contract_fields@));
    let ghost body = function.body@;
    let ghost rets = return_values(body);
    let ghost whole = entry_code(env, sc0, ps, gs, body, function.return_types@.len());

    let mut types = TypeMap::new();
    insert_params(&mut types, contract_params);
    insert_constants(&mut types, contract_constants);
    insert_params(&mut types, function.params.as_slice());
    let stack_bindings = entry_stack_bindings(function.params.as_slice(), contract_fields);
    insert_fields(&mut types, contract_fields);
    assert(types@ == sc0.types);
    assert(stack_bindings@ == sc0.bindings);

    proof {
        assert forall|i: int| 0 <= i < ps.len() implies sc0.bindings.contains(#[trigger] ps[i].0) by {
            let nf = contract_fields@.len();
            assert(sc0.bindings[nf + (ps.len() - 1 - i)] == ps[i].0);
        }
        assert forall|j: int, k: int| 0 <= j < gs.len() && 0 <= k < gs[j].len() implies leaf_checkable(sc0.bindings, ps, #[trigger] gs[j][k]) by {
            lemma_find_param_is_param(ps, gs[j][k]);
        }
    }
    let mut builder = crate::script::script_builder();
    let ghost s0 = script_of(builder);
    let ghost vc_r = param_validations_code(sc0.bindings, ps, gs);
    let ghost body_part = match blocks_from(env, sc0, body_statements(body), 0) {
        Err(f) => Err(f),
        Ok((bc, sc1, _)) => cat_code(Ok(bc), epilogue_code(sc1.bindings, env.bytecode_size, rets, function.return_types@.len())),
    };
    assert(whole == cat_code(vc_r, body_part));
    let rv = compile_param_size_validations(function, struct_array_param_groups, &stack_bindings, &mut builder);
    let ghost s1 = script_of(builder);
    if let Err(e) = rv {
        proof {
            lemma_outcome_stops(s0, s1, vc_r, body_part, rv, rv);
        }
        return Err(e);
    }
    let mut ctx = CompileStatementContext {
        types,
        stack_bindings,
        builder,
        contract_fields,
        state_end,
        structs,
        builtins,
        bytecode_size,
        recorder: DebugRecorder::new(),
    };
    std::mem::swap(&mut ctx.recorder, debug_recorder);
    assert(ctx.env() == env);
    assert(ctx.scope() == sc0);

    let n = function.body.len();
    let ends_with_return = n > 0 && matches!(function.body[n - 1], Statement::Return { .. });
    let n_statements = if ends_with_return {
        n - 1
    } else {
        n
    };
    let ghost stmts = body_statements(body);
    let statements = vstd::slice::slice_subrange(function.body.as_slice(), 0, n_statements);
    assert(statements@ =~= stmts);
    proof {
        if block_calls_validate(stmts, 0) {
            lemma_block_calls_witness(stmts, 0);
            let i = choose|i: int| 0 <= i < stmts.len() && #[trigger] stmt_calls_validate(stmts[i]);
            assert(stmts[i] == function.body@[i]);
            lemma_block_calls_validate(function.body@, 0, i);
        }
    }
    let ghost steps = blocks_from(env, sc0, stmts, 0);
    let rb = compile_body_statements(&mut ctx, statements);
    let ghost s2 = ctx.script();
    if let Err(e) = rb {
        std::mem::swap(&mut ctx.recorder, debug_recorder);
        proof {
            lemma_body_err(s1, s2, steps, rb, ctx.scope(), bytecode_size, rets, function.return_types@.len());
            lemma_outcome_then(s0, s1, s2, vc_r, body_part, rv, rb);
        }
        return Err(e);
    }
    let ghost sc_end = ctx.scope();
    let ghost done = steps->Ok_0.0;
    let no_returns: Vec<Expr> = Vec::new();
    let return_exprs: &[Expr] = if ends_with_return {
        match &function.body[n - 1] {
            Statement::Return { exprs } => exprs.as_slice(),
            _ => no_returns.as_slice(),
        }
    } else {
        no_returns.as_slice()
    };
    assert(exprs_view(return_exprs@) =~= rets);
    let re = emit_epilogue(&mut ctx, return_exprs, function.return_types.len());
    let ghost s3 = ctx.script();
    proof {
        let epi = epilogue_code(sc_end.bindings, bytecode_size, rets, function.return_types@.len());
        lemma_outcome_then(s1, s2, s3, Ok(done), epi, Ok::<(), CompilerError>(()), re);
        lemma_outcome_then(s0, s1, s3, vc_r, body_part, rv, re);
    }
    std::mem::swap(&mut ctx.recorder, debug_recorder);
    if let Err(e) = re {
        return Err(e);
    }
    let bytecode = crate::script::builder_drain(&mut ctx.builder);
    let ghost rec1 = debug_recorder@;
    debug_recorder.finish_entrypoint(bytecode.len());
    proof {
        assert(debug_recorder@.take(rec1.len() as int) =~= rec1);
        lemma_extends_trans(rec0, rec1, debug_recorder@);
    }
    proof {
        assert(s0 + code_of(whole->Ok_0) == code_of(whole->Ok_0));
    }
    Ok((function.name.clone(), bytecode))
}

} // verus!

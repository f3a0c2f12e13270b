//! Compiling state destructuring reads: `State s = readInputState(idx)` and
//! `T s = readInputStateWithTemplate(idx, prefix_len, suffix_len, template_hash)`, lowered
//! to one binding per state field.
//!
//! A read binds the sigscript base its window is measured from to a stack local, checks
//! that the window is the foreign input's own script (by its P2SH commitment, and for a
//! templated read by its template hash) and that its state region is canonically framed,
//! and then binds each field to the bytes at the field's constant offset.

use vstd::prelude::*;

use crate::ast::{bindings_view, struct_fields_view, StructBindingAst, StructFieldSpec};
use crate::codegen::{code_outcome, is_fault, program_code, Fault, NameFault};
use crate::error::{CompilerError, StateBuiltin};
use crate::expr::{exprs_view, BinaryOp, Expr, ExprV};
use crate::layout::{
    encoded_type_chunk_size, field_types, spec_chunk_size, spec_state_len, spec_state_start_offset,
    state_start_offset, type_views, ContractFieldAst,
};
use crate::locals::{base_name, fresh_base_index, fresh_input_state_base_name};
use crate::push::checked_add;
use crate::script::{code_of, emits, Chunk};
use crate::state::{
    add_v, compile_input_script_binding, compile_read_input_state_with_template_validation,
    compile_state_framing_guard, framing_guard_code, input_binding_steps, input_sigscript_base_expr,
    read_input_state_field_expr, spec_read_field, template_read_validation_code,
    templated_input_bytecode_size_expr,
};
use crate::statement::{
    compile_stack_variable_definition, join, lemma_join, lemma_join_refused, lemma_names_append, names_view,
    same_name, scope_done, stack_def, stmt_done, CompileStatementContext, Outcome, Scope, StmtEnv,
};
use crate::types::{same_type, scalar_type, TypeBase, TypeBaseV, TypeRef, TypeRefV};

verus! {

/// The name of the plain state read.
pub const READ_INPUT_STATE: &'static str = "readInputState";

/// The name of the templated state read.
pub const READ_INPUT_STATE_WITH_TEMPLATE: &'static str = "readInputStateWithTemplate";

/// A binding's value: field name, local name, local type.
pub type BindingV = (Seq<char>, Seq<char>, TypeRefV);

/// Whether binding `i` names a field that an earlier binding names too.
pub open spec fn has_earlier(bs: Seq<BindingV>, i: int) -> bool {
    exists|p: int| 0 <= p < i && bs[p].0 == bs[i].0
}

/// The first binding from `i` on that repeats an earlier binding's field.
pub open spec fn first_duplicate(bs: Seq<BindingV>, i: int) -> Option<int>
    decreases bs.len() - i,
{
    if i < 0 || i >= bs.len() {
        None
    } else if has_earlier(bs, i) {
        Some(i)
    } else {
        first_duplicate(bs, i + 1)
    }
}

/// The first binding of the field `field`.
pub open spec fn find_binding(bs: Seq<BindingV>, field: Seq<char>) -> Option<BindingV>
    decreases bs.len(),
{
    if bs.len() == 0 {
        None
    } else if bs[0].0 == field {
        Some(bs[0])
    } else {
        find_binding(bs.drop_first(), field)
    }
}

/// The name and type of each contract field.
pub open spec fn contract_fields_view(fields: Seq<ContractFieldAst>) -> Seq<(Seq<char>, TypeRefV)> {
    fields.map_values(|f: ContractFieldAst| (f.name@, f.type_ref@))
}

/// The type of script numbers.
pub open spec fn int_type() -> TypeRefV {
    TypeRefV { base: TypeBaseV::Int, dims: Seq::empty() }
}

/// `input_sigscript_len(input_idx) - size`.
pub open spec fn sigscript_base(input_idx: ExprV, size: ExprV) -> ExprV {
    ExprV::Binary(BinaryOp::Sub, Box::new(ExprV::InputScriptSigLen(Box::new(input_idx))), Box::new(size))
}

/// Binding the sigscript base of a read of `input_idx` whose foreign script has size `size`.
pub open spec fn base_def(env: StmtEnv, sc: Scope, input_idx: ExprV, size: ExprV) -> Outcome {
    if fresh_base_index(sc.bindings) > usize::MAX {
        Err(Fault::Overflow)
    } else {
        stack_def(env, sc, base_name(fresh_base_index(sc.bindings)), int_type(), sigscript_base(input_idx, size))
    }
}

/// Code that either exists or is a fault, followed by an outcome.
pub open spec fn join_code(c: Result<Seq<Chunk>, Fault>, o: Outcome) -> Outcome {
    match c {
        Err(f) => Err(f),
        Ok(x) => join(x, Seq::empty(), o),
    }
}

pub proof fn lemma_code_err<T>(s0: Seq<u8>, s1: Seq<u8>, c: Result<Seq<Chunk>, Fault>, o: Outcome, r: Result<T, CompilerError>, sc: Scope)
    requires
        code_outcome(r, c, s0, s1),
        r is Err,
    ensures
        scope_done(r, join_code(c, o), s0, s1, sc),
{
    if let Ok(x) = c {
        lemma_join_refused(s0, s1, x, Seq::empty(), o, r, sc);
    }
}

pub proof fn lemma_code_ok<T, U>(
    s0: Seq<u8>,
    s1: Seq<u8>,
    s2: Seq<u8>,
    c: Result<Seq<Chunk>, Fault>,
    o: Outcome,
    r1: Result<T, CompilerError>,
    r2: Result<U, CompilerError>,
    sc: Scope,
)
    requires
        code_outcome(r1, c, s0, s1),
        r1 is Ok,
        scope_done(r2, o, s1, s2, sc),
    ensures
        scope_done(r2, join_code(c, o), s0, s2, sc),
        c is Ok,
{
    lemma_join(s0, s1, s2, c->Ok_0, Seq::empty(), o, r2, sc);
}

/// Binding each field, in order, from its chunk at its constant offset: fields `i ..`, the
/// chunk of field `i` starting `offset` bytes into the state.
pub open spec fn reads_from(
    env: StmtEnv,
    sc: Scope,
    fields: Seq<(Seq<char>, TypeRefV)>,
    bs: Seq<BindingV>,
    input_idx: ExprV,
    start: ExprV,
    base: Seq<char>,
    builtin: StateBuiltin,
    check_types: bool,
    i: int,
    offset: nat,
) -> Outcome
    decreases fields.len() - i,
{
    if i < 0 || i >= fields.len() {
        Ok((Seq::empty(), sc, Seq::empty()))
    } else {
        match find_binding(bs, fields[i].0) {
            None => Err(Fault::Is(CompilerError::IncompleteBindings(builtin))),
            Some(bd) => if check_types && bd.2 != fields[i].1 {
                Err(Fault::Named(NameFault::BindingType, bd.1))
            } else {
                match spec_read_field(input_idx, fields[i].1, start, offset, ExprV::Identifier(base), builtin) {
                    Err(e) => Err(Fault::Is(e)),
                    Ok(x) => match stack_def(env, sc, bd.1, bd.2, x) {
                        Err(f) => Err(f),
                        Ok((c, sc1, a)) => join(
                            c,
                            a,
                            match spec_chunk_size(fields[i].1) {
                                Err(e) => Err(Fault::Is(e)),
                                Ok(n) => if offset + n > usize::MAX {
                                    Err(Fault::Is(CompilerError::ArithmeticOverflow))
                                } else {
                                    reads_from(
                                        env,
                                        sc1,
                                        fields,
                                        bs,
                                        input_idx,
                                        start,
                                        base,
                                        builtin,
                                        check_types,
                                        i + 1,
                                        (offset + n) as nat,
                                    )
                                },
                            },
                        ),
                    },
                }
            },
        }
    }
}

pub proof fn lemma_join_assoc(d: Seq<Chunk>, a0: Seq<Seq<char>>, c: Seq<Chunk>, a: Seq<Seq<char>>, o: Outcome)
    ensures
        join(d, a0, join(c, a, o)) == join(d + c, a0 + a, o),
{
    if let Ok((c2, _, a2)) = o {
        assert(d + (c + c2) == d + c + c2);
        assert(a0 + (a + a2) == a0 + a + a2);
    }
}

/// The position of the first binding of the field `field`.
fn find_binding_index(bindings: &[StructBindingAst], field: &str) -> (r: Option<usize>)
    ensures
        match r {
            Some(p) => p < bindings@.len() && find_binding(bindings_view(bindings@), field@) == Some(
                bindings_view(bindings@)[p as int],
            ),
            None => find_binding(bindings_view(bindings@), field@) is None,
        },
{
    let ghost bv = bindings_view(bindings@);
    let mut p: usize = 0;
    assert(bv.skip(0) == bv);
    while p < bindings.len()
        invariant
            bv == bindings_view(bindings@),
            p <= bindings@.len(),
            find_binding(bv, field@) == find_binding(bv.skip(p as int), field@),
        decreases bindings@.len() - p,
    {
        assert(bv.skip(p as int)[0] == bv[p as int]);
        assert(bv.skip(p as int).drop_first() == bv.skip(p + 1));
        if same_name(bindings[p].field_name.as_str(), field) {
            return Some(p);
        }
        p = p + 1;
    }
    None
}

/// Binds each field of `fields`, in order, to its read from the state region that starts at
/// `state_start_offset_expr` past the sigscript base bound to `base_name`.
pub fn compile_state_field_reads(
    ctx: &mut CompileStatementContext,
    fields: &[ContractFieldAst],
    bindings: &[StructBindingAst],
    input_idx: &Expr,
    state_start_offset_expr: &Expr,
    base_name: &str,
    builtin: StateBuiltin,
    check_types: bool,
) -> (r: Result<Vec<String>, CompilerError>)
    ensures
        stmt_done(
            r,
            reads_from(
                old(ctx).env(),
                old(ctx).scope(),
                contract_fields_view(fields@),
                bindings_view(bindings@),
                input_idx@,
                state_start_offset_expr@,
                base_name@,
                builtin,
                check_types,
                0,
                0,
            ),
            old(ctx).script(),
            final(ctx).script(),
            final(ctx).scope(),
        ),
        final(ctx).env() == old(ctx).env(),
        final(ctx).recorder@ == old(ctx).recorder@,
{
    let ghost env = ctx.env();
    let ghost fv = contract_fields_view(fields@);
    let ghost bv = bindings_view(bindings@);
    let ghost whole = reads_from(
        env,
        ctx.scope(),
        fv,
        bv,
        input_idx@,
        state_start_offset_expr@,
        base_name@,
        builtin,
        check_types,
        0,
        0,
    );
    let ghost s0 = ctx.script();
    let ghost mut done: Seq<Chunk> = Seq::empty();
    let mut added: Vec<String> = Vec::new();
    let mut offset: usize = 0;
    proof {
        assert(join(done, names_view(added@), whole) == whole) by {
            assert(names_view(added@) =~= Seq::<Seq<char>>::empty());
            if let Ok((c, _, a)) = whole {
                assert(done + c == c);
                assert(Seq::<Seq<char>>::empty() + a == a);
            }
        }
    }
    for i in 0..fields.len()
        invariant
            ctx.recorder@ == old(ctx).recorder@,
            env == ctx.env(),
            fv == contract_fields_view(fields@),
            bv == bindings_view(bindings@),
            s0 == old(ctx).script(),
            env == old(ctx).env(),
            whole == reads_from(
                env,
                old(ctx).scope(),
                fv,
                bv,
                input_idx@,
                state_start_offset_expr@,
                base_name@,
                builtin,
                check_types,
                0,
                0,
            ),
            whole == join(
                done,
                names_view(added@),
                reads_from(
                    env,
                    ctx.scope(),
                    fv,
                    bv,
                    input_idx@,
                    state_start_offset_expr@,
                    base_name@,
                    builtin,
                    check_types,
                    i as int,
                    offset as nat,
                ),
            ),
            emits(s0, done),
            ctx.script() == s0 + code_of(done),
    {
        let ghost sc = ctx.scope();
        let ghost s1 = ctx.script();
        let field = &fields[i];
        assert(fv[i as int] == (field.name@, field.type_ref@));
        let p = match find_binding_index(bindings, field.name.as_str()) {
            Some(p) => p,
            None => {
                return Err(CompilerError::IncompleteBindings(builtin));
            },
        };
        let binding = &bindings[p];
        assert(bv[p as int] == (binding.field_name@, binding.name@, binding.type_ref@));
        if check_types && !same_type(&binding.type_ref, &field.type_ref) {
            return Err(CompilerError::BindingType(binding.name.clone()));
        }
        let binding_expr = read_input_state_field_expr(
            input_idx,
            &field.type_ref,
            state_start_offset_expr.clone(),
            offset,
            Expr::identifier(base_name),
            builtin,
        )?;
        let ghost o_def = stack_def(env, sc, binding.name@, binding.type_ref@, binding_expr@);
        let ghost rest_of = |sc1: Scope| match spec_chunk_size(field.type_ref@) {
            Err(e) => Err(Fault::Is(e)),
            Ok(n) => if offset + n > usize::MAX {
                Err(Fault::Is(CompilerError::ArithmeticOverflow))
            } else {
                reads_from(
                    env,
                    sc1,
                    fv,
                    bv,
                    input_idx@,
                    state_start_offset_expr@,
                    base_name@,
                    builtin,
                    check_types,
                    i + 1,
                    (offset + n) as nat,
                )
            },
        };
        let r_def = compile_stack_variable_definition(ctx, binding.name.as_str(), binding.type_ref.clone(), binding_expr);
        let mut names = match r_def {
            Ok(v) => v,
            Err(e) => {
                proof {
                    if let Ok((c, sc1, a)) = o_def {
                        lemma_join_refused(s1, ctx.script(), c, a, rest_of(sc1), Err::<Vec<String>, CompilerError>(e), ctx.scope());
                    }
                    lemma_join(s0, s1, ctx.script(), done, names_view(added@), reads_from(env, sc, fv, bv, input_idx@, state_start_offset_expr@, base_name@, builtin, check_types, i as int, offset as nat), Err::<Vec<String>, CompilerError>(e), ctx.scope());
                }
                return Err(e);
            },
        };
        let ghost c = o_def->Ok_0.0;
        let ghost a = o_def->Ok_0.2;
        proof {
            lemma_join_assoc(done, names_view(added@), c, a, rest_of(ctx.scope()));
            crate::script::lemma_emits_append(s0, done, c);
            crate::script::lemma_code_of_append(done, c);
        }
        let field_chunk_size = encoded_type_chunk_size(&field.type_ref)?;
        offset = checked_add(offset, field_chunk_size)?;
        let ghost old_added = added@;
        let ghost new_names = names@;
        added.append(&mut names);
        proof {
            lemma_names_append(old_added, new_names);
            done = done + c;
        }
    }
    assert(whole == join(done, names_view(added@), Ok((Seq::<Chunk>::empty(), ctx.scope(), Seq::<Seq<char>>::empty()))));
    assert(done + Seq::<Chunk>::empty() == done);
    assert(names_view(added@) + Seq::<Seq<char>>::empty() == names_view(added@));
    Ok(added)
}

/// Binds the sigscript base that every field of one state read shares, and returns its name.
///
/// The base is derived once per read rather than once per field; the caller adds the returned
/// name to the read's added locals, so the enclosing block drops it with the field bindings.
pub fn bind_input_sigscript_base(ctx: &mut CompileStatementContext, input_idx: &Expr, bytecode_size_expr: Expr) -> (r:
    Result<String, CompilerError>)
    ensures
        scope_done(
            r,
            base_def(old(ctx).env(), old(ctx).scope(), input_idx@, bytecode_size_expr@),
            old(ctx).script(),
            final(ctx).script(),
            final(ctx).scope(),
        ),
        r matches Ok(n) ==> n@ == base_name(fresh_base_index(old(ctx).stack_bindings@)),
        final(ctx).env() == old(ctx).env(),
        final(ctx).recorder@ == old(ctx).recorder@,
{
    let name = fresh_input_state_base_name(&ctx.stack_bindings)?;
    let base = input_sigscript_base_expr(input_idx, bytecode_size_expr);
    match compile_stack_variable_definition(ctx, name.as_str(), scalar_type(TypeBase::Int), base) {
        Ok(_) => Ok(name),
        Err(e) => Err(e),
    }
}

/// The plain read `readInputState(input_idx)` of a foreign input that shares this contract's
/// state layout, with `bs` binding its fields.
pub open spec fn plain_read_stmt(
    env: StmtEnv,
    sc: Scope,
    fields: Seq<ContractFieldAst>,
    state_end: nat,
    bs: Seq<BindingV>,
    args: Seq<ExprV>,
) -> Outcome {
    if args.len() != 1 {
        Err(Fault::Is(CompilerError::ArgumentCount(StateBuiltin::ReadInputState)))
    } else if fields.len() == 0 {
        Err(Fault::Is(CompilerError::MissingContractFields(StateBuiltin::ReadInputState)))
    } else if bs.len() != fields.len() {
        Err(Fault::Is(CompilerError::IncompleteBindings(StateBuiltin::ReadInputState)))
    } else {
        match env.bytecode_size {
            None => Err(Fault::Is(CompilerError::MissingBytecodeSize(StateBuiltin::ReadInputState))),
            Some(v) => match spec_state_start_offset(state_end, field_types(fields)) {
                Err(e) => Err(Fault::Is(e)),
                Ok(start) => match base_def(env, sc, args[0], ExprV::Int(v)) {
                    Err(f) => Err(f),
                    Ok((c1, sc1, a1)) => join(
                        c1,
                        a1,
                        join_code(
                            program_code(
                                input_binding_steps(args[0], ExprV::Identifier(base_name(fresh_base_index(sc.bindings)))),
                                sc1.bindings,
                                env.bytecode_size,
                                0,
                            ),
                            join_code(
                                framing_guard_code(
                                    args[0],
                                    ExprV::Int(start as i64),
                                    ExprV::Identifier(base_name(fresh_base_index(sc.bindings))),
                                    field_types(fields),
                                    sc1.bindings,
                                    env.bytecode_size,
                                ),
                                reads_from(
                                    env,
                                    sc1,
                                    contract_fields_view(fields),
                                    bs,
                                    args[0],
                                    ExprV::Int(start as i64),
                                    base_name(fresh_base_index(sc.bindings)),
                                    StateBuiltin::ReadInputState,
                                    true,
                                    0,
                                    0,
                                ),
                            ),
                        ),
                    ),
                },
            },
        }
    }
}

/// The templated read `readInputStateWithTemplate(input_idx, prefix_len, suffix_len,
/// template_hash)` of a foreign input laid out as the struct `target`, with `bs` binding
/// its fields.
pub open spec fn template_read_stmt(
    env: StmtEnv,
    sc: Scope,
    structs: Seq<(String, crate::ast::StructSpec)>,
    target: Seq<char>,
    bs: Seq<BindingV>,
    args: Seq<ExprV>,
) -> Outcome {
    if args.len() != 4 {
        Err(Fault::Is(CompilerError::ArgumentCount(StateBuiltin::ReadInputStateWithTemplate)))
    } else {
        match crate::ast::lookup_struct(structs, target) {
            None => Err(Fault::Named(NameFault::UnknownStruct, target)),
            Some(sf) => if bs.len() != sf.len() {
                Err(Fault::Is(CompilerError::IncompleteBindings(StateBuiltin::ReadInputStateWithTemplate)))
            } else {
                match spec_state_len(sf.map_values(|f: (Seq<char>, TypeRefV)| f.1)) {
                    Err(e) => Err(Fault::Is(e)),
                    Ok(total) => match base_def(
                        env,
                        sc,
                        args[0],
                        add_v(add_v(args[1], ExprV::Int(total as i64)), args[2]),
                    ) {
                        Err(f) => Err(f),
                        Ok((c1, sc1, a1)) => join(
                            c1,
                            a1,
                            join_code(
                                template_read_validation_code(
                                    args,
                                    sf.map_values(|f: (Seq<char>, TypeRefV)| f.1),
                                    ExprV::Identifier(base_name(fresh_base_index(sc.bindings))),
                                    sc1.bindings,
                                    env.bytecode_size,
                                ),
                                reads_from(
                                    env,
                                    sc1,
                                    sf,
                                    bs,
                                    args[0],
                                    args[1],
                                    base_name(fresh_base_index(sc.bindings)),
                                    StateBuiltin::ReadInputStateWithTemplate,
                                    false,
                                    0,
                                    0,
                                ),
                            ),
                        ),
                    },
                }
            },
        }
    }
}

/// The fault a plain read meets before it emits anything, where it meets one.
pub open spec fn plain_read_early_fault(
    env: StmtEnv,
    fields: Seq<ContractFieldAst>,
    state_end: nat,
    bs: Seq<BindingV>,
    args: Seq<ExprV>,
) -> Option<Fault> {
    if args.len() != 1 {
        Some(Fault::Is(CompilerError::ArgumentCount(StateBuiltin::ReadInputState)))
    } else if fields.len() == 0 {
        Some(Fault::Is(CompilerError::MissingContractFields(StateBuiltin::ReadInputState)))
    } else if bs.len() != fields.len() {
        Some(Fault::Is(CompilerError::IncompleteBindings(StateBuiltin::ReadInputState)))
    } else if env.bytecode_size is None {
        Some(Fault::Is(CompilerError::MissingBytecodeSize(StateBuiltin::ReadInputState)))
    } else {
        match spec_state_start_offset(state_end, field_types(fields)) {
            Err(e) => Some(Fault::Is(e)),
            Ok(_) => None,
        }
    }
}

/// The fault a templated read meets before it emits anything, where it meets one.
pub open spec fn template_read_early_fault(
    structs: Seq<(String, crate::ast::StructSpec)>,
    target: Seq<char>,
    bs: Seq<BindingV>,
    args: Seq<ExprV>,
) -> Option<Fault> {
    if args.len() != 4 {
        Some(Fault::Is(CompilerError::ArgumentCount(StateBuiltin::ReadInputStateWithTemplate)))
    } else {
        match crate::ast::lookup_struct(structs, target) {
            None => Some(Fault::Named(NameFault::UnknownStruct, target)),
            Some(sf) => if bs.len() != sf.len() {
                Some(Fault::Is(CompilerError::IncompleteBindings(StateBuiltin::ReadInputStateWithTemplate)))
            } else {
                match spec_state_len(sf.map_values(|f: (Seq<char>, TypeRefV)| f.1)) {
                    Err(e) => Some(Fault::Is(e)),
                    Ok(_) => None,
                }
            },
        }
    }
}

/// The fault a state read meets before it emits anything, where it meets one.
pub open spec fn read_early_fault(
    env: StmtEnv,
    target: Seq<char>,
    bs: Seq<BindingV>,
    name: Seq<char>,
    args: Seq<ExprV>,
    fields: Seq<ContractFieldAst>,
    state_end: nat,
    structs: Seq<(String, crate::ast::StructSpec)>,
) -> Option<Fault> {
    match first_duplicate(bs, 0) {
        Some(i) => Some(Fault::Named(NameFault::DuplicateStateField, bs[i].0)),
        None => if name == READ_INPUT_STATE@ {
            plain_read_early_fault(env, fields, state_end, bs, args)
        } else if name == READ_INPUT_STATE_WITH_TEMPLATE@ {
            template_read_early_fault(structs, target, bs, args)
        } else {
            Some(Fault::Named(NameFault::UnsupportedStateAssignment, name))
        },
    }
}

/// An error that reports fault `f`, with the script and the scope as they were.
pub open spec fn refused_early<T>(
    r: Result<T, CompilerError>,
    f: Fault,
    before: Seq<u8>,
    after: Seq<u8>,
    sc0: Scope,
    sc1: Scope,
) -> bool {
    &&& r matches Err(e) && is_fault(e, f)
    &&& after == before
    &&& sc1 == sc0
}

/// A state destructuring read: duplicate bindings are refused first, then the read named
/// `name` is compiled.
pub open spec fn read_state_stmt(
    env: StmtEnv,
    sc: Scope,
    target: Seq<char>,
    bs: Seq<BindingV>,
    name: Seq<char>,
    args: Seq<ExprV>,
    fields: Seq<ContractFieldAst>,
    state_end: nat,
    structs: Seq<(String, crate::ast::StructSpec)>,
) -> Outcome {
    match first_duplicate(bs, 0) {
        Some(i) => Err(Fault::Named(NameFault::DuplicateStateField, bs[i].0)),
        None => if name == READ_INPUT_STATE@ {
            plain_read_stmt(env, sc, fields, state_end, bs, args)
        } else if name == READ_INPUT_STATE_WITH_TEMPLATE@ {
            template_read_stmt(env, sc, structs, target, bs, args)
        } else {
            Err(Fault::Named(NameFault::UnsupportedStateAssignment, name))
        },
    }
}

/// Refuses a list of bindings in which a field is bound twice.
fn check_duplicate_bindings(bindings: &[StructBindingAst]) -> (r: Result<(), CompilerError>)
    ensures
        match first_duplicate(bindings_view(bindings@), 0) {
            Some(i) => r matches Err(CompilerError::DuplicateStateField(n)) && n@ == bindings_view(
                bindings@,
            )[i].0,
            None => r is Ok,
        },
{
    let ghost bv = bindings_view(bindings@);
    for i in 0..bindings.len()
        invariant
            bv == bindings_view(bindings@),
            first_duplicate(bv, 0) == first_duplicate(bv, i as int),
    {
        assert(bv[i as int] == binding_view_at(bindings@, i as int));
        for p in 0..i
            invariant
                bv == bindings_view(bindings@),
                i < bindings@.len(),
                first_duplicate(bv, 0) == first_duplicate(bv, i as int),
                forall|q: int| 0 <= q < p ==> bv[q].0 != bv[i as int].0,
        {
            assert(bv[p as int].0 == bindings@[p as int].field_name@);
            assert(bv[i as int].0 == bindings@[i as int].field_name@);
            if same_name(bindings[p].field_name.as_str(), bindings[i].field_name.as_str()) {
                assert(has_earlier(bv, i as int));
                assert(first_duplicate(bv, i as int) == Some(i as int));
                return Err(CompilerError::DuplicateStateField(bindings[i].field_name.clone()));
            }
        }
        assert(!has_earlier(bv, i as int));
    }
    Ok(())
}

/// The value of the binding at position `i`.
pub open spec fn binding_view_at(bs: Seq<StructBindingAst>, i: int) -> BindingV {
    (bs[i].field_name@, bs[i].name@, bs[i].type_ref@)
}

/// The declared types of a list of fields.
fn field_type_list(fields: &[ContractFieldAst]) -> (r: Vec<TypeRef>)
    ensures
        type_views(r@) == field_types(fields@),
{
    let mut types: Vec<TypeRef> = Vec::new();
    for i in 0..fields.len()
        invariant
            types@.len() == i,
            forall|j: int| 0 <= j < i ==> (#[trigger] types@[j])@ == fields@[j].type_ref@,
    {
        types.push(fields[i].type_ref.clone());
    }
    assert(type_views(types@) =~= field_types(fields@));
    types
}

/// The fields of a struct declaration as a state layout.
fn struct_state_fields(fields: &[StructFieldSpec]) -> (r: Vec<ContractFieldAst>)
    ensures
        contract_fields_view(r@) == fields@.map_values(|f: StructFieldSpec| (f.name@, f.type_ref@)),
{
    let mut out: Vec<ContractFieldAst> = Vec::new();
    for i in 0..fields.len()
        invariant
            out@.len() == i,
            forall|j: int|
                0 <= j < i ==> (#[trigger] out@[j]).name@ == fields@[j].name@ && out@[j].type_ref@
                    == fields@[j].type_ref@,
    {
        out.push(ContractFieldAst { name: fields[i].name.clone(), type_ref: fields[i].type_ref.clone() });
    }
    assert(contract_fields_view(out@) =~= fields@.map_values(|f: StructFieldSpec| (f.name@, f.type_ref@)));
    out
}

/// The plain state read.
fn compile_plain_read(
    ctx: &mut CompileStatementContext,
    bindings: &[StructBindingAst],
    args: &[Expr],
    contract_fields: &[ContractFieldAst],
    state_end: usize,
) -> (r: Result<Vec<String>, CompilerError>)
    ensures
        stmt_done(
            r,
            plain_read_stmt(
                old(ctx).env(),
                old(ctx).scope(),
                contract_fields@,
                state_end as nat,
                bindings_view(bindings@),
                exprs_view(args@),
            ),
            old(ctx).script(),
            final(ctx).script(),
            final(ctx).scope(),
        ),
        plain_read_early_fault(old(ctx).env(), contract_fields@, state_end as nat, bindings_view(bindings@), exprs_view(args@))
            matches Some(f) ==> refused_early(r, f, old(ctx).script(), final(ctx).script(), old(ctx).scope(), final(ctx).scope()),
        final(ctx).env() == old(ctx).env(),
        final(ctx).recorder@ == old(ctx).recorder@,
{
    if args.len() != 1 {
        return Err(CompilerError::ArgumentCount(StateBuiltin::ReadInputState));
    }
    if contract_fields.len() == 0 {
        return Err(CompilerError::MissingContractFields(StateBuiltin::ReadInputState));
    }
    if bindings.len() != contract_fields.len() {
        return Err(CompilerError::IncompleteBindings(StateBuiltin::ReadInputState));
    }
    let bytecode_size_value = match ctx.bytecode_size {
        Some(v) => v,
        None => {
            return Err(CompilerError::MissingBytecodeSize(StateBuiltin::ReadInputState));
        },
    };
    let start = state_start_offset(state_end, contract_fields)?;
    let input_idx = &args[0];
    let ghost env = ctx.env();
    let ghost sc = ctx.scope();
    let ghost s0 = ctx.script();
    let ghost bv = bindings_view(bindings@);
    let ghost bs = ctx.bytecode_size;
    let ghost bn = base_name(fresh_base_index(sc.bindings));
    let ghost base_v = ExprV::Identifier(bn);
    let ghost start_v = ExprV::Int(start as i64);
    let ghost o1 = base_def(env, sc, input_idx@, ExprV::Int(bytecode_size_value));
    let ghost reads = |sc1: Scope|
        reads_from(
            env,
            sc1,
            contract_fields_view(contract_fields@),
            bv,
            input_idx@,
            start_v,
            bn,
            StateBuiltin::ReadInputState,
            true,
            0,
            0,
        );
    let ghost guard = |sc1: Scope|
        framing_guard_code(input_idx@, start_v, base_v, field_types(contract_fields@), sc1.bindings, bs);
    let ghost binding = |sc1: Scope| program_code(input_binding_steps(input_idx@, base_v), sc1.bindings, bs, 0);
    let ghost tail = |sc1: Scope| join_code(binding(sc1), join_code(guard(sc1), reads(sc1)));
    assert(exprs_view(args@)[0] == input_idx@);
    let base_name = match bind_input_sigscript_base(ctx, input_idx, Expr::integer(bytecode_size_value)) {
        Ok(n) => n,
        Err(e) => {
            proof {
                if let Ok((c1, sc1, a1)) = o1 {
                    lemma_join_refused(s0, ctx.script(), c1, a1, tail(sc1), Err::<Vec<String>, CompilerError>(e), ctx.scope());
                }
            }
            return Err(e);
        },
    };
    let ghost c1 = o1->Ok_0.0;
    let ghost a1 = o1->Ok_0.2;
    let ghost sc1 = ctx.scope();
    let ghost s1 = ctx.script();
    let base = Expr::identifier(base_name.as_str());
    let r1 = compile_input_script_binding(
        input_idx,
        &base,
        &ctx.stack_bindings,
        &ctx.types,
        &mut ctx.builder,
        ctx.bytecode_size,
    );
    let ghost s2 = ctx.script();
    if let Err(e) = r1 {
        proof {
            lemma_code_err(s1, s2, binding(sc1), join_code(guard(sc1), reads(sc1)), r1, ctx.scope());
            lemma_join(s0, s1, s2, c1, a1, tail(sc1), r1, ctx.scope());
        }
        return Err(e);
    }
    let layout = field_type_list(contract_fields);
    let start_expr = Expr::integer(start as i64);
    let r2 = compile_state_framing_guard(
        input_idx,
        &start_expr,
        layout.as_slice(),
        &base,
        &ctx.stack_bindings,
        &ctx.types,
        &mut ctx.builder,
        ctx.bytecode_size,
    );
    let ghost s3 = ctx.script();
    if let Err(e) = r2 {
        proof {
            lemma_code_err(s2, s3, guard(sc1), reads(sc1), r2, ctx.scope());
            lemma_code_ok(s1, s2, s3, binding(sc1), join_code(guard(sc1), reads(sc1)), r1, r2, ctx.scope());
            lemma_join(s0, s1, s3, c1, a1, tail(sc1), r2, ctx.scope());
        }
        return Err(e);
    }
    let r3 = compile_state_field_reads(
        ctx,
        contract_fields,
        bindings,
        input_idx,
        &start_expr,
        base_name.as_str(),
        StateBuiltin::ReadInputState,
        true,
    );
    proof {
        lemma_code_ok(s2, s3, ctx.script(), guard(sc1), reads(sc1), r2, r3, ctx.scope());
        lemma_code_ok(s1, s2, ctx.script(), binding(sc1), join_code(guard(sc1), reads(sc1)), r1, r3, ctx.scope());
        lemma_join(s0, s1, ctx.script(), c1, a1, tail(sc1), r3, ctx.scope());
    }
    let mut names = match r3 {
        Ok(v) => v,
        Err(e) => {
            return Err(e);
        },
    };
    let ghost read_names = names@;
    let mut added = vec![base_name];
    added.append(&mut names);
    proof {
        lemma_names_append(seq![added@[0]], read_names);
        assert(added@ =~= seq![added@[0]] + read_names);
        assert(names_view(seq![added@[0]]) =~= a1);
        let ar = reads(sc1)->Ok_0.2;
        assert(a1 + (Seq::<Seq<char>>::empty() + (Seq::<Seq<char>>::empty() + ar)) =~= a1 + ar);
    }
    Ok(added)
}

/// The templated state read.
fn compile_template_read(
    ctx: &mut CompileStatementContext,
    target_struct: &str,
    bindings: &[StructBindingAst],
    args: &[Expr],
    structs: &crate::ast::StructRegistry,
) -> (r: Result<Vec<String>, CompilerError>)
    ensures
        stmt_done(
            r,
            template_read_stmt(
                old(ctx).env(),
                old(ctx).scope(),
                structs.structs@,
                target_struct@,
                bindings_view(bindings@),
                exprs_view(args@),
            ),
            old(ctx).script(),
            final(ctx).script(),
            final(ctx).scope(),
        ),
        template_read_early_fault(structs.structs@, target_struct@, bindings_view(bindings@), exprs_view(args@))
            matches Some(f) ==> refused_early(r, f, old(ctx).script(), final(ctx).script(), old(ctx).scope(), final(ctx).scope()),
        final(ctx).env() == old(ctx).env(),
        final(ctx).recorder@ == old(ctx).recorder@,
{
    if args.len() != 4 {
        return Err(CompilerError::ArgumentCount(StateBuiltin::ReadInputStateWithTemplate));
    }
    let struct_spec = match structs.get(target_struct) {
        Some(spec) => spec,
        None => {
            return Err(CompilerError::UnknownStruct(target_struct.to_owned()));
        },
    };
    let ghost sf = struct_fields_view(*struct_spec);
    if bindings.len() != struct_spec.fields.len() {
        return Err(CompilerError::IncompleteBindings(StateBuiltin::ReadInputStateWithTemplate));
    }
    let fields = struct_state_fields(struct_spec.fields.as_slice());
    let layout = field_type_list(fields.as_slice());
    proof {
        assert(contract_fields_view(fields@) == sf);
        assert(type_views(layout@) =~= sf.map_values(|f: (Seq<char>, TypeRefV)| f.1)) by {
            assert(field_types(fields@) =~= sf.map_values(|f: (Seq<char>, TypeRefV)| f.1)) by {
                assert forall|j: int| 0 <= j < fields@.len() implies field_types(fields@)[j] == sf.map_values(
                    |f: (Seq<char>, TypeRefV)| f.1,
                )[j] by {
                    assert(contract_fields_view(fields@)[j] == (fields@[j].name@, fields@[j].type_ref@));
                }
            }
        }
    }
    let input_idx = &args[0];
    let prefix_len = &args[1];
    let suffix_len = &args[2];
    let ghost es = exprs_view(args@);
    assert(es[0] == input_idx@ && es[1] == prefix_len@ && es[2] == suffix_len@);
    let bytecode_size_expr = templated_input_bytecode_size_expr(prefix_len, suffix_len, layout.as_slice())?;
    let ghost env = ctx.env();
    let ghost sc = ctx.scope();
    let ghost s0 = ctx.script();
    let ghost bv = bindings_view(bindings@);
    let ghost bs = ctx.bytecode_size;
    let ghost bn = base_name(fresh_base_index(sc.bindings));
    let ghost base_v = ExprV::Identifier(bn);
    let ghost lay = sf.map_values(|f: (Seq<char>, TypeRefV)| f.1);
    let ghost o1 = base_def(env, sc, input_idx@, bytecode_size_expr@);
    let ghost reads = |sc1: Scope|
        reads_from(
            env,
            sc1,
            sf,
            bv,
            input_idx@,
            prefix_len@,
            bn,
            StateBuiltin::ReadInputStateWithTemplate,
            false,
            0,
            0,
        );
    let ghost check = |sc1: Scope| template_read_validation_code(es, lay, base_v, sc1.bindings, bs);
    let ghost tail = |sc1: Scope| join_code(check(sc1), reads(sc1));
    let base_name = match bind_input_sigscript_base(ctx, input_idx, bytecode_size_expr) {
        Ok(n) => n,
        Err(e) => {
            proof {
                if let Ok((c1, sc1, a1)) = o1 {
                    lemma_join_refused(s0, ctx.script(), c1, a1, tail(sc1), Err::<Vec<String>, CompilerError>(e), ctx.scope());
                }
            }
            return Err(e);
        },
    };
    let ghost c1 = o1->Ok_0.0;
    let ghost a1 = o1->Ok_0.2;
    let ghost sc1 = ctx.scope();
    let ghost s1 = ctx.script();
    let base = Expr::identifier(base_name.as_str());
    let r1 = compile_read_input_state_with_template_validation(
        args,
        &ctx.stack_bindings,
        &ctx.types,
        &mut ctx.builder,
        layout.as_slice(),
        &base,
        ctx.bytecode_size,
    );
    let ghost s2 = ctx.script();
    if let Err(e) = r1 {
        proof {
            lemma_code_err(s1, s2, check(sc1), reads(sc1), r1, ctx.scope());
            lemma_join(s0, s1, s2, c1, a1, tail(sc1), r1, ctx.scope());
        }
        return Err(e);
    }
    let r2 = compile_state_field_reads(
        ctx,
        fields.as_slice(),
        bindings,
        input_idx,
        prefix_len,
        base_name.as_str(),
        StateBuiltin::ReadInputStateWithTemplate,
        false,
    );
    proof {
        lemma_code_ok(s1, s2, ctx.script(), check(sc1), reads(sc1), r1, r2, ctx.scope());
        lemma_join(s0, s1, ctx.script(), c1, a1, tail(sc1), r2, ctx.scope());
    }
    let mut names = match r2 {
        Ok(v) => v,
        Err(e) => {
            return Err(e);
        },
    };
    let ghost read_names = names@;
    let mut added = vec![base_name];
    added.append(&mut names);
    proof {
        lemma_names_append(seq![added@[0]], read_names);
        assert(added@ =~= seq![added@[0]] + read_names);
        assert(names_view(seq![added@[0]]) =~= a1);
        let ar = reads(sc1)->Ok_0.2;
        assert(a1 + (Seq::<Seq<char>>::empty() + ar) =~= a1 + ar);
    }
    Ok(added)
}

/// A state destructuring read.
pub fn compile_read_input_state_statement(
    ctx: &mut CompileStatementContext,
    target_struct: &str,
    bindings: &[StructBindingAst],
    name: &str,
    args: &[Expr],
    contract_fields: &[ContractFieldAst],
    state_end: usize,
    structs: &crate::ast::StructRegistry,
) -> (r: Result<Vec<String>, CompilerError>)
    ensures
        stmt_done(
            r,
            read_state_stmt(
                old(ctx).env(),
                old(ctx).scope(),
                target_struct@,
                bindings_view(bindings@),
                name@,
                exprs_view(args@),
                contract_fields@,
                state_end as nat,
                structs.structs@,
            ),
            old(ctx).script(),
            final(ctx).script(),
            final(ctx).scope(),
        ),
        read_early_fault(
            old(ctx).env(),
            target_struct@,
            bindings_view(bindings@),
            name@,
            exprs_view(args@),
            contract_fields@,
            state_end as nat,
            structs.structs@,
        ) matches Some(f) ==> refused_early(r, f, old(ctx).script(), final(ctx).script(), old(ctx).scope(), final(ctx).scope()),
        final(ctx).env() == old(ctx).env(),
        final(ctx).recorder@ == old(ctx).recorder@,
{
    check_duplicate_bindings(bindings)?;
    if same_name(name, READ_INPUT_STATE) {
        compile_plain_read(ctx, bindings, args, contract_fields, state_end)
    } else if same_name(name, READ_INPUT_STATE_WITH_TEMPLATE) {
        compile_template_read(ctx, target_struct, bindings, args, structs)
    } else {
        Err(CompilerError::UnsupportedStateAssignment(name.to_owned()))
    }
}

} // verus!

//! Compiling statements.
//!
//! A statement is compiled against a scope: the declared type of each name, and the names
//! bound on the run-time stack, the top first. Every value on the stack between statements
//! is bound, so each statement's expressions are compiled with nothing above the bindings.
//! What a statement compiles to is described by an [`Outcome`]: the code it appends, the
//! scope after it and the stack locals it adds, or the fault that stops it.

use vstd::prelude::*;

use kaspa_txscript::script_builder::ScriptBuilder;

use crate::codegen::{code_outcome, emit_program, emit_tail_pub, expr_code, is_fault, program_code, steps_view, ExprEnv, Fault, NameFault, Step, StepV};
use crate::error::{CompilerError, StateBuiltin};
use crate::expr::{exprs_view, Expr, ExprV, SplitPart};
use crate::layout::{field_types, spec_state_start_offset, ContractFieldAst};
use crate::opcodes::{
    LOCK_TIME_THRESHOLD, OP_CHECK_LOCK_TIME_VERIFY, OP_CHECK_SEQUENCE_VERIFY, OP_DROP, OP_DUP, OP_ELSE, OP_END_IF,
    OP_GREATER_THAN_OR_EQUAL, OP_IF, OP_VERIFY, OP_WITHIN,
};
use crate::ast::{bindings_view, lookup_builtin, BuiltinRegistry, BuiltinSpec, Statement, StructBindingAst, StructRegistry, StructSpec};
use crate::state_read::{
    compile_read_input_state_statement, read_early_fault, refused_early, join_code, lemma_code_err, lemma_code_ok, lemma_join_assoc,
    read_state_stmt, BindingV, READ_INPUT_STATE, READ_INPUT_STATE_WITH_TEMPLATE,
};
use crate::output::{
    compile_validate_output_state_inner_statement,
    compile_validate_output_state_with_template_inner_statement, validate_output_code,
    validate_output_with_template_code,
};
use crate::script::{
    appended, code_of, emit_chunks, emit_delta, emits, lemma_appended_seq, lemma_code_of_append, script_of, Chunk, Emit,
    ScriptEmitter,
};
use crate::recorder::{extends, lemma_extends_push, lemma_extends_refl, lemma_extends_trans, DebugRecorder, EventV};
use crate::stack::{binding_depth, drop_plan, lemma_binding_depth, rebind_chunks, reorder_plan, StackBindings};
use crate::type_map::TypeMap;
use crate::types::{TypeRef, TypeRefV};

verus! {

/// What the compiler knows of the names in scope: each name's declared type, and the names
/// bound on the stack, the top first.
pub struct Scope {
    pub types: Map<Seq<char>, TypeRefV>,
    pub bindings: Seq<Seq<char>>,
}

/// What stays fixed while an entrypoint's statements are compiled.
pub struct StmtEnv {
    pub fields: Seq<ContractFieldAst>,
    pub state_end: nat,
    pub structs: Seq<(String, StructSpec)>,
    pub builtins: Seq<(String, BuiltinSpec)>,
    pub bytecode_size: Option<i64>,
}

/// What compiling a statement gives: the code, the scope after it and the stack locals it
/// adds; or the fault that stops it.
pub type Outcome = Result<(Seq<Chunk>, Scope, Seq<Seq<char>>), Fault>;

/// The values of a list of names.
pub open spec fn names_view(v: Seq<String>) -> Seq<Seq<char>> {
    v.map_values(|s: String| s@)
}

/// Whether an executable result, with the script before and after and the scope after,
/// is the outcome `o`: on success, exactly the outcome's code was appended and the scope
/// is the outcome's; with a fault, an error that reports it (or the builder's refusal of
/// code before it).
pub open spec fn scope_done<T>(r: Result<T, CompilerError>, o: Outcome, before: Seq<u8>, after: Seq<u8>, sc: Scope) -> bool {
    match o {
        Ok((cs, s, _)) => appended(r, before, after, cs) && (r is Ok ==> sc == s),
        Err(f) => r matches Err(e) && (is_fault(e, f) || e == CompilerError::ScriptRejected),
    }
}

/// [`scope_done`], and the returned names are the outcome's added locals.
pub open spec fn stmt_done(
    r: Result<Vec<String>, CompilerError>,
    o: Outcome,
    before: Seq<u8>,
    after: Seq<u8>,
    sc: Scope,
) -> bool {
    &&& scope_done(r, o, before, after, sc)
    &&& r matches Ok(v) ==> (o matches Ok((_, _, a)) && names_view(v@) == a)
}

/// Code `c` and added locals `a`, followed by the outcome `o`.
pub open spec fn join(c: Seq<Chunk>, a: Seq<Seq<char>>, o: Outcome) -> Outcome {
    match o {
        Err(f) => Err(f),
        Ok((c2, s2, a2)) => Ok((c + c2, s2, a + a2)),
    }
}

/// Code that either exists or is a fault, leaving the scope as it is.
pub open spec fn code_step(c: Result<Seq<Chunk>, Fault>, sc: Scope) -> Outcome {
    match c {
        Err(f) => Err(f),
        Ok(x) => Ok((x, sc, Seq::empty())),
    }
}

/// After code `c1` was appended, the outcome `o` appended from there is `join(c1, a1, o)`
/// appended from the start.
pub proof fn lemma_join<T>(
    s0: Seq<u8>,
    s1: Seq<u8>,
    s2: Seq<u8>,
    c1: Seq<Chunk>,
    a1: Seq<Seq<char>>,
    o: Outcome,
    r: Result<T, CompilerError>,
    sc: Scope,
)
    requires
        emits(s0, c1),
        s1 == s0 + code_of(c1),
        scope_done(r, o, s1, s2, sc),
    ensures
        scope_done(r, join(c1, a1, o), s0, s2, sc),
{
    if let Ok((c2, _, _)) = o {
        lemma_appended_seq(s0, s1, s2, c1, c2, r);
    }
}

/// Names of a concatenation.
pub proof fn lemma_names_append(a: Seq<String>, b: Seq<String>)
    ensures
        names_view(a + b) == names_view(a) + names_view(b),
{
    assert(names_view(a + b) =~= names_view(a) + names_view(b));
}

/// An entrypoint's statement compiler: the scope, the script so far, and what stays fixed.
pub struct CompileStatementContext<'a> {
    pub types: TypeMap,
    pub stack_bindings: StackBindings,
    pub builder: ScriptBuilder,
    pub contract_fields: &'a [ContractFieldAst],
    pub state_end: usize,
    pub structs: &'a StructRegistry,
    pub builtins: &'a BuiltinRegistry,
    pub bytecode_size: Option<i64>,
    pub recorder: DebugRecorder,
}

impl<'a> CompileStatementContext<'a> {
    pub open spec fn scope(&self) -> Scope {
        Scope { types: self.types@, bindings: self.stack_bindings@ }
    }

    pub open spec fn env(&self) -> StmtEnv {
        StmtEnv {
            fields: self.contract_fields@,
            state_end: self.state_end as nat,
            structs: self.structs.structs@,
            builtins: self.builtins.builtins@,
            bytecode_size: self.bytecode_size,
        }
    }

    pub open spec fn script(&self) -> Seq<u8> {
        script_of(self.builder)
    }

    /// The event that opens a statement compiled from this context: where its code begins,
    /// and the stack bindings there.
    pub open spec fn statement_begin(&self) -> EventV {
        EventV::StatementBegin(self.script().len(), self.scope().bindings)
    }

    /// The event that closes a statement compiled up to this context.
    pub open spec fn statement_end(&self) -> EventV {
        EventV::StatementEnd(self.script().len(), self.scope().bindings)
    }

    /// Compiles an expression with nothing above the bindings.
    pub fn compile_expr(&mut self, expr: &Expr) -> (r: Result<(), CompilerError>)
        ensures
            code_outcome(
                r,
                expr_code(expr@, old(self).stack_bindings@, old(self).bytecode_size, 0),
                old(self).script(),
                final(self).script(),
            ),
            final(self).scope() == old(self).scope(),
            final(self).env() == old(self).env(),
            final(self).recorder@ == old(self).recorder@,
    {
        let env = ExprEnv { stack_bindings: &self.stack_bindings, types: &self.types, bytecode_size: self.bytecode_size };
        let mut emitter = ScriptEmitter::new(0);
        crate::codegen::compile_expr(expr, &env, &mut emitter, &mut self.builder)
    }

    /// Puts `types` and `stack_bindings` in place, for compiling a nested block in a scope of
    /// its own, and hands back the ones they displace.
    pub fn with_types_and_stack_bindings(&mut self, types: TypeMap, stack_bindings: StackBindings) -> (r: (
        TypeMap,
        StackBindings,
    ))
        ensures
            final(self).scope() == (Scope { types: types@, bindings: stack_bindings@ }),
            r.0@ == old(self).types@,
            r.1@ == old(self).stack_bindings@,
            final(self).script() == old(self).script(),
            final(self).env() == old(self).env(),
            final(self).recorder@ == old(self).recorder@,
    {
        let mut types = types;
        let mut stack_bindings = stack_bindings;
        std::mem::swap(&mut self.types, &mut types);
        std::mem::swap(&mut self.stack_bindings, &mut stack_bindings);
        (types, stack_bindings)
    }
}

/// Emits a short fixed run of code.
fn emit_code(builder: &mut ScriptBuilder, items: Vec<Emit>) -> (r: Result<(), CompilerError>)
    requires
        items@.len() <= 16,
        forall|i: int| 0 <= i < items@.len() ==> -2 <= #[trigger] items@[i].delta() <= 2,
    ensures
        appended(r, script_of(*old(builder)), script_of(*final(builder)), emit_chunks(items@)),
{
    let mut emitter = ScriptEmitter::new(0);
    emit_tail_pub(&mut emitter, builder, items)
}

/// Binding a new stack local `name` of type `t` to the value of `e`.
pub open spec fn stack_def(env: StmtEnv, sc: Scope, name: Seq<char>, t: TypeRefV, e: ExprV) -> Outcome {
    if sc.bindings.contains(name) {
        Err(Fault::Named(NameFault::AlreadyDefined, name))
    } else {
        match expr_code(e, sc.bindings, env.bytecode_size, 0) {
            Err(f) => Err(f),
            Ok(c) => Ok(
                (
                    c,
                    Scope { types: sc.types.insert(name, t), bindings: seq![name] + sc.bindings },
                    seq![name],
                ),
            ),
        }
    }
}

/// The fault a variable definition meets before it emits anything, where it meets one: a
/// scalar needs an initializer, and the name must not be bound yet.
pub open spec fn definition_early_fault(sc: Scope, t: TypeRefV, name: Seq<char>, has_initializer: bool) -> Option<Fault> {
    if t.dims.len() == 0 && !has_initializer {
        Some(Fault::Is(CompilerError::MissingInitializer))
    } else if sc.bindings.contains(name) {
        Some(Fault::Named(NameFault::AlreadyDefined, name))
    } else {
        None
    }
}

/// The fault a reassignment meets before it emits anything, where it meets one.
pub open spec fn assign_early_fault(sc: Scope, name: Seq<char>) -> Option<Fault> {
    if !sc.types.contains_key(name) {
        Some(Fault::Undefined(name))
    } else if !sc.bindings.contains(name) {
        Some(Fault::Named(NameFault::NotStackBound, name))
    } else {
        None
    }
}

/// The fault a split assignment meets before it emits anything, where it meets one.
pub open spec fn tuple_early_fault(sc: Scope, left_name: Seq<char>, e: ExprV) -> Option<Fault> {
    if !(e is Split) {
        Some(Fault::Is(CompilerError::TupleAssignmentSource))
    } else if sc.bindings.contains(left_name) {
        Some(Fault::Named(NameFault::AlreadyDefined, left_name))
    } else {
        None
    }
}

/// The fault a call statement meets before it emits anything, where it meets one: a call of
/// a name that is neither one of the two output-state validations nor a builtin of the
/// registry, or a validation with the wrong arguments.
pub open spec fn call_early_fault(env: StmtEnv, name: Seq<char>, arg_count: nat) -> Option<Fault> {
    if name == VALIDATE_OUTPUT_STATE_INNER@ {
        if arg_count != env.fields.len() + 1 {
            Some(Fault::Is(CompilerError::ArgumentCount(StateBuiltin::ValidateOutputState)))
        } else if env.fields.len() == 0 {
            Some(Fault::Is(CompilerError::MissingContractFields(StateBuiltin::ValidateOutputState)))
        } else {
            None
        }
    } else if name == VALIDATE_OUTPUT_STATE_WITH_TEMPLATE_INNER@ {
        if arg_count < 5 {
            Some(Fault::Is(CompilerError::ArgumentCount(StateBuiltin::ValidateOutputStateWithTemplate)))
        } else {
            None
        }
    } else if lookup_builtin(env.builtins, name) is None {
        Some(Fault::Named(NameFault::UnloweredCall, name))
    } else {
        None
    }
}

/// The fault a state destructuring assignment meets before it emits anything, where it
/// meets one.
pub open spec fn state_call_early_fault(
    env: StmtEnv,
    target: Seq<char>,
    bs: Seq<BindingV>,
    name: Seq<char>,
    args: Seq<ExprV>,
) -> Option<Fault> {
    if name == READ_INPUT_STATE@ || name == READ_INPUT_STATE_WITH_TEMPLATE@ {
        read_early_fault(env, target, bs, name, args, env.fields, env.state_end, env.structs)
    } else {
        Some(Fault::Named(NameFault::UnsupportedStateAssignment, name))
    }
}

/// Binds a new stack local `name` of type `type_ref` to the value of `expr`.
pub fn compile_stack_variable_definition(
    ctx: &mut CompileStatementContext,
    name: &str,
    type_ref: TypeRef,
    expr: Expr,
) -> (r: Result<Vec<String>, CompilerError>)
    ensures
        stmt_done(r, stack_def(old(ctx).env(), old(ctx).scope(), name@, type_ref@, expr@), old(ctx).script(), final(ctx).script(), final(ctx).scope()),
        old(ctx).scope().bindings.contains(name@) ==> refused_early(
            r,
            Fault::Named(NameFault::AlreadyDefined, name@),
            old(ctx).script(),
            final(ctx).script(),
            old(ctx).scope(),
            final(ctx).scope(),
        ),
        final(ctx).env() == old(ctx).env(),
        final(ctx).recorder@ == old(ctx).recorder@,
{
    if ctx.stack_bindings.contains(name) {
        return Err(CompilerError::AlreadyDefined(name.to_owned()));
    }
    ctx.types.insert(name.to_owned(), type_ref);
    ctx.compile_expr(&expr)?;
    ctx.stack_bindings.push_binding(name);
    let added = vec![name.to_owned()];
    assert(names_view(added@) =~= seq![name@]);
    Ok(added)
}

/// A variable definition: an array without an initializer starts empty; any other variable
/// needs one.
pub open spec fn variable_def(env: StmtEnv, sc: Scope, t: TypeRefV, name: Seq<char>, e: Option<ExprV>) -> Outcome {
    if t.dims.len() > 0 {
        stack_def(
            env,
            sc,
            name,
            t,
            match e {
                Some(x) => x,
                None => ExprV::EmptyArray(t),
            },
        )
    } else {
        match e {
            None => Err(Fault::Is(CompilerError::MissingInitializer)),
            Some(x) => stack_def(env, sc, name, t, x),
        }
    }
}

/// The values of an optional expression.
pub open spec fn opt_expr_view(e: Option<Expr>) -> Option<ExprV> {
    match e {
        Some(x) => Some(x@),
        None => None,
    }
}

pub fn compile_variable_definition_statement(
    ctx: &mut CompileStatementContext,
    type_ref: &TypeRef,
    name: &str,
    expr: Option<&Expr>,
) -> (r: Result<Vec<String>, CompilerError>)
    ensures
        stmt_done(
            r,
            variable_def(
                old(ctx).env(),
                old(ctx).scope(),
                type_ref@,
                name@,
                match expr {
                    Some(x) => Some(x@),
                    None => None,
                },
            ),
            old(ctx).script(),
            final(ctx).script(),
            final(ctx).scope(),
        ),
        definition_early_fault(old(ctx).scope(), type_ref@, name@, expr is Some) matches Some(f) ==> refused_early(
            r,
            f,
            old(ctx).script(),
            final(ctx).script(),
            old(ctx).scope(),
            final(ctx).scope(),
        ),
        final(ctx).env() == old(ctx).env(),
        final(ctx).recorder@ == old(ctx).recorder@,
{
    if type_ref.is_array() {
        let initial = match expr {
            Some(x) => x.clone(),
            None => Expr::EmptyArray(type_ref.clone()),
        };
        return compile_stack_variable_definition(ctx, name, type_ref.clone(), initial);
    }
    match expr {
        Some(x) => compile_stack_variable_definition(ctx, name, type_ref.clone(), x.clone()),
        None => Err(CompilerError::MissingInitializer),
    }
}

/// A statement that compiles an expression and then fixed code, leaving the scope as it is.
pub open spec fn guard_stmt(env: StmtEnv, sc: Scope, e: ExprV, tail: Seq<Chunk>) -> Outcome {
    match expr_code(e, sc.bindings, env.bytecode_size, 0) {
        Err(f) => Err(f),
        Ok(c) => Ok((c + tail, sc, Seq::empty())),
    }
}

/// Compiles `expr` and then the fixed `tail`.
fn compile_guarded(ctx: &mut CompileStatementContext, expr: &Expr, tail: Vec<Emit>) -> (r: Result<
    Vec<String>,
    CompilerError,
>)
    requires
        tail@.len() <= 16,
        forall|i: int| 0 <= i < tail@.len() ==> -2 <= #[trigger] tail@[i].delta() <= 2,
    ensures
        stmt_done(
            r,
            guard_stmt(old(ctx).env(), old(ctx).scope(), expr@, emit_chunks(tail@)),
            old(ctx).script(),
            final(ctx).script(),
            final(ctx).scope(),
        ),
        final(ctx).env() == old(ctx).env(),
        final(ctx).recorder@ == old(ctx).recorder@,
{
    let ghost s0 = ctx.script();
    let r0 = ctx.compile_expr(expr);
    if let Err(e) = r0 {
        proof {
            if let Ok(c) = expr_code(expr@, old(ctx).stack_bindings@, old(ctx).bytecode_size, 0) {
                crate::script::lemma_emits_append(s0, c, emit_chunks(tail@));
            }
        }
        return Err(e);
    }
    let ghost s1 = ctx.script();
    let r = emit_code(&mut ctx.builder, tail);
    proof {
        let c = expr_code(expr@, old(ctx).stack_bindings@, old(ctx).bytecode_size, 0)->Ok_0;
        lemma_appended_seq(s0, s1, ctx.script(), c, emit_chunks(tail@), r);
    }
    r?;
    let added: Vec<String> = Vec::new();
    assert(names_view(added@) =~= Seq::<Seq<char>>::empty());
    Ok(added)
}

/// `require(expr)`.
pub open spec fn require_tail() -> Seq<Chunk> {
    seq![Chunk::Op(OP_VERIFY)]
}

/// `require(this.age >= expr)`: the age must be a relative DAA-score lock time, below 2^32.
pub open spec fn require_age_daa_tail() -> Seq<Chunk> {
    seq![
        Chunk::Op(OP_DUP),
        Chunk::Int(0),
        Chunk::Int(0x1_0000_0000),
        Chunk::Op(OP_WITHIN),
        Chunk::Op(OP_VERIFY),
        Chunk::Op(OP_CHECK_SEQUENCE_VERIFY),
    ]
}

/// `require(tx.time >= expr)` with a DAA score: below the lock-time threshold.
pub open spec fn require_tx_daa_tail() -> Seq<Chunk> {
    seq![
        Chunk::Op(OP_DUP),
        Chunk::Int(0),
        Chunk::Int(LOCK_TIME_THRESHOLD as i64),
        Chunk::Op(OP_WITHIN),
        Chunk::Op(OP_VERIFY),
        Chunk::Op(OP_CHECK_LOCK_TIME_VERIFY),
    ]
}

/// `require(tx.time >= expr)` with a timestamp: at or above the lock-time threshold.
pub open spec fn require_tx_time_tail() -> Seq<Chunk> {
    seq![
        Chunk::Op(OP_DUP),
        Chunk::Int(LOCK_TIME_THRESHOLD as i64),
        Chunk::Op(OP_GREATER_THAN_OR_EQUAL),
        Chunk::Op(OP_VERIFY),
        Chunk::Op(OP_CHECK_LOCK_TIME_VERIFY),
    ]
}

pub fn compile_require_statement(ctx: &mut CompileStatementContext, expr: &Expr) -> (r: Result<
    Vec<String>,
    CompilerError,
>)
    ensures
        stmt_done(r, guard_stmt(old(ctx).env(), old(ctx).scope(), expr@, require_tail()), old(ctx).script(), final(ctx).script(), final(ctx).scope()),
        final(ctx).env() == old(ctx).env(),
        final(ctx).recorder@ == old(ctx).recorder@,
{
    let tail = vec![Emit::Op(OP_VERIFY, -1)];
    assert(emit_chunks(tail@) =~= require_tail());
    compile_guarded(ctx, expr, tail)
}

pub fn compile_require_age_daa_statement(ctx: &mut CompileStatementContext, expr: &Expr) -> (r: Result<
    Vec<String>,
    CompilerError,
>)
    ensures
        stmt_done(r, guard_stmt(old(ctx).env(), old(ctx).scope(), expr@, require_age_daa_tail()), old(ctx).script(), final(ctx).script(), final(ctx).scope()),
        final(ctx).env() == old(ctx).env(),
        final(ctx).recorder@ == old(ctx).recorder@,
{
    let tail = vec![
        Emit::Op(OP_DUP, 1),
        Emit::Int(0),
        Emit::Int(1i64 << 32u32),
        Emit::Op(OP_WITHIN, -2),
        Emit::Op(OP_VERIFY, -1),
        Emit::Op(OP_CHECK_SEQUENCE_VERIFY, 0),
    ];
    assert((1i64 << 32u32) == 0x1_0000_0000i64) by (bit_vector);
    assert(emit_chunks(tail@) =~= require_age_daa_tail());
    compile_guarded(ctx, expr, tail)
}

pub fn compile_require_tx_daa_statement(ctx: &mut CompileStatementContext, expr: &Expr) -> (r: Result<
    Vec<String>,
    CompilerError,
>)
    ensures
        stmt_done(r, guard_stmt(old(ctx).env(), old(ctx).scope(), expr@, require_tx_daa_tail()), old(ctx).script(), final(ctx).script(), final(ctx).scope()),
        final(ctx).env() == old(ctx).env(),
        final(ctx).recorder@ == old(ctx).recorder@,
{
    let tail = vec![
        Emit::Op(OP_DUP, 1),
        Emit::Int(0),
        Emit::Int(LOCK_TIME_THRESHOLD as i64),
        Emit::Op(OP_WITHIN, -2),
        Emit::Op(OP_VERIFY, -1),
        Emit::Op(OP_CHECK_LOCK_TIME_VERIFY, 0),
    ];
    assert(emit_chunks(tail@) =~= require_tx_daa_tail());
    compile_guarded(ctx, expr, tail)
}

pub fn compile_require_tx_time_statement(ctx: &mut CompileStatementContext, expr: &Expr) -> (r: Result<
    Vec<String>,
    CompilerError,
>)
    ensures
        stmt_done(r, guard_stmt(old(ctx).env(), old(ctx).scope(), expr@, require_tx_time_tail()), old(ctx).script(), final(ctx).script(), final(ctx).scope()),
        final(ctx).env() == old(ctx).env(),
        final(ctx).recorder@ == old(ctx).recorder@,
{
    let tail = vec![
        Emit::Op(OP_DUP, 1),
        Emit::Int(LOCK_TIME_THRESHOLD as i64),
        Emit::Op(OP_GREATER_THAN_OR_EQUAL, -1),
        Emit::Op(OP_VERIFY, -1),
        Emit::Op(OP_CHECK_LOCK_TIME_VERIFY, 0),
    ];
    assert(emit_chunks(tail@) =~= require_tx_time_tail());
    compile_guarded(ctx, expr, tail)
}

/// A refusal of code `c1` is a refusal of anything that starts with it.
pub proof fn lemma_join_refused<T>(
    s0: Seq<u8>,
    s1: Seq<u8>,
    c1: Seq<Chunk>,
    a1: Seq<Seq<char>>,
    o: Outcome,
    r: Result<T, CompilerError>,
    sc: Scope,
)
    requires
        !emits(s0, c1),
        r matches Err(e) && e == CompilerError::ScriptRejected,
    ensures
        scope_done(r, join(c1, a1, o), s0, s1, sc),
{
    if let Ok((c2, _, _)) = o {
        crate::script::lemma_emits_append(s0, c1, c2);
    }
}

/// Whether two names are the same.
pub fn same_name(a: &str, b: &str) -> (r: bool)
    ensures
        r == (a@ == b@),
{
    a.to_owned() == b.to_owned()
}

/// Reassigning the stack local `name`: the new value goes on top and the old one is dropped.
pub open spec fn assign_stmt(env: StmtEnv, sc: Scope, name: Seq<char>, e: ExprV) -> Outcome {
    if !sc.types.contains_key(name) {
        Err(Fault::Undefined(name))
    } else if !sc.bindings.contains(name) {
        Err(Fault::Named(NameFault::NotStackBound, name))
    } else {
        match expr_code(e, sc.bindings, env.bytecode_size, 0) {
            Err(f) => Err(f),
            Ok(c) => match binding_depth(sc.bindings, name) {
                None => Err(Fault::Undefined(name)),
                Some(k) => if k + 1 > i64::MAX {
                    Err(Fault::Overflow)
                } else {
                    Ok(
                        (
                            c + rebind_chunks(k),
                            Scope { types: sc.types, bindings: seq![name] + sc.bindings.remove(k as int) },
                            Seq::empty(),
                        ),
                    )
                },
            },
        }
    }
}

pub fn compile_assign_statement(ctx: &mut CompileStatementContext, name: &str, expr: &Expr) -> (r: Result<
    Vec<String>,
    CompilerError,
>)
    ensures
        stmt_done(r, assign_stmt(old(ctx).env(), old(ctx).scope(), name@, expr@), old(ctx).script(), final(ctx).script(), final(ctx).scope()),
        assign_early_fault(old(ctx).scope(), name@) matches Some(f) ==> refused_early(
            r,
            f,
            old(ctx).script(),
            final(ctx).script(),
            old(ctx).scope(),
            final(ctx).scope(),
        ),
        final(ctx).env() == old(ctx).env(),
        final(ctx).recorder@ == old(ctx).recorder@,
{
    if ctx.types.get(name).is_none() {
        return Err(CompilerError::UndefinedIdentifier(name.to_owned()));
    }
    if !ctx.stack_bindings.contains(name) {
        return Err(CompilerError::NotStackBound(name.to_owned()));
    }
    let ghost b = ctx.stack_bindings@;
    let ghost s0 = ctx.script();
    proof {
        lemma_binding_depth(b, name@);
    }
    let r0 = ctx.compile_expr(expr);
    if let Err(e) = r0 {
        proof {
            if let Ok(c) = expr_code(expr@, b, ctx.bytecode_size, 0) {
                let k = binding_depth(b, name@)->Some_0;
                crate::script::lemma_emits_append(s0, c, rebind_chunks(k));
            }
        }
        return Err(e);
    }
    let ghost s1 = ctx.script();
    let r1 = ctx.stack_bindings.emit_update_stack_for_rebinding(name, &mut ctx.builder);
    proof {
        let c = expr_code(expr@, b, ctx.bytecode_size, 0)->Ok_0;
        let k = binding_depth(b, name@)->Some_0;
        if k + 1 <= i64::MAX {
            lemma_appended_seq(s0, s1, ctx.script(), c, rebind_chunks(k), r1);
        }
    }
    r1?;
    let added: Vec<String> = Vec::new();
    assert(names_view(added@) =~= Seq::<Seq<char>>::empty());
    Ok(added)
}

/// A console statement compiles to nothing.
pub fn compile_console_statement() -> (r: Result<Vec<String>, CompilerError>)
    ensures
        r matches Ok(v) && v@.len() == 0,
{
    Ok(Vec::new())
}

/// A call with assignment: inline lowering removes every one before code generation.
pub fn compile_function_call_assign_statement(name: &str) -> (r: Result<Vec<String>, CompilerError>)
    ensures
        r matches Err(CompilerError::UnloweredCallAssign(n)) && n@ == name@,
{
    Err(CompilerError::UnloweredCallAssign(name.to_owned()))
}

/// `(left, right) = source.split(index)`.
pub open spec fn tuple_stmt(
    env: StmtEnv,
    sc: Scope,
    lt: TypeRefV,
    ln: Seq<char>,
    rt: TypeRefV,
    rn: Seq<char>,
    e: ExprV,
) -> Outcome {
    match e {
        ExprV::Split(src, idx, _) => match stack_def(env, sc, ln, lt, ExprV::Split(src, idx, SplitPart::Left)) {
            Err(f) => Err(f),
            Ok((c1, sc1, a1)) => join(c1, a1, stack_def(env, sc1, rn, rt, ExprV::Split(src, idx, SplitPart::Right))),
        },
        _ => Err(Fault::Is(CompilerError::TupleAssignmentSource)),
    }
}

pub fn compile_tuple_assignment_statement(
    ctx: &mut CompileStatementContext,
    left_type_ref: &TypeRef,
    left_name: &str,
    right_type_ref: &TypeRef,
    right_name: &str,
    expr: &Expr,
) -> (r: Result<Vec<String>, CompilerError>)
    ensures
        stmt_done(
            r,
            tuple_stmt(old(ctx).env(), old(ctx).scope(), left_type_ref@, left_name@, right_type_ref@, right_name@, expr@),
            old(ctx).script(),
            final(ctx).script(),
            final(ctx).scope(),
        ),
        tuple_early_fault(old(ctx).scope(), left_name@, expr@) matches Some(f) ==> refused_early(
            r,
            f,
            old(ctx).script(),
            final(ctx).script(),
            old(ctx).scope(),
            final(ctx).scope(),
        ),
        final(ctx).env() == old(ctx).env(),
        final(ctx).recorder@ == old(ctx).recorder@,
{
    match expr {
        Expr::Split(source, index, _) => {
            let left = Expr::Split(Box::new((**source).clone()), Box::new((**index).clone()), SplitPart::Left);
            let right = Expr::Split(Box::new((**source).clone()), Box::new((**index).clone()), SplitPart::Right);
            let ghost s0 = ctx.script();
            let ghost env = ctx.env();
            let ghost o1 = stack_def(env, ctx.scope(), left_name@, left_type_ref@, left@);
            let r1 = compile_stack_variable_definition(ctx, left_name, left_type_ref.clone(), left);
            let mut added = match r1 {
                Ok(v) => v,
                Err(e) => {
                    proof {
                        if let Ok((c1, sc1, a1)) = o1 {
                            lemma_join_refused(s0, ctx.script(), c1, a1, stack_def(env, sc1, right_name@, right_type_ref@, right@), Err::<Vec<String>, CompilerError>(e), ctx.scope());
                        }
                    }
                    return Err(e);
                },
            };
            let ghost s1 = ctx.script();
            let ghost c1 = o1->Ok_0.0;
            let ghost a1 = o1->Ok_0.2;
            let ghost o2 = stack_def(env, ctx.scope(), right_name@, right_type_ref@, right@);
            let r2 = compile_stack_variable_definition(ctx, right_name, right_type_ref.clone(), right);
            proof {
                lemma_join(s0, s1, ctx.script(), c1, a1, o2, r2, ctx.scope());
            }
            let mut more = match r2 {
                Ok(v) => v,
                Err(e) => {
                    return Err(e);
                },
            };
            let ghost v1 = added@;
            let ghost v2 = more@;
            added.append(&mut more);
            proof {
                lemma_names_append(v1, v2);
            }
            Ok(added)
        },
        _ => Err(CompilerError::TupleAssignmentSource),
    }
}

/// Whether the offset from a script's own size to the end of its state region, which the
/// output-state validation pushes as a script number once it knows the contract's fields,
/// its own size and where its state starts, is one.
pub open spec fn state_offsets_fit(env: StmtEnv) -> bool {
    (env.fields.len() > 0 && env.bytecode_size is Some && spec_state_start_offset(
        env.state_end,
        field_types(env.fields),
    ) is Ok) ==> i64::MIN <= (env.state_end as i64) - env.bytecode_size->Some_0 <= i64::MAX
}

/// Whether a statement contains a call of the output-state validation, the one statement
/// that pushes that offset.
pub open spec fn stmt_calls_validate(s: Statement) -> bool
    decreases s, 2int,
{
    match s {
        Statement::Block { body } => block_calls_validate(body@, 0),
        Statement::If { then_branch, else_branch, .. } => block_calls_validate(then_branch@, 0) || match else_branch {
            Some(e) => block_calls_validate(e@, 0),
            None => false,
        },
        Statement::FunctionCall { name, .. } => name@ == VALIDATE_OUTPUT_STATE_INNER@,
        _ => false,
    }
}

/// Whether statements `i ..` of a block contain a call of the output-state validation.
pub open spec fn block_calls_validate(ss: Seq<Statement>, i: int) -> bool
    decreases ss, ss.len() - i,
{
    if i < 0 || i >= ss.len() {
        false
    } else {
        stmt_calls_validate(ss[i]) || block_calls_validate(ss, i + 1)
    }
}

/// A block that calls the validation has a statement that calls it.
pub proof fn lemma_block_calls_witness(ss: Seq<Statement>, j: int)
    requires
        0 <= j,
        block_calls_validate(ss, j),
    ensures
        exists|i: int| j <= i < ss.len() && #[trigger] stmt_calls_validate(ss[i]),
    decreases ss.len() - j,
{
    if !stmt_calls_validate(ss[j]) {
        lemma_block_calls_witness(ss, j + 1);
    }
}

/// A statement of a block that calls the validation makes the block call it.
pub proof fn lemma_block_calls_validate(ss: Seq<Statement>, j: int, i: int)
    requires
        0 <= j <= i < ss.len(),
        stmt_calls_validate(ss[i]),
    ensures
        block_calls_validate(ss, j),
    decreases i - j,
{
    if j < i {
        lemma_block_calls_validate(ss, j + 1, i);
    }
}

/// The call a `validateOutputState(..)` statement is lowered to.
pub const VALIDATE_OUTPUT_STATE_INNER: &'static str = "__validateOutputStateInner";

/// The call a `validateOutputStateWithTemplate(..)` statement is lowered to.
pub const VALIDATE_OUTPUT_STATE_WITH_TEMPLATE_INNER: &'static str = "__validateOutputStateWithTemplateInner";

/// The code of `validateOutputState(output_idx, ..new_field_values)` in scope `sc`.
pub open spec fn validate_output_stmt_code(env: StmtEnv, sc: Scope, args: Seq<ExprV>) -> Result<Seq<Chunk>, Fault> {
    if args.len() != env.fields.len() + 1 {
        Err(Fault::Is(CompilerError::ArgumentCount(StateBuiltin::ValidateOutputState)))
    } else if env.fields.len() == 0 {
        Err(Fault::Is(CompilerError::MissingContractFields(StateBuiltin::ValidateOutputState)))
    } else {
        validate_output_code(args, field_types(env.fields), env.state_end, sc.types, sc.bindings, env.bytecode_size)
    }
}

/// The code of `validateOutputStateWithTemplate(..)` in scope `sc`.
pub open spec fn validate_output_template_stmt_code(env: StmtEnv, sc: Scope, args: Seq<ExprV>) -> Result<
    Seq<Chunk>,
    Fault,
> {
    if args.len() < 5 {
        Err(Fault::Is(CompilerError::ArgumentCount(StateBuiltin::ValidateOutputStateWithTemplate)))
    } else {
        validate_output_with_template_code(args, sc.types, sc.bindings, env.bytecode_size)
    }
}

/// The steps of a builtin call statement: each argument evaluated in turn, then the
/// builtin's opcodes, then, where the builtin leaves a value, `OpDrop`, since a statement
/// keeps nothing.
pub open spec fn builtin_steps(args: Seq<ExprV>, ops: Seq<u8>, returns_value: bool) -> Seq<StepV> {
    args.map_values(|e: ExprV| StepV::Eval(e)) + ops.map_values(|op: u8| StepV::Fixed(seq![Chunk::Op(op)], 0))
        + if returns_value {
        seq![StepV::Fixed(seq![Chunk::Op(OP_DROP)], -1)]
    } else {
        Seq::empty()
    }
}

/// The code of a call of the builtin `ops`, `returns_value` in scope `sc`.
pub open spec fn builtin_call_code(env: StmtEnv, sc: Scope, ops: Seq<u8>, returns_value: bool, args: Seq<ExprV>) -> Result<
    Seq<Chunk>,
    Fault,
> {
    program_code(builtin_steps(args, ops, returns_value), sc.bindings, env.bytecode_size, 0)
}

/// The code of a call statement of `name`: the two output-state validations, or a builtin
/// of the registry; any other call should have been removed by inline lowering.
pub open spec fn call_code(env: StmtEnv, sc: Scope, name: Seq<char>, args: Seq<ExprV>) -> Result<Seq<Chunk>, Fault> {
    if name == VALIDATE_OUTPUT_STATE_INNER@ {
        validate_output_stmt_code(env, sc, args)
    } else if name == VALIDATE_OUTPUT_STATE_WITH_TEMPLATE_INNER@ {
        validate_output_template_stmt_code(env, sc, args)
    } else {
        match lookup_builtin(env.builtins, name) {
            Some((ops, returns_value)) => builtin_call_code(env, sc, ops, returns_value, args),
            None => Err(Fault::Named(NameFault::UnloweredCall, name)),
        }
    }
}

/// The code of a call of the void builtin `name`; a name that is no void builtin of the
/// registry is refused.
pub open spec fn void_builtin_code(env: StmtEnv, sc: Scope, name: Seq<char>, args: Seq<ExprV>) -> Result<
    Seq<Chunk>,
    Fault,
> {
    match lookup_builtin(env.builtins, name) {
        Some((ops, false)) => builtin_call_code(env, sc, ops, false, args),
        _ => Err(Fault::Named(NameFault::UnloweredCall, name)),
    }
}

/// Emits a builtin call statement: its arguments, its opcodes and, for a value, `OpDrop`.
fn emit_builtin_call(ctx: &mut CompileStatementContext, builtin: &BuiltinSpec, args: &[Expr]) -> (r: Result<
    (),
    CompilerError,
>)
    ensures
        code_outcome(
            r,
            builtin_call_code(old(ctx).env(), old(ctx).scope(), builtin.ops@, builtin.returns_value, exprs_view(args@)),
            old(ctx).script(),
            final(ctx).script(),
        ),
        final(ctx).scope() == old(ctx).scope(),
        final(ctx).env() == old(ctx).env(),
        final(ctx).recorder@ == old(ctx).recorder@,
{
    let ghost want = builtin_steps(exprs_view(args@), builtin.ops@, builtin.returns_value);
    let ghost evals = exprs_view(args@).map_values(|e: ExprV| StepV::Eval(e));
    let ghost fixed = builtin.ops@.map_values(|op: u8| StepV::Fixed(seq![Chunk::Op(op)], 0));
    let mut steps: Vec<Step> = Vec::new();
    for i in 0..args.len()
        invariant
            evals == exprs_view(args@).map_values(|e: ExprV| StepV::Eval(e)),
            steps_view(steps@) == evals.take(i as int),
            forall|j: int| 0 <= j < steps@.len() ==> (#[trigger] steps@[j]).well_sized(),
    {
        let ghost before = steps@;
        steps.push(Step::Eval(args[i].clone()));
        proof {
            assert(steps_view(steps@) =~= steps_view(before).push(StepV::Eval(args@[i as int]@)));
            assert(evals.take(i + 1) =~= evals.take(i as int).push(evals[i as int]));
        }
    }
    assert(evals.take(args@.len() as int) == evals);
    let ghost n = steps@.len();
    for k in 0..builtin.ops.len()
        invariant
            fixed == builtin.ops@.map_values(|op: u8| StepV::Fixed(seq![Chunk::Op(op)], 0)),
            steps_view(steps@) == evals + fixed.take(k as int),
            forall|j: int| 0 <= j < steps@.len() ==> (#[trigger] steps@[j]).well_sized(),
    {
        let ghost before = steps@;
        let op = builtin.ops[k];
        let items = vec![Emit::Op(op, 0)];
        proof {
            assert(emit_chunks(items@) =~= seq![Chunk::Op(op)]);
            assert(items@.drop_last() =~= Seq::<Emit>::empty());
            assert(emit_delta(Seq::<Emit>::empty()) == 0);
            assert(items@.last().delta() == 0);
            assert(emit_delta(items@) == 0);
        }
        steps.push(Step::Fixed(items));
        proof {
            assert(steps_view(steps@) =~= steps_view(before).push(StepV::Fixed(seq![Chunk::Op(op)], 0)));
            assert(fixed.take(k + 1) =~= fixed.take(k as int).push(fixed[k as int]));
            assert(evals + fixed.take(k + 1) =~= (evals + fixed.take(k as int)).push(fixed[k as int]));
        }
    }
    assert(fixed.take(builtin.ops@.len() as int) == fixed);
    if builtin.returns_value {
        let ghost before = steps@;
        let items = vec![Emit::Op(OP_DROP, -1)];
        proof {
            assert(emit_chunks(items@) =~= seq![Chunk::Op(OP_DROP)]);
            assert(items@.drop_last() =~= Seq::<Emit>::empty());
            assert(emit_delta(Seq::<Emit>::empty()) == 0);
            assert(items@.last().delta() == -1);
            assert(emit_delta(items@) == -1);
        }
        steps.push(Step::Fixed(items));
        proof {
            assert(steps_view(steps@) =~= steps_view(before).push(StepV::Fixed(seq![Chunk::Op(OP_DROP)], -1)));
        }
    }
    assert(steps_view(steps@) =~= want);
    let env = ExprEnv { stack_bindings: &ctx.stack_bindings, types: &ctx.types, bytecode_size: ctx.bytecode_size };
    let mut emitter = ScriptEmitter::new(0);
    emit_program(steps.as_slice(), &env, &mut emitter, &mut ctx.builder)
}

impl<'a> CompileStatementContext<'a> {
    /// Compiles a call of a builtin that leaves nothing on the stack.
    pub fn compile_void_builtin_call(&mut self, name: &str, args: &[Expr]) -> (r: Result<(), CompilerError>)
        ensures
            code_outcome(
                r,
                void_builtin_code(old(self).env(), old(self).scope(), name@, exprs_view(args@)),
                old(self).script(),
                final(self).script(),
            ),
            final(self).scope() == old(self).scope(),
            final(self).env() == old(self).env(),
            final(self).recorder@ == old(self).recorder@,
    {
        match self.builtins.get(name) {
            Some(b) => {
                if b.returns_value {
                    Err(CompilerError::UnloweredCall(name.to_owned()))
                } else {
                    emit_builtin_call(self, b, args)
                }
            },
            None => Err(CompilerError::UnloweredCall(name.to_owned())),
        }
    }
}

/// Compiles a call statement: one of the two output-state validations, or a call of a
/// builtin of the registry, whose value, if it leaves one, is dropped.
pub fn compile_function_call_statement(ctx: &mut CompileStatementContext, name: &str, args: &[Expr]) -> (r:
    Result<Vec<String>, CompilerError>)
    requires
        name@ == VALIDATE_OUTPUT_STATE_INNER@ ==> state_offsets_fit(old(ctx).env()),
    ensures
        stmt_done(
            r,
            code_step(call_code(old(ctx).env(), old(ctx).scope(), name@, exprs_view(args@)), old(ctx).scope()),
            old(ctx).script(),
            final(ctx).script(),
            final(ctx).scope(),
        ),
        call_early_fault(old(ctx).env(), name@, args@.len()) matches Some(f) ==> refused_early(
            r,
            f,
            old(ctx).script(),
            final(ctx).script(),
            old(ctx).scope(),
            final(ctx).scope(),
        ),
        final(ctx).env() == old(ctx).env(),
        final(ctx).recorder@ == old(ctx).recorder@,
{
    if same_name(name, VALIDATE_OUTPUT_STATE_INNER) {
        let r = compile_validate_output_state_inner_statement(
            args,
            &ctx.stack_bindings,
            &ctx.types,
            &mut ctx.builder,
            ctx.contract_fields,
            ctx.state_end,
            ctx.bytecode_size,
        );
        proof {
            assert(exprs_view(args@).len() == args@.len());
        }
        r?;
    } else if same_name(name, VALIDATE_OUTPUT_STATE_WITH_TEMPLATE_INNER) {
        compile_validate_output_state_with_template_inner_statement(
            args,
            &ctx.stack_bindings,
            &ctx.types,
            &mut ctx.builder,
            ctx.bytecode_size,
        )?;
    } else {
        let builtins = ctx.builtins;
        match builtins.get(name) {
            Some(b) => {
                if b.returns_value {
                    emit_builtin_call(ctx, b, args)?;
                } else {
                    ctx.compile_void_builtin_call(name, args)?;
                }
            },
            None => {
                return Err(CompilerError::UnloweredCall(name.to_owned()));
            },
        }
    }
    let added: Vec<String> = Vec::new();
    assert(names_view(added@) =~= Seq::<Seq<char>>::empty());
    Ok(added)
}

/// A state destructuring assignment: only the two state reads produce one.
pub open spec fn state_call_stmt(
    env: StmtEnv,
    sc: Scope,
    target: Seq<char>,
    bs: Seq<BindingV>,
    name: Seq<char>,
    args: Seq<ExprV>,
) -> Outcome {
    if name == READ_INPUT_STATE@ || name == READ_INPUT_STATE_WITH_TEMPLATE@ {
        read_state_stmt(env, sc, target, bs, name, args, env.fields, env.state_end, env.structs)
    } else {
        Err(Fault::Named(NameFault::UnsupportedStateAssignment, name))
    }
}

/// Reordering the stack from the bindings `from` to the bindings `to`.
pub open spec fn reorder_code(from: Seq<Seq<char>>, to: Seq<Seq<char>>) -> Result<Seq<Chunk>, Fault> {
    if from.len() != to.len() {
        Err(Fault::Is(CompilerError::StackMismatch))
    } else {
        match reorder_plan(from, to, to.len() as int) {
            Err(e) => Err(Fault::Is(e)),
            Ok((c, _)) => Ok(c),
        }
    }
}

/// What compiling a statement that contains no statements gives.
#[verifier::opaque]
pub open spec fn simple_stmt_outcome(env: StmtEnv, sc: Scope, s: Statement) -> Outcome {
    match s {
        Statement::VariableDefinition { type_ref, name, expr } => variable_def(
            env,
            sc,
            type_ref@,
            name@,
            opt_expr_view(expr),
        ),
        Statement::Require { expr } => guard_stmt(env, sc, expr@, require_tail()),
        Statement::RequireAgeDaa { expr } => guard_stmt(env, sc, expr@, require_age_daa_tail()),
        Statement::RequireTxDaa { expr } => guard_stmt(env, sc, expr@, require_tx_daa_tail()),
        Statement::RequireTxTime { expr } => guard_stmt(env, sc, expr@, require_tx_time_tail()),
        Statement::TupleAssignment { left_type_ref, left_name, right_type_ref, right_name, expr } => tuple_stmt(
            env,
            sc,
            left_type_ref@,
            left_name@,
            right_type_ref@,
            right_name@,
            expr@,
        ),
        Statement::FunctionCall { name, args } => code_step(
            call_code(env, sc, name@, exprs_view(args@)),
            sc,
        ),
        Statement::StateFunctionCallAssign { target_struct, bindings, name, args } => state_call_stmt(
            env,
            sc,
            target_struct@,
            bindings_view(bindings@),
            name@,
            exprs_view(args@),
        ),
        Statement::FunctionCallAssign { name, .. } => Err(Fault::Named(NameFault::UnloweredCallAssign, name@)),
        Statement::Assign { name, expr } => assign_stmt(env, sc, name@, expr@),
        Statement::Console { .. } => Ok((Seq::empty(), sc, Seq::empty())),
        Statement::For { .. } => Err(Fault::Is(CompilerError::UnloweredLoop)),
        Statement::Return { .. } => Err(Fault::Is(CompilerError::MisplacedReturn)),
        Statement::StructDestructure { .. } => Err(Fault::Is(CompilerError::UnloweredStructDestructure)),
        _ => Err(Fault::Unsupported),
    }
}

/// What compiling the statement `s` in scope `sc` gives.
pub open spec fn stmt_outcome(env: StmtEnv, sc: Scope, s: Statement) -> Outcome
    decreases s, 2int,
{
    match s {
        Statement::Block { body } => block_outcome(env, sc, body@),
        Statement::If { .. } => if_outcome(env, sc, s),
        _ => simple_stmt_outcome(env, sc, s),
    }
}

/// What compiling the `if` statement `s` gives: the condition and `OpIf`; the then-branch;
/// with an else-branch, `OpElse`, the else-branch and the reordering of its bindings into
/// the then-branch's, whose bindings stand after the statement; without one, the reordering
/// of the then-branch's bindings back into the scope's; then `OpEndIf`. Each branch is
/// compiled in a copy of the scope, and the declared types after the statement are the
/// scope's.
pub open spec fn if_outcome(env: StmtEnv, sc: Scope, s: Statement) -> Outcome
    decreases s, 1int,
{
    match s {
        Statement::If { condition, then_branch, else_branch } => join_code(
            expr_code(condition@, sc.bindings, env.bytecode_size, 0),
            join(
                seq![Chunk::Op(OP_IF)],
                Seq::empty(),
                match block_outcome(env, sc, then_branch@) {
                    Err(f) => Err(f),
                    Ok((tc, ts, _)) => join(
                        tc,
                        Seq::empty(),
                        match else_branch {
                            Some(eb) => join(
                                seq![Chunk::Op(OP_ELSE)],
                                Seq::empty(),
                                match block_outcome(env, sc, eb@) {
                                    Err(f) => Err(f),
                                    Ok((ec, es, _)) => join(
                                        ec,
                                        Seq::empty(),
                                        join_code(
                                            reorder_code(es.bindings, ts.bindings),
                                            Ok(
                                                (
                                                    seq![Chunk::Op(OP_END_IF)],
                                                    Scope { types: sc.types, bindings: ts.bindings },
                                                    Seq::empty(),
                                                ),
                                            ),
                                        ),
                                    ),
                                },
                            ),
                            None => join_code(
                                reorder_code(ts.bindings, sc.bindings),
                                Ok((seq![Chunk::Op(OP_END_IF)], sc, Seq::empty())),
                            ),
                        },
                    ),
                },
            ),
        ),
        _ => Err(Fault::Unsupported),
    }
}

/// What compiling a block gives: its statements in turn, then the drop of the locals they
/// added, whose names leave scope.
pub open spec fn block_outcome(env: StmtEnv, sc: Scope, ss: Seq<Statement>) -> Outcome
    decreases ss, ss.len() + 1,
{
    match blocks_from(env, sc, ss, 0) {
        Err(f) => Err(f),
        Ok((c, s1, a)) => if a.len() == 0 {
            Ok((c, s1, Seq::empty()))
        } else {
            match drop_plan(s1.bindings, a) {
                Err(e) => Err(Fault::Is(e)),
                Ok((dc, left)) => Ok(
                    (c + dc, Scope { types: s1.types.remove_keys(a.to_set()), bindings: left }, Seq::empty()),
                ),
            }
        },
    }
}

/// The statements `i ..` of a block, each compiled in the scope the one before leaves.
pub open spec fn blocks_from(env: StmtEnv, sc: Scope, ss: Seq<Statement>, i: int) -> Outcome
    decreases ss, ss.len() - i,
{
    if i < 0 || i >= ss.len() {
        Ok((Seq::empty(), sc, Seq::empty()))
    } else {
        match stmt_outcome(env, sc, ss[i]) {
            Err(f) => Err(f),
            Ok((c, s1, a)) => join(c, a, blocks_from(env, s1, ss, i + 1)),
        }
    }
}

pub proof fn lemma_blocks_from_step(env: StmtEnv, sc: Scope, ss: Seq<Statement>, i: int)
    requires
        0 <= i < ss.len(),
    ensures
        blocks_from(env, sc, ss, i) == match stmt_outcome(env, sc, ss[i]) {
            Err(f) => Err(f),
            Ok((c, s1, a)) => join(c, a, blocks_from(env, s1, ss, i + 1)),
        },
{
    reveal_with_fuel(blocks_from, 2);
}

pub proof fn lemma_blocks_from_end(env: StmtEnv, sc: Scope, ss: Seq<Statement>)
    ensures
        blocks_from(env, sc, ss, ss.len() as int) == Ok::<(Seq<Chunk>, Scope, Seq<Seq<char>>), Fault>(
            (Seq::empty(), sc, Seq::empty()),
        ),
{
    reveal_with_fuel(blocks_from, 2);
}

/// A block's outcome is its statements' outcome, followed by the drop of the locals they add.
pub proof fn lemma_block_outcome(env: StmtEnv, sc: Scope, ss: Seq<Statement>)
    ensures
        block_outcome(env, sc, ss) == match blocks_from(env, sc, ss, 0) {
            Err(f) => Err(f),
            Ok((c, s1, a)) => if a.len() == 0 {
                Ok((c, s1, Seq::<Seq<char>>::empty()))
            } else {
                match drop_plan(s1.bindings, a) {
                    Err(e) => Err(Fault::Is(e)),
                    Ok((dc, left)) => Ok(
                        (c + dc, Scope { types: s1.types.remove_keys(a.to_set()), bindings: left }, Seq::<Seq<char>>::empty()),
                    ),
                }
            },
        },
{
    reveal_with_fuel(block_outcome, 2);
}

/// A `return` outside the end of an entrypoint's body: type checking refuses it, so it is
/// reported rather than compiled.
pub fn compile_return_statement() -> (r: Result<Vec<String>, CompilerError>)
    ensures
        r == Err::<Vec<String>, CompilerError>(CompilerError::MisplacedReturn),
{
    Err(CompilerError::MisplacedReturn)
}

/// A struct destructuring: struct lowering removes every one before code generation, so it
/// is reported rather than compiled.
pub fn compile_struct_destructure_statement() -> (r: Result<Vec<String>, CompilerError>)
    ensures
        r == Err::<Vec<String>, CompilerError>(CompilerError::UnloweredStructDestructure),
{
    Err(CompilerError::UnloweredStructDestructure)
}

pub fn compile_state_function_call_assign_statement(
    ctx: &mut CompileStatementContext,
    target_struct: &str,
    bindings: &[StructBindingAst],
    name: &str,
    args: &[Expr],
) -> (r: Result<Vec<String>, CompilerError>)
    ensures
        stmt_done(
            r,
            state_call_stmt(old(ctx).env(), old(ctx).scope(), target_struct@, bindings_view(bindings@), name@, exprs_view(args@)),
            old(ctx).script(),
            final(ctx).script(),
            final(ctx).scope(),
        ),
        state_call_early_fault(old(ctx).env(), target_struct@, bindings_view(bindings@), name@, exprs_view(args@))
            matches Some(f) ==> refused_early(r, f, old(ctx).script(), final(ctx).script(), old(ctx).scope(), final(ctx).scope()),
        final(ctx).env() == old(ctx).env(),
        final(ctx).recorder@ == old(ctx).recorder@,
{
    if same_name(name, READ_INPUT_STATE) || same_name(name, READ_INPUT_STATE_WITH_TEMPLATE) {
        let contract_fields = ctx.contract_fields;
        let state_end = ctx.state_end;
        let structs = ctx.structs;
        return compile_read_input_state_statement(
            ctx,
            target_struct,
            bindings,
            name,
            args,
            contract_fields,
            state_end,
            structs,
        );
    }
    Err(CompilerError::UnsupportedStateAssignment(name.to_owned()))
}

/// The fault a statement meets before it emits any code or changes the scope, where it
/// meets one. The compiler then reports exactly that fault and leaves everything as it was.
pub open spec fn stmt_early_fault(env: StmtEnv, sc: Scope, s: Statement) -> Option<Fault> {
    match s {
        Statement::VariableDefinition { type_ref, name, expr } => definition_early_fault(
            sc,
            type_ref@,
            name@,
            expr is Some,
        ),
        Statement::TupleAssignment { left_name, expr, .. } => tuple_early_fault(sc, left_name@, expr@),
        Statement::Assign { name, .. } => assign_early_fault(sc, name@),
        Statement::FunctionCall { name, args } => call_early_fault(env, name@, args@.len()),
        Statement::StateFunctionCallAssign { target_struct, bindings, name, args } => state_call_early_fault(
            env,
            target_struct@,
            bindings_view(bindings@),
            name@,
            exprs_view(args@),
        ),
        Statement::For { .. } => Some(Fault::Is(CompilerError::UnloweredLoop)),
        Statement::Return { .. } => Some(Fault::Is(CompilerError::MisplacedReturn)),
        Statement::StructDestructure { .. } => Some(Fault::Is(CompilerError::UnloweredStructDestructure)),
        Statement::FunctionCallAssign { name, .. } => Some(Fault::Named(NameFault::UnloweredCallAssign, name@)),
        _ => None,
    }
}

/// Compiles one statement; returns the stack locals it adds.
pub fn compile_statement(ctx: &mut CompileStatementContext, stmt: &Statement) -> (r: Result<
    Vec<String>,
    CompilerError,
>)
    requires
        stmt_calls_validate(*stmt) ==> state_offsets_fit(old(ctx).env()),
    ensures
        stmt_done(r, stmt_outcome(old(ctx).env(), old(ctx).scope(), *stmt), old(ctx).script(), final(ctx).script(), final(ctx).scope()),
        stmt_early_fault(old(ctx).env(), old(ctx).scope(), *stmt) matches Some(f) ==> refused_early(
            r,
            f,
            old(ctx).script(),
            final(ctx).script(),
            old(ctx).scope(),
            final(ctx).scope(),
        ),
        final(ctx).env() == old(ctx).env(),
        extends(old(ctx).recorder@.push(old(ctx).statement_begin()), final(ctx).recorder@),
        r is Ok ==> final(ctx).recorder@.last() == final(ctx).statement_end(),
        !(*stmt is Block || *stmt is If) && r is Err ==> final(ctx).recorder@ == old(ctx).recorder@.push(
            old(ctx).statement_begin(),
        ),
        !(*stmt is Block || *stmt is If) && r is Ok ==> final(ctx).recorder@ == old(ctx).recorder@.push(
            old(ctx).statement_begin(),
        ).push(final(ctx).statement_end()),
    decreases stmt, 2int,
{
    let start = crate::script::builder_script_len(&ctx.builder);
    ctx.recorder.begin_statement_at(start, &ctx.stack_bindings);
    let ghost rec1 = ctx.recorder@;
    proof {
        assert(extends(rec1, rec1)) by {
            assert(rec1.take(rec1.len() as int) =~= rec1);
        }
    }
    reveal(simple_stmt_outcome);
    let r = match stmt {
        Statement::VariableDefinition { type_ref, name, expr } => {
            let e = match expr {
                Some(x) => Some(x),
                None => None,
            };
            compile_variable_definition_statement(ctx, type_ref, name.as_str(), e)
        },
        Statement::Require { expr } => compile_require_statement(ctx, expr),
        Statement::RequireAgeDaa { expr } => compile_require_age_daa_statement(ctx, expr),
        Statement::RequireTxDaa { expr } => compile_require_tx_daa_statement(ctx, expr),
        Statement::RequireTxTime { expr } => compile_require_tx_time_statement(ctx, expr),
        Statement::Block { body } => {
            compile_block_statement(ctx, body.as_slice())?;
            let added: Vec<String> = Vec::new();
            assert(names_view(added@) =~= Seq::<Seq<char>>::empty());
            Ok(added)
        },
        Statement::If { condition, then_branch, else_branch } => {
            let e = match else_branch {
                Some(b) => Some(b.as_slice()),
                None => None,
            };
            compile_if_statement(ctx, stmt, condition, then_branch.as_slice(), e)?;
            let added: Vec<String> = Vec::new();
            assert(names_view(added@) =~= Seq::<Seq<char>>::empty());
            Ok(added)
        },
        Statement::For { .. } => Err(CompilerError::UnloweredLoop),
        Statement::Return { .. } => compile_return_statement(),
        Statement::TupleAssignment { left_type_ref, left_name, right_type_ref, right_name, expr } => {
            compile_tuple_assignment_statement(
                ctx,
                left_type_ref,
                left_name.as_str(),
                right_type_ref,
                right_name.as_str(),
                expr,
            )
        },
        Statement::FunctionCall { name, args } => compile_function_call_statement(ctx, name.as_str(), args.as_slice()),
        Statement::StateFunctionCallAssign { target_struct, bindings, name, args } => {
            compile_state_function_call_assign_statement(
                ctx,
                target_struct.as_str(),
                bindings.as_slice(),
                name.as_str(),
                args.as_slice(),
            )
        },
        Statement::StructDestructure { .. } => compile_struct_destructure_statement(),
        Statement::FunctionCallAssign { name, .. } => compile_function_call_assign_statement(name.as_str()),
        Statement::Assign { name, expr } => compile_assign_statement(ctx, name.as_str(), expr),
        Statement::Console { .. } => {
            let r = compile_console_statement();
            proof {
                assert(names_view(r->Ok_0@) =~= Seq::<Seq<char>>::empty());
            }
            r
        },
    };
    if r.is_ok() {
        let ghost prev = ctx.recorder@;
        let end = crate::script::builder_script_len(&ctx.builder);
        ctx.recorder.finish_statement_at(end, &ctx.stack_bindings);
        proof {
            assert(ctx.recorder@.take(prev.len() as int) =~= prev);
            lemma_extends_trans(rec1, prev, ctx.recorder@);
        }
    }
    r
}

/// The code after the then-branch of an `if` whose then-branch left scope `ts`.
pub open spec fn if_else_part(env: StmtEnv, sc: Scope, ts: Scope, else_branch: Option<Seq<Statement>>) -> Outcome {
    match else_branch {
        Some(eb) => join(
            seq![Chunk::Op(OP_ELSE)],
            Seq::empty(),
            match block_outcome(env, sc, eb) {
                Err(f) => Err(f),
                Ok((ec, es, _)) => join(
                    ec,
                    Seq::empty(),
                    join_code(
                        reorder_code(es.bindings, ts.bindings),
                        Ok((seq![Chunk::Op(OP_END_IF)], Scope { types: sc.types, bindings: ts.bindings }, Seq::empty())),
                    ),
                ),
            },
        ),
        None => join_code(reorder_code(ts.bindings, sc.bindings), Ok((seq![Chunk::Op(OP_END_IF)], sc, Seq::empty()))),
    }
}

/// Compiles an `if` statement `stmt` whose parts are `condition`, `then_branch` and
/// `else_branch`.
pub fn compile_if_statement(
    ctx: &mut CompileStatementContext,
    stmt: &Statement,
    condition: &Expr,
    then_branch: &[Statement],
    else_branch: Option<&[Statement]>,
) -> (r: Result<(), CompilerError>)
    requires
        stmt_calls_validate(*stmt) ==> state_offsets_fit(old(ctx).env()),
        stmt matches Statement::If { condition: c, then_branch: t, else_branch: e } && c == *condition
            && t@ == then_branch@ && match (e, else_branch) {
            (Some(x), Some(y)) => x@ == y@,
            (None, None) => true,
            _ => false,
        },
    ensures
        scope_done(r, if_outcome(old(ctx).env(), old(ctx).scope(), *stmt), old(ctx).script(), final(ctx).script(), final(ctx).scope()),
        final(ctx).env() == old(ctx).env(),
        extends(old(ctx).recorder@, final(ctx).recorder@),
        r is Ok ==> final(ctx).recorder@.len() > old(ctx).recorder@.len() && final(ctx).recorder@[old(ctx).recorder@.len() as int]
            == EventV::SourceStep(
            (old(ctx).script().len() + code_of(
                expr_code(condition@, old(ctx).scope().bindings, old(ctx).env().bytecode_size, 0)->Ok_0,
            ).len() + 1) as nat,
            old(ctx).scope().bindings,
        ),
    decreases stmt, 1int,
{
    let ghost env = ctx.env();
    let ghost sc = ctx.scope();
    let ghost s0 = ctx.script();
    let ghost eb_view: Option<Seq<Statement>> = match else_branch {
        Some(y) => Some(y@),
        None => None,
    };
    let ghost cc_r = expr_code(condition@, sc.bindings, env.bytecode_size, 0);
    let ghost then_part = match block_outcome(env, sc, then_branch@) {
        Err(f) => Err(f),
        Ok((tc, ts, _)) => join(tc, Seq::empty(), if_else_part(env, sc, ts, eb_view)),
    };
    let ghost rest = join(seq![Chunk::Op(OP_IF)], Seq::empty(), then_part);
    assert(if_outcome(env, sc, *stmt) == join_code(cc_r, rest));
    let ghost rec0 = ctx.recorder@;
    proof {
        lemma_extends_refl(rec0);
    }
    let r0 = ctx.compile_expr(condition);
    if let Err(e) = r0 {
        proof {
            lemma_code_err(s0, ctx.script(), cc_r, rest, r0, ctx.scope());
        }
        return Err(e);
    }
    let ghost s1 = ctx.script();
    let r1 = crate::script::add_op(&mut ctx.builder, OP_IF);
    let ghost s2 = ctx.script();
    if let Err(e) = r1 {
        proof {
            lemma_join_refused(s1, s2, seq![Chunk::Op(OP_IF)], Seq::empty(), then_part, r1, ctx.scope());
            lemma_code_ok(s0, s1, s2, cc_r, rest, r0, r1, ctx.scope());
        }
        return Err(e);
    }
    let offset = crate::script::builder_script_len(&ctx.builder);
    ctx.recorder.record_current_statement_source_step_at(offset, &ctx.stack_bindings);
    let ghost step = EventV::SourceStep(offset as nat, sc.bindings);
    proof {
        crate::script::lemma_code_of_single(Chunk::Op(OP_IF));
        assert(ctx.recorder@ == rec0.push(step));
        assert(offset == s0.len() + code_of(cc_r->Ok_0).len() + 1);
        lemma_extends_refl(rec0.push(step));
    }
    let outer_types = ctx.types.clone();
    let outer_bindings = ctx.stack_bindings.clone();
    let rt = compile_block(ctx, then_branch);
    let ghost rec_t = ctx.recorder@;
    proof {
        lemma_extends_push(rec0, step, rec_t);
    }
    let ghost s3 = ctx.script();
    let ghost ts = ctx.scope();
    if let Err(e) = rt {
        proof {
            if let Ok((tc, ts2, _)) = block_outcome(env, sc, then_branch@) {
                lemma_join_refused(s2, s3, tc, Seq::empty(), if_else_part(env, sc, ts2, eb_view), rt, ctx.scope());
            }
            lemma_join(s1, s2, s3, seq![Chunk::Op(OP_IF)], Seq::empty(), then_part, rt, ctx.scope());
            lemma_code_ok(s0, s1, s3, cc_r, rest, r0, rt, ctx.scope());
        }
        return Err(e);
    }
    let ghost tc = block_outcome(env, sc, then_branch@)->Ok_0.0;
    let ghost tail = if_else_part(env, sc, ts, eb_view);
    match else_branch {
        Some(else_stmts) => {
            let r2 = crate::script::add_op(&mut ctx.builder, OP_ELSE);
            let ghost s4 = ctx.script();
            let ghost else_blk = match block_outcome(env, sc, else_stmts@) {
                Err(f) => Err(f),
                Ok((ec, es, _)) => join(
                    ec,
                    Seq::empty(),
                    join_code(
                        reorder_code(es.bindings, ts.bindings),
                        Ok((seq![Chunk::Op(OP_END_IF)], Scope { types: sc.types, bindings: ts.bindings }, Seq::empty())),
                    ),
                ),
            };
            assert(tail == join(seq![Chunk::Op(OP_ELSE)], Seq::empty(), else_blk));
            if let Err(e) = r2 {
                proof {
                    lemma_join_refused(s3, s4, seq![Chunk::Op(OP_ELSE)], Seq::empty(), else_blk, r2, ctx.scope());
                    lemma_if_lift(s0, s1, s2, s3, s4, cc_r, rest, then_part, tc, tail, r0, r2, ctx.scope());
                }
                return Err(e);
            }
            let (_then_types, then_bindings) = ctx.with_types_and_stack_bindings(outer_types.clone(), outer_bindings);
            let re = compile_block(ctx, else_stmts);
            proof {
                lemma_extends_trans(rec0.push(step), rec_t, ctx.recorder@);
                lemma_extends_push(rec0, step, ctx.recorder@);
            }
            let ghost s5 = ctx.script();
            let ghost es = ctx.scope();
            if let Err(e) = re {
                proof {
                    if let Ok((ec, es2, _)) = block_outcome(env, sc, else_stmts@) {
                        lemma_join_refused(
                            s4,
                            s5,
                            ec,
                            Seq::empty(),
                            join_code(
                                reorder_code(es2.bindings, ts.bindings),
                                Ok((seq![Chunk::Op(OP_END_IF)], Scope { types: sc.types, bindings: ts.bindings }, Seq::empty())),
                            ),
                            re,
                            ctx.scope(),
                        );
                    }
                    lemma_join(s3, s4, s5, seq![Chunk::Op(OP_ELSE)], Seq::empty(), else_blk, re, ctx.scope());
                    lemma_if_lift(s0, s1, s2, s3, s5, cc_r, rest, then_part, tc, tail, r0, re, ctx.scope());
                }
                return Err(e);
            }
            let ghost ec = block_outcome(env, sc, else_stmts@)->Ok_0.0;
            let ghost last = Ok::<(Seq<Chunk>, Scope, Seq<Seq<char>>), Fault>(
                (seq![Chunk::Op(OP_END_IF)], Scope { types: sc.types, bindings: ts.bindings }, Seq::empty()),
            );
            let ghost after_else = join_code(reorder_code(es.bindings, ts.bindings), last);
            let rr = ctx.stack_bindings.emit_stack_reordering(&then_bindings, &mut ctx.builder);
            let ghost s6 = ctx.script();
            if let Err(e) = rr {
                proof {
                    lemma_code_err(s5, s6, reorder_code(es.bindings, ts.bindings), last, rr, ctx.scope());
                    lemma_join(s4, s5, s6, ec, Seq::empty(), after_else, rr, ctx.scope());
                    lemma_join(s3, s4, s6, seq![Chunk::Op(OP_ELSE)], Seq::empty(), else_blk, rr, ctx.scope());
                    lemma_if_lift(s0, s1, s2, s3, s6, cc_r, rest, then_part, tc, tail, r0, rr, ctx.scope());
                }
                return Err(e);
            }
            ctx.with_types_and_stack_bindings(outer_types, then_bindings);
            let r3 = crate::script::add_op(&mut ctx.builder, OP_END_IF);
            proof {
                lemma_code_ok(s5, s6, ctx.script(), reorder_code(es.bindings, ts.bindings), last, rr, r3, ctx.scope());
                lemma_join(s4, s5, ctx.script(), ec, Seq::empty(), after_else, r3, ctx.scope());
                lemma_join(s3, s4, ctx.script(), seq![Chunk::Op(OP_ELSE)], Seq::empty(), else_blk, r3, ctx.scope());
                lemma_if_lift(s0, s1, s2, s3, ctx.script(), cc_r, rest, then_part, tc, tail, r0, r3, ctx.scope());
            }
            r3
        },
        None => {
            let ghost last = Ok::<(Seq<Chunk>, Scope, Seq<Seq<char>>), Fault>((seq![Chunk::Op(OP_END_IF)], sc, Seq::empty()));
            assert(tail == join_code(reorder_code(ts.bindings, sc.bindings), last));
            let rr = ctx.stack_bindings.emit_stack_reordering(&outer_bindings, &mut ctx.builder);
            let ghost s4 = ctx.script();
            if let Err(e) = rr {
                proof {
                    lemma_code_err(s3, s4, reorder_code(ts.bindings, sc.bindings), last, rr, ctx.scope());
                    lemma_if_lift(s0, s1, s2, s3, s4, cc_r, rest, then_part, tc, tail, r0, rr, ctx.scope());
                }
                return Err(e);
            }
            ctx.with_types_and_stack_bindings(outer_types, outer_bindings);
            let r3 = crate::script::add_op(&mut ctx.builder, OP_END_IF);
            proof {
                lemma_code_ok(s3, s4, ctx.script(), reorder_code(ts.bindings, sc.bindings), last, rr, r3, ctx.scope());
                lemma_if_lift(s0, s1, s2, s3, ctx.script(), cc_r, rest, then_part, tc, tail, r0, r3, ctx.scope());
            }
            r3
        },
    }
}

/// Lifts the outcome of what follows an `if`'s then-branch to the whole statement.
pub proof fn lemma_if_lift<T, U>(
    s0: Seq<u8>,
    s1: Seq<u8>,
    s2: Seq<u8>,
    s3: Seq<u8>,
    s4: Seq<u8>,
    cc_r: Result<Seq<Chunk>, Fault>,
    rest: Outcome,
    then_part: Outcome,
    tc: Seq<Chunk>,
    tail: Outcome,
    r0: Result<T, CompilerError>,
    r: Result<U, CompilerError>,
    sc: Scope,
)
    requires
        code_outcome(r0, cc_r, s0, s1),
        r0 is Ok,
        emits(s1, seq![Chunk::Op(OP_IF)]),
        s2 == s1 + code_of(seq![Chunk::Op(OP_IF)]),
        rest == join(seq![Chunk::Op(OP_IF)], Seq::empty(), then_part),
        then_part == join(tc, Seq::empty(), tail),
        emits(s2, tc),
        s3 == s2 + code_of(tc),
        scope_done(r, tail, s3, s4, sc),
    ensures
        scope_done(r, join_code(cc_r, rest), s0, s4, sc),
{
    lemma_join(s2, s3, s4, tc, Seq::empty(), tail, r, sc);
    lemma_join(s1, s2, s4, seq![Chunk::Op(OP_IF)], Seq::empty(), then_part, r, sc);
    lemma_code_ok(s0, s1, s4, cc_r, rest, r0, r, sc);
}

/// Compiles a nested block.
pub fn compile_block_statement(ctx: &mut CompileStatementContext, body: &[Statement]) -> (r: Result<(), CompilerError>)
    requires
        block_calls_validate(body@, 0) ==> state_offsets_fit(old(ctx).env()),
    ensures
        scope_done(r, block_outcome(old(ctx).env(), old(ctx).scope(), body@), old(ctx).script(), final(ctx).script(), final(ctx).scope()),
        final(ctx).env() == old(ctx).env(),
        extends(old(ctx).recorder@, final(ctx).recorder@),
    decreases body@, 2int,
{
    compile_block(ctx, body)
}

/// Compiles the statements of a block in turn, then drops the stack locals they added and
/// takes their names out of scope.
pub fn compile_block(ctx: &mut CompileStatementContext, statements: &[Statement]) -> (r: Result<(), CompilerError>)
    requires
        block_calls_validate(statements@, 0) ==> state_offsets_fit(old(ctx).env()),
    ensures
        scope_done(r, block_outcome(old(ctx).env(), old(ctx).scope(), statements@), old(ctx).script(), final(ctx).script(), final(ctx).scope()),
        final(ctx).env() == old(ctx).env(),
        extends(old(ctx).recorder@, final(ctx).recorder@),
    decreases statements@, 1int,
{
    let ghost env = ctx.env();
    let ghost sc0 = ctx.scope();
    let ghost s0 = ctx.script();
    proof {
        lemma_extends_refl(old(ctx).recorder@);
    }
    let ghost steps = blocks_from(env, sc0, statements@, 0);
    proof {
        lemma_block_outcome(env, sc0, statements@);
    }
    let ghost mut done: Seq<Chunk> = Seq::empty();
    let mut added: Vec<String> = Vec::new();
    proof {
        assert(join(done, names_view(added@), steps) == steps) by {
            assert(names_view(added@) =~= Seq::<Seq<char>>::empty());
            if let Ok((c, _, a)) = steps {
                assert(done + c == c);
                assert(Seq::<Seq<char>>::empty() + a == a);
            }
        }
    }
    for i in 0..statements.len()
        invariant
            env == ctx.env(),
            env == old(ctx).env(),
            block_calls_validate(statements@, 0) ==> state_offsets_fit(env),
            s0 == old(ctx).script(),
            sc0 == old(ctx).scope(),
            steps == blocks_from(env, sc0, statements@, 0),
            steps == join(done, names_view(added@), blocks_from(env, ctx.scope(), statements@, i as int)),
            emits(s0, done),
            ctx.script() == s0 + code_of(done),
            extends(old(ctx).recorder@, ctx.recorder@),
    {
        let ghost sc = ctx.scope();
        let ghost s1 = ctx.script();
        let ghost o = stmt_outcome(env, sc, statements@[i as int]);
        let ghost rest_of = |sc1: Scope| blocks_from(env, sc1, statements@, i + 1);
        proof {
            lemma_blocks_from_step(env, sc, statements@, i as int);
            if stmt_calls_validate(statements@[i as int]) {
                lemma_block_calls_validate(statements@, 0, i as int);
            }
        }
        let ghost rec_i = ctx.recorder@;
        let r1 = compile_statement(ctx, &statements[i]);
        proof {
            lemma_extends_push(rec_i, EventV::StatementBegin(s1.len(), sc.bindings), ctx.recorder@);
            lemma_extends_trans(old(ctx).recorder@, rec_i, ctx.recorder@);
        }
        let mut names = match r1 {
            Ok(v) => v,
            Err(e) => {
                proof {
                    if let Ok((c, sc1, a)) = o {
                        lemma_join_refused(s1, ctx.script(), c, a, rest_of(sc1), r1, ctx.scope());
                    }
                    lemma_join(s0, s1, ctx.script(), done, names_view(added@), blocks_from(env, sc, statements@, i as int), r1, ctx.scope());
                    if let Ok((cc, s_end, aa)) = steps {
                        if aa.len() > 0 {
                            if let Ok((dc, _)) = drop_plan(s_end.bindings, aa) {
                                crate::script::lemma_emits_append(s0, cc, dc);
                            }
                        }
                    }
                }
                return Err(e);
            },
        };
        let ghost c = o->Ok_0.0;
        let ghost a = o->Ok_0.2;
        proof {
            lemma_join_assoc(done, names_view(added@), c, a, rest_of(ctx.scope()));
            crate::script::lemma_emits_append(s0, done, c);
            lemma_code_of_append(done, c);
        }
        let ghost old_added = added@;
        let ghost new_names = names@;
        added.append(&mut names);
        proof {
            lemma_names_append(old_added, new_names);
            done = done + c;
        }
    }
    let ghost sc1 = ctx.scope();
    let ghost a = names_view(added@);
    proof {
        lemma_blocks_from_end(env, sc1, statements@);
    }
    assert(steps == Ok::<(Seq<Chunk>, Scope, Seq<Seq<char>>), Fault>((done, sc1, a))) by {
        assert(done + Seq::<Chunk>::empty() == done);
        assert(a + Seq::<Seq<char>>::empty() == a);
    }
    if added.len() == 0 {
        assert(a.len() == 0);
        return Ok(());
    }
    let ghost s1 = ctx.script();
    let rd = ctx.stack_bindings.emit_drop_bindings(added.as_slice(), &mut ctx.builder);
    proof {
        if let Ok((dc, _)) = drop_plan(sc1.bindings, a) {
            crate::script::lemma_emits_append(s0, done, dc);
            if rd is Ok {
                lemma_appended_seq(s0, s1, ctx.script(), done, dc, rd);
            }
        }
    }
    rd?;
    let ghost t0 = ctx.types@;
    let ghost s2 = ctx.script();
    let ghost b2 = ctx.stack_bindings@;
    for j in 0..added.len()
        invariant
            a == names_view(added@),
            ctx.types@ == t0.remove_keys(a.take(j as int).to_set()),
            ctx.stack_bindings@ == b2,
            ctx.script() == s2,
            env == ctx.env(),
            extends(old(ctx).recorder@, ctx.recorder@),
    {
        let ghost before = ctx.types@;
        ctx.types.remove(added[j].as_str());
        proof {
            assert(a.take(j + 1) == a.take(j as int).push(a[j as int]));
            a.take(j as int).lemma_push_to_set_commute(a[j as int]);
            assert(ctx.types@ =~= t0.remove_keys(a.take(j + 1).to_set()));
        }
    }
    assert(a.take(a.len() as int) == a);
    Ok(())
}

} // verus!

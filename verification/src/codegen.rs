//! Compiling expressions to script code.

use vstd::prelude::*;

use kaspa_txscript::script_builder::ScriptBuilder;

use crate::error::CompilerError;
use crate::expr::{BinaryOp, Expr, ExprV, SplitPart};
use crate::opcodes::{
    OP_ADD, OP_BIN2NUM, OP_BLAKE2B, OP_CAT, OP_EQUAL, OP_FALSE, OP_GREATER_THAN, OP_GREATER_THAN_OR_EQUAL,
    OP_LESS_THAN, OP_LESS_THAN_OR_EQUAL, OP_NIP, OP_NUM2BIN, OP_NUM_EQUAL, OP_SIZE, OP_SUB, OP_SUBSTR,
    OP_SWAP, OP_TRUE, OP_TX_INPUT_SCRIPT_SIG_LEN, OP_TX_INPUT_SCRIPT_SIG_SUBSTR, OP_TX_INPUT_SPK,
};
use crate::script::{
    appended, code_of, depth_room, emit_chunks, emit_delta, emits, lemma_appended_seq, lemma_code_of_append,
    lemma_code_of_len, lemma_delta_bound_pub, lemma_refused_within, lemma_small_deltas, script_of, Chunk,
    Emit, ScriptEmitter,
};
use crate::stack::{binding_depth, copy_chunks, StackBindings};
use crate::type_map::TypeMap;
use crate::types::{ArrayDim, TypeBase, TypeBaseV, TypeRef, TypeRefV};

verus! {

/// Why code cannot be generated.
pub enum Fault {
    /// Exactly this error (one that names no identifier).
    Is(CompilerError),
    /// A name bound nowhere.
    Undefined(Seq<char>),
    /// A stack position beyond the range of script numbers.
    Overflow,
    /// A form the compiler does not handle, or `this.bytecodeSize` where it is unknown.
    Unsupported,
    /// An error about the given name.
    Named(NameFault, Seq<char>),
}

/// The errors that carry a name.
pub enum NameFault {
    AlreadyDefined,
    NotStackBound,
    UnloweredCall,
    UnloweredCallAssign,
    UnsupportedStateAssignment,
    DuplicateStateField,
    BindingType,
    UnknownStruct,
    ParameterTooLarge,
}

/// Whether an error is the named error of kind `k` about `n`.
pub open spec fn is_named(e: CompilerError, k: NameFault, n: Seq<char>) -> bool {
    match k {
        NameFault::AlreadyDefined => e matches CompilerError::AlreadyDefined(m) && m@ == n,
        NameFault::NotStackBound => e matches CompilerError::NotStackBound(m) && m@ == n,
        NameFault::UnloweredCall => e matches CompilerError::UnloweredCall(m) && m@ == n,
        NameFault::UnloweredCallAssign => e matches CompilerError::UnloweredCallAssign(m) && m@ == n,
        NameFault::UnsupportedStateAssignment => e matches CompilerError::UnsupportedStateAssignment(m)
            && m@ == n,
        NameFault::DuplicateStateField => e matches CompilerError::DuplicateStateField(m) && m@ == n,
        NameFault::BindingType => e matches CompilerError::BindingType(m) && m@ == n,
        NameFault::UnknownStruct => e matches CompilerError::UnknownStruct(m) && m@ == n,
        NameFault::ParameterTooLarge => e matches CompilerError::ParameterTooLarge(m) && m@ == n,
    }
}

/// Whether an error reports a fault.
pub open spec fn is_fault(e: CompilerError, f: Fault) -> bool {
    match f {
        Fault::Is(x) => e == x,
        Fault::Undefined(n) => e matches CompilerError::UndefinedIdentifier(m) && m@ == n,
        Fault::Overflow => e == CompilerError::ArithmeticOverflow,
        Fault::Unsupported => e == CompilerError::UnsupportedExpression,
        Fault::Named(k, n) => is_named(e, k, n),
    }
}

/// The code of `a` followed by that of `b`; the first fault wins.
pub open spec fn cat_code(a: Result<Seq<Chunk>, Fault>, b: Result<Seq<Chunk>, Fault>) -> Result<
    Seq<Chunk>,
    Fault,
> {
    match a {
        Err(f) => Err(f),
        Ok(x) => match b {
            Err(f) => Err(f),
            Ok(y) => Ok(x + y),
        },
    }
}

/// The opcode of a binary operator.
pub open spec fn binary_opcode(op: BinaryOp) -> u8 {
    match op {
        BinaryOp::Add => OP_ADD,
        BinaryOp::Sub => OP_SUB,
        BinaryOp::Concat => OP_CAT,
        BinaryOp::Equal => OP_EQUAL,
        BinaryOp::NumEqual => OP_NUM_EQUAL,
        BinaryOp::Less => OP_LESS_THAN,
        BinaryOp::LessEqual => OP_LESS_THAN_OR_EQUAL,
        BinaryOp::Greater => OP_GREATER_THAN,
        BinaryOp::GreaterEqual => OP_GREATER_THAN_OR_EQUAL,
        BinaryOp::Num2Bin => OP_NUM2BIN,
    }
}

/// Whether reading bytes as type `t` converts them to a script number.
pub open spec fn cast_is_numeric(t: TypeRefV) -> bool {
    t.dims.len() == 0 && (t.base is Int || t.base is Temporal || t.base is Bool)
}

/// The code that turns a redeem script on top of the stack into its P2SH scriptPubKey:
/// version `00 00`, then `OpBlake2b OpData32 <blake2b(script)> OpEqual`.
pub open spec fn p2sh_chunks() -> Seq<Chunk> {
    seq![
        Chunk::Op(OP_BLAKE2B),
        Chunk::Data(seq![0x00u8, 0x00u8]),
        Chunk::Data(seq![OP_BLAKE2B]),
        Chunk::Op(OP_CAT),
        Chunk::Data(seq![0x20u8]),
        Chunk::Op(OP_CAT),
        Chunk::Op(OP_SWAP),
        Chunk::Op(OP_CAT),
        Chunk::Data(seq![OP_EQUAL]),
        Chunk::Op(OP_CAT),
    ]
}

/// The code of an expression, compiled with `depth` values above the bindings `b`.
pub open spec fn expr_code(e: ExprV, b: Seq<Seq<char>>, bytecode_size: Option<i64>, depth: int) -> Result<
    Seq<Chunk>,
    Fault,
>
    decreases e,
{
    match e {
        ExprV::Int(v) => Ok(seq![Chunk::Int(v)]),
        ExprV::Bool(x) => Ok(seq![Chunk::Op(if x { OP_TRUE } else { OP_FALSE })]),
        ExprV::Bytes(d) => Ok(seq![Chunk::Data(d)]),
        ExprV::Identifier(n) => match binding_depth(b, n) {
            None => Err(Fault::Undefined(n)),
            Some(k) => if k > i64::MAX || k + depth > i64::MAX {
                Err(Fault::Overflow)
            } else {
                Ok(copy_chunks((k + depth) as i64))
            },
        },
        ExprV::Binary(op, l, r) => cat_code(
            expr_code(*l, b, bytecode_size, depth),
            cat_code(expr_code(*r, b, bytecode_size, depth + 1), Ok(seq![Chunk::Op(binary_opcode(op))])),
        ),
        ExprV::Length(x) => cat_code(
            expr_code(*x, b, bytecode_size, depth),
            Ok(seq![Chunk::Op(OP_SIZE), Chunk::Op(OP_NIP)]),
        ),
        ExprV::Cast(t, x) => cat_code(
            expr_code(*x, b, bytecode_size, depth),
            Ok(if cast_is_numeric(t) { seq![Chunk::Op(OP_BIN2NUM)] } else { Seq::empty() }),
        ),
        ExprV::InputScriptSigLen(x) => cat_code(
            expr_code(*x, b, bytecode_size, depth),
            Ok(seq![Chunk::Op(OP_TX_INPUT_SCRIPT_SIG_LEN)]),
        ),
        ExprV::InputScriptSigSubstr(i, s, x) => cat_code(
            expr_code(*i, b, bytecode_size, depth),
            cat_code(
                expr_code(*s, b, bytecode_size, depth + 1),
                cat_code(
                    expr_code(*x, b, bytecode_size, depth + 2),
                    Ok(seq![Chunk::Op(OP_TX_INPUT_SCRIPT_SIG_SUBSTR)]),
                ),
            ),
        ),
        ExprV::InputScriptPubKey(x) => cat_code(
            expr_code(*x, b, bytecode_size, depth),
            Ok(seq![Chunk::Op(OP_TX_INPUT_SPK)]),
        ),
        ExprV::P2shFromRedeemScript(x) => cat_code(expr_code(*x, b, bytecode_size, depth), Ok(p2sh_chunks())),
        ExprV::ThisBytecodeSize => match bytecode_size {
            Some(v) => Ok(seq![Chunk::Int(v)]),
            None => Err(Fault::Unsupported),
        },
        ExprV::Split(src, idx, part) => match part {
            SplitPart::Left => cat_code(
                expr_code(*src, b, bytecode_size, depth),
                cat_code(
                    Ok(seq![Chunk::Int(0)]),
                    cat_code(expr_code(*idx, b, bytecode_size, depth + 2), Ok(seq![Chunk::Op(OP_SUBSTR)])),
                ),
            ),
            SplitPart::Right => cat_code(
                expr_code(*src, b, bytecode_size, depth),
                cat_code(
                    Ok(seq![Chunk::Op(OP_SIZE)]),
                    cat_code(
                        expr_code(*idx, b, bytecode_size, depth + 2),
                        Ok(seq![Chunk::Op(OP_SWAP), Chunk::Op(OP_SUBSTR)]),
                    ),
                ),
            ),
        },
        ExprV::EmptyArray(_) => Ok(seq![Chunk::Data(Seq::empty())]),
    }
}

/// The outcome of emitting code that is either chunks or a fault: with chunks, success
/// exactly when the builder accepts them; with a fault, an error that reports it (or the
/// builder's refusal of code before it).
pub open spec fn code_outcome<T>(
    r: Result<T, CompilerError>,
    code: Result<Seq<Chunk>, Fault>,
    before: Seq<u8>,
    after: Seq<u8>,
) -> bool {
    match code {
        Ok(cs) => appended(r, before, after, cs),
        Err(f) => r matches Err(e) && (is_fault(e, f) || e == CompilerError::ScriptRejected),
    }
}

pub proof fn lemma_outcome_then<T, U>(
    s0: Seq<u8>,
    s1: Seq<u8>,
    s2: Seq<u8>,
    a: Result<Seq<Chunk>, Fault>,
    b: Result<Seq<Chunk>, Fault>,
    ra: Result<T, CompilerError>,
    rb: Result<U, CompilerError>,
)
    requires
        code_outcome(ra, a, s0, s1),
        ra is Ok,
        code_outcome(rb, b, s1, s2),
    ensures
        code_outcome(rb, cat_code(a, b), s0, s2),
{
    if let Ok(x) = a {
        if let Ok(y) = b {
            lemma_appended_seq(s0, s1, s2, x, y, rb);
        }
    }
}

pub proof fn lemma_outcome_stops<T, U>(
    s0: Seq<u8>,
    s1: Seq<u8>,
    a: Result<Seq<Chunk>, Fault>,
    b: Result<Seq<Chunk>, Fault>,
    ra: Result<T, CompilerError>,
    r: Result<U, CompilerError>,
)
    requires
        code_outcome(ra, a, s0, s1),
        ra is Err,
        r is Err,
        r->Err_0 == ra->Err_0,
    ensures
        code_outcome(r, cat_code(a, b), s0, s1),
{
    if let Ok(x) = a {
        if let Ok(y) = b {
            lemma_refused_within(s0, Seq::empty(), x, y);
            assert(Seq::<Chunk>::empty() + x + y == x + y);
            assert(s0 + code_of(Seq::<Chunk>::empty()) == s0) by {
                assert(code_of(Seq::<Chunk>::empty()) == Seq::<u8>::empty());
            }
        }
    }
}

/// Code, when there is any, is never empty.
pub proof fn lemma_expr_code_nonempty(e: ExprV, b: Seq<Seq<char>>, bytecode_size: Option<i64>, depth: int)
    ensures
        expr_code(e, b, bytecode_size, depth) matches Ok(cs) ==> cs.len() >= 1,
    decreases e,
{
    match e {
        ExprV::Binary(_, l, _) => lemma_expr_code_nonempty(*l, b, bytecode_size, depth),
        ExprV::Length(x) => lemma_expr_code_nonempty(*x, b, bytecode_size, depth),
        ExprV::Cast(_, x) => lemma_expr_code_nonempty(*x, b, bytecode_size, depth),
        ExprV::InputScriptSigLen(x) => lemma_expr_code_nonempty(*x, b, bytecode_size, depth),
        ExprV::InputScriptSigSubstr(i, _, _) => lemma_expr_code_nonempty(*i, b, bytecode_size, depth),
        ExprV::InputScriptPubKey(x) => lemma_expr_code_nonempty(*x, b, bytecode_size, depth),
        ExprV::P2shFromRedeemScript(x) => lemma_expr_code_nonempty(*x, b, bytecode_size, depth),
        ExprV::Split(s, _, _) => lemma_expr_code_nonempty(*s, b, bytecode_size, depth),
        _ => {},
    }
}

/// After appending non-empty code, one more value on the stack still has room.
pub proof fn lemma_room_after(depth: int, s0: Seq<u8>, cs: Seq<Chunk>, k: int)
    requires
        depth_room(depth, s0),
        emits(s0, cs),
        0 <= k <= cs.len(),
    ensures
        depth_room(depth + k, s0 + code_of(cs)),
{
    lemma_code_of_len(cs);
}

/// What an expression needs from its surroundings: the bindings, the declared types and
/// the script's own size where it is known.
pub struct ExprEnv<'a> {
    pub stack_bindings: &'a StackBindings,
    pub types: &'a TypeMap,
    pub bytecode_size: Option<i64>,
}

/// Emits a fixed tail of code.
fn emit_tail(emitter: &mut ScriptEmitter, builder: &mut ScriptBuilder, items: Vec<Emit>) -> (r: Result<
    (),
    CompilerError,
>)
    requires
        -0x100_0000_0000 <= old(emitter).depth() <= 0x100_0000_0000,
        items@.len() <= 16,
        forall|i: int| 0 <= i < items@.len() ==> -2 <= #[trigger] items@[i].delta() <= 2,
    ensures
        appended(r, script_of(*old(builder)), script_of(*final(builder)), emit_chunks(items@)),
        r is Ok ==> final(emitter).depth() == old(emitter).depth() + emit_delta(items@),
{
    proof {
        lemma_small_deltas(emitter.depth(), items@);
    }
    emitter.emit_all(builder, items.as_slice())
}

fn binary_op_code(op: BinaryOp) -> (r: u8)
    ensures
        r == binary_opcode(op),
{
    match op {
        BinaryOp::Add => OP_ADD,
        BinaryOp::Sub => OP_SUB,
        BinaryOp::Concat => OP_CAT,
        BinaryOp::Equal => OP_EQUAL,
        BinaryOp::NumEqual => OP_NUM_EQUAL,
        BinaryOp::Less => OP_LESS_THAN,
        BinaryOp::LessEqual => OP_LESS_THAN_OR_EQUAL,
        BinaryOp::Greater => OP_GREATER_THAN,
        BinaryOp::GreaterEqual => OP_GREATER_THAN_OR_EQUAL,
        BinaryOp::Num2Bin => OP_NUM2BIN,
    }
}

fn is_numeric_cast(t: &TypeRef) -> (r: bool)
    ensures
        r == cast_is_numeric(t@),
{
    t.is_int_like() || t.is_bool()
}

/// Compiles `x`, then emits a fixed tail.
fn compile_with_tail(
    x: &Expr,
    env: &ExprEnv,
    emitter: &mut ScriptEmitter,
    builder: &mut ScriptBuilder,
    tail: Vec<Emit>,
) -> (r: Result<(), CompilerError>)
    requires
        depth_room(old(emitter).depth(), script_of(*old(builder))),
        tail@.len() <= 16,
        forall|i: int| 0 <= i < tail@.len() ==> -2 <= #[trigger] tail@[i].delta() <= 2,
    ensures
        code_outcome(
            r,
            cat_code(
                expr_code(x@, env.stack_bindings@, env.bytecode_size, old(emitter).depth()),
                Ok(emit_chunks(tail@)),
            ),
            script_of(*old(builder)),
            script_of(*final(builder)),
        ),
        r is Ok ==> final(emitter).depth() == old(emitter).depth() + 1 + emit_delta(tail@),
    decreases x, 3int,
{
    let ghost s0 = script_of(*builder);
    let ghost d0 = emitter.depth();
    let ghost cx = expr_code(x@, env.stack_bindings@, env.bytecode_size, d0);
    let r1 = compile_expr(x, env, emitter, builder);
    if r1.is_err() {
        proof {
            lemma_outcome_stops(s0, script_of(*builder), cx, Ok(emit_chunks(tail@)), r1, r1);
        }
        return r1;
    }
    let ghost s1 = script_of(*builder);
    proof {
        lemma_expr_code_nonempty(x@, env.stack_bindings@, env.bytecode_size, d0);
        lemma_room_after(d0, s0, cx->Ok_0, 1);
    }
    let r2 = emit_tail(emitter, builder, tail);
    proof {
        lemma_outcome_then(s0, s1, script_of(*builder), cx, Ok(emit_chunks(tail@)), r1, r2);
    }
    r2
}

/// Compiles a binary operation.
fn compile_binary_expr(expr: &Expr, env: &ExprEnv, emitter: &mut ScriptEmitter, builder: &mut ScriptBuilder) -> (r:
    Result<(), CompilerError>)
    requires
        depth_room(old(emitter).depth(), script_of(*old(builder))),
        expr is Binary,
    ensures
        code_outcome(
            r,
            expr_code(expr@, env.stack_bindings@, env.bytecode_size, old(emitter).depth()),
            script_of(*old(builder)),
            script_of(*final(builder)),
        ),
        r is Ok ==> final(emitter).depth() == old(emitter).depth() + 1,
    decreases expr, 1int,
{
    let ghost s0 = script_of(*builder);
    let ghost d0 = emitter.depth();
    let ghost b = env.stack_bindings@;
    let ghost bs = env.bytecode_size;
    match expr {
        Expr::Binary(op, l, right) => {
            let opcode = binary_op_code(*op);
            let ghost cl = expr_code(l@, b, bs, d0);
            let ghost rest = cat_code(expr_code(right@, b, bs, d0 + 1), Ok(seq![Chunk::Op(opcode)]));
            let r1 = compile_expr(l, env, emitter, builder);
            if r1.is_err() {
                proof {
                    lemma_outcome_stops(s0, script_of(*builder), cl, rest, r1, r1);
                }
                return r1;
            }
            let ghost s1 = script_of(*builder);
            proof {
                lemma_expr_code_nonempty(l@, b, bs, d0);
                lemma_room_after(d0, s0, cl->Ok_0, 1);
            }
            let items = vec![Emit::Op(opcode, -1)];
            assert(emit_chunks(items@) =~= seq![Chunk::Op(opcode)]);
            assert(emit_delta(items@) == -1) by { reveal_with_fuel(emit_delta, 2); }
            let r2 = compile_with_tail(right, env, emitter, builder, items);
            proof {
                lemma_outcome_then(s0, s1, script_of(*builder), cl, rest, r1, r2);
            }
            r2
        },
        _ => Err(CompilerError::UnsupportedExpression),
    }
}

/// The pieces of [`p2sh_chunks`].
pub fn p2sh_items() -> (r: Vec<Emit>)
    ensures
        emit_chunks(r@) == p2sh_chunks(),
        emit_delta(r@) == 0,
        r@.len() == 10,
        forall|i: int| 0 <= i < r@.len() ==> -2 <= #[trigger] r@[i].delta() <= 2,
{
    let version = vec![0x00u8, 0x00u8];
    let hash_op = vec![OP_BLAKE2B];
    let hash_len = vec![0x20u8];
    let equal_op = vec![OP_EQUAL];
    assert(version@ =~= seq![0x00u8, 0x00u8]);
    assert(hash_op@ =~= seq![OP_BLAKE2B]);
    assert(hash_len@ =~= seq![0x20u8]);
    assert(equal_op@ =~= seq![OP_EQUAL]);
    let items = vec![
        Emit::Op(OP_BLAKE2B, 0),
        Emit::Data(version),
        Emit::Data(hash_op),
        Emit::Op(OP_CAT, -1),
        Emit::Data(hash_len),
        Emit::Op(OP_CAT, -1),
        Emit::Op(OP_SWAP, 0),
        Emit::Op(OP_CAT, -1),
        Emit::Data(equal_op),
        Emit::Op(OP_CAT, -1),
    ];
    assert(emit_chunks(items@) =~= p2sh_chunks());
    assert(emit_delta(items@) == 0) by {
        reveal_with_fuel(emit_delta, 11);
    }
    items
}

/// Compiles a P2SH scriptPubKey built from a redeem script.
fn compile_p2sh_expr(expr: &Expr, env: &ExprEnv, emitter: &mut ScriptEmitter, builder: &mut ScriptBuilder) -> (r:
    Result<(), CompilerError>)
    requires
        depth_room(old(emitter).depth(), script_of(*old(builder))),
        expr is P2shFromRedeemScript,
    ensures
        code_outcome(
            r,
            expr_code(expr@, env.stack_bindings@, env.bytecode_size, old(emitter).depth()),
            script_of(*old(builder)),
            script_of(*final(builder)),
        ),
        r is Ok ==> final(emitter).depth() == old(emitter).depth() + 1,
    decreases expr, 1int,
{
    let ghost s0 = script_of(*builder);
    let ghost d0 = emitter.depth();
    let ghost b = env.stack_bindings@;
    let ghost bs = env.bytecode_size;
    match expr {
        Expr::P2shFromRedeemScript(x) => {
            let items = p2sh_items();
            compile_with_tail(x, env, emitter, builder, items)
        },
        _ => Err(CompilerError::UnsupportedExpression),
    }
}

/// Compiles a substring of an input's signature script.
fn compile_substr_expr(expr: &Expr, env: &ExprEnv, emitter: &mut ScriptEmitter, builder: &mut ScriptBuilder) -> (r:
    Result<(), CompilerError>)
    requires
        depth_room(old(emitter).depth(), script_of(*old(builder))),
        expr is InputScriptSigSubstr,
    ensures
        code_outcome(
            r,
            expr_code(expr@, env.stack_bindings@, env.bytecode_size, old(emitter).depth()),
            script_of(*old(builder)),
            script_of(*final(builder)),
        ),
        r is Ok ==> final(emitter).depth() == old(emitter).depth() + 1,
    decreases expr, 1int,
{
    let ghost s0 = script_of(*builder);
    let ghost d0 = emitter.depth();
    let ghost b = env.stack_bindings@;
    let ghost bs = env.bytecode_size;
    match expr {
        Expr::InputScriptSigSubstr(i, st, en) => {
            let ghost ci = expr_code(i@, b, bs, d0);
            let ghost cs = expr_code(st@, b, bs, d0 + 1);
            let ghost tail = Ok(seq![Chunk::Op(OP_TX_INPUT_SCRIPT_SIG_SUBSTR)]);
            let ghost ce = cat_code(expr_code(en@, b, bs, d0 + 2), tail);
            let r1 = compile_expr(i, env, emitter, builder);
            if r1.is_err() {
                proof {
                    lemma_outcome_stops(s0, script_of(*builder), ci, cat_code(cs, ce), r1, r1);
                }
                return r1;
            }
            let ghost s1 = script_of(*builder);
            proof {
                lemma_expr_code_nonempty(i@, b, bs, d0);
                lemma_room_after(d0, s0, ci->Ok_0, 1);
            }
            let r2 = compile_expr(st, env, emitter, builder);
            if r2.is_err() {
                proof {
                    lemma_outcome_stops(s1, script_of(*builder), cs, ce, r2, r2);
                    lemma_outcome_then(s0, s1, script_of(*builder), ci, cat_code(cs, ce), r1, r2);
                }
                return r2;
            }
            let ghost s2 = script_of(*builder);
            proof {
                lemma_expr_code_nonempty(st@, b, bs, d0 + 1);
                lemma_outcome_then(s0, s1, s2, ci, cs, r1, r2);
                lemma_room_after(d0, s0, ci->Ok_0 + cs->Ok_0, 2);
                lemma_code_of_len(ci->Ok_0);
            }
            let items = vec![Emit::Op(OP_TX_INPUT_SCRIPT_SIG_SUBSTR, -2)];
            assert(emit_chunks(items@) =~= seq![Chunk::Op(OP_TX_INPUT_SCRIPT_SIG_SUBSTR)]);
            assert(emit_delta(items@) == -2) by { reveal_with_fuel(emit_delta, 2); }
            let r3 = compile_with_tail(en, env, emitter, builder, items);
            proof {
                lemma_outcome_then(s1, s2, script_of(*builder), cs, ce, r2, r3);
                lemma_outcome_then(s0, s1, script_of(*builder), ci, cat_code(cs, ce), r1, r3);
            }
            r3
        },
        _ => Err(CompilerError::UnsupportedExpression),
    }
}

/// Compiles one side of a split.
fn compile_split_expr(expr: &Expr, env: &ExprEnv, emitter: &mut ScriptEmitter, builder: &mut ScriptBuilder) -> (r:
    Result<(), CompilerError>)
    requires
        depth_room(old(emitter).depth(), script_of(*old(builder))),
        expr is Split,
    ensures
        code_outcome(
            r,
            expr_code(expr@, env.stack_bindings@, env.bytecode_size, old(emitter).depth()),
            script_of(*old(builder)),
            script_of(*final(builder)),
        ),
        r is Ok ==> final(emitter).depth() == old(emitter).depth() + 1,
    decreases expr, 1int,
{
    let ghost s0 = script_of(*builder);
    let ghost d0 = emitter.depth();
    let ghost b = env.stack_bindings@;
    let ghost bs = env.bytecode_size;
    match expr {
        Expr::Split(src, idx, part) => {
            let ghost csrc = expr_code(src@, b, bs, d0);
            let ghost mid = match *part {
                SplitPart::Left => seq![Chunk::Int(0)],
                SplitPart::Right => seq![Chunk::Op(OP_SIZE)],
            };
            let ghost last = match *part {
                SplitPart::Left => seq![Chunk::Op(OP_SUBSTR)],
                SplitPart::Right => seq![Chunk::Op(OP_SWAP), Chunk::Op(OP_SUBSTR)],
            };
            let ghost cidx = cat_code(expr_code(idx@, b, bs, d0 + 2), Ok(last));
            let r1 = compile_expr(src, env, emitter, builder);
            if r1.is_err() {
                proof {
                    lemma_outcome_stops(s0, script_of(*builder), csrc, cat_code(Ok(mid), cidx), r1, r1);
                }
                return r1;
            }
            let ghost s1 = script_of(*builder);
            proof {
                lemma_expr_code_nonempty(src@, b, bs, d0);
                lemma_room_after(d0, s0, csrc->Ok_0, 1);
            }
            let items = match part {
                SplitPart::Left => vec![Emit::Int(0)],
                SplitPart::Right => vec![Emit::Op(OP_SIZE, 1)],
            };
            assert(emit_chunks(items@) =~= mid);
            assert(emit_delta(items@) == 1) by {
                reveal_with_fuel(emit_delta, 2);
            }
            let r2 = emit_tail(emitter, builder, items);
            if r2.is_err() {
                proof {
                    lemma_outcome_stops(s1, script_of(*builder), Ok(mid), cidx, r2, r2);
                    lemma_outcome_then(s0, s1, script_of(*builder), csrc, cat_code(Ok(mid), cidx), r1, r2);
                }
                return r2;
            }
            let ghost s2 = script_of(*builder);
            proof {
                lemma_outcome_then(s0, s1, s2, csrc, Ok(mid), r1, r2);
                lemma_room_after(d0, s0, csrc->Ok_0 + mid, 2);
                lemma_code_of_len(csrc->Ok_0);
            }
            let tail = match part {
                SplitPart::Left => vec![Emit::Op(OP_SUBSTR, -2)],
                SplitPart::Right => vec![Emit::Op(OP_SWAP, 0), Emit::Op(OP_SUBSTR, -2)],
            };
            assert(emit_chunks(tail@) =~= last);
            assert(emit_delta(tail@) == -2) by { reveal_with_fuel(emit_delta, 3); }
            let r3 = compile_with_tail(idx, env, emitter, builder, tail);
            proof {
                lemma_outcome_then(s1, s2, script_of(*builder), Ok(mid), cidx, r2, r3);
                lemma_outcome_then(s0, s1, script_of(*builder), csrc, cat_code(Ok(mid), cidx), r1, r3);
            }
            r3
        },
        _ => Err(CompilerError::UnsupportedExpression),
    }
}

/// Compiles an expression; the value it computes ends on top of the stack.
pub fn compile_expr(expr: &Expr, env: &ExprEnv, emitter: &mut ScriptEmitter, builder: &mut ScriptBuilder) -> (r:
    Result<(), CompilerError>)
    requires
        depth_room(old(emitter).depth(), script_of(*old(builder))),
    ensures
        code_outcome(
            r,
            expr_code(expr@, env.stack_bindings@, env.bytecode_size, old(emitter).depth()),
            script_of(*old(builder)),
            script_of(*final(builder)),
        ),
        r is Ok ==> final(emitter).depth() == old(emitter).depth() + 1,
    decreases expr, 2int,
{
    let ghost s0 = script_of(*builder);
    let ghost d0 = emitter.depth();
    let ghost b = env.stack_bindings@;
    let ghost bs = env.bytecode_size;
    match expr {
        Expr::Int(v) => {
            let items = vec![Emit::Int(*v)];
            assert(emit_chunks(items@) =~= seq![Chunk::Int(*v)]);
            assert(emit_delta(items@) == 1) by { reveal_with_fuel(emit_delta, 2); }
            emit_tail(emitter, builder, items)
        },
        Expr::Bool(x) => {
            let op = if *x { OP_TRUE } else { OP_FALSE };
            let items = vec![Emit::Op(op, 1)];
            assert(emit_chunks(items@) =~= seq![Chunk::Op(op)]);
            assert(emit_delta(items@) == 1) by { reveal_with_fuel(emit_delta, 2); }
            emit_tail(emitter, builder, items)
        },
        Expr::Bytes(d) => {
            let items = vec![Emit::Data(crate::expr::clone_bytes(d))];
            assert(emit_chunks(items@) =~= seq![Chunk::Data(d@)]);
            assert(emit_delta(items@) == 1) by { reveal_with_fuel(emit_delta, 2); }
            emit_tail(emitter, builder, items)
        },
        Expr::Identifier(name) => {
            let mut depth = emitter.stack_depth;
            match env.stack_bindings.emit_copy_binding_to_top(name.as_str(), &mut depth, builder)? {
                true => {
                    emitter.stack_depth = depth;
                    Ok(())
                },
                false => Err(CompilerError::UndefinedIdentifier(name.clone())),
            }
        },
        Expr::Binary(..) => compile_binary_expr(expr, env, emitter, builder),
        Expr::Length(x) => {
            let items = vec![Emit::Op(OP_SIZE, 1), Emit::Op(OP_NIP, -1)];
            assert(emit_chunks(items@) =~= seq![Chunk::Op(OP_SIZE), Chunk::Op(OP_NIP)]);
            assert(emit_delta(items@) == 0) by { reveal_with_fuel(emit_delta, 3); }
            compile_with_tail(x, env, emitter, builder, items)
        },
        Expr::Cast(t, x) => {
            let items = if is_numeric_cast(t) {
                vec![Emit::Op(OP_BIN2NUM, 0)]
            } else {
                Vec::new()
            };
            assert(emit_chunks(items@) =~= if cast_is_numeric(t@) {
                seq![Chunk::Op(OP_BIN2NUM)]
            } else {
                Seq::empty()
            });
            assert(emit_delta(items@) == 0) by { reveal_with_fuel(emit_delta, 2); }
            compile_with_tail(x, env, emitter, builder, items)
        },
        Expr::InputScriptSigLen(x) => {
            let items = vec![Emit::Op(OP_TX_INPUT_SCRIPT_SIG_LEN, 0)];
            assert(emit_chunks(items@) =~= seq![Chunk::Op(OP_TX_INPUT_SCRIPT_SIG_LEN)]);
            assert(emit_delta(items@) == 0) by { reveal_with_fuel(emit_delta, 2); }
            compile_with_tail(x, env, emitter, builder, items)
        },
        Expr::InputScriptPubKey(x) => {
            let items = vec![Emit::Op(OP_TX_INPUT_SPK, 0)];
            assert(emit_chunks(items@) =~= seq![Chunk::Op(OP_TX_INPUT_SPK)]);
            assert(emit_delta(items@) == 0) by { reveal_with_fuel(emit_delta, 2); }
            compile_with_tail(x, env, emitter, builder, items)
        },
        Expr::P2shFromRedeemScript(..) => compile_p2sh_expr(expr, env, emitter, builder),
        Expr::InputScriptSigSubstr(..) => compile_substr_expr(expr, env, emitter, builder),
        Expr::ThisBytecodeSize => match env.bytecode_size {
            Some(v) => {
                let items = vec![Emit::Int(v)];
                assert(emit_chunks(items@) =~= seq![Chunk::Int(v)]);
                assert(emit_delta(items@) == 1) by { reveal_with_fuel(emit_delta, 2); }
                emit_tail(emitter, builder, items)
            },
            None => Err(CompilerError::UnsupportedExpression),
        },
        Expr::Split(..) => compile_split_expr(expr, env, emitter, builder),
        Expr::EmptyArray(_) => {
            let items = vec![Emit::Data(Vec::new())];
            assert(emit_chunks(items@) =~= seq![Chunk::Data(Seq::empty())]);
            assert(emit_delta(items@) == 1) by { reveal_with_fuel(emit_delta, 2); }
            emit_tail(emitter, builder, items)
        },
    }
}

/// The type of an expression, given the types of the names in scope.
pub open spec fn spec_infer_type(e: ExprV, types: Map<Seq<char>, TypeRefV>) -> Result<TypeRefV, Fault> {
    let int_type = TypeRefV { base: TypeBaseV::Int, dims: Seq::empty() };
    let bool_type = TypeRefV { base: TypeBaseV::Bool, dims: Seq::empty() };
    let bytes_type = TypeRefV { base: TypeBaseV::Byte, dims: seq![ArrayDim::Dynamic] };
    match e {
        ExprV::Int(_) => Ok(int_type),
        ExprV::Bool(_) => Ok(bool_type),
        ExprV::Bytes(d) => Ok(TypeRefV { base: TypeBaseV::Byte, dims: seq![ArrayDim::Fixed(d.len() as usize)] }),
        ExprV::Identifier(n) => if types.contains_key(n) {
            Ok(types[n])
        } else {
            Err(Fault::Undefined(n))
        },
        ExprV::Binary(op, _, _) => match op {
            BinaryOp::Add | BinaryOp::Sub => Ok(int_type),
            BinaryOp::Concat | BinaryOp::Num2Bin => Ok(bytes_type),
            _ => Ok(bool_type),
        },
        ExprV::Length(_) => Ok(int_type),
        ExprV::Cast(t, _) => Ok(t),
        ExprV::InputScriptSigLen(_) => Ok(int_type),
        ExprV::InputScriptSigSubstr(_, _, _) => Ok(bytes_type),
        ExprV::InputScriptPubKey(_) => Ok(bytes_type),
        ExprV::P2shFromRedeemScript(_) => Ok(
            TypeRefV { base: TypeBaseV::Byte, dims: seq![ArrayDim::Fixed(37)] },
        ),
        ExprV::ThisBytecodeSize => Ok(int_type),
        ExprV::Split(_, _, _) => Ok(bytes_type),
        ExprV::EmptyArray(t) => Ok(t),
    }
}

fn fixed_bytes_type(n: usize) -> (r: TypeRef)
    ensures
        r@ == (TypeRefV { base: TypeBaseV::Byte, dims: seq![ArrayDim::Fixed(n)] }),
{
    crate::types::byte_array_type(ArrayDim::Fixed(n))
}

/// Infers the type of an expression.
pub fn infer_expr_type(expr: &Expr, types: &TypeMap) -> (r: Result<TypeRef, CompilerError>)
    ensures
        match spec_infer_type(expr@, types@) {
            Ok(t) => r matches Ok(u) && u@ == t,
            Err(f) => r matches Err(e) && is_fault(e, f),
        },
{
    let int_type = crate::types::scalar_type(TypeBase::Int);
    let bool_type = crate::types::scalar_type(TypeBase::Bool);
    let bytes_type = crate::types::byte_array_type(ArrayDim::Dynamic);
    match expr {
        Expr::Int(_) => Ok(int_type),
        Expr::Bool(_) => Ok(bool_type),
        Expr::Bytes(d) => Ok(fixed_bytes_type(d.len())),
        Expr::Identifier(n) => match types.get(n.as_str()) {
            Some(t) => Ok(t.clone()),
            None => Err(CompilerError::UndefinedIdentifier(n.clone())),
        },
        Expr::Binary(op, _, _) => match op {
            BinaryOp::Add | BinaryOp::Sub => Ok(int_type),
            BinaryOp::Concat | BinaryOp::Num2Bin => Ok(bytes_type),
            _ => Ok(bool_type),
        },
        Expr::Length(_) => Ok(int_type),
        Expr::Cast(t, _) => Ok(t.clone()),
        Expr::InputScriptSigLen(_) => Ok(int_type),
        Expr::InputScriptSigSubstr(_, _, _) => Ok(bytes_type),
        Expr::InputScriptPubKey(_) => Ok(bytes_type),
        Expr::P2shFromRedeemScript(_) => Ok(fixed_bytes_type(37)),
        Expr::ThisBytecodeSize => Ok(int_type),
        Expr::Split(_, _, _) => Ok(bytes_type),
        Expr::EmptyArray(t) => Ok(t.clone()),
    }
}

/// Emits a short fixed run of code whose pieces each move the stack depth by at most two.
pub fn emit_tail_pub(emitter: &mut ScriptEmitter, builder: &mut ScriptBuilder, items: Vec<Emit>) -> (r: Result<
    (),
    CompilerError,
>)
    requires
        -0x100_0000_0000 <= old(emitter).depth() <= 0x100_0000_0000,
        items@.len() <= 16,
        forall|i: int| 0 <= i < items@.len() ==> -2 <= #[trigger] items@[i].delta() <= 2,
    ensures
        appended(r, script_of(*old(builder)), script_of(*final(builder)), emit_chunks(items@)),
        r is Ok ==> final(emitter).depth() == old(emitter).depth() + emit_delta(items@),
{
    emit_tail(emitter, builder, items)
}

/// One step of straight-line code: evaluate an expression, or emit fixed pieces.
pub enum Step {
    Eval(Expr),
    Fixed(Vec<Emit>),
}

/// The mathematical value of a [`Step`]: fixed pieces are their chunks and depth change.
pub enum StepV {
    Eval(ExprV),
    Fixed(Seq<Chunk>, int),
}

impl Step {
    pub open spec fn view_step(&self) -> StepV {
        match self {
            Step::Eval(e) => StepV::Eval(e@),
            Step::Fixed(items) => StepV::Fixed(emit_chunks(items@), emit_delta(items@)),
        }
    }

    /// A fixed step of a few pieces that each move the depth by at most two.
    pub open spec fn well_sized(&self) -> bool {
        match self {
            Step::Eval(_) => true,
            Step::Fixed(items) => items@.len() <= 16 && forall|i: int|
                0 <= i < items@.len() ==> -2 <= #[trigger] items@[i].delta() <= 2,
        }
    }
}

/// The values of a list of steps.
pub open spec fn steps_view(steps: Seq<Step>) -> Seq<StepV> {
    steps.map_values(|s: Step| s.view_step())
}

/// The code of straight-line steps, starting `depth` values above the bindings.
pub open spec fn program_code(steps: Seq<StepV>, b: Seq<Seq<char>>, bytecode_size: Option<i64>, depth: int) -> Result<
    Seq<Chunk>,
    Fault,
>
    decreases steps.len(),
{
    if steps.len() == 0 {
        Ok(Seq::empty())
    } else {
        match steps[0] {
            StepV::Eval(e) => cat_code(
                expr_code(e, b, bytecode_size, depth),
                program_code(steps.drop_first(), b, bytecode_size, depth + 1),
            ),
            StepV::Fixed(cs, delta) => cat_code(
                Ok(cs),
                program_code(steps.drop_first(), b, bytecode_size, depth + delta),
            ),
        }
    }
}

/// The change in stack depth of straight-line steps.
pub open spec fn program_delta(steps: Seq<StepV>) -> int
    decreases steps.len(),
{
    if steps.len() == 0 {
        0
    } else {
        match steps[0] {
            StepV::Eval(_) => 1 + program_delta(steps.drop_first()),
            StepV::Fixed(_, delta) => delta + program_delta(steps.drop_first()),
        }
    }
}

pub proof fn lemma_cat_code_assoc(a: Seq<Chunk>, x: Result<Seq<Chunk>, Fault>, y: Result<Seq<Chunk>, Fault>)
    ensures
        cat_code(Ok(a), cat_code(x, y)) == cat_code(cat_code(Ok(a), x), y),
{
    if let Ok(u) = x {
        if let Ok(v) = y {
            assert(a + (u + v) == a + u + v);
        }
    }
}

pub proof fn lemma_cat_code_assoc3(
    x: Result<Seq<Chunk>, Fault>,
    y: Result<Seq<Chunk>, Fault>,
    z: Result<Seq<Chunk>, Fault>,
)
    ensures
        cat_code(cat_code(x, y), z) == cat_code(x, cat_code(y, z)),
{
    if let Ok(u) = x {
        lemma_cat_code_assoc(u, y, z);
    }
}

/// Emits straight-line steps in order.
pub fn emit_program(steps: &[Step], env: &ExprEnv, emitter: &mut ScriptEmitter, builder: &mut ScriptBuilder) -> (r:
    Result<(), CompilerError>)
    requires
        -0x80_0000_0000 <= old(emitter).depth() <= 0x80_0000_0000,
        forall|i: int| 0 <= i < steps@.len() ==> (#[trigger] steps@[i]).well_sized(),
    ensures
        code_outcome(
            r,
            program_code(steps_view(steps@), env.stack_bindings@, env.bytecode_size, old(emitter).depth()),
            script_of(*old(builder)),
            script_of(*final(builder)),
        ),
        r is Ok ==> final(emitter).depth() == old(emitter).depth() + program_delta(steps_view(steps@)),
{
    let ghost b = env.stack_bindings@;
    let ghost bs = env.bytecode_size;
    let ghost sv = steps_view(steps@);
    let ghost d0 = emitter.depth();
    let ghost s0 = script_of(*builder);
    let ghost prog = program_code(sv, b, bs, d0);
    let ghost mut done: Seq<Chunk> = Seq::empty();
    assert(sv.skip(0) == sv);
    assert(cat_code(Ok(done), prog) == prog) by {
        if let Ok(c) = prog {
            assert(done + c == c);
        }
    }
    assert(code_of(done) == Seq::<u8>::empty());
    for i in 0..steps.len()
        invariant
            sv == steps_view(steps@),
            forall|j: int| 0 <= j < steps@.len() ==> (#[trigger] steps@[j]).well_sized(),
            b == env.stack_bindings@,
            bs == env.bytecode_size,
            d0 == old(emitter).depth(),
            -0x80_0000_0000 <= d0 <= 0x80_0000_0000,
            s0 == script_of(*old(builder)),
            prog == program_code(sv, b, bs, d0),
            prog == cat_code(Ok(done), program_code(sv.skip(i as int), b, bs, emitter.depth())),
            emits(s0, done),
            script_of(*builder) == s0 + code_of(done),
            emitter.depth() + program_delta(sv.skip(i as int)) == d0 + program_delta(sv),
            -2 * code_of(done).len() <= emitter.depth() - d0 <= 2 * code_of(done).len(),
    {
        let ghost d = emitter.depth();
        let ghost s1 = script_of(*builder);
        let ghost rest = sv.skip(i as int);
        let ghost next = sv.skip(i + 1);
        assert(rest.drop_first() == next);
        assert(rest[0] == steps@[i as int].view_step());
        proof {
            lemma_code_of_len(done);
        }
        match &steps[i] {
            Step::Eval(e) => {
                let ghost ce = expr_code(e@, b, bs, d);
                let ghost p = program_code(next, b, bs, d + 1);
                assert(program_code(rest, b, bs, d) == cat_code(ce, p));
                proof {
                    lemma_cat_code_assoc(done, ce, p);
                }
                let r1 = compile_expr(e, env, emitter, builder);
                proof {
                    if r1 is Err {
                        lemma_outcome_stops(s1, script_of(*builder), ce, p, r1, r1);
                        lemma_outcome_then(s0, s1, script_of(*builder), Ok(done), cat_code(ce, p), Ok::<(), CompilerError>(()), r1);
                    } else {
                        lemma_outcome_then(s0, s1, script_of(*builder), Ok(done), ce, Ok::<(), CompilerError>(()), r1);
                        lemma_expr_code_nonempty(e@, b, bs, d);
                        lemma_code_of_append(done, ce->Ok_0);
                        lemma_code_of_len(ce->Ok_0);
                    }
                }
                r1?;
                proof {
                    done = done + ce->Ok_0;
                }
            },
            Step::Fixed(items) => {
                let ghost cs = emit_chunks(items@);
                let ghost p = program_code(next, b, bs, d + emit_delta(items@));
                assert(program_code(rest, b, bs, d) == cat_code(Ok(cs), p));
                proof {
                    lemma_cat_code_assoc(done, Ok(cs), p);
                    lemma_small_deltas(d, items@);
                    lemma_delta_bound_pub(items@, items@.len() as int);
                    assert(items@.take(items@.len() as int) == items@);
                }
                let r1 = emitter.emit_all(builder, items.as_slice());
                proof {
                    if r1 is Err {
                        if let Ok(pc) = p {
                            lemma_refused_within(s0, done, cs, pc);
                        }
                    } else {
                        lemma_appended_seq(s0, s1, script_of(*builder), done, cs, r1);
                        lemma_code_of_append(done, cs);
                        lemma_code_of_len(cs);
                        assert(cs.len() == items@.len());
                    }
                }
                r1?;
                proof {
                    done = done + cs;
                }
            },
        }
    }
    assert(sv.skip(steps@.len() as int) =~= Seq::<StepV>::empty());
    assert(done + Seq::<Chunk>::empty() == done);
    Ok(())
}

} // verus!

//! The stack stays balanced.
//!
//! Every value a statement leaves on the stack is bound to a name. A statement binds exactly
//! the stack locals it reports as added, and keeps every binding it found, though an
//! assignment may move one to the top; a block drops the locals its statements added, so it
//! leaves the stack holding the bindings it found. The laws here are stated over the same
//! outcomes that the compiling functions' contracts use.

use vstd::prelude::*;
use vstd::multiset::Multiset;

use crate::ast::{bindings_view, lookup_struct, Statement};
use crate::codegen::{expr_code, program_code, Fault};
use crate::error::{CompilerError, StateBuiltin};
use crate::expr::{exprs_view, ExprV, SplitPart};
use crate::layout::{field_types, spec_chunk_size, spec_state_len, spec_state_start_offset};
use crate::locals::{base_name, fresh_base_index};
use crate::opcodes::{OP_ELSE, OP_END_IF, OP_IF};
use crate::script::Chunk;
use crate::stack::{binding_depth, drop_plan, lemma_binding_depth};
use crate::state::{add_v, framing_guard_code, input_binding_steps, spec_read_field, template_read_validation_code};
use crate::state_read::{
    base_def, contract_fields_view, find_binding, int_type, join_code, reads_from, sigscript_base, BindingV,
};
use crate::statement::{
    assign_stmt, block_outcome, blocks_from, if_else_part, if_outcome, join, lemma_block_outcome, lemma_blocks_from_step,
    opt_expr_view, reorder_code, simple_stmt_outcome, stack_def, state_call_stmt, stmt_outcome, Outcome, Scope,
    StmtEnv,
};
use crate::types::TypeRefV;

verus! {

broadcast use vstd::multiset::group_multiset_axioms;

/// The bindings after outcome `o` are those of `sc` together with the locals `o` reports
/// as added, in some order.
pub open spec fn keeps_bindings(sc: Scope, o: Outcome) -> bool {
    o matches Ok((_, s1, a)) ==> s1.bindings.to_multiset() == sc.bindings.to_multiset().add(
        a.to_multiset(),
    )
}

/// A one-element sequence holds its element once.
proof fn lemma_single_multiset(x: Seq<char>)
    ensures
        seq![x].to_multiset() == Multiset::<Seq<char>>::empty().insert(x),
{
    vstd::seq_lib::to_multiset_build(Seq::<Seq<char>>::empty(), x);
    assert(Seq::<Seq<char>>::empty().push(x) == seq![x]);
    assert(Seq::<Seq<char>>::empty().to_multiset() =~= Multiset::empty()) by {
        vstd::seq_lib::to_multiset_len(Seq::<Seq<char>>::empty());
    }
}

/// Putting `x` in front of `b` adds it to `b`'s multiset.
proof fn lemma_cons_multiset(x: Seq<char>, b: Seq<Seq<char>>)
    ensures
        (seq![x] + b).to_multiset() == b.to_multiset().insert(x),
{
    vstd::seq_lib::lemma_multiset_commutative(seq![x], b);
    lemma_single_multiset(x);
    assert((seq![x] + b).to_multiset() =~= b.to_multiset().insert(x));
}

/// Dropping `names` leaves bindings that, with `names`, are the bindings dropped from.
pub proof fn lemma_drop_plan_keeps(b: Seq<Seq<char>>, names: Seq<Seq<char>>)
    ensures
        drop_plan(b, names) matches Ok((_, left)) ==> left.to_multiset().add(names.to_multiset())
            == b.to_multiset(),
    decreases names.len(),
{
    if names.len() == 0 {
        vstd::seq_lib::to_multiset_len(names);
        if let Ok((_, left)) = drop_plan(b, names) {
            assert(left.to_multiset().add(names.to_multiset()) =~= b.to_multiset());
        }
    } else {
        lemma_binding_depth(b, names[0]);
        if let Some(k) = binding_depth(b, names[0]) {
            let n0 = names[0];
            let rest = names.drop_first();
            let b1 = b.remove(k as int);
            lemma_drop_plan_keeps(b1, rest);
            vstd::seq_lib::to_multiset_remove(b, k as int);
            vstd::seq_lib::to_multiset_contains(b, n0);
            assert(b.contains(n0)) by {
                assert(b[k as int] == n0);
            }
            assert(names == seq![n0] + rest);
            lemma_cons_multiset(n0, rest);
            if let Ok((_, left)) = drop_plan(b1, rest) {
                assert(b1.to_multiset() == b.to_multiset().remove(n0));
                assert(left.to_multiset().add(rest.to_multiset()) == b.to_multiset().remove(n0));
                assert(b.to_multiset().count(n0) > 0);
                assert forall|x: Seq<char>| #[trigger] left.to_multiset().add(names.to_multiset()).count(x)
                    == b.to_multiset().count(x) by {
                    assert(left.to_multiset().add(rest.to_multiset()).count(x) == b.to_multiset().remove(
                        n0,
                    ).count(x));
                }
                assert(left.to_multiset().add(names.to_multiset()) =~= b.to_multiset());
            }
        }
    }
}

/// Binding a new local adds exactly that local.
pub proof fn lemma_stack_def_keeps(env: StmtEnv, sc: Scope, name: Seq<char>, t: TypeRefV, e: ExprV)
    ensures
        keeps_bindings(sc, stack_def(env, sc, name, t, e)),
{
    lemma_cons_multiset(name, sc.bindings);
    lemma_single_multiset(name);
    if let Ok((_, s1, a)) = stack_def(env, sc, name, t, e) {
        assert(s1.bindings.to_multiset() =~= sc.bindings.to_multiset().add(a.to_multiset()));
    }
}

/// Code and locals `c`, `a` reached from `sc` at `s1`, followed by an outcome from `s1`.
pub proof fn lemma_join_keeps(sc: Scope, c: Seq<Chunk>, s1: Scope, a: Seq<Seq<char>>, o: Outcome)
    requires
        s1.bindings.to_multiset() == sc.bindings.to_multiset().add(a.to_multiset()),
        keeps_bindings(s1, o),
    ensures
        keeps_bindings(sc, join(c, a, o)),
{
    if let Ok((_, s2, a2)) = o {
        vstd::seq_lib::lemma_multiset_commutative(a, a2);
        assert(s2.bindings.to_multiset() =~= sc.bindings.to_multiset().add((a + a2).to_multiset()));
    }
}

/// Code before an outcome adds nothing.
pub proof fn lemma_join_code_keeps(sc: Scope, c: Result<Seq<Chunk>, Fault>, o: Outcome)
    requires
        keeps_bindings(sc, o),
    ensures
        keeps_bindings(sc, join_code(c, o)),
{
    vstd::seq_lib::to_multiset_len(Seq::<Seq<char>>::empty());
    if let Ok(x) = c {
        assert(sc.bindings.to_multiset().add(Seq::<Seq<char>>::empty().to_multiset()) =~= sc.bindings.to_multiset());
        lemma_join_keeps(sc, x, sc, Seq::empty(), o);
    }
}

/// An outcome that adds no locals and leaves the bindings as they were keeps them.
proof fn lemma_unchanged_keeps(sc: Scope, o: Outcome)
    requires
        o matches Ok((_, s1, a)) ==> s1.bindings == sc.bindings && a.len() == 0,
    ensures
        keeps_bindings(sc, o),
{
    if let Ok((_, s1, a)) = o {
        vstd::seq_lib::to_multiset_len(a);
        assert(sc.bindings.to_multiset().add(a.to_multiset()) =~= sc.bindings.to_multiset());
    }
}

/// Reassigning a local moves it to the top and keeps every binding.
pub proof fn lemma_assign_keeps(env: StmtEnv, sc: Scope, name: Seq<char>, e: ExprV)
    ensures
        keeps_bindings(sc, assign_stmt(env, sc, name, e)),
{
    lemma_binding_depth(sc.bindings, name);
    if let Ok((_, s1, a)) = assign_stmt(env, sc, name, e) {
        let k = binding_depth(sc.bindings, name)->Some_0;
        let b = sc.bindings;
        vstd::seq_lib::to_multiset_remove(b, k as int);
        vstd::seq_lib::to_multiset_contains(b, name);
        assert(b.contains(name)) by {
            assert(b[k as int] == name);
        }
        lemma_cons_multiset(name, b.remove(k as int));
        vstd::seq_lib::to_multiset_len(a);
        assert(b.to_multiset().count(name) > 0);
        assert(s1.bindings.to_multiset() =~= b.to_multiset().add(a.to_multiset()));
    }
}

/// Reading state fields binds exactly the locals the reads report.
pub proof fn lemma_reads_keep(
    env: StmtEnv,
    sc: Scope,
    fields: Seq<(Seq<char>, TypeRefV)>,
    bs: Seq<BindingV>,
    input_idx: ExprV,
    start: ExprV,
    base: Seq<char>,
    builtin: StateBuiltin,
    check_types: bool,
    i: int,
    offset: nat,
)
    ensures
        keeps_bindings(sc, reads_from(env, sc, fields, bs, input_idx, start, base, builtin, check_types, i, offset)),
    decreases fields.len() - i,
{
    if i < 0 || i >= fields.len() {
        lemma_unchanged_keeps(sc, reads_from(env, sc, fields, bs, input_idx, start, base, builtin, check_types, i, offset));
    } else if let Some(bd) = find_binding(bs, fields[i].0) {
        if let Ok(x) = spec_read_field(input_idx, fields[i].1, start, offset, ExprV::Identifier(base), builtin) {
            lemma_stack_def_keeps(env, sc, bd.1, bd.2, x);
            if let Ok((c, sc1, a)) = stack_def(env, sc, bd.1, bd.2, x) {
                if let Ok(n) = spec_chunk_size(fields[i].1) {
                    if offset + n <= usize::MAX {
                        lemma_reads_keep(
                            env,
                            sc1,
                            fields,
                            bs,
                            input_idx,
                            start,
                            base,
                            builtin,
                            check_types,
                            i + 1,
                            (offset + n) as nat,
                        );
                    }
                }
                let rest = match spec_chunk_size(fields[i].1) {
                    Err(e) => Err(Fault::Is(e)),
                    Ok(n) => if offset + n > usize::MAX {
                        Err(Fault::Is(CompilerError::ArithmeticOverflow))
                    } else {
                        reads_from(env, sc1, fields, bs, input_idx, start, base, builtin, check_types, i + 1, (offset + n) as nat)
                    },
                };
                lemma_join_keeps(sc, c, sc1, a, rest);
            }
        }
    }
}

/// A state read binds the sigscript base and then each field, and nothing else.
pub proof fn lemma_read_state_keeps(
    env: StmtEnv,
    sc: Scope,
    target: Seq<char>,
    bs: Seq<BindingV>,
    name: Seq<char>,
    args: Seq<ExprV>,
)
    ensures
        keeps_bindings(sc, state_call_stmt(env, sc, target, bs, name, args)),
{
    let fields = env.fields;
    let base = base_name(fresh_base_index(sc.bindings));
    if args.len() >= 1 {
        let plain_size = ExprV::Int(env.bytecode_size->Some_0);
        if fresh_base_index(sc.bindings) <= usize::MAX {
            lemma_stack_def_keeps(env, sc, base, int_type(), sigscript_base(args[0], plain_size));
        }
        if let Ok((c1, sc1, a1)) = base_def(env, sc, args[0], plain_size) {
            if let Ok(start) = spec_state_start_offset(env.state_end, field_types(fields)) {
                let reads = reads_from(
                    env,
                    sc1,
                    contract_fields_view(fields),
                    bs,
                    args[0],
                    ExprV::Int(start as i64),
                    base,
                    StateBuiltin::ReadInputState,
                    true,
                    0,
                    0,
                );
                lemma_reads_keep(
                    env,
                    sc1,
                    contract_fields_view(fields),
                    bs,
                    args[0],
                    ExprV::Int(start as i64),
                    base,
                    StateBuiltin::ReadInputState,
                    true,
                    0,
                    0,
                );
                let guard = framing_guard_code(
                    args[0],
                    ExprV::Int(start as i64),
                    ExprV::Identifier(base),
                    field_types(fields),
                    sc1.bindings,
                    env.bytecode_size,
                );
                lemma_join_code_keeps(sc1, guard, reads);
                let binding = program_code(
                    input_binding_steps(args[0], ExprV::Identifier(base)),
                    sc1.bindings,
                    env.bytecode_size,
                    0,
                );
                lemma_join_code_keeps(sc1, binding, join_code(guard, reads));
                lemma_join_keeps(sc, c1, sc1, a1, join_code(binding, join_code(guard, reads)));
            }
        }
    }
    if args.len() == 4 {
        if let Some(sf) = lookup_struct(env.structs, target) {
            let ts = sf.map_values(|f: (Seq<char>, TypeRefV)| f.1);
            if let Ok(total) = spec_state_len(ts) {
                let size = add_v(add_v(args[1], ExprV::Int(total as i64)), args[2]);
                if fresh_base_index(sc.bindings) <= usize::MAX {
                    lemma_stack_def_keeps(env, sc, base, int_type(), sigscript_base(args[0], size));
                }
                if let Ok((c1, sc1, a1)) = base_def(env, sc, args[0], size) {
                    let reads = reads_from(
                        env,
                        sc1,
                        sf,
                        bs,
                        args[0],
                        args[1],
                        base,
                        StateBuiltin::ReadInputStateWithTemplate,
                        false,
                        0,
                        0,
                    );
                    lemma_reads_keep(
                        env,
                        sc1,
                        sf,
                        bs,
                        args[0],
                        args[1],
                        base,
                        StateBuiltin::ReadInputStateWithTemplate,
                        false,
                        0,
                        0,
                    );
                    let validation = template_read_validation_code(
                        args,
                        ts,
                        ExprV::Identifier(base),
                        sc1.bindings,
                        env.bytecode_size,
                    );
                    lemma_join_code_keeps(sc1, validation, reads);
                    lemma_join_keeps(sc, c1, sc1, a1, join_code(validation, reads));
                }
            }
        }
    }
}

/// Code with no locals, before an outcome from the same scope.
proof fn lemma_join_empty_keeps(sc: Scope, c: Seq<Chunk>, o: Outcome)
    requires
        keeps_bindings(sc, o),
    ensures
        keeps_bindings(sc, join(c, Seq::empty(), o)),
{
    vstd::seq_lib::to_multiset_len(Seq::<Seq<char>>::empty());
    assert(sc.bindings.to_multiset().add(Seq::<Seq<char>>::empty().to_multiset()) =~= sc.bindings.to_multiset());
    lemma_join_keeps(sc, c, sc, Seq::empty(), o);
}

/// A statement that contains no statements binds exactly the locals it reports.
proof fn lemma_simple_keeps(env: StmtEnv, sc: Scope, s: Statement)
    ensures
        keeps_bindings(sc, simple_stmt_outcome(env, sc, s)),
{
    reveal(simple_stmt_outcome);
    match s {
        Statement::VariableDefinition { type_ref, name, expr } => {
            let t = type_ref@;
            match opt_expr_view(expr) {
                Some(x) => lemma_stack_def_keeps(env, sc, name@, t, x),
                None => lemma_stack_def_keeps(env, sc, name@, t, ExprV::EmptyArray(t)),
            }
        },
        Statement::Require { expr } => lemma_unchanged_keeps(sc, simple_stmt_outcome(env, sc, s)),
        Statement::RequireAgeDaa { expr } => lemma_unchanged_keeps(sc, simple_stmt_outcome(env, sc, s)),
        Statement::RequireTxDaa { expr } => lemma_unchanged_keeps(sc, simple_stmt_outcome(env, sc, s)),
        Statement::RequireTxTime { expr } => lemma_unchanged_keeps(sc, simple_stmt_outcome(env, sc, s)),
        Statement::TupleAssignment { left_type_ref, left_name, right_type_ref, right_name, expr } => {
            if let ExprV::Split(src, idx, _) = expr@ {
                let l = ExprV::Split(src, idx, SplitPart::Left);
                let r = ExprV::Split(src, idx, SplitPart::Right);
                lemma_stack_def_keeps(env, sc, left_name@, left_type_ref@, l);
                if let Ok((c1, sc1, a1)) = stack_def(env, sc, left_name@, left_type_ref@, l) {
                    lemma_stack_def_keeps(env, sc1, right_name@, right_type_ref@, r);
                    lemma_join_keeps(sc, c1, sc1, a1, stack_def(env, sc1, right_name@, right_type_ref@, r));
                }
            }
        },
        Statement::FunctionCall { name, args } => lemma_unchanged_keeps(sc, simple_stmt_outcome(env, sc, s)),
        Statement::StateFunctionCallAssign { target_struct, bindings, name, args } => {
            lemma_read_state_keeps(env, sc, target_struct@, bindings_view(bindings@), name@, exprs_view(args@));
        },
        Statement::Assign { name, expr } => lemma_assign_keeps(env, sc, name@, expr@),
        Statement::Console { .. } => lemma_unchanged_keeps(sc, simple_stmt_outcome(env, sc, s)),
        _ => {},
    }
}

/// Law: a statement keeps every stack binding it found and binds exactly the locals it
/// reports as added; the stack grows by their number.
pub proof fn lemma_statement_keeps_stack(env: StmtEnv, sc: Scope, s: Statement)
    ensures
        keeps_bindings(sc, stmt_outcome(env, sc, s)),
        stmt_outcome(env, sc, s) matches Ok((_, s1, a)) ==> s1.bindings.len() == sc.bindings.len() + a.len(),
    decreases s, 2int,
{
    match s {
        Statement::Block { body } => {
            lemma_block_keeps_stack(env, sc, body@);
            if let Ok((_, s1, a)) = block_outcome(env, sc, body@) {
                assert(a =~= Seq::<Seq<char>>::empty());
                vstd::seq_lib::to_multiset_len(a);
                assert(sc.bindings.to_multiset().add(a.to_multiset()) =~= sc.bindings.to_multiset());
            }
        },
        Statement::If { .. } => lemma_if_keeps_stack(env, sc, s),
        _ => lemma_simple_keeps(env, sc, s),
    }
    if let Ok((_, s1, a)) = stmt_outcome(env, sc, s) {
        vstd::seq_lib::to_multiset_len(s1.bindings);
        vstd::seq_lib::to_multiset_len(sc.bindings);
        vstd::seq_lib::to_multiset_len(a);
    }
}

/// An `if` statement leaves the stack holding the bindings it found, each branch's locals
/// dropped and both branches' stacks brought into one order.
proof fn lemma_if_keeps_stack(env: StmtEnv, sc: Scope, s: Statement)
    ensures
        keeps_bindings(sc, if_outcome(env, sc, s)),
    decreases s, 1int,
{
    vstd::seq_lib::to_multiset_len(Seq::<Seq<char>>::empty());
    assert(sc.bindings.to_multiset().add(Seq::<Seq<char>>::empty().to_multiset()) =~= sc.bindings.to_multiset());
    if let Statement::If { condition, then_branch, else_branch } = s {
        let eb = match else_branch {
            Some(x) => Some(x@),
            None => None,
        };
        lemma_block_keeps_stack(env, sc, then_branch@);
        let tb = block_outcome(env, sc, then_branch@);
        if let Ok((tc, ts, _)) = tb {
            let last = Ok::<(Seq<Chunk>, Scope, Seq<Seq<char>>), Fault>(
                (seq![Chunk::Op(OP_END_IF)], Scope { types: sc.types, bindings: ts.bindings }, Seq::empty()),
            );
            assert(keeps_bindings(sc, last));
            match eb {
                Some(e) => {
                    if let Ok((ec, es, _)) = block_outcome(env, sc, e) {
                        lemma_join_code_keeps(sc, reorder_code(es.bindings, ts.bindings), last);
                        lemma_join_empty_keeps(sc, ec, join_code(reorder_code(es.bindings, ts.bindings), last));
                    }
                    lemma_join_empty_keeps(
                        sc,
                        seq![Chunk::Op(OP_ELSE)],
                        match block_outcome(env, sc, e) {
                            Err(f) => Err(f),
                            Ok((ec, es, _)) => join(
                                ec,
                                Seq::empty(),
                                join_code(reorder_code(es.bindings, ts.bindings), last),
                            ),
                        },
                    );
                },
                None => {
                    let back = Ok::<(Seq<Chunk>, Scope, Seq<Seq<char>>), Fault>(
                        (seq![Chunk::Op(OP_END_IF)], sc, Seq::empty()),
                    );
                    lemma_unchanged_keeps(sc, back);
                    lemma_join_code_keeps(sc, reorder_code(ts.bindings, sc.bindings), back);
                },
            }
            lemma_join_empty_keeps(sc, tc, if_else_part(env, sc, ts, eb));
        }
        let inner = match tb {
            Err(f) => Err(f),
            Ok((tc, ts, _)) => join(tc, Seq::empty(), if_else_part(env, sc, ts, eb)),
        };
        lemma_join_empty_keeps(sc, seq![Chunk::Op(OP_IF)], inner);
        lemma_join_code_keeps(
            sc,
            expr_code(condition@, sc.bindings, env.bytecode_size, 0),
            join(seq![Chunk::Op(OP_IF)], Seq::empty(), inner),
        );
    }
}

/// Law: a block leaves the stack holding exactly the bindings it found, as deep as it
/// found it; the locals its statements added are dropped and nothing is reported added.
pub proof fn lemma_block_keeps_stack(env: StmtEnv, sc: Scope, ss: Seq<Statement>)
    ensures
        block_outcome(env, sc, ss) matches Ok((_, s1, a)) ==> a.len() == 0 && s1.bindings.to_multiset()
            == sc.bindings.to_multiset() && s1.bindings.len() == sc.bindings.len(),
    decreases ss, ss.len() + 1,
{
    lemma_blocks_keep(env, sc, ss, 0);
    lemma_block_outcome(env, sc, ss);
    if let Ok((c, s1, a)) = blocks_from(env, sc, ss, 0) {
        vstd::seq_lib::to_multiset_len(a);
        if a.len() == 0 {
            assert(s1.bindings.to_multiset() =~= sc.bindings.to_multiset());
        } else {
            lemma_drop_plan_keeps(s1.bindings, a);
            if let Ok((_, left)) = drop_plan(s1.bindings, a) {
                assert forall|x: Seq<char>| #[trigger] left.to_multiset().count(x) == sc.bindings.to_multiset().count(x) by {
                    assert(left.to_multiset().add(a.to_multiset()).count(x) == s1.bindings.to_multiset().count(x));
                }
                assert(left.to_multiset() =~= sc.bindings.to_multiset());
            }
        }
    }
    if let Ok((_, s1, _)) = block_outcome(env, sc, ss) {
        vstd::seq_lib::to_multiset_len(s1.bindings);
        vstd::seq_lib::to_multiset_len(sc.bindings);
    }
}

/// The statements `i ..` of a block bind exactly the locals they report.
proof fn lemma_blocks_keep(env: StmtEnv, sc: Scope, ss: Seq<Statement>, i: int)
    ensures
        keeps_bindings(sc, blocks_from(env, sc, ss, i)),
    decreases ss, ss.len() - i,
{
    if i < 0 || i >= ss.len() {
        lemma_unchanged_keeps(sc, blocks_from(env, sc, ss, i));
    } else {
        lemma_blocks_from_step(env, sc, ss, i);
        lemma_statement_keeps_stack(env, sc, ss[i]);
        if let Ok((c, s1, a)) = stmt_outcome(env, sc, ss[i]) {
            lemma_blocks_keep(env, s1, ss, i + 1);
            lemma_join_keeps(sc, c, s1, a, blocks_from(env, s1, ss, i + 1));
        }
    }
}

} // verus!

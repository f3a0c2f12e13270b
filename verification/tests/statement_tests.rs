use kaspa_txscript::opcodes::codes;
use kaspa_txscript::script_builder::ScriptBuilder;

use silverscript_state::recorder::{DebugEvent, DebugRecorder};
use silverscript_state::ast::{BuiltinRegistry, BuiltinSpec, ParamAst, Statement, StructBindingAst, StructFieldSpec, StructRegistry, StructSpec};
use silverscript_state::error::{CompilerError, StateBuiltin};
use silverscript_state::expr::{binary_expr, BinaryOp, Expr, SplitPart};
use silverscript_state::layout::ContractFieldAst;
use silverscript_state::opcodes::LOCK_TIME_THRESHOLD;
use silverscript_state::output::{
    compile_validate_output_state_inner_statement, compile_validate_output_state_with_template_inner_statement,
};
use silverscript_state::stack::StackBindings;
use silverscript_state::statement::{
    compile_block, compile_console_statement, compile_function_call_assign_statement, compile_function_call_statement,
    compile_return_statement, compile_statement, compile_struct_destructure_statement, CompileStatementContext,
    VALIDATE_OUTPUT_STATE_INNER,
};
use silverscript_state::type_map::TypeMap;
use silverscript_state::types::{byte_array_type, same_type, scalar_type, ArrayDim, TypeBase, TypeRef};

fn engine(build: impl FnOnce(&mut ScriptBuilder)) -> Vec<u8> {
    let mut builder = ScriptBuilder::new();
    build(&mut builder);
    builder.drain()
}

fn ops(b: &mut ScriptBuilder, list: &[u8]) {
    for op in list {
        b.add_op(*op).unwrap();
    }
}

fn int_type() -> TypeRef {
    scalar_type(TypeBase::Int)
}

fn id(name: &str) -> Expr {
    Expr::identifier(name)
}

fn no_structs() -> StructRegistry {
    StructRegistry { structs: vec![] }
}

/// A context with the int locals `names` on the stack, the first on top.
fn context<'a>(
    names: &[&str],
    fields: &'a [ContractFieldAst],
    structs: &'a StructRegistry,
    bytecode_size: Option<i64>,
) -> CompileStatementContext<'a> {
    let mut types = TypeMap::new();
    let mut stack = StackBindings::new();
    for name in names.iter().rev() {
        types.insert(name.to_string(), int_type());
        stack.push_binding(name);
    }
    CompileStatementContext {
        types,
        stack_bindings: stack,
        builder: ScriptBuilder::new(),
        contract_fields: fields,
        state_end: 100,
        structs,
        builtins: no_builtins(),
        bytecode_size,
        recorder: DebugRecorder::new(),
    }
}

fn no_builtins() -> &'static BuiltinRegistry {
    Box::leak(Box::new(BuiltinRegistry { builtins: vec![] }))
}

fn var(name: &str, expr: Expr) -> Statement {
    Statement::VariableDefinition { type_ref: int_type(), name: name.to_string(), expr: Some(expr) }
}

#[test]
fn a_block_restores_the_stack_it_found() {
    let structs = no_structs();
    let mut ctx = context(&["x"], &[], &structs, None);
    let body = vec![
        var("y", binary_expr(BinaryOp::Add, id("x"), Expr::Int(1))),
        Statement::Assign { name: "y".to_string(), expr: binary_expr(BinaryOp::Add, id("y"), id("x")) },
        Statement::Require { expr: binary_expr(BinaryOp::Greater, id("y"), Expr::Int(2)) },
    ];
    compile_block(&mut ctx, &body).unwrap();
    assert_eq!(ctx.stack_bindings.binding_order(), vec!["x"]);
    assert!(ctx.types.get("y").is_none());
    let expected = engine(|b| {
        ops(b, &[codes::OpDup]);
        b.add_i64(1).unwrap();
        ops(b, &[codes::OpAdd, codes::OpDup]);
        b.add_i64(2).unwrap();
        ops(b, &[codes::OpPick, codes::OpAdd]);
        b.add_i64(1).unwrap();
        ops(b, &[codes::OpRoll, codes::OpDrop, codes::OpDup]);
        b.add_i64(2).unwrap();
        ops(b, &[codes::OpGreaterThan, codes::OpVerify, codes::OpDrop]);
    });
    assert_eq!(ctx.builder.drain(), expected);
}

#[test]
fn an_if_else_leaves_both_branches_in_one_order() {
    let structs = no_structs();
    let mut ctx = context(&["x"], &[], &structs, None);
    let stmt = Statement::If {
        condition: binary_expr(BinaryOp::NumEqual, id("x"), Expr::Int(1)),
        then_branch: vec![
            var("a", Expr::Int(2)),
            Statement::Assign { name: "x".to_string(), expr: id("a") },
        ],
        else_branch: Some(vec![Statement::Assign { name: "x".to_string(), expr: Expr::Int(3) }]),
    };
    let added = compile_statement(&mut ctx, &stmt).unwrap();
    assert!(added.is_empty());
    assert_eq!(ctx.stack_bindings.binding_order(), vec!["x"]);
    let expected = engine(|b| {
        ops(b, &[codes::OpDup]);
        b.add_i64(1).unwrap();
        ops(b, &[codes::OpNumEqual, codes::OpIf]);
        b.add_i64(2).unwrap();
        ops(b, &[codes::OpDup]);
        b.add_i64(2).unwrap();
        ops(b, &[codes::OpRoll, codes::OpDrop]);
        b.add_i64(1).unwrap();
        ops(b, &[codes::OpRoll, codes::OpDrop, codes::OpElse]);
        b.add_i64(3).unwrap();
        b.add_i64(1).unwrap();
        ops(b, &[codes::OpRoll, codes::OpDrop, codes::OpEndIf]);
    });
    assert_eq!(ctx.builder.drain(), expected);
}

#[test]
fn a_variable_definition_reports_the_local_it_adds() {
    let structs = no_structs();
    let mut ctx = context(&["x"], &[], &structs, None);
    let added = compile_statement(&mut ctx, &var("z", id("x"))).unwrap();
    assert_eq!(added, vec!["z"]);
    assert_eq!(ctx.stack_bindings.binding_order(), vec!["z", "x"]);
}

#[test]
fn an_array_without_initializer_starts_empty_and_a_scalar_needs_one() {
    let structs = no_structs();
    let mut ctx = context(&[], &[], &structs, None);
    let array = Statement::VariableDefinition {
        type_ref: TypeRef { base: TypeBase::Int, array_dims: vec![ArrayDim::Dynamic] },
        name: "xs".to_string(),
        expr: None,
    };
    assert_eq!(compile_statement(&mut ctx, &array).unwrap(), vec!["xs"]);
    assert_eq!(ctx.builder.drain(), vec![0x00]);
    let scalar = Statement::VariableDefinition { type_ref: int_type(), name: "n".to_string(), expr: None };
    assert!(matches!(compile_statement(&mut ctx, &scalar), Err(CompilerError::MissingInitializer)));
}

#[test]
fn statement_errors_name_what_is_wrong() {
    let structs = no_structs();
    let mut ctx = context(&["x"], &[], &structs, None);
    assert!(matches!(
        compile_statement(&mut ctx, &var("x", Expr::Int(1))),
        Err(CompilerError::AlreadyDefined(n)) if n == "x"
    ));
    assert!(matches!(
        compile_statement(&mut ctx, &Statement::Assign { name: "q".to_string(), expr: Expr::Int(1) }),
        Err(CompilerError::UndefinedIdentifier(n)) if n == "q"
    ));
    ctx.types.insert("k".to_string(), int_type());
    assert!(matches!(
        compile_statement(&mut ctx, &Statement::Assign { name: "k".to_string(), expr: Expr::Int(1) }),
        Err(CompilerError::NotStackBound(n)) if n == "k"
    ));
    assert!(matches!(
        compile_statement(&mut ctx, &Statement::Require { expr: id("missing") }),
        Err(CompilerError::UndefinedIdentifier(n)) if n == "missing"
    ));
    assert!(matches!(
        compile_statement(&mut ctx, &Statement::Require { expr: Expr::ThisBytecodeSize }),
        Err(CompilerError::UnsupportedExpression)
    ));
    assert!(matches!(
        compile_statement(
            &mut ctx,
            &Statement::TupleAssignment {
                left_type_ref: int_type(),
                left_name: "l".to_string(),
                right_type_ref: int_type(),
                right_name: "r".to_string(),
                expr: Expr::Int(1),
            }
        ),
        Err(CompilerError::TupleAssignmentSource)
    ));
    assert!(matches!(
        compile_statement(&mut ctx, &Statement::FunctionCall { name: "helper".to_string(), args: vec![] }),
        Err(CompilerError::UnloweredCall(n)) if n == "helper"
    ));
    assert!(matches!(
        compile_statement(
            &mut ctx,
            &Statement::FunctionCallAssign { bindings: vec![], name: "helper".to_string(), args: vec![] }
        ),
        Err(CompilerError::UnloweredCallAssign(n)) if n == "helper"
    ));
    assert!(matches!(
        compile_statement(
            &mut ctx,
            &Statement::For { ident: "i".to_string(), start: Expr::Int(0), end: Expr::Int(2), body: vec![] }
        ),
        Err(CompilerError::UnloweredLoop)
    ));
    assert!(matches!(
        compile_statement(&mut ctx, &Statement::Return { exprs: vec![] }),
        Err(CompilerError::MisplacedReturn)
    ));
    assert!(matches!(
        compile_statement(&mut ctx, &Statement::StructDestructure { bindings: vec![], expr: Expr::Int(0) }),
        Err(CompilerError::UnloweredStructDestructure)
    ));
    assert!(matches!(compile_return_statement(), Err(CompilerError::MisplacedReturn)));
    assert!(matches!(compile_struct_destructure_statement(), Err(CompilerError::UnloweredStructDestructure)));
    assert!(matches!(
        compile_function_call_assign_statement("f"),
        Err(CompilerError::UnloweredCallAssign(n)) if n == "f"
    ));
    assert!(compile_console_statement().unwrap().is_empty());
    let unused = ParamAst { name: "p".to_string(), type_ref: int_type() };
    assert_eq!(unused.name, "p");
}

#[test]
fn a_console_statement_emits_nothing() {
    let structs = no_structs();
    let mut ctx = context(&["x"], &[], &structs, None);
    let added = compile_statement(&mut ctx, &Statement::Console { args: vec![id("x")] }).unwrap();
    assert!(added.is_empty());
    assert_eq!(ctx.builder.script().len(), 0);
}

#[test]
fn lock_time_requirements_check_their_range_first() {
    let structs = no_structs();
    let mut ctx = context(&[], &[], &structs, None);
    compile_statement(&mut ctx, &Statement::RequireAgeDaa { expr: Expr::Int(10) }).unwrap();
    compile_statement(&mut ctx, &Statement::RequireTxDaa { expr: Expr::Int(20) }).unwrap();
    compile_statement(&mut ctx, &Statement::RequireTxTime { expr: Expr::Int(30) }).unwrap();
    let expected = engine(|b| {
        b.add_i64(10).unwrap();
        ops(b, &[codes::OpDup]);
        b.add_i64(0).unwrap();
        b.add_i64(0x1_0000_0000).unwrap();
        ops(b, &[codes::OpWithin, codes::OpVerify, codes::OpCheckSequenceVerify]);
        b.add_i64(20).unwrap();
        ops(b, &[codes::OpDup]);
        b.add_i64(0).unwrap();
        b.add_i64(LOCK_TIME_THRESHOLD as i64).unwrap();
        ops(b, &[codes::OpWithin, codes::OpVerify, codes::OpCheckLockTimeVerify]);
        b.add_i64(30).unwrap();
        ops(b, &[codes::OpDup]);
        b.add_i64(LOCK_TIME_THRESHOLD as i64).unwrap();
        ops(b, &[codes::OpGreaterThanOrEqual, codes::OpVerify, codes::OpCheckLockTimeVerify]);
    });
    assert_eq!(ctx.builder.drain(), expected);
}

#[test]
fn a_split_binds_both_halves() {
    let structs = no_structs();
    let mut ctx = context(&["data"], &[], &structs, None);
    let bytes = TypeRef { base: TypeBase::Byte, array_dims: vec![ArrayDim::Dynamic] };
    let stmt = Statement::TupleAssignment {
        left_type_ref: bytes.clone(),
        left_name: "head".to_string(),
        right_type_ref: bytes,
        right_name: "tail".to_string(),
        expr: Expr::Split(Box::new(id("data")), Box::new(Expr::Int(4)), SplitPart::Left),
    };
    let added = compile_statement(&mut ctx, &stmt).unwrap();
    assert_eq!(added, vec!["head", "tail"]);
    assert_eq!(ctx.stack_bindings.binding_order(), vec!["tail", "head", "data"]);
    let expected = engine(|b| {
        ops(b, &[codes::OpDup]);
        b.add_i64(0).unwrap();
        b.add_i64(4).unwrap();
        ops(b, &[codes::OpSubstr]);
        b.add_i64(1).unwrap();
        ops(b, &[codes::OpPick, codes::OpSize]);
        b.add_i64(4).unwrap();
        ops(b, &[codes::OpSwap, codes::OpSubstr]);
    });
    assert_eq!(ctx.builder.drain(), expected);
}

#[test]
fn a_full_script_is_refused_by_the_builder() {
    let structs = no_structs();
    let mut ctx = context(&["x"], &[], &structs, None);
    while ctx.builder.add_op(codes::OpNop).is_ok() {}
    assert!(matches!(
        compile_statement(&mut ctx, &Statement::Require { expr: id("x") }),
        Err(CompilerError::ScriptRejected)
    ));
}

fn state_fields() -> Vec<ContractFieldAst> {
    vec![
        ContractFieldAst { name: "flag".to_string(), type_ref: scalar_type(TypeBase::Byte) },
        ContractFieldAst { name: "owner".to_string(), type_ref: byte_array_type(ArrayDim::Fixed(32)) },
    ]
}

fn binding(field: &str, name: &str, type_ref: TypeRef) -> StructBindingAst {
    StructBindingAst { field_name: field.to_string(), name: name.to_string(), type_ref }
}

fn plain_read(bindings: Vec<StructBindingAst>, args: Vec<Expr>) -> Statement {
    Statement::StateFunctionCallAssign {
        target_struct: "State".to_string(),
        bindings,
        name: "readInputState".to_string(),
        args,
    }
}

#[test]
fn a_plain_state_read_binds_the_base_then_guards_then_reads_each_field() {
    let fields = state_fields();
    let structs = no_structs();
    let mut ctx = context(&[], &fields, &structs, Some(120));
    let stmt = plain_read(
        vec![
            binding("flag", "f", scalar_type(TypeBase::Byte)),
            binding("owner", "o", byte_array_type(ArrayDim::Fixed(32))),
        ],
        vec![Expr::Int(0)],
    );
    let added = compile_statement(&mut ctx, &stmt).unwrap();
    assert_eq!(added, vec!["__input_state_base_0", "f", "o"]);
    assert_eq!(ctx.stack_bindings.binding_order(), vec!["o", "f", "__input_state_base_0"]);
    let expected = engine(|b| {
        // the sigscript base: input_sigscript_len(0) - 120
        b.add_i64(0).unwrap();
        ops(b, &[codes::OpTxInputScriptSigLen]);
        b.add_i64(120).unwrap();
        ops(b, &[codes::OpSub]);
        // the window's P2SH is the input's scriptPubKey
        b.add_i64(0).unwrap();
        ops(b, &[codes::OpTxInputSpk]);
        b.add_i64(0).unwrap();
        b.add_i64(2).unwrap();
        ops(b, &[codes::OpPick]);
        b.add_i64(0).unwrap();
        ops(b, &[codes::OpTxInputScriptSigLen, codes::OpTxInputScriptSigSubstr, codes::OpBlake2b]);
        b.add_data(&[0x00, 0x00]).unwrap();
        b.add_data(&[codes::OpBlake2b]).unwrap();
        ops(b, &[codes::OpCat]);
        b.add_data(&[0x20]).unwrap();
        ops(b, &[codes::OpCat, codes::OpSwap, codes::OpCat]);
        b.add_data(&[codes::OpEqual]).unwrap();
        ops(b, &[codes::OpCat, codes::OpEqualVerify]);
        // the framing guard over the region [base + 65, base + 100)
        b.add_i64(0).unwrap();
        b.add_i64(1).unwrap();
        ops(b, &[codes::OpPick]);
        b.add_i64(65).unwrap();
        ops(b, &[codes::OpAdd, codes::OpDup]);
        b.add_i64(35).unwrap();
        ops(b, &[codes::OpAdd, codes::OpTxInputScriptSigSubstr, codes::OpDup]);
        b.add_i64(0).unwrap();
        b.add_i64(1).unwrap();
        ops(b, &[codes::OpSubstr]);
        b.add_data(&[0x01]).unwrap();
        ops(b, &[codes::OpEqualVerify, codes::OpDup]);
        b.add_i64(2).unwrap();
        b.add_i64(3).unwrap();
        ops(b, &[codes::OpSubstr]);
        b.add_data(&[0x20]).unwrap();
        ops(b, &[codes::OpEqualVerify, codes::OpDrop]);
        // flag: sigscript[base + 66 .. base + 66 + 1]
        b.add_i64(0).unwrap();
        b.add_i64(1).unwrap();
        ops(b, &[codes::OpPick]);
        b.add_i64(65).unwrap();
        b.add_i64(1).unwrap();
        ops(b, &[codes::OpAdd, codes::OpAdd]);
        b.add_i64(2).unwrap();
        ops(b, &[codes::OpPick]);
        b.add_i64(65).unwrap();
        b.add_i64(1).unwrap();
        ops(b, &[codes::OpAdd, codes::OpAdd]);
        b.add_i64(1).unwrap();
        ops(b, &[codes::OpAdd, codes::OpTxInputScriptSigSubstr]);
        // owner: sigscript[base + 68 .. base + 68 + 32]
        b.add_i64(0).unwrap();
        b.add_i64(2).unwrap();
        ops(b, &[codes::OpPick]);
        b.add_i64(65).unwrap();
        b.add_i64(3).unwrap();
        ops(b, &[codes::OpAdd, codes::OpAdd]);
        b.add_i64(3).unwrap();
        ops(b, &[codes::OpPick]);
        b.add_i64(65).unwrap();
        b.add_i64(3).unwrap();
        ops(b, &[codes::OpAdd, codes::OpAdd]);
        b.add_i64(32).unwrap();
        ops(b, &[codes::OpAdd, codes::OpTxInputScriptSigSubstr]);
    });
    assert_eq!(ctx.builder.drain(), expected);
}

#[test]
fn plain_state_read_errors() {
    let fields = state_fields();
    let structs = no_structs();
    let good = || {
        vec![
            binding("flag", "f", scalar_type(TypeBase::Byte)),
            binding("owner", "o", byte_array_type(ArrayDim::Fixed(32))),
        ]
    };
    let mut ctx = context(&[], &fields, &structs, Some(120));
    assert!(matches!(
        compile_statement(&mut ctx, &plain_read(good(), vec![])),
        Err(CompilerError::ArgumentCount(StateBuiltin::ReadInputState))
    ));
    assert!(matches!(
        compile_statement(&mut ctx, &plain_read(good()[..1].iter().map(|b| binding(&b.field_name, &b.name, scalar_type(TypeBase::Byte))).collect(), vec![Expr::Int(0)])),
        Err(CompilerError::IncompleteBindings(StateBuiltin::ReadInputState))
    ));
    assert!(matches!(
        compile_statement(
            &mut ctx,
            &plain_read(
                vec![binding("flag", "f", scalar_type(TypeBase::Byte)), binding("flag", "g", scalar_type(TypeBase::Byte))],
                vec![Expr::Int(0)]
            )
        ),
        Err(CompilerError::DuplicateStateField(n)) if n == "flag"
    ));
    assert!(matches!(
        compile_statement(
            &mut ctx,
            &plain_read(
                vec![binding("flag", "f", int_type()), binding("owner", "o", byte_array_type(ArrayDim::Fixed(32)))],
                vec![Expr::Int(0)]
            )
        ),
        Err(CompilerError::BindingType(n)) if n == "f"
    ));
    assert!(matches!(
        compile_statement(
            &mut ctx,
            &Statement::StateFunctionCallAssign {
                target_struct: "State".to_string(),
                bindings: good(),
                name: "readSomethingElse".to_string(),
                args: vec![Expr::Int(0)],
            }
        ),
        Err(CompilerError::UnsupportedStateAssignment(n)) if n == "readSomethingElse"
    ));
    let mut unsized_ctx = context(&[], &fields, &structs, None);
    assert!(matches!(
        compile_statement(&mut unsized_ctx, &plain_read(good(), vec![Expr::Int(0)])),
        Err(CompilerError::MissingBytecodeSize(StateBuiltin::ReadInputState))
    ));
    let mut stateless_ctx = context(&[], &[], &structs, Some(120));
    assert!(matches!(
        compile_statement(&mut stateless_ctx, &plain_read(vec![], vec![Expr::Int(0)])),
        Err(CompilerError::MissingContractFields(StateBuiltin::ReadInputState))
    ));
}

#[test]
fn templated_state_read_errors() {
    let structs = StructRegistry {
        structs: vec![(
            "Foreign".to_string(),
            StructSpec { fields: vec![StructFieldSpec { name: "amount".to_string(), type_ref: int_type() }] },
        )],
    };
    let mut ctx = context(&[], &[], &structs, Some(120));
    let read = |target: &str, bindings: Vec<StructBindingAst>, args: Vec<Expr>| Statement::StateFunctionCallAssign {
        target_struct: target.to_string(),
        bindings,
        name: "readInputStateWithTemplate".to_string(),
        args,
    };
    let four = || vec![Expr::Int(0), Expr::Int(10), Expr::Int(5), Expr::Bytes(vec![0; 32])];
    assert!(matches!(
        compile_statement(&mut ctx, &read("Foreign", vec![binding("amount", "a", int_type())], vec![Expr::Int(0)])),
        Err(CompilerError::ArgumentCount(StateBuiltin::ReadInputStateWithTemplate))
    ));
    assert!(matches!(
        compile_statement(&mut ctx, &read("Missing", vec![binding("amount", "a", int_type())], four())),
        Err(CompilerError::UnknownStruct(n)) if n == "Missing"
    ));
    assert!(matches!(
        compile_statement(&mut ctx, &read("Foreign", vec![], four())),
        Err(CompilerError::IncompleteBindings(StateBuiltin::ReadInputStateWithTemplate))
    ));
    let added = compile_statement(&mut ctx, &read("Foreign", vec![binding("amount", "a", int_type())], four())).unwrap();
    assert_eq!(added, vec!["__input_state_base_0", "a"]);
}

#[test]
fn validate_output_state_rebuilds_the_script_with_the_new_state() {
    let fields = vec![ContractFieldAst { name: "count".to_string(), type_ref: int_type() }];
    let mut builder = ScriptBuilder::new();
    compile_validate_output_state_inner_statement(
        &[Expr::Int(0), Expr::Int(7)],
        &StackBindings::new(),
        &TypeMap::new(),
        &mut builder,
        &fields,
        20,
        Some(50),
    )
    .unwrap();
    let expected = engine(|b| {
        b.add_data(&[0x08]).unwrap();
        b.add_i64(7).unwrap();
        b.add_i64(8).unwrap();
        ops(b, &[codes::OpNum2Bin, codes::OpCat]);
        ops(b, &[codes::OpTxInputIndex, codes::OpDup, codes::OpTxInputScriptSigLen]);
        b.add_i64(50).unwrap();
        ops(b, &[codes::OpSub, codes::OpDup]);
        b.add_i64(11).unwrap();
        ops(b, &[codes::OpAdd, codes::OpTxInputScriptSigSubstr, codes::OpSwap, codes::OpCat]);
        ops(b, &[codes::OpTxInputIndex, codes::OpDup, codes::OpTxInputScriptSigLen, codes::OpDup]);
        b.add_i64(-30).unwrap();
        ops(b, &[codes::OpAdd, codes::OpSwap, codes::OpTxInputScriptSigSubstr, codes::OpCat, codes::OpBlake2b]);
        b.add_data(&[0x00, 0x00]).unwrap();
        b.add_data(&[codes::OpBlake2b]).unwrap();
        ops(b, &[codes::OpCat]);
        b.add_data(&[0x20]).unwrap();
        ops(b, &[codes::OpCat, codes::OpSwap, codes::OpCat]);
        b.add_data(&[codes::OpEqual]).unwrap();
        ops(b, &[codes::OpCat]);
        b.add_i64(0).unwrap();
        ops(b, &[codes::OpTxOutputSpk, codes::OpEqualVerify]);
    });
    assert_eq!(builder.drain(), expected);
}

#[test]
fn validate_output_state_errors() {
    let fields = vec![ContractFieldAst { name: "count".to_string(), type_ref: int_type() }];
    let mut builder = ScriptBuilder::new();
    assert!(matches!(
        compile_validate_output_state_inner_statement(
            &[Expr::Int(0)],
            &StackBindings::new(),
            &TypeMap::new(),
            &mut builder,
            &fields,
            20,
            Some(50),
        ),
        Err(CompilerError::ArgumentCount(StateBuiltin::ValidateOutputState))
    ));
    assert!(matches!(
        compile_validate_output_state_inner_statement(
            &[Expr::Int(0)],
            &StackBindings::new(),
            &TypeMap::new(),
            &mut builder,
            &[],
            20,
            Some(50),
        ),
        Err(CompilerError::MissingContractFields(StateBuiltin::ValidateOutputState))
    ));
    assert_eq!(builder.script().len(), 0);
    assert!(matches!(
        compile_validate_output_state_with_template_inner_statement(
            &[Expr::Int(0), Expr::Int(1), Expr::Int(2), Expr::Int(3)],
            &StackBindings::new(),
            &TypeMap::new(),
            &mut builder,
            Some(50),
        ),
        Err(CompilerError::ArgumentCount(StateBuiltin::ValidateOutputStateWithTemplate))
    ));
}

#[test]
fn the_lowered_validate_call_runs_through_the_statement_compiler() {
    let fields = vec![ContractFieldAst { name: "count".to_string(), type_ref: int_type() }];
    let structs = no_structs();
    let mut ctx = context(&[], &fields, &structs, Some(50));
    ctx.state_end = 20;
    let added = compile_function_call_statement(&mut ctx, VALIDATE_OUTPUT_STATE_INNER, &[Expr::Int(0), Expr::Int(7)])
        .unwrap();
    assert!(added.is_empty());
    let mut direct = ScriptBuilder::new();
    compile_validate_output_state_inner_statement(
        &[Expr::Int(0), Expr::Int(7)],
        &StackBindings::new(),
        &TypeMap::new(),
        &mut direct,
        &fields,
        20,
        Some(50),
    )
    .unwrap();
    assert_eq!(ctx.builder.drain(), direct.drain());
}

#[test]
fn an_early_fault_leaves_the_context_as_it_was() {
    let structs = no_structs();
    let mut ctx = context(&["x"], &[], &structs, None);
    let redefine = Statement::VariableDefinition { type_ref: scalar_type(TypeBase::Bool), name: "x".to_string(), expr: Some(Expr::Int(1)) };
    assert!(matches!(compile_statement(&mut ctx, &redefine), Err(CompilerError::AlreadyDefined(n)) if n == "x"));
    assert!(same_type(ctx.types.get("x").unwrap(), &int_type()));
    assert_eq!(ctx.stack_bindings.binding_order(), vec!["x"]);
    assert_eq!(ctx.builder.script().len(), 0);
}

fn one_builtin(name: &str, op: u8, returns_value: bool) -> BuiltinRegistry {
    BuiltinRegistry { builtins: vec![(name.to_string(), BuiltinSpec { ops: vec![op], returns_value })] }
}

#[test]
fn a_value_builtin_call_evaluates_its_arguments_and_drops_its_value() {
    let structs = no_structs();
    let registry = one_builtin("checkSig", codes::OpCheckSig, true);
    let mut ctx = context(&["s", "k"], &[], &structs, None);
    ctx.builtins = &registry;
    let call = Statement::FunctionCall { name: "checkSig".to_string(), args: vec![id("s"), id("k")] };
    let added = compile_statement(&mut ctx, &call).unwrap();
    assert!(added.is_empty());
    assert_eq!(ctx.stack_bindings.binding_order(), vec!["s", "k"]);
    let expected = engine(|b| {
        ops(b, &[codes::OpDup]);
        b.add_i64(2).unwrap();
        ops(b, &[codes::OpPick, codes::OpCheckSig, codes::OpDrop]);
    });
    assert_eq!(ctx.builder.drain(), expected);
}

#[test]
fn a_void_builtin_call_leaves_nothing_to_drop() {
    let structs = no_structs();
    let registry = one_builtin("verifyTrue", codes::OpVerify, false);
    let mut ctx = context(&["x"], &[], &structs, None);
    ctx.builtins = &registry;
    let added = compile_function_call_statement(&mut ctx, "verifyTrue", &[id("x")]).unwrap();
    assert!(added.is_empty());
    let expected = engine(|b| ops(b, &[codes::OpDup, codes::OpVerify]));
    assert_eq!(ctx.builder.drain(), expected);
}

#[test]
fn the_void_builtin_compiler_refuses_a_value_builtin_and_an_unknown_name() {
    let structs = no_structs();
    let registry = one_builtin("checkSig", codes::OpCheckSig, true);
    let mut ctx = context(&["x"], &[], &structs, None);
    ctx.builtins = &registry;
    assert!(matches!(
        ctx.compile_void_builtin_call("checkSig", &[id("x")]),
        Err(CompilerError::UnloweredCall(n)) if n == "checkSig"
    ));
    assert!(matches!(
        ctx.compile_void_builtin_call("nothing", &[]),
        Err(CompilerError::UnloweredCall(n)) if n == "nothing"
    ));
    assert!(ctx.builder.drain().is_empty());
}

#[test]
fn a_builtin_call_with_an_unbound_argument_reports_it() {
    let structs = no_structs();
    let registry = one_builtin("verifyTrue", codes::OpVerify, false);
    let mut ctx = context(&["x"], &[], &structs, None);
    ctx.builtins = &registry;
    let call = Statement::FunctionCall { name: "verifyTrue".to_string(), args: vec![id("missing")] };
    assert!(compile_statement(&mut ctx, &call).is_err());
}

#[test]
fn a_statement_is_recorded_where_its_code_begins_and_ends() {
    let structs = no_structs();
    let mut ctx = context(&["x"], &[], &structs, None);
    compile_statement(&mut ctx, &Statement::Require { expr: id("x") }).unwrap();
    let len = ctx.builder.script().len();
    assert_eq!(len, 2);
    assert_eq!(
        ctx.recorder.events,
        vec![
            DebugEvent::StatementBegin { offset: 0, bindings: vec!["x".to_string()] },
            DebugEvent::StatementEnd { offset: 2, bindings: vec!["x".to_string()] },
        ]
    );
}

#[test]
fn a_failed_statement_is_recorded_as_begun_only() {
    let structs = no_structs();
    let mut ctx = context(&["x"], &[], &structs, None);
    assert!(compile_statement(&mut ctx, &Statement::Require { expr: id("missing") }).is_err());
    assert_eq!(ctx.recorder.events, vec![DebugEvent::StatementBegin { offset: 0, bindings: vec!["x".to_string()] }]);
}

#[test]
fn an_if_records_its_branches_and_the_statements_inside() {
    let structs = no_structs();
    let mut ctx = context(&["x"], &[], &structs, None);
    let stmt = Statement::If {
        condition: id("x"),
        then_branch: vec![Statement::Require { expr: id("x") }],
        else_branch: None,
    };
    compile_statement(&mut ctx, &stmt).unwrap();
    let x = || vec!["x".to_string()];
    assert_eq!(
        ctx.recorder.events,
        vec![
            DebugEvent::StatementBegin { offset: 0, bindings: x() },
            DebugEvent::SourceStep { offset: 2, bindings: x() },
            DebugEvent::StatementBegin { offset: 2, bindings: x() },
            DebugEvent::StatementEnd { offset: 4, bindings: x() },
            DebugEvent::StatementEnd { offset: 5, bindings: x() },
        ]
    );
}

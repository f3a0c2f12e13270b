use silverscript_state::stack::StackBindings;

#[test]
fn entrypoint_stack_setup_places_contract_fields_above_params_in_depth_order() {
    let param_names = ["param_a", "param_b"];
    let param_count = param_names.len();
    let mut stack_bindings = StackBindings::from_depths(
        param_names
            .iter()
            .enumerate()
            .map(|(index, name)| (name.to_string(), (param_count - 1 - index) as i64))
            .collect::<Vec<_>>(),
    );
    let contract_fields = ["field_a", "field_b"];

    for field in contract_fields {
        stack_bindings.push_binding(field);
    }

    assert_eq!(
        stack_bindings.binding_order(),
        ["field_b", "field_a", "param_b", "param_a"].into_iter().map(str::to_string).collect::<Vec<_>>()
    );
}

use kaspa_txscript::opcodes::codes;
use kaspa_txscript::script_builder::ScriptBuilder;

use silverscript_state::ast::{BuiltinRegistry, ConstantAst, FunctionAst, ParamAst, Statement, StructRegistry};
use silverscript_state::recorder::{DebugEvent, DebugRecorder};
use silverscript_state::entrypoint::compile_entrypoint_function;
use silverscript_state::error::CompilerError;
use silverscript_state::expr::{binary_expr, BinaryOp, Expr};
use silverscript_state::layout::ContractFieldAst;
use silverscript_state::types::{byte_array_type, scalar_type, ArrayDim, TypeBase, TypeRef};

fn engine(build: impl FnOnce(&mut ScriptBuilder)) -> Vec<u8> {
    let mut builder = ScriptBuilder::new();
    build(&mut builder);
    builder.drain()
}

fn ops(b: &mut ScriptBuilder, list: &[u8]) {
    for op in list {
        b.add_op(*op).unwrap();
    }
}

fn param(name: &str, type_ref: TypeRef) -> ParamAst {
    ParamAst { name: name.to_string(), type_ref }
}

fn compile(
    params: Vec<ParamAst>,
    body: Vec<Statement>,
    return_types: Vec<TypeRef>,
    fields: &[ContractFieldAst],
) -> Result<(String, Vec<u8>), CompilerError> {
    let function = FunctionAst { name: "spend".to_string(), params, body, return_types };
    let constants: Vec<ConstantAst> = vec![];
    compile_entrypoint_function(&function, &[], fields, &constants, 100, &StructRegistry { structs: vec![] }, &BuiltinRegistry { builtins: vec![] }, None, &[], &mut DebugRecorder::new())
}

#[test]
fn an_entrypoint_checks_its_parameters_runs_its_body_and_leaves_true() {
    let x = Expr::identifier("x");
    let (name, script) = compile(
        vec![param("x", scalar_type(TypeBase::Int))],
        vec![Statement::Require { expr: binary_expr(BinaryOp::NumEqual, x, Expr::Int(1)) }],
        vec![],
        &[],
    )
    .unwrap();
    assert_eq!(name, "spend");
    let expected = engine(|b| {
        ops(b, &[codes::OpDup, codes::OpSize]);
        b.add_i64(9).unwrap();
        ops(b, &[codes::OpLessThan, codes::OpVerify, codes::OpDrop, codes::OpDup]);
        b.add_i64(1).unwrap();
        ops(b, &[codes::OpNumEqual, codes::OpVerify, codes::OpDrop, codes::OpTrue]);
    });
    assert_eq!(script, expected);
}

#[test]
fn contract_fields_sit_above_the_parameters() {
    let fields = vec![ContractFieldAst { name: "count".to_string(), type_ref: scalar_type(TypeBase::Int) }];
    let (_, script) = compile(
        vec![param("x", scalar_type(TypeBase::Bool))],
        vec![Statement::Require {
            expr: binary_expr(BinaryOp::NumEqual, Expr::identifier("count"), Expr::identifier("x")),
        }],
        vec![],
        &fields,
    )
    .unwrap();
    let expected = engine(|b| {
        b.add_i64(1).unwrap();
        ops(b, &[codes::OpPick, codes::OpSize]);
        b.add_i64(2).unwrap();
        ops(b, &[codes::OpLessThan, codes::OpVerify, codes::OpDrop, codes::OpDup]);
        b.add_i64(2).unwrap();
        ops(b, &[codes::OpPick, codes::OpNumEqual, codes::OpVerify, codes::OpDrop, codes::OpDrop, codes::OpTrue]);
    });
    assert_eq!(script, expected);
}

#[test]
fn returned_values_stay_on_the_stack_under_no_bindings() {
    let (_, script) = compile(
        vec![param("x", scalar_type(TypeBase::Int))],
        vec![Statement::Return { exprs: vec![binary_expr(BinaryOp::Add, Expr::identifier("x"), Expr::Int(1))] }],
        vec![scalar_type(TypeBase::Int)],
        &[],
    )
    .unwrap();
    let expected = engine(|b| {
        ops(b, &[codes::OpDup, codes::OpSize]);
        b.add_i64(9).unwrap();
        ops(b, &[codes::OpLessThan, codes::OpVerify, codes::OpDrop, codes::OpDup]);
        b.add_i64(1).unwrap();
        ops(b, &[codes::OpAdd]);
        b.add_i64(1).unwrap();
        ops(b, &[codes::OpRoll, codes::OpDrop]);
    });
    assert_eq!(script, expected);
}

#[test]
fn array_parameters_get_exact_or_element_multiple_size_checks() {
    let (_, script) = compile(
        vec![
            param("key", byte_array_type(ArrayDim::Fixed(32))),
            param("items", TypeRef { base: TypeBase::Int, array_dims: vec![ArrayDim::Dynamic] }),
            param("label", scalar_type(TypeBase::String)),
        ],
        vec![],
        vec![],
        &[],
    )
    .unwrap();
    let expected = engine(|b| {
        b.add_i64(2).unwrap();
        ops(b, &[codes::OpPick, codes::OpSize]);
        b.add_i64(32).unwrap();
        ops(b, &[codes::OpNumEqualVerify, codes::OpDrop]);
        b.add_i64(1).unwrap();
        ops(b, &[codes::OpPick, codes::OpSize]);
        b.add_i64(8).unwrap();
        ops(b, &[codes::OpMod]);
        b.add_i64(0).unwrap();
        ops(b, &[codes::OpNumEqualVerify, codes::OpDrop, codes::OpDrop, codes::OpDrop, codes::OpDrop, codes::OpTrue]);
    });
    assert_eq!(script, expected);
}

#[test]
fn a_parameter_too_large_for_a_script_number_is_refused() {
    let r = compile(vec![param("huge", byte_array_type(ArrayDim::Fixed(usize::MAX)))], vec![], vec![], &[]);
    assert!(matches!(r, Err(CompilerError::ParameterTooLarge(n)) if n == "huge"));
}

#[test]
fn an_error_in_the_body_stops_the_entrypoint() {
    let r = compile(
        vec![param("x", scalar_type(TypeBase::Int))],
        vec![Statement::Require { expr: Expr::identifier("y") }],
        vec![],
        &[],
    );
    assert!(matches!(r, Err(CompilerError::UndefinedIdentifier(n)) if n == "y"));
}

#[test]
fn struct_array_leaves_must_hold_the_same_number_of_elements() {
    let function = FunctionAst {
        name: "batch".to_string(),
        params: vec![
            param("xs", TypeRef { base: TypeBase::Int, array_dims: vec![ArrayDim::Dynamic] }),
            param("ys", TypeRef { base: TypeBase::Byte, array_dims: vec![ArrayDim::Dynamic] }),
        ],
        body: vec![],
        return_types: vec![],
    };
    let groups = vec![vec!["xs".to_string(), "ys".to_string()]];
    let (_, script) =
        compile_entrypoint_function(&function, &[], &[], &[], 0, &StructRegistry { structs: vec![] }, &BuiltinRegistry { builtins: vec![] }, None, &groups, &mut DebugRecorder::new())
            .unwrap();
    let expected = engine(|b| {
        b.add_i64(1).unwrap();
        ops(b, &[codes::OpPick, codes::OpSize, codes::OpDup]);
        b.add_i64(8).unwrap();
        ops(b, &[codes::OpMod]);
        b.add_i64(0).unwrap();
        ops(b, &[codes::OpNumEqualVerify, codes::OpSwap, codes::OpDrop]);
        b.add_i64(8).unwrap();
        ops(b, &[codes::OpDiv, codes::OpDup]);
        b.add_i64(2).unwrap();
        ops(b, &[codes::OpPick, codes::OpSize, codes::OpDup]);
        b.add_i64(1).unwrap();
        ops(b, &[codes::OpMod]);
        b.add_i64(0).unwrap();
        ops(b, &[codes::OpNumEqualVerify, codes::OpSwap, codes::OpDrop, codes::OpNumEqualVerify, codes::OpDrop]);
        ops(b, &[codes::OpDrop, codes::OpDrop, codes::OpTrue]);
    });
    assert_eq!(script, expected);
}

#[test]
fn an_entrypoint_is_recorded_from_its_name_to_its_script_length() {
    let function = FunctionAst {
        name: "spend".to_string(),
        params: vec![param("x", scalar_type(TypeBase::Int))],
        body: vec![Statement::Require { expr: binary_expr(BinaryOp::NumEqual, Expr::identifier("x"), Expr::Int(1)) }],
        return_types: vec![],
    };
    let mut recorder = DebugRecorder::new();
    let (_, script) = compile_entrypoint_function(
        &function,
        &[],
        &[],
        &[],
        100,
        &StructRegistry { structs: vec![] },
        &BuiltinRegistry { builtins: vec![] },
        None,
        &[],
        &mut recorder,
    )
    .unwrap();
    let events = &recorder.events;
    assert_eq!(events.len(), 4);
    assert_eq!(events[0], DebugEvent::EntrypointBegin { name: "spend".to_string() });
    assert!(matches!(&events[1], DebugEvent::StatementBegin { bindings, .. } if *bindings == vec!["x".to_string()]));
    assert!(matches!(&events[2], DebugEvent::StatementEnd { .. }));
    assert_eq!(events[3], DebugEvent::EntrypointEnd { len: script.len() });
}

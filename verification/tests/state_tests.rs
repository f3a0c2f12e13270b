use kaspa_txscript::opcodes::codes;
use kaspa_txscript::script_builder::ScriptBuilder;

use silverscript_state::error::{CompilerError, StateBuiltin};
use silverscript_state::expr::{binary_expr, BinaryOp, Expr};
use silverscript_state::output::{
    compile_encoded_flat_state_fields, compile_encoded_state_fields, compile_encoded_state_object, StateFieldExpr,
};
use silverscript_state::stack::StackBindings;
use silverscript_state::state::{
    cast_read_input_state_expr, compile_input_script_binding, compile_state_framing_guard, eight_byte_expr,
    input_script_pubkey_expr, input_sigscript_base_expr, input_sigscript_len_expr, read_input_state_field_expr,
    templated_input_bytecode_size_expr,
};
use silverscript_state::type_map::TypeMap;
use silverscript_state::types::{byte_array_type, scalar_type, ArrayDim, TypeBase};

const BASE: &str = "__input_state_base_0";

fn engine(build: impl FnOnce(&mut ScriptBuilder)) -> Vec<u8> {
    let mut builder = ScriptBuilder::new();
    build(&mut builder);
    builder.drain()
}

fn base_only() -> StackBindings {
    let mut stack = StackBindings::new();
    stack.push_binding(BASE);
    stack
}

fn ops(b: &mut ScriptBuilder, list: &[u8]) {
    for op in list {
        b.add_op(*op).unwrap();
    }
}

#[test]
fn framing_guard_checks_each_field_header_at_its_chunk_start() {
    let layout = vec![scalar_type(TypeBase::Byte), byte_array_type(ArrayDim::Fixed(32))];
    let mut builder = ScriptBuilder::new();
    compile_state_framing_guard(
        &Expr::Int(0),
        &Expr::Int(65),
        &layout,
        &Expr::identifier(BASE),
        &base_only(),
        &TypeMap::new(),
        &mut builder,
        Some(100),
    )
    .unwrap();
    let expected = engine(|b| {
        b.add_i64(0).unwrap();
        b.add_i64(1).unwrap();
        ops(b, &[codes::OpPick]);
        b.add_i64(65).unwrap();
        ops(b, &[codes::OpAdd, codes::OpDup]);
        b.add_i64(35).unwrap();
        ops(b, &[codes::OpAdd, codes::OpTxInputScriptSigSubstr]);
        // field 0: one payload byte, header `01` at offset 0
        ops(b, &[codes::OpDup]);
        b.add_i64(0).unwrap();
        b.add_i64(1).unwrap();
        ops(b, &[codes::OpSubstr]);
        b.add_data(&[0x01]).unwrap();
        ops(b, &[codes::OpEqualVerify]);
        // field 1: 32 payload bytes, header `20` at offset 2
        ops(b, &[codes::OpDup]);
        b.add_i64(2).unwrap();
        b.add_i64(3).unwrap();
        ops(b, &[codes::OpSubstr]);
        b.add_data(&[0x20]).unwrap();
        ops(b, &[codes::OpEqualVerify, codes::OpDrop]);
    });
    assert_eq!(builder.drain(), expected);
}

#[test]
fn framing_guard_pins_a_wide_header() {
    let layout = vec![byte_array_type(ArrayDim::Fixed(80))];
    let mut builder = ScriptBuilder::new();
    compile_state_framing_guard(
        &Expr::Int(1),
        &Expr::Int(10),
        &layout,
        &Expr::identifier(BASE),
        &base_only(),
        &TypeMap::new(),
        &mut builder,
        Some(200),
    )
    .unwrap();
    let expected = engine(|b| {
        b.add_i64(1).unwrap();
        b.add_i64(1).unwrap();
        ops(b, &[codes::OpPick]);
        b.add_i64(10).unwrap();
        ops(b, &[codes::OpAdd, codes::OpDup]);
        b.add_i64(82).unwrap();
        ops(b, &[codes::OpAdd, codes::OpTxInputScriptSigSubstr, codes::OpDup]);
        b.add_i64(0).unwrap();
        b.add_i64(2).unwrap();
        ops(b, &[codes::OpSubstr]);
        b.add_data(&[0x4c, 0x50]).unwrap();
        ops(b, &[codes::OpEqualVerify, codes::OpDrop]);
    });
    assert_eq!(builder.drain(), expected);
}

#[test]
fn framing_guard_refuses_a_layout_without_fixed_sizes_and_emits_nothing() {
    let layout = vec![scalar_type(TypeBase::String)];
    let mut builder = ScriptBuilder::new();
    let r = compile_state_framing_guard(
        &Expr::Int(0),
        &Expr::Int(0),
        &layout,
        &Expr::identifier(BASE),
        &base_only(),
        &TypeMap::new(),
        &mut builder,
        Some(10),
    );
    assert!(matches!(r, Err(CompilerError::UnsupportedFieldType(StateBuiltin::ReadInputState))));
    assert_eq!(builder.script().len(), 0);
}

#[test]
fn framing_guard_reports_an_unbound_base() {
    let layout = vec![scalar_type(TypeBase::Int)];
    let mut builder = ScriptBuilder::new();
    let r = compile_state_framing_guard(
        &Expr::Int(0),
        &Expr::Int(0),
        &layout,
        &Expr::identifier("nowhere"),
        &StackBindings::new(),
        &TypeMap::new(),
        &mut builder,
        Some(10),
    );
    assert!(matches!(r, Err(CompilerError::UndefinedIdentifier(name)) if name == "nowhere"));
}

#[test]
fn input_binding_requires_the_scriptpubkey_to_be_the_p2sh_of_the_window() {
    let mut builder = ScriptBuilder::new();
    compile_input_script_binding(&Expr::Int(0), &Expr::identifier(BASE), &base_only(), &TypeMap::new(), &mut builder, Some(50))
        .unwrap();
    let expected = engine(|b| {
        b.add_i64(0).unwrap();
        ops(b, &[codes::OpTxInputSpk]);
        b.add_i64(0).unwrap();
        b.add_i64(2).unwrap();
        ops(b, &[codes::OpPick]);
        b.add_i64(0).unwrap();
        ops(b, &[codes::OpTxInputScriptSigLen, codes::OpTxInputScriptSigSubstr, codes::OpBlake2b]);
        b.add_data(&[0x00, 0x00]).unwrap();
        b.add_data(&[codes::OpBlake2b]).unwrap();
        ops(b, &[codes::OpCat]);
        b.add_data(&[0x20]).unwrap();
        ops(b, &[codes::OpCat, codes::OpSwap, codes::OpCat]);
        b.add_data(&[codes::OpEqual]).unwrap();
        ops(b, &[codes::OpCat, codes::OpEqualVerify]);
    });
    assert_eq!(builder.drain(), expected);
}

#[test]
fn field_read_takes_the_payload_after_the_header() {
    let read = read_input_state_field_expr(
        &Expr::Int(0),
        &scalar_type(TypeBase::Int),
        Expr::Int(65),
        2,
        Expr::identifier(BASE),
        StateBuiltin::ReadInputState,
    )
    .unwrap();
    let start = binary_expr(
        BinaryOp::Add,
        Expr::identifier(BASE),
        binary_expr(BinaryOp::Add, Expr::Int(65), Expr::Int(3)),
    );
    let end = binary_expr(BinaryOp::Add, start.clone(), Expr::Int(8));
    let expected = Expr::Cast(
        scalar_type(TypeBase::Int),
        Box::new(Expr::InputScriptSigSubstr(Box::new(Expr::Int(0)), Box::new(start), Box::new(end))),
    );
    assert_eq!(format!("{:?}", read), format!("{:?}", expected));
}

#[test]
fn field_read_errors() {
    assert!(matches!(
        read_input_state_field_expr(
            &Expr::Int(0),
            &scalar_type(TypeBase::String),
            Expr::Int(0),
            0,
            Expr::identifier(BASE),
            StateBuiltin::ReadInputStateWithTemplate,
        ),
        Err(CompilerError::UnsupportedFieldType(StateBuiltin::ReadInputStateWithTemplate))
    ));
    assert!(matches!(
        read_input_state_field_expr(
            &Expr::Int(0),
            &scalar_type(TypeBase::Int),
            Expr::Int(0),
            usize::MAX,
            Expr::identifier(BASE),
            StateBuiltin::ReadInputState,
        ),
        Err(CompilerError::ArithmeticOverflow)
    ));
    assert!(matches!(
        cast_read_input_state_expr(Expr::Int(0), &scalar_type(TypeBase::Custom("S".to_string()))),
        Err(CompilerError::UnsupportedFieldType(StateBuiltin::ReadInputState))
    ));
}

#[test]
fn sigscript_expressions() {
    let idx = Expr::Int(2);
    assert_eq!(
        format!("{:?}", input_sigscript_len_expr(&idx)),
        format!("{:?}", Expr::InputScriptSigLen(Box::new(Expr::Int(2))))
    );
    assert_eq!(
        format!("{:?}", input_sigscript_base_expr(&idx, Expr::Int(40))),
        format!(
            "{:?}",
            binary_expr(BinaryOp::Sub, Expr::InputScriptSigLen(Box::new(Expr::Int(2))), Expr::Int(40))
        )
    );
    assert_eq!(
        format!("{:?}", input_script_pubkey_expr(&idx)),
        format!("{:?}", Expr::InputScriptPubKey(Box::new(Expr::Int(2))))
    );
    assert_eq!(
        format!(
            "{:?}",
            templated_input_bytecode_size_expr(
                &Expr::Int(7),
                &Expr::Int(9),
                &[scalar_type(TypeBase::Byte), byte_array_type(ArrayDim::Fixed(32))]
            )
            .unwrap()
        ),
        format!(
            "{:?}",
            binary_expr(BinaryOp::Add, binary_expr(BinaryOp::Add, Expr::Int(7), Expr::Int(35)), Expr::Int(9))
        )
    );
    assert!(matches!(
        templated_input_bytecode_size_expr(&Expr::Int(7), &Expr::Int(9), &[scalar_type(TypeBase::String)]),
        Err(CompilerError::UnsupportedFieldType(StateBuiltin::ReadInputState))
    ));
    assert_eq!(
        format!("{:?}", eight_byte_expr(Expr::Int(4))),
        format!("{:?}", binary_expr(BinaryOp::Num2Bin, Expr::Int(4), Expr::Int(8)))
    );
}

fn encoded_int_then_bool(b: &mut ScriptBuilder) {
    b.add_data(&[0x08]).unwrap();
    b.add_i64(5).unwrap();
    b.add_i64(8).unwrap();
    ops(b, &[codes::OpNum2Bin, codes::OpCat]);
    b.add_data(&[0x01]).unwrap();
    ops(b, &[codes::OpTrue, codes::Op0NotEqual]);
    b.add_i64(1).unwrap();
    ops(b, &[codes::OpNum2Bin, codes::OpCat]);
}

#[test]
fn encoded_state_writes_each_field_as_header_and_fixed_width_payload() {
    let mut builder = ScriptBuilder::new();
    let values = vec![Expr::Int(5), Expr::Bool(true)];
    let left = compile_encoded_state_fields(
        &values,
        &StackBindings::new(),
        &TypeMap::new(),
        &mut builder,
        None,
        StateBuiltin::ValidateOutputState,
    )
    .unwrap();
    assert_eq!(left, 1);
    let expected = engine(|b| {
        encoded_int_then_bool(b);
        ops(b, &[codes::OpCat]);
    });
    assert_eq!(builder.drain(), expected);
}

#[test]
fn encoded_state_of_no_fields_is_empty() {
    let mut builder = ScriptBuilder::new();
    let left = compile_encoded_flat_state_fields(
        &[],
        &StackBindings::new(),
        &TypeMap::new(),
        &mut builder,
        None,
        StateBuiltin::ValidateOutputState,
    )
    .unwrap();
    assert_eq!(left, 0);
    assert_eq!(builder.script().len(), 0);
}

#[test]
fn encoded_state_object_encodes_entries_in_order() {
    let mut builder = ScriptBuilder::new();
    let entries = vec![
        StateFieldExpr { name: "count".to_string(), expr: Expr::Int(5) },
        StateFieldExpr { name: "open".to_string(), expr: Expr::Bool(true) },
    ];
    let left = compile_encoded_state_object(
        &entries,
        &StackBindings::new(),
        &TypeMap::new(),
        &mut builder,
        None,
        StateBuiltin::ValidateOutputStateWithTemplate,
    )
    .unwrap();
    assert_eq!(left, 1);
    let expected = engine(|b| {
        encoded_int_then_bool(b);
        ops(b, &[codes::OpCat]);
    });
    assert_eq!(builder.drain(), expected);
}

#[test]
fn encoded_state_refuses_a_value_without_fixed_width() {
    let mut builder = ScriptBuilder::new();
    let values = vec![binary_expr(BinaryOp::Concat, Expr::Bytes(vec![1]), Expr::Bytes(vec![2]))];
    let r = compile_encoded_state_fields(
        &values,
        &StackBindings::new(),
        &TypeMap::new(),
        &mut builder,
        None,
        StateBuiltin::ValidateOutputState,
    );
    assert!(matches!(r, Err(CompilerError::UnsupportedFieldType(StateBuiltin::ValidateOutputState))));
}

use kaspa_txscript::opcodes::codes;
use kaspa_txscript::script_builder::ScriptBuilder;

use silverscript_state::opcodes::{
    LOCK_TIME_THRESHOLD, OP_0_NOT_EQUAL, OP_ADD, OP_BIN2NUM, OP_BLAKE2B, OP_BLAKE3, OP_CAT, OP_CHECK_LOCK_TIME_VERIFY,
    OP_CHECK_SEQUENCE_VERIFY, OP_DIV, OP_DROP, OP_DUP, OP_ELSE, OP_END_IF, OP_EQUAL, OP_EQUAL_VERIFY, OP_FALSE,
    OP_GREATER_THAN, OP_GREATER_THAN_OR_EQUAL, OP_IF, OP_LESS_THAN, OP_LESS_THAN_OR_EQUAL, OP_MOD, OP_NIP,
    OP_NUM2BIN, OP_NUM_EQUAL, OP_NUM_EQUAL_VERIFY, OP_PICK, OP_ROLL, OP_SIZE, OP_SUB, OP_SUBSTR, OP_SWAP, OP_TRUE,
    OP_TX_INPUT_INDEX, OP_TX_INPUT_SCRIPT_SIG_LEN, OP_TX_INPUT_SCRIPT_SIG_SUBSTR, OP_TX_INPUT_SPK, OP_TX_OUTPUT_SPK,
    OP_VERIFY, OP_WITHIN,
};
use silverscript_state::push::{OP_PUSH_DATA1, OP_PUSH_DATA2, OP_PUSH_DATA4};
use silverscript_state::error::CompilerError;
use silverscript_state::script::{add_data, add_int, add_op, Emit, ScriptEmitter, MAX_SCRIPTS_SIZE, MAX_SCRIPT_ELEMENT_SIZE};

#[test]
fn opcode_values_are_the_script_engine_opcodes() {
    let pairs: [(u8, u8); 42] = [
        (OP_FALSE, codes::OpFalse),
        (OP_TRUE, codes::OpTrue),
        (OP_IF, codes::OpIf),
        (OP_ELSE, codes::OpElse),
        (OP_END_IF, codes::OpEndIf),
        (OP_VERIFY, codes::OpVerify),
        (OP_DROP, codes::OpDrop),
        (OP_DUP, codes::OpDup),
        (OP_NIP, codes::OpNip),
        (OP_PICK, codes::OpPick),
        (OP_ROLL, codes::OpRoll),
        (OP_SWAP, codes::OpSwap),
        (OP_CAT, codes::OpCat),
        (OP_SUBSTR, codes::OpSubstr),
        (OP_SIZE, codes::OpSize),
        (OP_EQUAL, codes::OpEqual),
        (OP_EQUAL_VERIFY, codes::OpEqualVerify),
        (OP_0_NOT_EQUAL, codes::Op0NotEqual),
        (OP_ADD, codes::OpAdd),
        (OP_SUB, codes::OpSub),
        (OP_DIV, codes::OpDiv),
        (OP_MOD, codes::OpMod),
        (OP_NUM_EQUAL, codes::OpNumEqual),
        (OP_NUM_EQUAL_VERIFY, codes::OpNumEqualVerify),
        (OP_LESS_THAN, codes::OpLessThan),
        (OP_GREATER_THAN, codes::OpGreaterThan),
        (OP_LESS_THAN_OR_EQUAL, codes::OpLessThanOrEqual),
        (OP_GREATER_THAN_OR_EQUAL, codes::OpGreaterThanOrEqual),
        (OP_WITHIN, codes::OpWithin),
        (OP_BLAKE2B, codes::OpBlake2b),
        (OP_CHECK_LOCK_TIME_VERIFY, codes::OpCheckLockTimeVerify),
        (OP_CHECK_SEQUENCE_VERIFY, codes::OpCheckSequenceVerify),
        (OP_TX_INPUT_INDEX, codes::OpTxInputIndex),
        (OP_TX_INPUT_SCRIPT_SIG_SUBSTR, codes::OpTxInputScriptSigSubstr),
        (OP_TX_INPUT_SPK, codes::OpTxInputSpk),
        (OP_TX_OUTPUT_SPK, codes::OpTxOutputSpk),
        (OP_TX_INPUT_SCRIPT_SIG_LEN, codes::OpTxInputScriptSigLen),
        (OP_NUM2BIN, codes::OpNum2Bin),
        (OP_BIN2NUM, codes::OpBin2Num),
        (OP_BLAKE3, codes::OpBlake3),
        (OP_PUSH_DATA1, codes::OpPushData1),
        (OP_PUSH_DATA2, codes::OpPushData2),
    ];
    for (ours, engine) in pairs {
        assert_eq!(ours, engine);
    }
    assert_eq!(OP_PUSH_DATA4, codes::OpPushData4);
}

#[test]
fn limits_are_the_script_engine_limits() {
    assert_eq!(LOCK_TIME_THRESHOLD, kaspa_txscript::LOCK_TIME_THRESHOLD);
    assert_eq!(MAX_SCRIPTS_SIZE, kaspa_txscript::MAX_SCRIPTS_SIZE);
    assert_eq!(MAX_SCRIPT_ELEMENT_SIZE, kaspa_txscript::MAX_SCRIPT_ELEMENT_SIZE);
}

#[test]
fn checked_calls_append_ops_data_and_numbers() {
    let mut builder = ScriptBuilder::new();
    add_op(&mut builder, OP_DUP).unwrap();
    add_data(&mut builder, &[0xaa, 0xbb]).unwrap();
    add_int(&mut builder, 1000).unwrap();
    add_int(&mut builder, 5).unwrap();
    add_int(&mut builder, -1).unwrap();
    assert_eq!(builder.script().len(), 1 + 3 + 3 + 1 + 1);
    assert_eq!(builder.drain(), vec![0x76, 0x02, 0xaa, 0xbb, 0x02, 0xe8, 0x03, 0x55, 0x4f]);
}

#[test]
fn data_pushes_are_canonical() {
    let mut ours = ScriptBuilder::new();
    let mut engine = ScriptBuilder::new();
    let payloads: Vec<Vec<u8>> = vec![vec![], vec![0x01], vec![0x10], vec![0x81], vec![0x11], vec![7; 76], vec![9; 300]];
    for payload in &payloads {
        add_data(&mut ours, payload).unwrap();
        engine.add_data(payload).unwrap();
    }
    assert_eq!(ours.drain(), engine.drain());
}

#[test]
fn integer_pushes_match_the_engine() {
    let mut ours = ScriptBuilder::new();
    let mut engine = ScriptBuilder::new();
    for value in [0i64, 1, 16, 17, -1, -2, 127, 128, 255, 256, -129, 500_000_000_000, i64::MAX, i64::MIN + 1] {
        add_int(&mut ours, value).unwrap();
        engine.add_i64(value).unwrap();
    }
    assert_eq!(ours.drain(), engine.drain());
}

#[test]
fn a_refused_append_leaves_the_script_unchanged() {
    let mut builder = ScriptBuilder::new();
    while builder.add_op(OP_DUP).is_ok() {}
    let full = builder.script().len();
    assert_eq!(full, MAX_SCRIPTS_SIZE);
    assert!(matches!(add_op(&mut builder, OP_DROP), Err(CompilerError::ScriptRejected)));
    assert!(matches!(add_int(&mut builder, 1000), Err(CompilerError::ScriptRejected)));
    assert!(matches!(add_data(&mut builder, &[1, 2]), Err(CompilerError::ScriptRejected)));
    assert_eq!(builder.script().len(), full);
}

#[test]
fn checked_builder_calls_report_their_appends() {
    let mut builder = ScriptBuilder::new();
    add_op(&mut builder, OP_SWAP).unwrap();
    add_int(&mut builder, 20).unwrap();
    add_data(&mut builder, &[1, 2, 3]).unwrap();
    assert_eq!(builder.drain(), vec![0x7c, 0x01, 0x14, 0x03, 1, 2, 3]);
}

#[test]
fn emitter_counts_the_values_it_leaves() {
    let mut builder = ScriptBuilder::new();
    let mut emitter = ScriptEmitter::new(0);
    emitter.push_int(&mut builder, 3).unwrap();
    emitter.push_data(&mut builder, &[0xab]).unwrap();
    emitter.emit_op(&mut builder, OP_CAT, -1).unwrap();
    assert_eq!(emitter.stack_depth(), 1);
    emitter
        .emit_all(&mut builder, &[Emit::Op(OP_DUP, 1), Emit::Int(2), Emit::Data(vec![0xcd, 0xef]), Emit::Op(OP_DROP, -1)])
        .unwrap();
    assert_eq!(emitter.stack_depth(), 3);
    assert_eq!(builder.drain(), vec![0x53, 0x01, 0xab, 0x7e, 0x76, 0x52, 0x02, 0xcd, 0xef, 0x75]);
}

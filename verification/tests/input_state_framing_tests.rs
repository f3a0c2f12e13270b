//! Foreign input state must be framed the way the reader assumes.
//!
//! The readers here are assembled from the library's own entrypoint compiler: a contract's
//! script is its canonically encoded state region followed by the compiled entrypoint. The
//! spends execute on kaspa's script engine.

use kaspa_consensus_core::hashing::sighash::SigHashReusedValuesUnsync;
use kaspa_consensus_core::tx::{
    PopulatedTransaction, Transaction, TransactionId, TransactionInput, TransactionOutpoint, TransactionOutput,
    UtxoEntry, VerifiableTransaction,
};
use kaspa_txscript::caches::Cache;
use kaspa_txscript::script_builder::ScriptBuilder;
use kaspa_txscript::{
    pay_to_script_hash_script, pay_to_script_hash_signature_script, EngineCtx, EngineFlags, TxScriptEngine,
};

use silverscript_state::recorder::DebugRecorder;
use silverscript_state::ast::{BuiltinRegistry, FunctionAst, ParamAst, Statement, StructBindingAst, StructFieldSpec, StructRegistry, StructSpec};
use silverscript_state::entrypoint::compile_entrypoint_function;
use silverscript_state::expr::{binary_expr, BinaryOp, Expr};
use silverscript_state::layout::ContractFieldAst;
use silverscript_state::statement::VALIDATE_OUTPUT_STATE_INNER;
use silverscript_state::types::{byte_array_type, scalar_type, ArrayDim, TypeBase, TypeRef};

const HONEST_FLAG: u8 = 0x07;
const HONEST_KEY_BYTE: u8 = 0xaa;

/// The canonical state region: `01 07` followed by `20` and 32 key bytes.
fn honest_state_region() -> Vec<u8> {
    let mut region = vec![0x01, HONEST_FLAG, 0x20];
    region.extend_from_slice(&[HONEST_KEY_BYTE; 32]);
    region
}

/// The same 35 bytes, reframed: `flag`'s header widened to `OpPushData1 01` and `key`'s
/// push narrowed to 31 bytes to pay for it.
fn reframed_state_region() -> Vec<u8> {
    let mut region = vec![0x4c, 0x01, HONEST_FLAG, 0x1f];
    region.extend_from_slice(&[HONEST_KEY_BYTE; 31]);
    region
}

/// `flag`'s header widened with nothing narrowed to pay for it: one byte longer.
fn lengthened_state_region() -> Vec<u8> {
    let mut region = vec![0x4c, 0x01, HONEST_FLAG, 0x20];
    region.extend_from_slice(&[HONEST_KEY_BYTE; 32]);
    region
}

const SLID_FLAG: u8 = 0x5a;
const SLID_KEY_BYTE: u8 = 0xc3;

/// One byte longer, laid out so that reads shifted by one byte land on canonical headers.
fn window_sliding_region() -> Vec<u8> {
    let mut region = vec![0x00, 0x01, SLID_FLAG, 0x20];
    region.extend_from_slice(&[SLID_KEY_BYTE; 32]);
    region
}

/// What a reader using canonical offsets takes out of `region`.
fn read_at_canonical_offsets(region: &[u8]) -> (u8, [u8; 32]) {
    let mut key = [0u8; 32];
    key.copy_from_slice(&region[3..35]);
    (region[1], key)
}

fn byte_type() -> TypeRef {
    scalar_type(TypeBase::Byte)
}

fn bytes_type(n: usize) -> TypeRef {
    byte_array_type(ArrayDim::Fixed(n))
}

fn field(name: &str, type_ref: TypeRef) -> ContractFieldAst {
    ContractFieldAst { name: name.to_string(), type_ref }
}

fn param(name: &str, type_ref: TypeRef) -> ParamAst {
    ParamAst { name: name.to_string(), type_ref }
}

fn binding(field_name: &str, name: &str, type_ref: TypeRef) -> StructBindingAst {
    StructBindingAst { field_name: field_name.to_string(), name: name.to_string(), type_ref }
}

fn require_equal(left: &str, right: &str) -> Statement {
    Statement::Require { expr: binary_expr(BinaryOp::Equal, Expr::identifier(left), Expr::identifier(right)) }
}

fn no_structs() -> StructRegistry {
    StructRegistry { structs: vec![] }
}

/// A contract's script: its state region, then its entrypoint compiled for a script of
/// exactly that total size.
fn assemble(fields: &[ContractFieldAst], state: &[u8], function: &FunctionAst, structs: &StructRegistry) -> Vec<u8> {
    let mut size = state.len();
    for _ in 0..8 {
        let (_, code) =
            compile_entrypoint_function(
                function,
                &[],
                fields,
                &[],
                state.len(),
                structs,
                &BuiltinRegistry { builtins: vec![] },
                Some(size as i64),
                &[],
                &mut DebugRecorder::new(),
            )
                .expect("compile entrypoint");
        let total = state.len() + code.len();
        if total == size {
            let mut script = state.to_vec();
            script.extend_from_slice(&code);
            return script;
        }
        size = total;
    }
    panic!("the script size does not settle");
}

fn push_args(args: &[&[u8]]) -> Vec<u8> {
    let mut builder = ScriptBuilder::new();
    for arg in args {
        builder.add_data(arg).expect("push argument");
    }
    builder.drain()
}

fn push_bytecode(bytecode: &[u8]) -> Vec<u8> {
    ScriptBuilder::new().add_data_with_push_opcode(bytecode).expect("push bytecode").drain()
}

fn test_input(index: u32, signature_script: Vec<u8>) -> TransactionInput {
    TransactionInput::new(
        TransactionOutpoint { transaction_id: TransactionId::from_bytes([index as u8; 32]), index },
        signature_script,
        0,
        0,
    )
}

fn execute_input(tx: Transaction, entries: Vec<UtxoEntry>, input_idx: usize) -> Result<(), kaspa_txscript_errors::TxScriptError> {
    let reused_values = SigHashReusedValuesUnsync::new();
    let sig_cache = Cache::new(10_000);
    let input = tx.inputs[input_idx].clone();
    let populated_tx = PopulatedTransaction::new(&tx, entries);
    let utxo_entry = populated_tx.utxo(input_idx).expect("utxo entry for selected input");
    let mut vm = TxScriptEngine::from_transaction_input(
        &populated_tx,
        &input,
        input_idx,
        utxo_entry,
        EngineCtx::new(&sig_cache).with_reused(&reused_values),
        EngineFlags::default(),
    );
    vm.execute()
}

/// Spends input 0 (the reader, with `reader_args`) next to input 1, whose committed script
/// is `foreign`, with one output paying to `output_script`.
fn spend(reader: &[u8], reader_args: Vec<u8>, foreign: &[u8], output_script: &[u8]) -> Result<(), kaspa_txscript_errors::TxScriptError> {
    let reader_sigscript = pay_to_script_hash_signature_script(reader.to_vec(), reader_args).expect("reader p2sh");
    let tx = Transaction::new(
        1,
        vec![test_input(0, reader_sigscript), test_input(1, push_bytecode(foreign))],
        vec![TransactionOutput { value: 1_000, script_public_key: pay_to_script_hash_script(output_script), covenant: None }],
        0,
        Default::default(),
        0,
        vec![],
    );
    let entries = vec![
        UtxoEntry::new(1_000, pay_to_script_hash_script(reader), 0, false, None),
        UtxoEntry::new(1_000, pay_to_script_hash_script(foreign), 0, false, None),
    ];
    execute_input(tx, entries, 0)
}

fn peer_fields() -> Vec<ContractFieldAst> {
    vec![field("flag", byte_type()), field("key", bytes_type(32))]
}

fn peer_read(name: &str, args: Vec<Expr>, target: &str) -> Statement {
    Statement::StateFunctionCallAssign {
        target_struct: target.to_string(),
        bindings: vec![binding("flag", "remote_flag", byte_type()), binding("key", "remote_key", bytes_type(32))],
        name: name.to_string(),
        args,
    }
}

fn checking_entry(read: Statement) -> FunctionAst {
    FunctionAst {
        name: "main".to_string(),
        params: vec![param("expected_flag", byte_type()), param("expected_key", bytes_type(32))],
        body: vec![read, require_equal("remote_flag", "expected_flag"), require_equal("remote_key", "expected_key")],
        return_types: vec![],
    }
}

/// The reader's template with `region` in place of its state.
fn splice(template: &[u8], state_len: usize, region: &[u8]) -> Vec<u8> {
    let mut forged = region.to_vec();
    forged.extend_from_slice(&template[state_len..]);
    forged
}

/// A same-template reader of input 1 whose state region is `region`, expecting `expected`.
fn run_plain_reader(region: &[u8], expected: (u8, [u8; 32])) -> Result<(), kaspa_txscript_errors::TxScriptError> {
    let fields = peer_fields();
    let entry = checking_entry(peer_read("readInputState", vec![Expr::Int(1)], "State"));
    let reader = assemble(&fields, &honest_state_region(), &entry, &no_structs());
    let forged = splice(&reader, 35, region);
    spend(&reader, push_args(&[&[expected.0], &expected.1]), &forged, &reader)
}

/// The foreign target: its state region followed by a no-op entrypoint.
fn target_script(region: &[u8]) -> (Vec<u8>, Vec<u8>) {
    let entry = FunctionAst {
        name: "noop".to_string(),
        params: vec![],
        body: vec![Statement::Require { expr: Expr::Bool(true) }],
        return_types: vec![],
    };
    let honest = assemble(&peer_fields(), &honest_state_region(), &entry, &no_structs());
    let suffix = honest[35..].to_vec();
    let mut script = region.to_vec();
    script.extend_from_slice(&suffix);
    (script, suffix)
}

/// `blake3(le8(len(prefix)) || prefix || le8(len(suffix)) || suffix)`.
fn template_hash(prefix: &[u8], suffix: &[u8]) -> Vec<u8> {
    let mut preimage = (prefix.len() as u64).to_le_bytes().to_vec();
    preimage.extend_from_slice(prefix);
    preimage.extend_from_slice(&(suffix.len() as u64).to_le_bytes());
    preimage.extend_from_slice(suffix);
    blake3::hash(&preimage).as_bytes().to_vec()
}

/// A reader of input 1 whose target template carries `region`, expecting `expected`.
fn run_templated_reader(region: &[u8], expected: (u8, [u8; 32])) -> Result<(), kaspa_txscript_errors::TxScriptError> {
    let (foreign, suffix) = target_script(region);
    let structs = StructRegistry {
        structs: vec![(
            "TargetState".to_string(),
            StructSpec {
                fields: vec![
                    StructFieldSpec { name: "flag".to_string(), type_ref: byte_type() },
                    StructFieldSpec { name: "key".to_string(), type_ref: bytes_type(32) },
                ],
            },
        )],
    };
    let read = peer_read(
        "readInputStateWithTemplate",
        vec![Expr::Int(1), Expr::Int(0), Expr::Int(suffix.len() as i64), Expr::Bytes(template_hash(&[], &suffix))],
        "TargetState",
    );
    let reader = assemble(&[], &[], &checking_entry(read), &structs);
    spend(&reader, push_args(&[&[expected.0], &expected.1]), &foreign, &reader)
}

/// `validateOutputState(0, readInputState(1))`, lowered to a destructuring read followed by
/// the inner validation call on the read values.
fn run_expression_position_reader(region: &[u8], observed: (u8, [u8; 32])) -> Result<(), kaspa_txscript_errors::TxScriptError> {
    let fields = peer_fields();
    let entry = FunctionAst {
        name: "main".to_string(),
        params: vec![],
        body: vec![
            peer_read("readInputState", vec![Expr::Int(1)], "State"),
            Statement::FunctionCall {
                name: VALIDATE_OUTPUT_STATE_INNER.to_string(),
                args: vec![Expr::Int(0), Expr::identifier("remote_flag"), Expr::identifier("remote_key")],
            },
        ],
        return_types: vec![],
    };
    let reader = assemble(&fields, &honest_state_region(), &entry, &no_structs());
    let mut observed_region = vec![0x01, observed.0, 0x20];
    observed_region.extend_from_slice(&observed.1);
    let forged = splice(&reader, 35, region);
    spend(&reader, push_args(&[]), &forged, &splice(&reader, 35, &observed_region))
}

#[test]
fn templated_read_accepts_canonical_framing() {
    let region = honest_state_region();
    let result = run_templated_reader(&region, (HONEST_FLAG, [HONEST_KEY_BYTE; 32]));
    assert!(result.is_ok(), "canonical framing must still be readable: {}", result.unwrap_err());
}

#[test]
fn templated_read_rejects_length_preserving_reframe() {
    let honest = honest_state_region();
    let reframed = reframed_state_region();
    assert_eq!(honest.len(), reframed.len(), "the reframe must preserve the region length");

    let observed = read_at_canonical_offsets(&reframed);
    assert_ne!(observed, (HONEST_FLAG, [HONEST_KEY_BYTE; 32]), "the reframe must move what a constant-offset read sees");

    let result = run_templated_reader(&reframed, observed);
    assert!(result.is_err(), "a length-preserving reframe must not be readable at canonical offsets");
}

#[test]
fn templated_read_rejects_length_changing_reframe() {
    let lengthened = lengthened_state_region();
    assert_ne!(lengthened.len(), honest_state_region().len(), "this case must change the region length");

    let result = run_templated_reader(&lengthened, read_at_canonical_offsets(&lengthened));
    assert!(result.is_err(), "a length-changing reframe must be refused");
}

#[test]
fn plain_read_accepts_canonical_framing() {
    let region = honest_state_region();
    let result = run_plain_reader(&region, (HONEST_FLAG, [HONEST_KEY_BYTE; 32]));
    assert!(result.is_ok(), "canonical framing must still be readable: {}", result.unwrap_err());
}

#[test]
fn plain_read_rejects_length_preserving_reframe() {
    let reframed = reframed_state_region();
    let observed = read_at_canonical_offsets(&reframed);

    let result = run_plain_reader(&reframed, observed);
    assert!(result.is_err(), "a length-preserving reframe must not be readable at canonical offsets");
}

#[test]
fn plain_read_rejects_a_longer_foreign_script() {
    let region = window_sliding_region();
    assert_eq!(region.len(), honest_state_region().len() + 1, "one byte longer — which is what slides the window");
    assert_eq!(
        read_at_canonical_offsets(&region[1..]),
        (SLID_FLAG, [SLID_KEY_BYTE; 32]),
        "the shifted window really does land on the forger's values"
    );

    let result = run_plain_reader(&region, (SLID_FLAG, [SLID_KEY_BYTE; 32]));
    assert!(result.is_err(), "a foreign script longer than the reader's own template must not be decoded: {result:?}");
}

#[test]
fn expression_position_read_accepts_canonical_framing() {
    let region = honest_state_region();
    let result = run_expression_position_reader(&region, (HONEST_FLAG, [HONEST_KEY_BYTE; 32]));
    assert!(result.is_ok(), "canonical framing must still be readable: {}", result.unwrap_err());
}

#[test]
fn expression_position_read_rejects_a_longer_foreign_script() {
    let result = run_expression_position_reader(&window_sliding_region(), (SLID_FLAG, [SLID_KEY_BYTE; 32]));
    assert!(result.is_err(), "expression position must refuse a longer foreign script as well: {result:?}");
}

#[test]
fn expression_position_read_rejects_length_preserving_reframe() {
    let reframed = reframed_state_region();
    let observed = read_at_canonical_offsets(&reframed);

    let result = run_expression_position_reader(&reframed, observed);
    assert!(result.is_err(), "a length-preserving reframe must not be readable at canonical offsets");
}

const WIDE_A: u8 = 0x11;
const WIDE_C: u8 = 0x22;
const WIDE_BLOB_BYTE: u8 = 0xbb;
const WIDE_BLOB_LEN: usize = 80;

#[derive(Clone, Copy)]
enum WideLayout {
    Middle,
    First,
    Last,
}

fn wide_fields(layout: WideLayout) -> Vec<ContractFieldAst> {
    let a = || field("a", byte_type());
    let blob = || field("blob", bytes_type(WIDE_BLOB_LEN));
    let c = || field("c", byte_type());
    match layout {
        WideLayout::Middle => vec![a(), blob(), c()],
        WideLayout::First => vec![blob(), a(), c()],
        WideLayout::Last => vec![a(), c(), blob()],
    }
}

/// `OpPushData1 80` followed by the payload — the canonical wide chunk.
fn wide_chunk_canonical() -> Vec<u8> {
    let mut chunk = vec![0x4c, WIDE_BLOB_LEN as u8];
    chunk.extend_from_slice(&[WIDE_BLOB_BYTE; WIDE_BLOB_LEN]);
    chunk
}

/// `OpPushData2 79 0` followed by 79 payload bytes: the same 82-byte chunk, re-encoded.
fn wide_chunk_rewidened() -> Vec<u8> {
    let mut chunk = vec![0x4d, (WIDE_BLOB_LEN - 1) as u8, 0x00];
    chunk.extend_from_slice(&[WIDE_BLOB_BYTE; WIDE_BLOB_LEN - 1]);
    chunk
}

/// What a reader takes for `blob` out of [`wide_chunk_rewidened`].
fn wide_rewidened_observed_blob() -> Vec<u8> {
    let mut observed = vec![0x00];
    observed.extend_from_slice(&[WIDE_BLOB_BYTE; WIDE_BLOB_LEN - 1]);
    observed
}

fn wide_honest_region(layout: WideLayout) -> Vec<u8> {
    let mut region = Vec::new();
    for f in wide_fields(layout) {
        match f.name.as_str() {
            "a" => region.extend_from_slice(&[0x01, WIDE_A]),
            "c" => region.extend_from_slice(&[0x01, WIDE_C]),
            _ => region.extend_from_slice(&wide_chunk_canonical()),
        }
    }
    region
}

/// A same-template reader of input 1 carrying `region`, expecting `blob == expected_blob`.
fn run_wide_reader(layout: WideLayout, region: &[u8], expected_blob: &[u8]) -> Result<(), kaspa_txscript_errors::TxScriptError> {
    let fields = wide_fields(layout);
    let honest = wide_honest_region(layout);
    assert_eq!(honest.len(), region.len(), "the forged region must keep the state region's length");
    let entry = FunctionAst {
        name: "main".to_string(),
        params: vec![param("expected_blob", bytes_type(WIDE_BLOB_LEN))],
        body: vec![
            Statement::StateFunctionCallAssign {
                target_struct: "State".to_string(),
                bindings: vec![
                    binding("a", "remote_a", byte_type()),
                    binding("blob", "remote_blob", bytes_type(WIDE_BLOB_LEN)),
                    binding("c", "remote_c", byte_type()),
                ],
                name: "readInputState".to_string(),
                args: vec![Expr::Int(1)],
            },
            require_equal("remote_blob", "expected_blob"),
        ],
        return_types: vec![],
    };
    let reader = assemble(&fields, &honest, &entry, &no_structs());
    let forged = splice(&reader, honest.len(), region);
    spend(&reader, push_args(&[expected_blob]), &forged, &reader)
}

#[test]
fn wide_header_read_accepts_canonical_framing() {
    let mut region = vec![0x01, WIDE_A];
    region.extend_from_slice(&wide_chunk_canonical());
    region.extend_from_slice(&[0x01, WIDE_C]);

    let result = run_wide_reader(WideLayout::Middle, &region, &[WIDE_BLOB_BYTE; WIDE_BLOB_LEN]);
    assert!(result.is_ok(), "canonical framing must still be readable: {}", result.unwrap_err());
}

#[test]
fn wide_header_read_rejects_length_byte_reframe() {
    let mut region = vec![0x01, WIDE_A, 0x4c, (WIDE_BLOB_LEN - 1) as u8];
    region.extend_from_slice(&[WIDE_BLOB_BYTE; WIDE_BLOB_LEN - 1]);
    region.extend_from_slice(&[0x4c, 0x01, WIDE_C]);

    let mut observed = vec![WIDE_BLOB_BYTE; WIDE_BLOB_LEN - 1];
    observed.push(0x4c);

    let result = run_wide_reader(WideLayout::Middle, &region, &observed);
    assert!(result.is_err(), "a header whose length byte alone was changed must be refused");
}

#[test]
fn wide_header_read_rejects_reframe_of_the_first_field() {
    let mut region = wide_chunk_rewidened();
    region.extend_from_slice(&[0x01, WIDE_A, 0x01, WIDE_C]);

    let result = run_wide_reader(WideLayout::First, &region, &wide_rewidened_observed_blob());
    assert!(result.is_err(), "a reframe of the first field must be refused");
}

#[test]
fn wide_header_read_rejects_reframe_of_the_last_field() {
    let mut region = vec![0x01, WIDE_A, 0x01, WIDE_C];
    region.extend_from_slice(&wide_chunk_rewidened());

    let result = run_wide_reader(WideLayout::Last, &region, &wide_rewidened_observed_blob());
    assert!(result.is_err(), "a reframe of the last field must be refused");
}

#[test]
fn the_parameter_checks_accept_exactly_the_sizes_the_types_allow() {
    let function = FunctionAst {
        name: "main".to_string(),
        params: vec![param("b", byte_type()), param("n", scalar_type(TypeBase::Int))],
        body: vec![],
        return_types: vec![],
    };
    let structs = StructRegistry { structs: vec![] };
    let script = assemble(&[], &[], &function, &structs);
    let nine: &[u8] = &[1, 2, 3, 4, 5, 6, 7, 8, 9];
    assert!(spend(&script, push_args(&[&[0x77], &[0x55]]), &script, &script).is_ok());
    assert!(spend(&script, push_args(&[&[0x77, 0x77], &[0x55]]), &script, &script).is_err());
    assert!(spend(&script, push_args(&[&[0x77], &[1, 2, 3, 4, 5, 6, 7, 8]]), &script, &script).is_ok());
    assert!(spend(&script, push_args(&[&[0x77], nine]), &script, &script).is_err());
}

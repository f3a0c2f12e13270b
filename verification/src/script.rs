//! The script builder of `kaspa_txscript`, seen through trusted wrappers, and the emitter
//! that tracks the run-time stack depth of what it appends.
//!
//! Appended code is described as a sequence of [`Chunk`]s: an opcode, a script number, or a
//! data push. [`code_of`] is the bytes the builder writes for them and [`emits`] says when the
//! builder accepts them all.

use vstd::prelude::*;

use kaspa_txscript::script_builder::{ScriptBuilder, ScriptBuilderError};

use crate::error::CompilerError;
use crate::push::push_header;

verus! {

#[verifier::external_type_specification]
#[verifier::external_body]
pub struct ExScriptBuilder(ScriptBuilder);

#[verifier::external_type_specification]
#[verifier::external_body]
pub struct ExScriptBuilderError(ScriptBuilderError);

/// The largest script the builder produces (`kaspa_txscript::MAX_SCRIPTS_SIZE`).
pub const MAX_SCRIPTS_SIZE: usize = 1_000_000;

/// The largest data element the builder pushes (`kaspa_txscript::MAX_SCRIPT_ELEMENT_SIZE`).
pub const MAX_SCRIPT_ELEMENT_SIZE: usize = 1_000_000;

/// The script a builder holds.
pub uninterp spec fn script_of(builder: ScriptBuilder) -> Seq<u8>;

/// The little-endian bytes of a magnitude, without trailing zero bytes.
pub open spec fn magnitude_le(m: nat) -> Seq<u8>
    decreases m,
{
    if m == 0 {
        Seq::empty()
    } else {
        seq![(m % 256) as u8] + magnitude_le(m / 256)
    }
}

/// The minimal sign-magnitude little-endian encoding of a script number.
pub open spec fn script_num_bytes(v: int) -> Seq<u8> {
    let m = magnitude_le(if v < 0 { -v } else { v } as nat);
    let padded = if m.len() > 0 && m.last() >= 0x80 { m.push(0u8) } else { m };
    if v < 0 {
        padded.update(padded.len() - 1, padded.last() | 0x80u8)
    } else {
        padded
    }
}

/// The bytes the builder appends for a data push: one opcode for the empty push, a small
/// integer or -1, otherwise the explicit push header and the data.
pub open spec fn canonical_push(data: Seq<u8>) -> Seq<u8> {
    if data.len() == 0 {
        seq![0x00u8]
    } else if data.len() == 1 && data[0] == 0x81 {
        seq![0x4fu8]
    } else if data.len() == 1 && 1 <= data[0] <= 16 {
        seq![(0x50 + data[0]) as u8]
    } else {
        push_header(data.len()) + data
    }
}

/// The bytes the builder appends for a script number.
pub open spec fn int_push(v: i64) -> Seq<u8> {
    if v == 0 {
        seq![0x00u8]
    } else if v == -1 || 1 <= v <= 16 {
        seq![(0x50 + v) as u8]
    } else {
        canonical_push(script_num_bytes(v as int))
    }
}

/// Whether the builder can encode a script number at all (it refuses `i64::MIN`).
pub open spec fn int_encodable(v: i64) -> bool {
    script_num_bytes(v as int).len() <= 8
}

/// `kaspa_txscript::script_builder::ScriptBuilder::new`: a builder holding the empty script.
#[verifier::external_body]
pub(crate) fn script_builder() -> (r: ScriptBuilder)
    ensures
        script_of(r) == Seq::<u8>::empty(),
{
    ScriptBuilder::new()
}

/// `ScriptBuilder::script`, read for its length: the number of bytes the builder holds.
#[verifier::external_body]
pub(crate) fn builder_script_len(builder: &ScriptBuilder) -> (r: usize)
    ensures
        r == script_of(*builder).len(),
{
    builder.script().len()
}

/// `ScriptBuilder::drain`: takes the script out, leaving the builder empty.
#[verifier::external_body]
pub(crate) fn builder_drain(builder: &mut ScriptBuilder) -> (r: Vec<u8>)
    ensures
        r@ == script_of(*old(builder)),
        script_of(*final(builder)) == Seq::<u8>::empty(),
{
    builder.drain()
}

/// `ScriptBuilder::add_op`: appends the opcode unless the script is already at its maximum
/// size, in which case the script is unchanged.
#[verifier::external_body]
pub(crate) fn builder_add_op(builder: &mut ScriptBuilder, opcode: u8) -> (r: Result<(), ScriptBuilderError>)
    ensures
        r is Ok <==> script_of(*old(builder)).len() + 1 <= MAX_SCRIPTS_SIZE,
        r is Ok ==> script_of(*final(builder)) == script_of(*old(builder)).push(opcode),
        r is Err ==> script_of(*final(builder)) == script_of(*old(builder)),
{
    match builder.add_op(opcode) {
        Ok(_) => Ok(()),
        Err(e) => Err(e),
    }
}

/// `ScriptBuilder::add_data`: appends the canonical push of `data`, unless the script would
/// exceed its maximum size or the element its maximum size; then the script is unchanged.
#[verifier::external_body]
pub(crate) fn builder_add_data(builder: &mut ScriptBuilder, data: &[u8]) -> (r: Result<(), ScriptBuilderError>)
    ensures
        r is Ok <==> (script_of(*old(builder)).len() + canonical_push(data@).len()
            <= MAX_SCRIPTS_SIZE && data@.len() <= MAX_SCRIPT_ELEMENT_SIZE),
        r is Ok ==> script_of(*final(builder)) == script_of(*old(builder)) + canonical_push(data@),
        r is Err ==> script_of(*final(builder)) == script_of(*old(builder)),
{
    match builder.add_data(data) {
        Ok(_) => Ok(()),
        Err(e) => Err(e),
    }
}

/// `ScriptBuilder::add_i64`: appends the push of a script number (a small-integer opcode
/// where one exists, else the canonical push of its minimal encoding), unless the number has
/// no 8-byte encoding or the script would exceed its maximum size.
#[verifier::external_body]
pub(crate) fn builder_add_i64(builder: &mut ScriptBuilder, val: i64) -> (r: Result<(), ScriptBuilderError>)
    ensures
        r is Ok <==> (script_of(*old(builder)).len() + int_push(val).len() <= MAX_SCRIPTS_SIZE
            && int_encodable(val)),
        r is Ok ==> script_of(*final(builder)) == script_of(*old(builder)) + int_push(val),
        r is Err ==> script_of(*final(builder)) == script_of(*old(builder)),
{
    match builder.add_i64(val) {
        Ok(_) => Ok(()),
        Err(e) => Err(e),
    }
}

/// One piece of emitted code.
pub enum Chunk {
    Op(u8),
    Int(i64),
    Data(Seq<u8>),
}

/// The bytes of one chunk.
pub open spec fn chunk_code(c: Chunk) -> Seq<u8> {
    match c {
        Chunk::Op(op) => seq![op],
        Chunk::Int(v) => int_push(v),
        Chunk::Data(d) => canonical_push(d),
    }
}

/// Whether the builder can encode a chunk at all, wherever it stands.
pub open spec fn chunk_ok(c: Chunk) -> bool {
    match c {
        Chunk::Op(_) => true,
        Chunk::Int(v) => int_encodable(v),
        Chunk::Data(d) => d.len() <= MAX_SCRIPT_ELEMENT_SIZE,
    }
}

/// The bytes of a sequence of chunks.
pub open spec fn code_of(cs: Seq<Chunk>) -> Seq<u8>
    decreases cs.len(),
{
    if cs.len() == 0 {
        Seq::empty()
    } else {
        code_of(cs.drop_last()) + chunk_code(cs.last())
    }
}

/// Whether every chunk is encodable.
pub open spec fn chunks_ok(cs: Seq<Chunk>) -> bool {
    forall|i: int| 0 <= i < cs.len() ==> chunk_ok(#[trigger] cs[i])
}

/// Whether the builder, holding `script`, accepts all of `cs`: each chunk is encodable and
/// the script stays within its maximum size (appending nothing always succeeds).
pub open spec fn emits(script: Seq<u8>, cs: Seq<Chunk>) -> bool {
    &&& cs.len() == 0 || script.len() + code_of(cs).len() <= MAX_SCRIPTS_SIZE
    &&& chunks_ok(cs)
}

/// Every chunk has code.
pub proof fn lemma_code_of_len(cs: Seq<Chunk>)
    ensures
        code_of(cs).len() >= cs.len(),
    decreases cs.len(),
{
    if cs.len() > 0 {
        lemma_code_of_len(cs.drop_last());
    }
}

pub proof fn lemma_code_of_append(a: Seq<Chunk>, b: Seq<Chunk>)
    ensures
        code_of(a + b) == code_of(a) + code_of(b),
    decreases b.len(),
{
    if b.len() == 0 {
        assert(a + b == a);
    } else {
        assert((a + b).drop_last() == a + b.drop_last());
        lemma_code_of_append(a, b.drop_last());
    }
}

/// The builder accepts `a + b` exactly when it accepts `a` and then `b`.
pub proof fn lemma_emits_append(script: Seq<u8>, a: Seq<Chunk>, b: Seq<Chunk>)
    ensures
        emits(script, a + b) == (emits(script, a) && emits(script + code_of(a), b)),
{
    lemma_code_of_append(a, b);
    lemma_code_of_len(a);
    lemma_code_of_len(b);
    if a.len() == 0 {
        assert(a + b == b);
    }
    if b.len() == 0 {
        assert(a + b == a);
    }
    if chunks_ok(a + b) {
        assert forall|i: int| 0 <= i < a.len() implies chunk_ok(#[trigger] a[i]) by {
            assert((a + b)[i] == a[i]);
        }
        assert forall|i: int| 0 <= i < b.len() implies chunk_ok(#[trigger] b[i]) by {
            assert((a + b)[a.len() + i] == b[i]);
        }
    }
    if chunks_ok(a) && chunks_ok(b) {
        assert forall|i: int| 0 <= i < (a + b).len() implies chunk_ok(#[trigger] (a + b)[i]) by {
            if i < a.len() {
                assert((a + b)[i] == a[i]);
            } else {
                assert((a + b)[i] == b[i - a.len()]);
            }
        }
    }
}

pub proof fn lemma_code_of_single(c: Chunk)
    ensures
        code_of(seq![c]) == chunk_code(c),
        chunks_ok(seq![c]) == chunk_ok(c),
{
    assert(seq![c][0] == c);
    assert(seq![c].drop_last() == Seq::<Chunk>::empty());
    assert(code_of(Seq::<Chunk>::empty()) == Seq::<u8>::empty());
    assert(seq![c].last() == c);
    assert(code_of(seq![c]) == code_of(seq![c].drop_last()) + chunk_code(seq![c].last()));
    assert(Seq::<u8>::empty() + chunk_code(c) =~= chunk_code(c));
}

/// The outcome of appending chunks `cs` to a script `before`, giving `after`: success
/// exactly when the builder accepts them, and then the script grows by their code.
pub open spec fn appended<T>(r: Result<T, CompilerError>, before: Seq<u8>, after: Seq<u8>, cs: Seq<Chunk>) -> bool {
    &&& r is Ok <==> emits(before, cs)
    &&& r is Ok ==> after == before + code_of(cs)
    &&& r matches Err(e) ==> e == CompilerError::ScriptRejected
}

/// Appends one opcode.
pub fn add_op(builder: &mut ScriptBuilder, op: u8) -> (r: Result<(), CompilerError>)
    ensures
        appended(r, script_of(*old(builder)), script_of(*final(builder)), seq![Chunk::Op(op)]),
{
    proof {
        lemma_code_of_single(Chunk::Op(op));
    }
    let ghost before = script_of(*builder);
    match builder_add_op(builder, op) {
        Ok(()) => {
            assert(before.push(op) =~= before + seq![op]);
            Ok(())
        },
        Err(_) => Err(CompilerError::ScriptRejected),
    }
}

/// Appends the push of a script number.
pub fn add_int(builder: &mut ScriptBuilder, value: i64) -> (r: Result<(), CompilerError>)
    ensures
        appended(r, script_of(*old(builder)), script_of(*final(builder)), seq![Chunk::Int(value)]),
{
    proof {
        lemma_code_of_single(Chunk::Int(value));
    }
    match builder_add_i64(builder, value) {
        Ok(()) => Ok(()),
        Err(_) => Err(CompilerError::ScriptRejected),
    }
}

/// Appends the canonical push of `data`.
pub fn add_data(builder: &mut ScriptBuilder, data: &[u8]) -> (r: Result<(), CompilerError>)
    ensures
        appended(r, script_of(*old(builder)), script_of(*final(builder)), seq![Chunk::Data(data@)]),
{
    proof {
        lemma_code_of_single(Chunk::Data(data@));
    }
    match builder_add_data(builder, data) {
        Ok(()) => Ok(()),
        Err(_) => Err(CompilerError::ScriptRejected),
    }
}

/// Appending `a` and then `b` is appending `a + b`; a refusal of `b` is a refusal of the whole.
pub proof fn lemma_appended_seq<T>(
    s0: Seq<u8>,
    s1: Seq<u8>,
    s2: Seq<u8>,
    a: Seq<Chunk>,
    b: Seq<Chunk>,
    r: Result<T, CompilerError>,
)
    requires
        emits(s0, a),
        s1 == s0 + code_of(a),
        appended(r, s1, s2, b),
    ensures
        appended(r, s0, s2, a + b),
{
    lemma_emits_append(s0, a, b);
    lemma_code_of_append(a, b);
    assert(s0 + code_of(a) + code_of(b) == s0 + (code_of(a) + code_of(b)));
}

/// If the builder refuses `b` after `a`, it refuses `a + b + c` as a whole.
pub proof fn lemma_refused_within(script: Seq<u8>, a: Seq<Chunk>, b: Seq<Chunk>, c: Seq<Chunk>)
    requires
        !emits(script + code_of(a), b),
    ensures
        !emits(script, a + b + c),
{
    lemma_emits_append(script, a + b, c);
    lemma_emits_append(script, a, b);
}

/// One piece of code to emit, with the change it makes to the stack depth.
pub enum Emit {
    Op(u8, i64),
    Int(i64),
    Data(Vec<u8>),
}

impl Emit {
    pub open spec fn chunk(&self) -> Chunk {
        match self {
            Emit::Op(op, _) => Chunk::Op(*op),
            Emit::Int(v) => Chunk::Int(*v),
            Emit::Data(d) => Chunk::Data(d@),
        }
    }

    pub open spec fn delta(&self) -> int {
        match self {
            Emit::Op(_, d) => *d as int,
            _ => 1,
        }
    }
}

/// The chunks of a list of pieces.
pub open spec fn emit_chunks(items: Seq<Emit>) -> Seq<Chunk> {
    items.map_values(|e: Emit| e.chunk())
}

/// The total change in stack depth of a list of pieces.
pub open spec fn emit_delta(items: Seq<Emit>) -> int
    decreases items.len(),
{
    if items.len() == 0 {
        0
    } else {
        emit_delta(items.drop_last()) + items.last().delta()
    }
}

/// Whether the stack depth stays representable through every prefix of `items`.
pub open spec fn depth_stays_in_range(depth: int, items: Seq<Emit>) -> bool {
    forall|k: int| 0 <= k <= items.len() ==> i64::MIN <= depth + #[trigger] emit_delta(items.take(k)) <= i64::MAX
}

/// The emitter: appends code and keeps count of the values it leaves on the run-time stack.
pub struct ScriptEmitter {
    pub stack_depth: i64,
}

impl ScriptEmitter {
    pub open spec fn depth(&self) -> int {
        self.stack_depth as int
    }

    pub fn new(stack_depth: i64) -> (r: Self)
        ensures
            r.depth() == stack_depth,
    {
        ScriptEmitter { stack_depth }
    }

    pub fn stack_depth(&self) -> (r: i64)
        ensures
            r == self.depth(),
    {
        self.stack_depth
    }

    /// Appends an opcode that changes the stack depth by `delta`.
    pub fn emit_op(&mut self, builder: &mut ScriptBuilder, op: u8, delta: i64) -> (r: Result<
        (),
        CompilerError,
    >)
        requires
            i64::MIN <= old(self).depth() + delta <= i64::MAX,
        ensures
            appended(r, script_of(*old(builder)), script_of(*final(builder)), seq![Chunk::Op(op)]),
            r is Ok ==> final(self).depth() == old(self).depth() + delta,
    {
        add_op(builder, op)?;
        self.stack_depth = self.stack_depth + delta;
        Ok(())
    }

    /// Appends the push of a script number.
    pub fn push_int(&mut self, builder: &mut ScriptBuilder, value: i64) -> (r: Result<
        (),
        CompilerError,
    >)
        requires
            old(self).depth() < i64::MAX,
        ensures
            appended(r, script_of(*old(builder)), script_of(*final(builder)), seq![Chunk::Int(value)]),
            r is Ok ==> final(self).depth() == old(self).depth() + 1,
    {
        add_int(builder, value)?;
        self.stack_depth = self.stack_depth + 1;
        Ok(())
    }

    /// Appends the canonical push of `data`.
    pub fn push_data(&mut self, builder: &mut ScriptBuilder, data: &[u8]) -> (r: Result<
        (),
        CompilerError,
    >)
        requires
            old(self).depth() < i64::MAX,
        ensures
            appended(r, script_of(*old(builder)), script_of(*final(builder)), seq![Chunk::Data(data@)]),
            r is Ok ==> final(self).depth() == old(self).depth() + 1,
    {
        add_data(builder, data)?;
        self.stack_depth = self.stack_depth + 1;
        Ok(())
    }
}

impl ScriptEmitter {
    /// Appends the pieces in order.
    pub fn emit_all(&mut self, builder: &mut ScriptBuilder, items: &[Emit]) -> (r: Result<(), CompilerError>)
        requires
            depth_stays_in_range(old(self).depth(), items@),
        ensures
            appended(r, script_of(*old(builder)), script_of(*final(builder)), emit_chunks(items@)),
            r is Ok ==> final(self).depth() == old(self).depth() + emit_delta(items@),
    {
        let ghost s0 = script_of(*builder);
        let ghost d0 = self.depth();
        for i in 0..items.len()
            invariant
                s0 == script_of(*old(builder)),
                d0 == old(self).depth(),
                depth_stays_in_range(d0, items@),
                emits(s0, emit_chunks(items@.take(i as int))),
                script_of(*builder) == s0 + code_of(emit_chunks(items@.take(i as int))),
                self.depth() == d0 + emit_delta(items@.take(i as int)),
        {
            let ghost done = emit_chunks(items@.take(i as int));
            let ghost c = items@[i as int].chunk();
            let ghost s1 = script_of(*builder);
            assert(items@.take(i + 1).drop_last() == items@.take(i as int));
            assert(emit_chunks(items@.take(i + 1)) == done + seq![c]);
            assert(emit_chunks(items@) == done + seq![c] + emit_chunks(items@.skip(i + 1))) by {
                assert(items@ == items@.take(i + 1) + items@.skip(i + 1));
            }
            assert(i64::MIN <= d0 + emit_delta(items@.take(i + 1)) <= i64::MAX);
            let r = match &items[i] {
                Emit::Op(op, delta) => self.emit_op(builder, *op, *delta),
                Emit::Int(v) => self.push_int(builder, *v),
                Emit::Data(d) => self.push_data(builder, d.as_slice()),
            };
            proof {
                if r is Err {
                    lemma_refused_within(s0, done, seq![c], emit_chunks(items@.skip(i + 1)));
                } else {
                    lemma_appended_seq(s0, s1, script_of(*builder), done, seq![c], r);
                }
            }
            r?;
        }
        assert(items@.take(items@.len() as int) == items@);
        Ok(())
    }
}

/// A stack depth with room for the code that can still follow it: far from the limits of
/// `i64`, even after one push for every byte the script can still grow by.
pub open spec fn depth_room(depth: int, script: Seq<u8>) -> bool {
    let slack = if script.len() <= MAX_SCRIPTS_SIZE { MAX_SCRIPTS_SIZE - script.len() } else { 0 };
    -0x100_0000_0000 <= depth && depth + slack <= 0x100_0000_0000
}

/// Pieces that each move the depth by at most two keep a moderate depth in range.
pub proof fn lemma_small_deltas(depth: int, items: Seq<Emit>)
    requires
        -0x100_0000_0000 <= depth <= 0x100_0000_0000,
        items.len() <= 0x10_0000,
        forall|i: int| 0 <= i < items.len() ==> -2 <= #[trigger] items[i].delta() <= 2,
    ensures
        depth_stays_in_range(depth, items),
{
    assert forall|k: int| 0 <= k <= items.len() implies i64::MIN <= depth + #[trigger] emit_delta(
        items.take(k),
    ) <= i64::MAX by {
        lemma_delta_bound_pub(items, k);
    }
}

pub proof fn lemma_delta_bound_pub(items: Seq<Emit>, k: int)
    requires
        0 <= k <= items.len(),
        forall|i: int| 0 <= i < items.len() ==> -2 <= #[trigger] items[i].delta() <= 2,
    ensures
        -2 * k <= emit_delta(items.take(k)) <= 2 * k,
    decreases k,
{
    if k > 0 {
        lemma_delta_bound_pub(items, k - 1);
        assert(items.take(k).drop_last() == items.take(k - 1));
    }
}

} // verus!

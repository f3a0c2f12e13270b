//! The byte layout of a contract's encoded state: each field is a push chunk, the field's
//! canonical push header followed by its fixed-width payload, and the state region is the
//! chunks of all fields in declaration order.

use vstd::prelude::*;

use crate::error::{CompilerError, StateBuiltin};
use crate::push::{checked_add, checked_sub, data_prefix, header_len, lemma_header_len, pushable};
use crate::types::{fixed_type_size, spec_fixed_type_size, TypeRef, TypeRefV};

verus! {

/// A contract state field: its name and declared type.
#[derive(Debug)]
pub struct ContractFieldAst {
    pub name: String,
    pub type_ref: TypeRef,
}

/// Whether an executable size result is the given mathematical one.
pub open spec fn same_size_result(r: Result<usize, CompilerError>, s: Result<nat, CompilerError>) -> bool {
    match (r, s) {
        (Ok(n), Ok(m)) => n == m,
        (Err(e), Err(f)) => e == f,
        _ => false,
    }
}

/// The payload width of a state field of type `t`: its fixed size.
pub open spec fn spec_payload_len(t: TypeRefV) -> Result<nat, CompilerError> {
    match spec_fixed_type_size(t) {
        Ok(Some(n)) => Ok(n),
        Ok(None) => Err(CompilerError::UnsupportedFieldType(StateBuiltin::ReadInputState)),
        Err(e) => Err(e),
    }
}

/// The width of a field's whole chunk: push header plus payload.
pub open spec fn chunk_len(payload_len: nat) -> nat {
    header_len(payload_len) + payload_len
}

/// The chunk width of a state field of type `t`, with the errors its computation can meet.
pub open spec fn spec_chunk_size(t: TypeRefV) -> Result<nat, CompilerError> {
    match spec_payload_len(t) {
        Err(e) => Err(e),
        Ok(n) => if !pushable(n) {
            Err(CompilerError::PayloadTooLarge)
        } else if chunk_len(n) > usize::MAX {
            Err(CompilerError::ArithmeticOverflow)
        } else {
            Ok(chunk_len(n))
        },
    }
}

/// The length of the encoded state of fields of types `ts`, summed left to right with the
/// errors the summation can meet.
pub open spec fn spec_state_len(ts: Seq<TypeRefV>) -> Result<nat, CompilerError>
    decreases ts.len(),
{
    if ts.len() == 0 {
        Ok(0)
    } else {
        match spec_state_len(ts.drop_last()) {
            Err(e) => Err(e),
            Ok(acc) => match spec_chunk_size(ts.last()) {
                Err(e) => Err(e),
                Ok(c) => if acc + c > usize::MAX {
                    Err(CompilerError::ArithmeticOverflow)
                } else {
                    Ok(acc + c)
                },
            },
        }
    }
}

/// The declared types of a list of fields.
pub open spec fn field_types(fields: Seq<ContractFieldAst>) -> Seq<TypeRefV> {
    fields.map_values(|f: ContractFieldAst| f.type_ref@)
}

/// The types of a list of type references.
pub open spec fn type_views(ts: Seq<TypeRef>) -> Seq<TypeRefV> {
    ts.map_values(|t: TypeRef| t@)
}

/// The payload widths of fields of types `ts`, where each has one.
pub open spec fn payload_lens(ts: Seq<TypeRefV>) -> Seq<nat> {
    ts.map_values(|t: TypeRefV| spec_payload_len(t)->Ok_0)
}

/// Where the chunk of field `i` starts in a region of fields with payload widths `lens`.
pub open spec fn chunk_start(lens: Seq<nat>, i: int) -> nat
    decreases i,
{
    if i <= 0 {
        0
    } else {
        chunk_start(lens, i - 1) + chunk_len(lens[i - 1])
    }
}

/// The length of the whole region.
pub open spec fn region_len(lens: Seq<nat>) -> nat {
    chunk_start(lens, lens.len() as int)
}

/// Where the payload of field `i` starts.
pub open spec fn payload_start(lens: Seq<nat>, i: int) -> nat {
    chunk_start(lens, i) + header_len(lens[i])
}

pub fn fixed_state_payload_len(type_ref: &TypeRef) -> (r: Result<usize, CompilerError>)
    ensures
        same_size_result(r, spec_payload_len(type_ref@)),
{
    match fixed_type_size(type_ref)? {
        Some(n) => Ok(n),
        None => Err(CompilerError::UnsupportedFieldType(StateBuiltin::ReadInputState)),
    }
}

pub fn encoded_type_chunk_size(type_ref: &TypeRef) -> (r: Result<usize, CompilerError>)
    ensures
        same_size_result(r, spec_chunk_size(type_ref@)),
{
    let payload_size = fixed_state_payload_len(type_ref)?;
    let prefix_size = data_prefix(payload_size)?.len();
    proof {
        lemma_header_len(payload_size as nat);
    }
    checked_add(prefix_size, payload_size)
}

/// Once the left-to-right sum has failed, summing more fields fails the same way.
pub proof fn lemma_state_len_absorbs(ts: Seq<TypeRefV>, k: int)
    requires
        0 <= k <= ts.len(),
        spec_state_len(ts.take(k)) is Err,
    ensures
        spec_state_len(ts) == spec_state_len(ts.take(k)),
    decreases ts.len() - k,
{
    if k < ts.len() {
        assert(ts.take(k + 1).drop_last() == ts.take(k));
        lemma_state_len_absorbs(ts, k + 1);
    } else {
        assert(ts.take(k) == ts);
    }
}

/// One step of the left-to-right sum over a prefix.
pub proof fn lemma_state_len_step(ts: Seq<TypeRefV>, i: int)
    requires
        0 <= i < ts.len(),
    ensures
        spec_state_len(ts.take(i + 1)) == match spec_state_len(ts.take(i)) {
            Err(e) => Err(e),
            Ok(acc) => match spec_chunk_size(ts[i]) {
                Err(e) => Err(e),
                Ok(c) => if acc + c > usize::MAX {
                    Err(CompilerError::ArithmeticOverflow)
                } else {
                    Ok(acc + c)
                },
            },
        },
{
    assert(ts.take(i + 1).drop_last() == ts.take(i));
    assert(ts.take(i + 1).last() == ts[i]);
}

pub fn encoded_state_len_for_layout_field_types(layout_field_types: &[TypeRef]) -> (r: Result<
    usize,
    CompilerError,
>)
    ensures
        same_size_result(r, spec_state_len(type_views(layout_field_types@))),
{
    let ghost ts = type_views(layout_field_types@);
    let mut acc: usize = 0;
    for i in 0..layout_field_types.len()
        invariant
            ts == type_views(layout_field_types@),
            spec_state_len(ts.take(i as int)) == Ok::<nat, CompilerError>(acc as nat),
    {
        proof {
            lemma_state_len_step(ts, i as int);
        }
        let field_size = match encoded_type_chunk_size(&layout_field_types[i]) {
            Ok(n) => n,
            Err(e) => {
                proof {
                    lemma_state_len_absorbs(ts, i + 1);
                }
                return Err(e);
            },
        };
        acc = match checked_add(acc, field_size) {
            Ok(n) => n,
            Err(e) => {
                proof {
                    lemma_state_len_absorbs(ts, i + 1);
                }
                return Err(e);
            },
        };
    }
    assert(ts.take(layout_field_types.len() as int) == ts);
    Ok(acc)
}

pub fn encoded_state_len(contract_fields: &[ContractFieldAst]) -> (r: Result<usize, CompilerError>)
    ensures
        same_size_result(r, spec_state_len(field_types(contract_fields@))),
{
    let ghost ts = field_types(contract_fields@);
    let mut acc: usize = 0;
    for i in 0..contract_fields.len()
        invariant
            ts == field_types(contract_fields@),
            spec_state_len(ts.take(i as int)) == Ok::<nat, CompilerError>(acc as nat),
    {
        proof {
            lemma_state_len_step(ts, i as int);
        }
        let field_size = match encoded_type_chunk_size(&contract_fields[i].type_ref) {
            Ok(n) => n,
            Err(e) => {
                proof {
                    lemma_state_len_absorbs(ts, i + 1);
                }
                return Err(e);
            },
        };
        acc = match checked_add(acc, field_size) {
            Ok(n) => n,
            Err(e) => {
                proof {
                    lemma_state_len_absorbs(ts, i + 1);
                }
                return Err(e);
            },
        };
    }
    assert(ts.take(contract_fields.len() as int) == ts);
    Ok(acc)
}

/// Where the encoded state starts in a script whose state ends at `state_end`.
pub open spec fn spec_state_start_offset(state_end: nat, ts: Seq<TypeRefV>) -> Result<nat, CompilerError> {
    match spec_state_len(ts) {
        Err(e) => Err(e),
        Ok(len) => if len > state_end {
            Err(CompilerError::ArithmeticOverflow)
        } else {
            Ok((state_end - len) as nat)
        },
    }
}

pub fn state_start_offset(state_end: usize, contract_fields: &[ContractFieldAst]) -> (r: Result<
    usize,
    CompilerError,
>)
    ensures
        same_size_result(r, spec_state_start_offset(state_end as nat, field_types(contract_fields@))),
{
    let total_state_len = encoded_state_len(contract_fields)?;
    checked_sub(state_end, total_state_len)
}

/// A successful sum is the region length of the fields' payload widths: the chunks of the
/// fields laid end to end, each a push header followed by its payload.
pub proof fn lemma_state_len_is_region_len(ts: Seq<TypeRefV>)
    requires
        spec_state_len(ts) is Ok,
    ensures
        forall|i: int| 0 <= i < ts.len() ==> #[trigger] spec_chunk_size(ts[i]) is Ok,
        forall|i: int| 0 <= i < ts.len() ==> pushable(#[trigger] payload_lens(ts)[i]),
        spec_state_len(ts)->Ok_0 == region_len(payload_lens(ts)),
    decreases ts.len(),
{
    if ts.len() > 0 {
        let init = ts.drop_last();
        lemma_state_len_is_region_len(init);
        assert(payload_lens(init) == payload_lens(ts).drop_last());
        assert forall|i: int| 0 <= i < ts.len() implies #[trigger] spec_chunk_size(ts[i]) is Ok by {
            if i < ts.len() - 1 {
                assert(ts[i] == init[i]);
            }
        }
        assert forall|i: int| 0 <= i < ts.len() implies pushable(
            #[trigger] payload_lens(ts)[i],
        ) by {
            if i < ts.len() - 1 {
                assert(ts[i] == init[i]);
                assert(payload_lens(ts)[i] == payload_lens(init)[i]);
            }
        }
        lemma_chunk_start_prefix(payload_lens(ts), payload_lens(init), init.len() as int);
    }
}

/// Chunk starts depend only on the fields before them.
pub proof fn lemma_chunk_start_prefix(lens: Seq<nat>, prefix: Seq<nat>, i: int)
    requires
        0 <= i <= prefix.len() <= lens.len(),
        forall|j: int| 0 <= j < prefix.len() ==> prefix[j] == lens[j],
    ensures
        chunk_start(lens, i) == chunk_start(prefix, i),
    decreases i,
{
    if i > 0 {
        lemma_chunk_start_prefix(lens, prefix, i - 1);
    }
}

/// Chunk starts never decrease, and every chunk lies inside the region.
pub proof fn lemma_chunk_start_mono(lens: Seq<nat>, i: int, j: int)
    requires
        0 <= i <= j <= lens.len(),
    ensures
        chunk_start(lens, i) <= chunk_start(lens, j),
    decreases j - i,
{
    if i < j {
        lemma_chunk_start_mono(lens, i, j - 1);
    }
}

} // verus!

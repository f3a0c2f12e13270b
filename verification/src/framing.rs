//! What the state framing guard establishes.
//!
//! A state region is read at offsets fixed at compile time. The guard requires, for every
//! field, that the bytes at the field's chunk start equal the canonical push header for the
//! field's payload width. The laws below show that this is exactly enough: the canonical
//! encoding of any payloads passes and reads back as those payloads, and a region of the
//! state's length that passes is the canonical encoding of what the reads take out of it.

use vstd::prelude::*;

use crate::error::{CompilerError, StateBuiltin};
use crate::expr::ExprV;
use crate::layout::{
    chunk_len, chunk_start, lemma_chunk_start_mono, lemma_chunk_start_prefix, lemma_state_len_is_region_len,
    payload_lens, payload_start, region_len, spec_chunk_size, spec_payload_len, spec_state_len,
};
use crate::push::{header_len, lemma_header_len, push_header, pushable};
use crate::state::{field_read_expr, spec_read_field};
use crate::types::TypeRefV;

verus! {

/// The canonical encoding of a state with the given field payloads.
pub open spec fn encode_state(payloads: Seq<Seq<u8>>) -> Seq<u8>
    decreases payloads.len(),
{
    if payloads.len() == 0 {
        Seq::empty()
    } else {
        encode_state(payloads.drop_last()) + push_header(payloads.last().len()) + payloads.last()
    }
}

/// The payload widths of a list of payloads.
pub open spec fn lens_of(payloads: Seq<Seq<u8>>) -> Seq<nat> {
    payloads.map_values(|p: Seq<u8>| p.len())
}

/// Every width can be written in a push header.
pub open spec fn all_pushable(lens: Seq<nat>) -> bool {
    forall|i: int| 0 <= i < lens.len() ==> pushable(#[trigger] lens[i])
}

/// The guard's check of field `i`: the field's canonical header sits at its chunk start.
pub open spec fn header_pinned(region: Seq<u8>, lens: Seq<nat>, i: int) -> bool {
    let start = chunk_start(lens, i) as int;
    let end = start + header_len(lens[i]);
    &&& end <= region.len()
    &&& region.subrange(start, end) == push_header(lens[i])
}

/// Every field's header is pinned: the region passes the framing guard.
pub open spec fn framing_ok(region: Seq<u8>, lens: Seq<nat>) -> bool {
    forall|i: int| 0 <= i < lens.len() ==> #[trigger] header_pinned(region, lens, i)
}

/// What a constant-offset read of field `i` takes out of a region.
pub open spec fn read_field(region: Seq<u8>, lens: Seq<nat>, i: int) -> Seq<u8> {
    let start = payload_start(lens, i) as int;
    region.subrange(start, start + lens[i])
}

/// What constant-offset reads of every field take out of a region.
pub open spec fn read_fields(region: Seq<u8>, lens: Seq<nat>) -> Seq<Seq<u8>> {
    Seq::new(lens.len(), |i: int| read_field(region, lens, i))
}

/// Every chunk ends inside the region.
pub proof fn lemma_chunk_within_region(lens: Seq<nat>, i: int)
    requires
        0 <= i < lens.len(),
    ensures
        chunk_start(lens, i) + chunk_len(lens[i]) <= region_len(lens),
        chunk_start(lens, i + 1) == chunk_start(lens, i) + chunk_len(lens[i]),
{
    lemma_chunk_start_mono(lens, i + 1, lens.len() as int);
}

/// The canonical encoding of any payloads has the state's length, passes the framing
/// guard, and reads back, field by field, as exactly those payloads.
pub proof fn lemma_canonical_encoding_reads_back(payloads: Seq<Seq<u8>>)
    requires
        all_pushable(lens_of(payloads)),
    ensures
        encode_state(payloads).len() == region_len(lens_of(payloads)),
        framing_ok(encode_state(payloads), lens_of(payloads)),
        read_fields(encode_state(payloads), lens_of(payloads)) == payloads,
    decreases payloads.len(),
{
    let lens = lens_of(payloads);
    let n = payloads.len() as int;
    if n == 0 {
        assert(read_fields(encode_state(payloads), lens) == payloads);
    } else {
        let init = payloads.drop_last();
        let lens0 = lens_of(init);
        assert(lens0 == lens.drop_last());
        assert(all_pushable(lens0)) by {
            assert forall|i: int| 0 <= i < lens0.len() implies pushable(#[trigger] lens0[i]) by {
                assert(lens0[i] == lens[i]);
            }
        }
        lemma_canonical_encoding_reads_back(init);
        let e0 = encode_state(init);
        let last = payloads.last();
        let h = push_header(last.len());
        let e = encode_state(payloads);
        assert(e == e0 + h + last);
        lemma_header_len(last.len());
        lemma_chunk_start_prefix(lens, lens0, n - 1);
        assert(e0.len() == chunk_start(lens, n - 1));
        assert(lens[n - 1] == last.len());
        assert(e.len() == region_len(lens));
        assert forall|i: int| 0 <= i < n implies #[trigger] header_pinned(e, lens, i) by {
            if i < n - 1 {
                assert(header_pinned(e0, lens0, i));
                lemma_chunk_start_prefix(lens, lens0, i);
                lemma_chunk_within_region(lens0, i);
                assert(lens0[i] == lens[i]);
                let s0 = chunk_start(lens, i) as int;
                let s1 = s0 + header_len(lens[i]);
                assert(e.subrange(s0, s1) == e0.subrange(s0, s1));
            } else {
                let s0 = e0.len() as int;
                assert(e.subrange(s0, s0 + h.len()) == h);
            }
        }
        let r = read_fields(e, lens);
        assert forall|i: int| 0 <= i < n implies #[trigger] r[i] == payloads[i] by {
            if i < n - 1 {
                assert(read_fields(e0, lens0)[i] == init[i]);
                lemma_chunk_start_prefix(lens, lens0, i);
                lemma_chunk_within_region(lens0, i);
                assert(lens0[i] == lens[i]);
                assert(r[i] == read_field(e0, lens0, i));
            } else {
                let s0 = (e0.len() + h.len()) as int;
                assert(r[i] == e.subrange(s0, e.len() as int));
                assert(e.subrange(s0, e.len() as int) == last);
            }
        }
        assert(r == payloads);
    }
}

/// A region of the state's length that passes the framing guard is the canonical encoding
/// of the payloads that constant-offset reads take out of it. No other framing of those
/// bytes passes: a foreign input cannot widen one header and narrow another to move reads.
pub proof fn lemma_framing_guard_forces_canonical(region: Seq<u8>, lens: Seq<nat>)
    requires
        all_pushable(lens),
        framing_ok(region, lens),
        region.len() == region_len(lens),
    ensures
        lens_of(read_fields(region, lens)) == lens,
        region == encode_state(read_fields(region, lens)),
    decreases lens.len(),
{
    let n = lens.len() as int;
    let reads = read_fields(region, lens);
    assert forall|i: int| 0 <= i < n implies #[trigger] reads[i].len() == lens[i] by {
        lemma_chunk_within_region(lens, i);
    }
    assert(lens_of(reads) == lens);
    if n == 0 {
        assert(region == encode_state(reads));
    } else {
        let lens0 = lens.drop_last();
        let start = region_len(lens0) as int;
        lemma_chunk_start_prefix(lens, lens0, n - 1);
        lemma_chunk_within_region(lens, n - 1);
        let prefix = region.take(start);
        assert(all_pushable(lens0)) by {
            assert forall|i: int| 0 <= i < lens0.len() implies pushable(#[trigger] lens0[i]) by {
                assert(lens0[i] == lens[i]);
            }
        }
        assert forall|i: int| 0 <= i < lens0.len() implies #[trigger] header_pinned(
            prefix,
            lens0,
            i,
        ) by {
            assert(header_pinned(region, lens, i));
            lemma_chunk_start_prefix(lens, lens0, i);
            lemma_chunk_within_region(lens0, i);
            assert(lens0[i] == lens[i]);
            let s0 = chunk_start(lens, i) as int;
            let s1 = s0 + header_len(lens[i]);
            assert(prefix.subrange(s0, s1) == region.subrange(s0, s1));
        }
        lemma_framing_guard_forces_canonical(prefix, lens0);
        let reads0 = read_fields(prefix, lens0);
        assert forall|i: int| 0 <= i < lens0.len() implies #[trigger] reads0[i] == reads[i] by {
            lemma_chunk_start_prefix(lens, lens0, i);
            lemma_chunk_within_region(lens0, i);
            assert(lens0[i] == lens[i]);
        }
        assert(reads0 == reads.drop_last());
        assert(header_pinned(region, lens, n - 1));
        let h = push_header(lens[n - 1]);
        lemma_header_len(lens[n - 1]);
        let mid = start + h.len();
        assert(region.subrange(start, mid) == h);
        assert(reads.last() == region.subrange(mid, region.len() as int));
        assert(region == prefix + region.subrange(start, mid) + region.subrange(
            mid,
            region.len() as int,
        ));
        assert(encode_state(reads) == encode_state(reads.drop_last()) + push_header(
            reads.last().len(),
        ) + reads.last());
    }
}

/// A successful state length fits in `usize`.
pub proof fn lemma_state_len_fits(ts: Seq<TypeRefV>)
    requires
        spec_state_len(ts) is Ok,
    ensures
        spec_state_len(ts)->Ok_0 <= usize::MAX,
{
}

/// Reads land on the bytes the guard pins. For fields whose state length is computed
/// without error, the read of field `i`, taken at the field's chunk start, is the
/// `lens[i]`-byte substring at the payload start of the field in the layout (the bytes
/// `read_field` names), and the next field's chunk starts where this chunk ends.
pub proof fn lemma_read_lands_on_payload(
    input_idx: ExprV,
    ts: Seq<TypeRefV>,
    i: int,
    state_start: ExprV,
    base: ExprV,
    builtin: StateBuiltin,
)
    requires
        spec_state_len(ts) is Ok,
        0 <= i < ts.len(),
        !(ts[i].base is Custom),
    ensures
        spec_read_field(input_idx, ts[i], state_start, chunk_start(payload_lens(ts), i), base, builtin) == Ok::<ExprV, CompilerError>(
            field_read_expr(
                input_idx,
                ts[i],
                state_start,
                base,
                payload_start(payload_lens(ts), i),
                payload_lens(ts)[i],
            ),
        ),
        spec_chunk_size(ts[i]) == Ok::<nat, CompilerError>(chunk_len(payload_lens(ts)[i])),
        chunk_start(payload_lens(ts), i + 1) == chunk_start(payload_lens(ts), i) + chunk_len(payload_lens(ts)[i]),
{
    let lens = payload_lens(ts);
    lemma_state_len_is_region_len(ts);
    lemma_state_len_fits(ts);
    lemma_chunk_within_region(lens, i);
    assert(spec_chunk_size(ts[i]) is Ok);
    assert(spec_payload_len(ts[i]) is Ok);
    assert(lens[i] == spec_payload_len(ts[i])->Ok_0);
    assert(pushable(lens[i]));
}

} // verus!

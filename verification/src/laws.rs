//! General laws of the decoder, stated over the mathematical account and
//! proved once and for all: locality of a field decode, the concatenation and
//! truncation laws of message decoding, and the shape of every single-field
//! decode per wire type.

use vstd::prelude::*;
use crate::bytes::{be32_at, be32_bytes, be64_at, be64_bytes, lemma_be32_round_trip,
    lemma_be64_round_trip};
use crate::decode::{lemma_part_bounds, lossy_utf8, spec_decode_msg, spec_decode_part};
use crate::model::{SpecPart, SpecValue};
use crate::varint::{lemma_varint_res_bounds, lemma_varint_round_trip, lemma_varint_skip,
    lemma_varint_extend, varint_encode, varint_res};

verus! {

/// The same field, seen from a buffer whose start lies `d` bytes earlier: its
/// recorded value offset moves by `d`, nothing else changes (children of a
/// nested message keep payload-relative offsets).
pub open spec fn shift_part(g: SpecPart, d: int) -> SpecPart {
    SpecPart { index: g.index, offset: g.offset + d, value: g.value }
}

/// `shift_part` applied to each field of a sequence.
pub open spec fn shift_parts(gs: Seq<SpecPart>, d: int) -> Seq<SpecPart> {
    gs.map_values(|g: SpecPart| shift_part(g, d))
}

/// Locality of a field decode: decoding at `pos` in `s` is decoding at
/// `pos - k` in `s` with its first `k` bytes dropped, with the offset and end
/// position shifted by `k`.
pub proof fn lemma_part_skip(s: Seq<u8>, k: int, pos: int)
    requires
        0 <= k <= pos,
        k <= s.len(),
    ensures
        spec_decode_part(s, pos) == match spec_decode_part(s.skip(k), pos - k) {
            None => None::<(SpecPart, int)>,
            Some((g, m)) => Some((shift_part(g, k), m + k)),
        },
{
    let t = s.skip(k);
    lemma_varint_skip(s, k, pos);
    match varint_res(t, pos - k) {
        None => {},
        Some((tag, q1)) => {
            lemma_varint_res_bounds(t, pos - k);
            let p1 = q1 + k;
            let wt = tag as int % 8;
            if wt == 0 {
                lemma_varint_skip(s, k, p1);
            } else if wt == 1 {
                if q1 + 8 <= t.len() {
                    assert(s[p1] == t[q1]);
                    assert(s[p1 + 1] == t[q1 + 1]);
                    assert(s[p1 + 2] == t[q1 + 2]);
                    assert(s[p1 + 3] == t[q1 + 3]);
                    assert(s[p1 + 4] == t[q1 + 4]);
                    assert(s[p1 + 5] == t[q1 + 5]);
                    assert(s[p1 + 6] == t[q1 + 6]);
                    assert(s[p1 + 7] == t[q1 + 7]);
                    assert(be64_at(s, p1) == be64_at(t, q1));
                }
            } else if wt == 2 {
                lemma_varint_skip(s, k, p1);
                match varint_res(t, q1) {
                    None => {},
                    Some((len, q2)) => {
                        let p2 = q2 + k;
                        if pos - k < q2 && q2 + len <= t.len() {
                            assert(s.subrange(p2, p2 + len) =~= t.subrange(q2, q2 + len));
                        }
                    },
                }
            } else if wt == 5 {
                if q1 + 4 <= t.len() {
                    assert(s[p1] == t[q1]);
                    assert(s[p1 + 1] == t[q1 + 1]);
                    assert(s[p1 + 2] == t[q1 + 2]);
                    assert(s[p1 + 3] == t[q1 + 3]);
                    assert(be32_at(s, p1) == be32_at(t, q1));
                }
            }
        },
    }
}

/// Locality of a message decode: the fields found from `pos` on are the
/// fields of the suffix, their offsets shifted by the bytes dropped.
pub proof fn lemma_msg_skip(s: Seq<u8>, k: int, pos: int)
    requires
        0 <= k <= pos,
        k <= s.len(),
    ensures
        spec_decode_msg(s, pos) == ({
            let m = spec_decode_msg(s.skip(k), pos - k);
            (shift_parts(m.0, k), m.1 + k)
        }),
    decreases s.len() - pos,
{
    let t = s.skip(k);
    if pos >= s.len() {
        assert(shift_parts(Seq::empty(), k) =~= Seq::<SpecPart>::empty());
    } else {
        lemma_part_skip(s, k, pos);
        match spec_decode_part(t, pos - k) {
            None => {
                assert(shift_parts(Seq::empty(), k) =~= Seq::<SpecPart>::empty());
            },
            Some((g, m)) => {
                lemma_part_bounds(t, pos - k);
                lemma_msg_skip(s, k, m + k);
                let rest = spec_decode_msg(t, m);
                assert(shift_parts(seq![g] + rest.0, k) =~= seq![shift_part(g, k)]
                    + shift_parts(rest.0, k));
            },
        }
    }
}

/// A successful field decode is unaffected by bytes appended after the
/// buffer: it reads only bytes it consumed.
pub proof fn lemma_part_extend(s: Seq<u8>, t: Seq<u8>, pos: int)
    requires
        spec_decode_part(s, pos) is Some,
    ensures
        spec_decode_part(s + t, pos) == spec_decode_part(s, pos),
{
    let c = s + t;
    lemma_part_bounds(s, pos);
    lemma_varint_extend(s, t, pos);
    let (tag, p1) = varint_res(s, pos)->Some_0;
    lemma_varint_res_bounds(s, pos);
    let wt = tag as int % 8;
    if wt == 0 {
        lemma_varint_extend(s, t, p1);
    } else if wt == 1 {
        assert(c[p1] == s[p1]);
        assert(c[p1 + 1] == s[p1 + 1]);
        assert(c[p1 + 2] == s[p1 + 2]);
        assert(c[p1 + 3] == s[p1 + 3]);
        assert(c[p1 + 4] == s[p1 + 4]);
        assert(c[p1 + 5] == s[p1 + 5]);
        assert(c[p1 + 6] == s[p1 + 6]);
        assert(c[p1 + 7] == s[p1 + 7]);
        assert(be64_at(c, p1) == be64_at(s, p1));
    } else if wt == 2 {
        lemma_varint_extend(s, t, p1);
        let (len, p2) = varint_res(s, p1)->Some_0;
        lemma_varint_res_bounds(s, p1);
        assert(c.subrange(p2, p2 + len) =~= s.subrange(p2, p2 + len));
    } else if wt == 5 {
        assert(c[p1] == s[p1]);
        assert(c[p1 + 1] == s[p1 + 1]);
        assert(c[p1 + 2] == s[p1 + 2]);
        assert(c[p1 + 3] == s[p1 + 3]);
        assert(be32_at(c, p1) == be32_at(s, p1));
    }
}

/// One complete field encoding in front of more bytes: the field decodes
/// first, then the rest decodes as it would alone, shifted past the field.
pub proof fn lemma_msg_prepend(a: Seq<u8>, b: Seq<u8>, g: SpecPart)
    requires
        spec_decode_part(a, 0) == Some((g, a.len() as int)),
    ensures
        spec_decode_msg(a + b, 0) == ({
            let m = spec_decode_msg(b, 0);
            (seq![g] + shift_parts(m.0, a.len() as int), m.1 + a.len())
        }),
{
    let c = a + b;
    lemma_part_bounds(a, 0);
    lemma_part_extend(a, b, 0);
    lemma_msg_skip(c, a.len() as int, a.len() as int);
    assert(c.skip(a.len() as int) =~= b);
}

/// Concatenation law: the concatenation of complete single-field encodings
/// decodes to exactly those fields, in order, with nothing left over.
pub proof fn lemma_concat_fields(blocks: Seq<Seq<u8>>, gparts: Seq<SpecPart>)
    requires
        blocks.len() == gparts.len(),
        forall|i: int|
            0 <= i < blocks.len() ==> spec_decode_part(#[trigger] blocks[i], 0) == Some(
                (gparts[i], blocks[i].len() as int),
            ),
    ensures
        ({
            let m = spec_decode_msg(blocks.flatten(), 0);
            &&& m.0.len() == blocks.len()
            &&& m.1 == blocks.flatten().len()
            &&& forall|i: int|
                0 <= i < blocks.len() ==> (#[trigger] m.0[i]).index == gparts[i].index
                    && m.0[i].value == gparts[i].value
        }),
    decreases blocks.len(),
{
    if blocks.len() == 0 {
        assert(blocks.flatten() =~= Seq::<u8>::empty());
    } else {
        let a = blocks[0];
        let rest = blocks.drop_first();
        let grest = gparts.drop_first();
        assert forall|i: int| 0 <= i < rest.len() implies spec_decode_part(
            #[trigger] rest[i],
            0,
        ) == Some((grest[i], rest[i].len() as int)) by {
            assert(rest[i] == blocks[i + 1]);
            assert(grest[i] == gparts[i + 1]);
        }
        lemma_concat_fields(rest, grest);
        lemma_msg_prepend(a, rest.flatten(), gparts[0]);
        let mrest = spec_decode_msg(rest.flatten(), 0);
        let m = spec_decode_msg(blocks.flatten(), 0);
        assert(blocks.flatten() == a + rest.flatten());
        assert forall|i: int| 0 <= i < blocks.len() implies (#[trigger] m.0[i]).index
            == gparts[i].index && m.0[i].value == gparts[i].value by {
            if i > 0 {
                assert(m.0[i] == shift_parts(mrest.0, a.len() as int)[i - 1]);
                assert(shift_parts(mrest.0, a.len() as int)[i - 1] == shift_part(
                    mrest.0[i - 1],
                    a.len() as int,
                ));
                assert(grest[i - 1] == gparts[i]);
            }
        }
    }
}

/// Truncation law, generalised over the resume position: while a prefix
/// decodes to its end and the appended tail cannot begin a field, decoding
/// the combined buffer finds the prefix's fields and stops at the boundary.
proof fn lemma_truncation_from(p: Seq<u8>, g: Seq<u8>, pos: int)
    requires
        0 <= pos <= p.len(),
        spec_decode_msg(p, pos).1 == p.len(),
        spec_decode_part(g, 0) is None,
    ensures
        spec_decode_msg(p + g, pos) == (spec_decode_msg(p, pos).0, p.len() as int),
    decreases p.len() - pos,
{
    let c = p + g;
    if pos == p.len() {
        if pos < c.len() {
            lemma_part_skip(c, pos, pos);
            assert(c.skip(pos) =~= g);
        }
    } else {
        let (q, m) = spec_decode_part(p, pos)->Some_0;
        lemma_part_bounds(p, pos);
        lemma_part_extend(p, g, pos);
        lemma_truncation_from(p, g, m);
    }
}

/// Truncation law: decoding a fully-decodable prefix followed by a tail that
/// cannot begin a field returns the prefix's fields, stops at the boundary,
/// and leaves the tail byte-identical as leftover.
pub proof fn lemma_truncation(p: Seq<u8>, g: Seq<u8>)
    requires
        spec_decode_msg(p, 0).1 == p.len(),
        spec_decode_part(g, 0) is None,
    ensures
        spec_decode_msg(p + g, 0) == (spec_decode_msg(p, 0).0, p.len() as int),
        (p + g).skip(p.len() as int) == g,
{
    lemma_truncation_from(p, g, 0);
    assert((p + g).skip(p.len() as int) =~= g);
}

/// A single varint field: tag `idx * 8` (wire type 0) followed by an encoded
/// value decodes to one field numbered `idx` holding that varint value, the
/// value offset just past the tag, consuming everything.
pub proof fn lemma_single_varint_field(idx: u64, v: u64)
    requires
        idx <= 0x1fff_ffff_ffff_ffff,
    ensures
        ({
            let e0 = varint_encode((idx * 8) as u64);
            let s = e0 + varint_encode(v);
            spec_decode_part(s, 0) == Some(
                (
                    SpecPart { index: idx, offset: e0.len() as int, value: SpecValue::VarInt(v) },
                    s.len() as int,
                ),
            )
        }),
{
    let tag = (idx * 8) as u64;
    let e0 = varint_encode(tag);
    let e1 = varint_encode(v);
    let s = e0 + e1;
    lemma_varint_round_trip(tag, e1);
    lemma_varint_skip(s, e0.len() as int, e0.len() as int);
    assert(s.skip(e0.len() as int) =~= e1);
    lemma_varint_round_trip(v, Seq::empty());
    assert(e1 + Seq::<u8>::empty() =~= e1);
}

/// A single 32-bit field: tag `idx * 8 + 5` followed by four big-endian bytes
/// decodes to one field numbered `idx` holding that value.
pub proof fn lemma_single_fixed32_field(idx: u64, v: u32)
    requires
        idx <= 0x1fff_ffff_ffff_ffff,
    ensures
        ({
            let e0 = varint_encode((idx * 8 + 5) as u64);
            let s = e0 + be32_bytes(v);
            spec_decode_part(s, 0) == Some(
                (
                    SpecPart { index: idx, offset: e0.len() as int, value: SpecValue::Fixed32(v) },
                    s.len() as int,
                ),
            )
        }),
{
    let tag = (idx * 8 + 5) as u64;
    let e0 = varint_encode(tag);
    let s = e0 + be32_bytes(v);
    lemma_varint_round_trip(tag, be32_bytes(v));
    assert(s.subrange(e0.len() as int, e0.len() as int + 4) =~= be32_bytes(v));
    lemma_be32_round_trip(v, s, e0.len() as int);
}

/// A single 64-bit field: tag `idx * 8 + 1` followed by eight big-endian
/// bytes decodes to one field numbered `idx` holding that value.
pub proof fn lemma_single_fixed64_field(idx: u64, v: u64)
    requires
        idx <= 0x1fff_ffff_ffff_ffff,
    ensures
        ({
            let e0 = varint_encode((idx * 8 + 1) as u64);
            let s = e0 + be64_bytes(v);
            spec_decode_part(s, 0) == Some(
                (
                    SpecPart { index: idx, offset: e0.len() as int, value: SpecValue::Fixed64(v) },
                    s.len() as int,
                ),
            )
        }),
{
    let tag = (idx * 8 + 1) as u64;
    let e0 = varint_encode(tag);
    let s = e0 + be64_bytes(v);
    lemma_varint_round_trip(tag, be64_bytes(v));
    assert(s.subrange(e0.len() as int, e0.len() as int + 8) =~= be64_bytes(v));
    lemma_be64_round_trip(v, s, e0.len() as int);
}

/// A single length-delimited field, and the nested-versus-string
/// classification: tag `idx * 8 + 2`, the payload length as a varint, then
/// the payload. It decodes to one field numbered `idx`; the value is nested
/// fields exactly when the payload is non-empty and decodes as a message with
/// nothing left over, and otherwise the payload's lossy text. An empty
/// payload is always the empty string.
pub proof fn lemma_single_len_field(idx: u64, payload: Seq<u8>)
    requires
        idx <= 0x1fff_ffff_ffff_ffff,
        payload.len() <= u64::MAX,
    ensures
        ({
            let e0 = varint_encode((idx * 8 + 2) as u64);
            let e1 = varint_encode(payload.len() as u64);
            let s = e0 + e1 + payload;
            let off = e0.len() + e1.len();
            let m = spec_decode_msg(payload, 0);
            let value = if payload.len() > 0 && m.1 == payload.len() {
                SpecValue::Parts(m.0)
            } else {
                SpecValue::String(lossy_utf8(payload))
            };
            spec_decode_part(s, 0) == Some(
                (SpecPart { index: idx, offset: off as int, value }, s.len() as int),
            )
        }),
{
    let tag = (idx * 8 + 2) as u64;
    let e0 = varint_encode(tag);
    let e1 = varint_encode(payload.len() as u64);
    let s = e0 + e1 + payload;
    assert(s =~= e0 + (e1 + payload));
    lemma_varint_round_trip(tag, e1 + payload);
    lemma_varint_skip(s, e0.len() as int, e0.len() as int);
    assert(s.skip(e0.len() as int) =~= e1 + payload);
    lemma_varint_round_trip(payload.len() as u64, payload);
    let off = e0.len() + e1.len();
    assert(s.subrange(off as int, off as int + payload.len() as int) =~= payload);
}

} // verus!


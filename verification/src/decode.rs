//! The field and message decoders.
//!
//! `spec_decode_part` and `spec_decode_msg` are the mathematical account of
//! decoding: one field at a position, and the greedy loop that decodes fields
//! until the bytes run out or a field fails. The executable `decode_proto`,
//! `decode_fields` and `decode_part` are proved to produce exactly what that
//! account says.

use vstd::prelude::*;
use crate::bytes::{be32_at, be64_at};
use crate::model::{
    parts_reflect_at, part_reflects, DecodeErr, ProtoPart, ProtoValue, SpecPart, SpecValue,
};
use crate::reader::{framing_len, ProtoBufReader};
use crate::varint::{lemma_varint_res_bounds, varint_res};

verus! {

/// The characters `String::from_utf8_lossy` produces for these bytes: a pure
/// function of the bytes, named rather than spelled out.
pub uninterp spec fn lossy_utf8(bytes: Seq<u8>) -> Seq<char>;

/// Relies on `String::from_utf8_lossy`: its result depends on the bytes alone
/// (valid UTF-8 passes through; invalid sequences become replacement
/// characters).
#[verifier::external_body]
fn lossy_string(bytes: &[u8]) -> (r: String)
    ensures
        r@ == lossy_utf8(bytes@),
{
    String::from_utf8_lossy(bytes).into_owned()
}

/// Decoding one field at `pos`: read a tag varint, split it into field number
/// (`tag / 8`) and wire type (`tag % 8`), then read the value the wire type
/// calls for. A length-delimited payload becomes nested fields exactly when it
/// is non-empty and re-decoding it as a message consumes it completely;
/// otherwise it becomes a string. `None` on truncation or an unsupported wire
/// type.
pub open spec fn spec_decode_part(s: Seq<u8>, pos: int) -> Option<(SpecPart, int)>
    decreases s.len() - pos, 0int,
{
    match varint_res(s, pos) {
        None => None,
        Some((tag, p1)) => {
            let wt = tag % 8;
            let idx = (tag / 8) as u64;
            if wt == 0 {
                match varint_res(s, p1) {
                    None => None,
                    Some((v, p2)) => Some(
                        (SpecPart { index: idx, offset: p1, value: SpecValue::VarInt(v) }, p2),
                    ),
                }
            } else if wt == 1 {
                if p1 + 8 <= s.len() {
                    Some(
                        (
                            SpecPart {
                                index: idx,
                                offset: p1,
                                value: SpecValue::Fixed64(be64_at(s, p1)),
                            },
                            p1 + 8,
                        ),
                    )
                } else {
                    None
                }
            } else if wt == 2 {
                match varint_res(s, p1) {
                    None => None,
                    Some((len, p2)) => {
                        if pos < p2 && p2 + len <= s.len() {
                            let payload = s.subrange(p2, p2 + len);
                            let m = spec_decode_msg(payload, 0);
                            let value = if len > 0 && m.1 == payload.len() {
                                SpecValue::Parts(m.0)
                            } else {
                                SpecValue::String(lossy_utf8(payload))
                            };
                            Some((SpecPart { index: idx, offset: p2, value }, p2 + len))
                        } else {
                            None
                        }
                    },
                }
            } else if wt == 5 {
                if p1 + 4 <= s.len() {
                    Some(
                        (
                            SpecPart {
                                index: idx,
                                offset: p1,
                                value: SpecValue::Fixed32(be32_at(s, p1)),
                            },
                            p1 + 4,
                        ),
                    )
                } else {
                    None
                }
            } else {
                None
            }
        },
    }
}

/// Decoding a message at `pos`: fields decoded one after another until the
/// bytes run out or a field fails, together with the position where decoding
/// stopped. Everything from that position on is the leftover.
pub open spec fn spec_decode_msg(s: Seq<u8>, pos: int) -> (Seq<SpecPart>, int)
    decreases s.len() - pos, 1int,
{
    if pos < 0 || pos >= s.len() {
        (Seq::empty(), pos)
    } else {
        match spec_decode_part(s, pos) {
            None => (Seq::empty(), pos),
            Some((p, m)) => if pos < m <= s.len() {
                let rest = spec_decode_msg(s, m);
                (seq![p] + rest.0, rest.1)
            } else {
                (Seq::empty(), pos)
            },
        }
    }
}

/// Which error a failed field decode reports: an unsupported wire type when
/// the tag itself was readable, a truncation error otherwise.
pub open spec fn spec_decode_err(s: Seq<u8>, pos: int) -> DecodeErr {
    match varint_res(s, pos) {
        None => DecodeErr::IOErr,
        Some((tag, p1)) => {
            let wt = tag % 8;
            if wt == 0 || wt == 1 || wt == 2 || wt == 5 {
                DecodeErr::IOErr
            } else {
                DecodeErr::UnknownType
            }
        },
    }
}

/// A successful field decode starts at a valid position, ends strictly past
/// it, stays within the buffer, and records a value offset inside the
/// consumed range.
pub proof fn lemma_part_bounds(s: Seq<u8>, pos: int)
    requires
        spec_decode_part(s, pos) is Some,
    ensures
        0 <= pos,
        pos < spec_decode_part(s, pos)->Some_0.1 <= s.len(),
        pos < spec_decode_part(s, pos)->Some_0.0.offset <= spec_decode_part(s, pos)->Some_0.1,
{
    lemma_varint_res_bounds(s, pos);
    let (tag, p1) = varint_res(s, pos)->Some_0;
    let wt = tag as int % 8;
    if wt == 0 {
        lemma_varint_res_bounds(s, p1);
    } else if wt == 2 {
        lemma_varint_res_bounds(s, p1);
    }
}

/// Decode one field where the cursor stands: exactly `spec_decode_part` at
/// that position, or the error `spec_decode_err` names when that is `None`.
fn decode_part<'a>(reader: &mut ProtoBufReader<'a>) -> (r: Result<ProtoPart, DecodeErr>)
    requires
        old(reader).wf(),
    ensures
        final(reader).wf(),
        final(reader).buf == old(reader).buf,
        final(reader).checkpoint == old(reader).checkpoint,
        match r {
            Ok(p) => spec_decode_part(old(reader).buf@, old(reader).pos as int) matches Some(gm)
                && part_reflects(p, gm.0) && final(reader).pos as int == gm.1,
            Err(e) => spec_decode_part(old(reader).buf@, old(reader).pos as int) is None && e
                == spec_decode_err(old(reader).buf@, old(reader).pos as int),
        },
    decreases old(reader).buf@.len(), 0int,
{
    let ghost s = reader.buf@;
    let ghost p0 = reader.pos as int;
    let tag = match reader.read_varint() {
        Ok(t) => t,
        Err(e) => {
            return Err(e);
        },
    };
    proof {
        lemma_varint_res_bounds(s, p0);
        assert(tag & 0x7 == tag % 8) by (bit_vector);
        assert(tag >> 3 == tag / 8) by (bit_vector);
    }
    let wt = tag & 0x7;
    let index = tag >> 3;
    let ghost p1 = reader.pos as int;
    if wt == 0 {
        let offset = reader.pos();
        let value = match reader.read_varint() {
            Ok(v) => v,
            Err(e) => {
                return Err(e);
            },
        };
        Ok(ProtoPart::new(index, offset, ProtoValue::VarInt(value)))
    } else if wt == 2 {
        let length = match reader.read_varint() {
            Ok(l) => l,
            Err(e) => {
                return Err(e);
            },
        };
        proof {
            lemma_varint_res_bounds(s, p1);
        }
        let remaining = reader.buf.len() - reader.pos;
        if length > remaining as u64 {
            return Err(DecodeErr::IOErr);
        }
        let offset = reader.pos();
        let payload = reader.read_bytes(length as usize);
        let mut sub = ProtoBufReader::new(payload.as_slice());
        let children = decode_fields(&mut sub);
        let fully_consumed = sub.remaining_bytes().len() == 0;
        if payload.len() > 0 && fully_consumed {
            Ok(ProtoPart::new(index, offset, ProtoValue::Parts(children)))
        } else {
            let text = lossy_string(payload.as_slice());
            Ok(ProtoPart::new(index, offset, ProtoValue::String(text)))
        }
    } else if wt == 5 {
        let offset = reader.pos();
        let value = match reader.read_u32_be() {
            Ok(v) => v,
            Err(e) => {
                return Err(e);
            },
        };
        Ok(ProtoPart::new(index, offset, ProtoValue::Fixed32(value)))
    } else if wt == 1 {
        let offset = reader.pos();
        let value = match reader.read_u64_be() {
            Ok(v) => v,
            Err(e) => {
                return Err(e);
            },
        };
        Ok(ProtoPart::new(index, offset, ProtoValue::Fixed64(value)))
    } else {
        Err(DecodeErr::UnknownType)
    }
}

/// Decode fields from the cursor onward, checkpointing before each attempt;
/// the first failure rewinds to its checkpoint and stops. The cursor ends
/// exactly where `spec_decode_msg` says decoding stops.
fn decode_fields<'a>(reader: &mut ProtoBufReader<'a>) -> (parts: Vec<ProtoPart>)
    requires
        old(reader).wf(),
    ensures
        final(reader).wf(),
        final(reader).buf == old(reader).buf,
        ({
            let m = spec_decode_msg(old(reader).buf@, old(reader).pos as int);
            parts_reflect_at(parts@, m.0) && final(reader).pos as int == m.1
        }),
    decreases old(reader).buf@.len(), 1int,
{
    let ghost s = reader.buf@;
    let ghost p0 = reader.pos as int;
    let ghost total = spec_decode_msg(s, p0);
    let mut parts: Vec<ProtoPart> = Vec::new();
    let ghost mut done: Seq<SpecPart> = Seq::empty();
    loop
        invariant
            reader.wf(),
            reader.buf == old(reader).buf,
            s == reader.buf@,
            p0 == old(reader).pos as int,
            p0 <= reader.pos as int <= s.len(),
            total == spec_decode_msg(s, p0),
            parts_reflect_at(parts@, done),
            total.0 == done + spec_decode_msg(s, reader.pos as int).0,
            total.1 == spec_decode_msg(s, reader.pos as int).1,
        ensures
            reader.wf(),
            reader.buf == old(reader).buf,
            parts_reflect_at(parts@, total.0),
            reader.pos as int == total.1,
        decreases s.len() - reader.pos,
    {
        if reader.remaining_bytes().len() == 0 {
            proof {
                assert(done + spec_decode_msg(s, reader.pos as int).0 =~= done);
            }
            break;
        }
        let ghost pre = reader.pos as int;
        reader.checkpoint();
        match decode_part(reader) {
            Ok(part) => {
                proof {
                    lemma_part_bounds(s, pre);
                    let (g, m) = spec_decode_part(s, pre)->Some_0;
                    assert(spec_decode_msg(s, pre) == (
                        seq![g] + spec_decode_msg(s, m).0,
                        spec_decode_msg(s, m).1,
                    ));
                    assert(done + (seq![g] + spec_decode_msg(s, m).0) =~= done.push(g)
                        + spec_decode_msg(s, m).0);
                    done = done.push(g);
                }
                parts.push(part);
            },
            Err(_) => {
                reader.reset_checkpoint();
                proof {
                    assert(spec_decode_msg(s, pre) == (Seq::<SpecPart>::empty(), pre));
                    assert(done + spec_decode_msg(s, pre).0 =~= done);
                }
                break;
            },
        }
    }
    parts
}

/// Decode an entire buffer: skip an optional framing header, then decode
/// fields greedily. Returns the decoded fields and the untouched tail; the
/// whole operation never fails, whatever the bytes hold.
pub fn decode_proto<'a>(buffer: &'a [u8]) -> (r: (Vec<ProtoPart>, &'a [u8]))
    ensures
        ({
            let m = spec_decode_msg(buffer@, framing_len(buffer@));
            parts_reflect_at(r.0@, m.0) && r.1@ == buffer@.subrange(m.1, buffer@.len() as int)
        }),
{
    let mut reader = ProtoBufReader::new(buffer);
    reader.skip_grpc_header();
    let parts = decode_fields(&mut reader);
    let leftover = reader.remaining_bytes();
    (parts, leftover)
}

} // verus!

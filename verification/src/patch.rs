//! The best-effort byte-patch helper: overwrite a previously decoded field's
//! value bytes, in place, in a caller-owned copy of the original buffer.
//!
//! Deliberately unsafe as a rewriting tool: fixed-width and varint values are
//! written as full-width big-endian words, a string's bytes are written as
//! they are, and no length prefix or later offset is adjusted. Replacing a
//! length-delimited value with content of another length corrupts everything
//! after it.

use vstd::prelude::*;
use vstd::utf8::encode_utf8;
use crate::bytes::{be32_bytes, be64_bytes, splice};
use crate::model::{DecodeErr, ProtoPart, ProtoValue};

verus! {

/// Two values of the same kind: the patch helper only accepts a replacement
/// of the same variant as the decoded value it overwrites.
pub open spec fn same_variant(a: ProtoValue, b: ProtoValue) -> bool {
    match (a, b) {
        (ProtoValue::Fixed32(_), ProtoValue::Fixed32(_)) => true,
        (ProtoValue::Fixed64(_), ProtoValue::Fixed64(_)) => true,
        (ProtoValue::String(_), ProtoValue::String(_)) => true,
        (ProtoValue::VarInt(_), ProtoValue::VarInt(_)) => true,
        (ProtoValue::Parts(_), ProtoValue::Parts(_)) => true,
        _ => false,
    }
}

/// The bytes the patch helper lays down for a replacement value: eight
/// big-endian bytes for a varint or 64-bit value, four for a 32-bit value,
/// the UTF-8 bytes for a string.
pub open spec fn patch_bytes(v: ProtoValue) -> Seq<u8> {
    match v {
        ProtoValue::Fixed32(x) => be32_bytes(x),
        ProtoValue::Fixed64(x) => be64_bytes(x),
        ProtoValue::VarInt(x) => be64_bytes(x),
        ProtoValue::String(s) => encode_utf8(s@),
        ProtoValue::Parts(_) => Seq::empty(),
    }
}

/// Overwrite `buf[off .. off + bytes.len()]` with `bytes`.
fn write_at(buf: &mut Vec<u8>, off: usize, bytes: &[u8])
    requires
        off + bytes@.len() <= old(buf)@.len(),
    ensures
        final(buf)@ == splice(old(buf)@, off as int, bytes@),
{
    let n = bytes.len();
    let total = buf.len();
    let mut i: usize = 0;
    while i < n
        invariant
            i <= n,
            n == bytes@.len(),
            off + n <= usize::MAX,
            off + n <= buf@.len(),
            buf@.len() == old(buf)@.len(),
            forall|j: int| 0 <= j < i ==> buf@[off + j] == bytes@[j],
            forall|j: int|
                0 <= j < buf@.len() && !(off <= j < off + i) ==> buf@[j] == old(buf)@[j],
        decreases n - i,
    {
        buf[off + i] = bytes[i];
        i = i + 1;
    }
    proof {
        assert(buf@ =~= splice(old(buf)@, off as int, bytes@));
    }
}

impl ProtoPart {
    /// Overwrite this field's value bytes in `buf` with `new_val`, which must
    /// be of the same kind as the decoded value and not a nested message.
    /// Fails, leaving `buf` untouched, exactly when the replacement bytes do
    /// not fit between the field's offset and the end of `buf`.
    pub fn write(&self, new_val: ProtoValue, buf: &mut Vec<u8>) -> (r: Result<(), DecodeErr>)
        requires
            same_variant(self.value, new_val),
            !(new_val is Parts),
        ensures
            match r {
                Ok(_) => self.offset + patch_bytes(new_val).len() <= old(buf)@.len()
                    && final(buf)@ == splice(old(buf)@, self.offset as int, patch_bytes(new_val)),
                Err(e) => self.offset + patch_bytes(new_val).len() > old(buf)@.len()
                    && final(buf)@ == old(buf)@ && e == DecodeErr::IOErr,
            },
    {
        match new_val {
            ProtoValue::Fixed32(x) => {
                if self.offset > buf.len() || buf.len() - self.offset < 4 {
                    return Err(DecodeErr::IOErr);
                }
                let mut tmp: Vec<u8> = Vec::new();
                tmp.push((x / 0x100_0000) as u8);
                tmp.push((x / 0x1_0000 % 0x100) as u8);
                tmp.push((x / 0x100 % 0x100) as u8);
                tmp.push((x % 0x100) as u8);
                proof {
                    assert(tmp@ =~= be32_bytes(x));
                }
                write_at(buf, self.offset, tmp.as_slice());
                Ok(())
            },
            ProtoValue::Fixed64(x) | ProtoValue::VarInt(x) => {
                if self.offset > buf.len() || buf.len() - self.offset < 8 {
                    return Err(DecodeErr::IOErr);
                }
                let mut tmp: Vec<u8> = Vec::new();
                tmp.push((x / 0x100_0000_0000_0000) as u8);
                tmp.push((x / 0x1_0000_0000_0000 % 0x100) as u8);
                tmp.push((x / 0x100_0000_0000 % 0x100) as u8);
                tmp.push((x / 0x1_0000_0000 % 0x100) as u8);
                tmp.push((x / 0x100_0000 % 0x100) as u8);
                tmp.push((x / 0x1_0000 % 0x100) as u8);
                tmp.push((x / 0x100 % 0x100) as u8);
                tmp.push((x % 0x100) as u8);
                proof {
                    assert(tmp@ =~= be64_bytes(x));
                }
                write_at(buf, self.offset, tmp.as_slice());
                Ok(())
            },
            ProtoValue::String(sv) => {
                let bytes = sv.as_str().as_bytes();
                if self.offset > buf.len() || buf.len() - self.offset < bytes.len() {
                    return Err(DecodeErr::IOErr);
                }
                write_at(buf, self.offset, bytes);
                Ok(())
            },
            ProtoValue::Parts(_) => vstd::pervasive::unreached(),
        }
    }
}

} // verus!

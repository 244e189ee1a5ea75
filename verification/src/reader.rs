//! The byte cursor: a position over an immutable byte slice, with a single
//! checkpoint slot, varint reads, big-endian fixed-width reads, and the
//! optional framing-header skip.

use vstd::prelude::*;
use vstd::arithmetic::div_mod::{lemma_add_mod_noop_right, lemma_mod_add_multiples_vanish,
    lemma_small_mod};
use vstd::slice::{slice_subrange, slice_to_vec};
use vstd::arithmetic::mul::lemma_mul_is_commutative;
use crate::bytes::{be32_at, be64_at};
use crate::model::DecodeErr;
use crate::varint::{lemma_varint_mix, varint_res, word};

verus! {

/// How many leading bytes an optional framing envelope occupies: five when
/// the buffer opens with a zero byte followed by a 4-byte big-endian length
/// that fits in what remains after the header, zero otherwise (including when
/// fewer than five bytes exist at all).
pub open spec fn framing_len(s: Seq<u8>) -> int {
    if s.len() >= 5 && s[0] == 0 && be32_at(s, 1) <= s.len() - 5 {
        5
    } else {
        0
    }
}

/// A cursor over a borrowed byte span: the bytes, the current position, and
/// the last checkpointed position.
pub struct ProtoBufReader<'a> {
    pub buf: &'a [u8],
    pub pos: usize,
    pub checkpoint: usize,
}

/// `(x + y) % 2^64`, the value a wrapping `u64` addition produces.
proof fn lemma_wrap_add(x: u64, y: u64)
    ensures
        vstd::wrapping::u64_specs::wrapping_add(x, y) == ((x + y) % word()) as u64,
{
    if x + y > u64::MAX {
        lemma_mod_add_multiples_vanish(x + y - word(), word());
        lemma_small_mod((x + y - word()) as nat, word() as nat);
    } else {
        lemma_small_mod((x + y) as nat, word() as nat);
    }
}

impl<'a> ProtoBufReader<'a> {
    /// Positions stay within the span.
    pub open spec fn wf(self) -> bool {
        self.pos <= self.buf@.len() && self.checkpoint <= self.buf@.len()
    }

    /// A fresh cursor at the start of `buf`, checkpointed at the start.
    pub fn new(buf: &'a [u8]) -> (r: Self)
        ensures
            r.buf@ == buf@,
            r.pos == 0,
            r.checkpoint == 0,
            r.wf(),
    {
        Self { buf, pos: 0, checkpoint: 0 }
    }

    /// The current position.
    pub fn pos(&self) -> (r: usize)
        ensures
            r == self.pos,
    {
        self.pos
    }

    /// Record the current position in the checkpoint slot.
    pub fn checkpoint(&mut self)
        ensures
            *final(self) == (ProtoBufReader { checkpoint: old(self).pos, ..*old(self) }),
    {
        self.checkpoint = self.pos;
    }

    /// Rewind to the last checkpointed position.
    pub fn reset_checkpoint(&mut self)
        ensures
            *final(self) == (ProtoBufReader { pos: old(self).checkpoint, ..*old(self) }),
    {
        self.pos = self.checkpoint;
    }

    /// The unread suffix of the span.
    pub fn remaining_bytes(&self) -> (r: &'a [u8])
        requires
            self.wf(),
        ensures
            r@ == self.buf@.subrange(self.pos as int, self.buf@.len() as int),
    {
        slice_subrange(self.buf, self.pos, self.buf.len())
    }

    /// The next byte, if any, without consuming it.
    pub fn peek(&self) -> (r: Option<u8>)
        requires
            self.wf(),
        ensures
            r == if self.pos < self.buf@.len() {
                Some(self.buf@[self.pos as int])
            } else {
                None::<u8>
            },
    {
        if self.pos < self.buf.len() {
            Some(self.buf[self.pos])
        } else {
            None
        }
    }

    /// Read a base-128 varint: seven value bits per byte, least significant
    /// group first, until a byte with the high bit clear; the accumulated
    /// value wraps modulo 2^64. Fails when the bytes run out first.
    pub fn read_varint(&mut self) -> (r: Result<u64, DecodeErr>)
        requires
            old(self).wf(),
        ensures
            final(self).wf(),
            final(self).buf == old(self).buf,
            final(self).checkpoint == old(self).checkpoint,
            match r {
                Ok(v) => varint_res(old(self).buf@, old(self).pos as int) == Some(
                    (v, final(self).pos as int),
                ),
                Err(e) => varint_res(old(self).buf@, old(self).pos as int) is None && e
                    == DecodeErr::IOErr,
            },
    {
        let ghost s = self.buf@;
        let ghost p0 = self.pos as int;
        let mut res: u64 = 0;
        let mut mult: u64 = 1;
        proof {
            if varint_res(s, p0) is Some {
                let (v, _) = varint_res(s, p0)->Some_0;
                lemma_small_mod(v as nat, word() as nat);
            }
        }
        loop
            invariant
                self.wf(),
                self.buf == old(self).buf,
                self.checkpoint == old(self).checkpoint,
                s == self.buf@,
                p0 == old(self).pos as int,
                p0 <= self.pos as int <= s.len(),
                match varint_res(s, self.pos as int) {
                    None => varint_res(s, p0) is None,
                    Some((v, end)) => varint_res(s, p0) == Some(
                        (((res + mult * v) % word()) as u64, end),
                    ),
                },
            decreases s.len() - self.pos,
        {
            if self.pos >= self.buf.len() {
                return Err(DecodeErr::IOErr);
            }
            let byte = self.buf[self.pos];
            self.pos = self.pos + 1;
            let low = byte & 0x7f;
            proof {
                assert(byte < 0x80 ==> byte & 0x7f == byte) by (bit_vector);
                assert(byte >= 0x80 ==> byte & 0x7f == byte - 0x80) by (bit_vector);
            }
            let step = (low as u64).wrapping_mul(mult);
            let next = res.wrapping_add(step);
            proof {
                lemma_wrap_add(res, step);
                lemma_mul_is_commutative(low as int, mult as int);
                lemma_add_mod_noop_right(res as int, mult as int * low as int, word());
                assert(next as int == (res as int + mult as int * low as int) % word());
            }
            if byte < 0x80 {
                return Ok(next);
            }
            proof {
                if varint_res(s, self.pos as int) is Some {
                    let (v2, _) = varint_res(s, self.pos as int)->Some_0;
                    lemma_varint_mix(res as int, mult as int, low as int, v2 as int);
                }
            }
            res = next;
            mult = mult.wrapping_mul(128);
        }
    }

    /// Read four bytes, big-endian. Fails, consuming nothing, when fewer than
    /// four bytes remain.
    pub fn read_u32_be(&mut self) -> (r: Result<u32, DecodeErr>)
        requires
            old(self).wf(),
        ensures
            final(self).wf(),
            final(self).buf == old(self).buf,
            final(self).checkpoint == old(self).checkpoint,
            match r {
                Ok(v) => old(self).pos + 4 <= old(self).buf@.len() && v == be32_at(
                    old(self).buf@,
                    old(self).pos as int,
                ) && final(self).pos == old(self).pos + 4,
                Err(e) => old(self).pos + 4 > old(self).buf@.len() && final(self).pos == old(
                    self,
                ).pos && e == DecodeErr::IOErr,
            },
    {
        if self.buf.len() - self.pos < 4 {
            return Err(DecodeErr::IOErr);
        }
        let b0 = self.buf[self.pos];
        let b1 = self.buf[self.pos + 1];
        let b2 = self.buf[self.pos + 2];
        let b3 = self.buf[self.pos + 3];
        self.pos = self.pos + 4;
        Ok((b0 as u32) * 0x100_0000 + (b1 as u32) * 0x1_0000 + (b2 as u32) * 0x100 + (b3 as u32))
    }

    /// Read eight bytes, big-endian. Fails, consuming nothing, when fewer than
    /// eight bytes remain.
    pub fn read_u64_be(&mut self) -> (r: Result<u64, DecodeErr>)
        requires
            old(self).wf(),
        ensures
            final(self).wf(),
            final(self).buf == old(self).buf,
            final(self).checkpoint == old(self).checkpoint,
            match r {
                Ok(v) => old(self).pos + 8 <= old(self).buf@.len() && v == be64_at(
                    old(self).buf@,
                    old(self).pos as int,
                ) && final(self).pos == old(self).pos + 8,
                Err(e) => old(self).pos + 8 > old(self).buf@.len() && final(self).pos == old(
                    self,
                ).pos && e == DecodeErr::IOErr,
            },
    {
        if self.buf.len() - self.pos < 8 {
            return Err(DecodeErr::IOErr);
        }
        let b0 = self.buf[self.pos];
        let b1 = self.buf[self.pos + 1];
        let b2 = self.buf[self.pos + 2];
        let b3 = self.buf[self.pos + 3];
        let b4 = self.buf[self.pos + 4];
        let b5 = self.buf[self.pos + 5];
        let b6 = self.buf[self.pos + 6];
        let b7 = self.buf[self.pos + 7];
        self.pos = self.pos + 8;
        Ok((b0 as u64) * 0x100_0000_0000_0000 + (b1 as u64) * 0x1_0000_0000_0000 + (b2 as u64)
            * 0x100_0000_0000 + (b3 as u64) * 0x1_0000_0000 + (b4 as u64) * 0x100_0000 + (b5
            as u64) * 0x1_0000 + (b6 as u64) * 0x100 + (b7 as u64))
    }

    /// At the very start of the span, skip a length-prefixed framing header
    /// when one is plausibly present: a zero byte, then a 4-byte big-endian
    /// length no larger than the bytes remaining after the header. When the
    /// length overshoots (a false positive) or the bytes run out, the cursor
    /// stays at the start.
    pub fn skip_grpc_header(&mut self)
        requires
            old(self).wf(),
            old(self).pos == 0,
        ensures
            final(self).wf(),
            final(self).buf == old(self).buf,
            final(self).checkpoint == old(self).checkpoint,
            final(self).pos as int == framing_len(old(self).buf@),
    {
        if self.buf.len() >= 5 && self.buf[0] == 0 {
            let length = (self.buf[1] as u32) * 0x100_0000 + (self.buf[2] as u32) * 0x1_0000 + (
            self.buf[3] as u32) * 0x100 + (self.buf[4] as u32);
            if length as usize <= self.buf.len() - 5 {
                self.pos = 5;
            }
        }
    }

    /// Copy the next `n` bytes out of the span and advance past them.
    pub fn read_bytes(&mut self, n: usize) -> (r: Vec<u8>)
        requires
            old(self).wf(),
            old(self).pos + n <= old(self).buf@.len(),
        ensures
            final(self).wf(),
            final(self).buf == old(self).buf,
            final(self).checkpoint == old(self).checkpoint,
            final(self).pos == old(self).pos + n,
            r@ == old(self).buf@.subrange(old(self).pos as int, old(self).pos + n),
    {
        let len = self.buf.len();
        let piece = slice_subrange(self.buf, self.pos, self.pos + n);
        let out = slice_to_vec(piece);
        self.pos = self.pos + n;
        out
    }
}

} // verus!

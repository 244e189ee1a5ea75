//! Big-endian fixed-width values: what a 4- or 8-byte read returns, the bytes
//! a write lays down, and the round trips between them.
//!
//! Fixed-width fields are read and written big-endian throughout, matching the
//! decoder's observed wire behaviour.

use vstd::prelude::*;

verus! {

/// The `u32` spelled by the four bytes at `pos`, most significant first.
pub open spec fn be32_at(s: Seq<u8>, pos: int) -> u32 {
    (s[pos] * 0x100_0000 + s[pos + 1] * 0x1_0000 + s[pos + 2] * 0x100 + s[pos + 3]) as u32
}

/// The `u64` spelled by the eight bytes at `pos`, most significant first.
pub open spec fn be64_at(s: Seq<u8>, pos: int) -> u64 {
    (s[pos] * 0x100_0000_0000_0000 + s[pos + 1] * 0x1_0000_0000_0000 + s[pos + 2]
        * 0x100_0000_0000 + s[pos + 3] * 0x1_0000_0000 + s[pos + 4] * 0x100_0000 + s[pos + 5]
        * 0x1_0000 + s[pos + 6] * 0x100 + s[pos + 7]) as u64
}

/// The four bytes of `v`, most significant first.
pub open spec fn be32_bytes(v: u32) -> Seq<u8> {
    seq![
        (v / 0x100_0000) as u8,
        (v / 0x1_0000 % 0x100) as u8,
        (v / 0x100 % 0x100) as u8,
        (v % 0x100) as u8,
    ]
}

/// The eight bytes of `v`, most significant first.
pub open spec fn be64_bytes(v: u64) -> Seq<u8> {
    seq![
        (v / 0x100_0000_0000_0000) as u8,
        (v / 0x1_0000_0000_0000 % 0x100) as u8,
        (v / 0x100_0000_0000 % 0x100) as u8,
        (v / 0x1_0000_0000 % 0x100) as u8,
        (v / 0x100_0000 % 0x100) as u8,
        (v / 0x1_0000 % 0x100) as u8,
        (v / 0x100 % 0x100) as u8,
        (v % 0x100) as u8,
    ]
}

/// Reading back the four bytes written for `v` yields `v`, wherever they sit.
pub proof fn lemma_be32_round_trip(v: u32, s: Seq<u8>, pos: int)
    requires
        0 <= pos,
        pos + 4 <= s.len(),
        s.subrange(pos, pos + 4) == be32_bytes(v),
    ensures
        be32_at(s, pos) == v,
{
    assert(s[pos] == be32_bytes(v)[0]);
    assert(s[pos + 1] == be32_bytes(v)[1]);
    assert(s[pos + 2] == be32_bytes(v)[2]);
    assert(s[pos + 3] == be32_bytes(v)[3]);
    assert(v / 0x100_0000 * 0x100_0000 + v / 0x1_0000 % 0x100 * 0x1_0000 + v / 0x100 % 0x100
        * 0x100 + v % 0x100 == v) by (bit_vector);
}

/// Reading back the eight bytes written for `v` yields `v`, wherever they sit.
pub proof fn lemma_be64_round_trip(v: u64, s: Seq<u8>, pos: int)
    requires
        0 <= pos,
        pos + 8 <= s.len(),
        s.subrange(pos, pos + 8) == be64_bytes(v),
    ensures
        be64_at(s, pos) == v,
{
    assert(s[pos] == be64_bytes(v)[0]);
    assert(s[pos + 1] == be64_bytes(v)[1]);
    assert(s[pos + 2] == be64_bytes(v)[2]);
    assert(s[pos + 3] == be64_bytes(v)[3]);
    assert(s[pos + 4] == be64_bytes(v)[4]);
    assert(s[pos + 5] == be64_bytes(v)[5]);
    assert(s[pos + 6] == be64_bytes(v)[6]);
    assert(s[pos + 7] == be64_bytes(v)[7]);
    assert(v / 0x100_0000_0000_0000 * 0x100_0000_0000_0000 + v / 0x1_0000_0000_0000 % 0x100
        * 0x1_0000_0000_0000 + v / 0x100_0000_0000 % 0x100 * 0x100_0000_0000 + v / 0x1_0000_0000
        % 0x100 * 0x1_0000_0000 + v / 0x100_0000 % 0x100 * 0x100_0000 + v / 0x1_0000 % 0x100
        * 0x1_0000 + v / 0x100 % 0x100 * 0x100 + v % 0x100 == v) by (bit_vector);
}

/// `s` with the `b.len()` bytes starting at `off` replaced by `b`.
pub open spec fn splice(s: Seq<u8>, off: int, b: Seq<u8>) -> Seq<u8> {
    s.subrange(0, off) + b + s.subrange(off + b.len(), s.len() as int)
}

} // verus!

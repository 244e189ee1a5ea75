//! Base-128 varints: what a read returns, what an encoder emits, and the
//! round-trip law connecting the two.

use vstd::prelude::*;
use vstd::arithmetic::div_mod::{
    lemma_add_mod_noop, lemma_mod_twice, lemma_mul_mod_noop_general, lemma_small_mod,
};
use vstd::arithmetic::mul::{lemma_mul_is_distributive_add, lemma_mul_is_associative};

verus! {

/// One more than the largest `u64`: varint accumulation wraps modulo this.
pub open spec fn word() -> int {
    0x1_0000_0000_0000_0000
}

/// Reading a varint from `s` at `pos`: `None` when the bytes run out before a
/// terminating byte (high bit clear), otherwise the value (low seven bits of
/// each byte, least significant group first, accumulated modulo 2^64) and the
/// position just past the terminating byte.
pub open spec fn varint_res(s: Seq<u8>, pos: int) -> Option<(u64, int)>
    decreases s.len() - pos,
{
    if pos < 0 || pos >= s.len() {
        None
    } else if s[pos] < 0x80 {
        Some((s[pos] as u64, pos + 1))
    } else {
        match varint_res(s, pos + 1) {
            None => None,
            Some((v, end)) => Some(
                ((((s[pos] - 0x80) as int + 128 * (v as int)) % word()) as u64, end),
            ),
        }
    }
}

/// A successful varint read lands strictly past `pos` and within the buffer.
pub proof fn lemma_varint_res_bounds(s: Seq<u8>, pos: int)
    requires
        varint_res(s, pos) is Some,
    ensures
        pos < varint_res(s, pos)->Some_0.1 <= s.len(),
    decreases s.len() - pos,
{
    if 0 <= pos < s.len() && s[pos] >= 0x80 {
        lemma_varint_res_bounds(s, pos + 1);
    }
}

/// Reading at `pos` in `s` is reading at `pos - k` in `s` with its first `k`
/// bytes dropped, with the end position shifted back by `k`.
pub proof fn lemma_varint_skip(s: Seq<u8>, k: int, pos: int)
    requires
        0 <= k <= pos,
        k <= s.len(),
    ensures
        varint_res(s, pos) == match varint_res(s.skip(k), pos - k) {
            None => None::<(u64, int)>,
            Some((v, end)) => Some((v, end + k)),
        },
    decreases s.len() - pos,
{
    if pos >= s.len() {
        assert(pos - k >= s.skip(k).len());
    } else {
        assert(s.skip(k).len() == s.len() - k);
        assert(s.skip(k)[pos - k] == s[pos]);
        if s[pos] >= 0x80 {
            lemma_varint_skip(s, k, pos + 1);
            match varint_res(s.skip(k), pos + 1 - k) {
                None => {
                    assert(varint_res(s, pos + 1) is None);
                    assert(varint_res(s, pos) is None);
                    assert(varint_res(s.skip(k), pos - k) is None);
                },
                Some((v, end)) => {
                    assert(varint_res(s, pos + 1) == Some((v, end + k)));
                    let c = (((s[pos] - 0x80) as int + 128 * (v as int)) % word()) as u64;
                    assert(varint_res(s, pos) == Some((c, end + k)));
                    assert(varint_res(s.skip(k), pos - k) == Some((c, end)));
                },
            }
        }
    }
}

/// A successful read is unaffected by bytes appended after the buffer.
pub proof fn lemma_varint_extend(s: Seq<u8>, t: Seq<u8>, pos: int)
    requires
        varint_res(s, pos) is Some,
    ensures
        varint_res(s + t, pos) == varint_res(s, pos),
    decreases s.len() - pos,
{
    assert((s + t)[pos] == s[pos]);
    if s[pos] >= 0x80 {
        lemma_varint_extend(s, t, pos + 1);
    }
}

/// The algebra behind one step of the accumulating read loop: folding the next
/// seven-bit group into the running total and scaling the multiplier commutes
/// with the recursive definition, modulo 2^64.
pub proof fn lemma_varint_mix(res: int, mult: int, low: int, v: int)
    requires
        0 <= res < word(),
        0 <= mult < word(),
        0 <= low,
        0 <= v,
    ensures
        (res + mult * ((low + 128 * v) % word())) % word() == ((res + mult * low) % word() + ((
        mult * 128) % word()) * v) % word(),
{
    let m = word();
    lemma_mul_mod_noop_general(mult, low + 128 * v, m);
    assert((mult * ((low + 128 * v) % m)) % m == (mult * (low + 128 * v)) % m);
    lemma_mul_is_distributive_add(mult, low, 128 * v);
    lemma_mul_is_associative(mult, 128, v);
    assert(mult * (low + 128 * v) == mult * low + (mult * 128) * v);
    lemma_add_mod_noop(res, mult * ((low + 128 * v) % m), m);
    lemma_mod_twice(mult * ((low + 128 * v) % m), m);
    lemma_small_mod(res as nat, m as nat);
    assert((res + mult * ((low + 128 * v) % m)) % m == (res + (mult * low + (mult * 128) * v))
        % m) by {
        lemma_add_mod_noop(res, mult * (low + 128 * v), m);
    }
    lemma_mul_mod_noop_general(mult * 128, v, m);
    assert((((mult * 128) % m) * v) % m == ((mult * 128) * v) % m);
    lemma_add_mod_noop(res + mult * low, (mult * 128) * v, m);
    lemma_add_mod_noop((res + mult * low) % m, ((mult * 128) % m) * v, m);
    lemma_mod_twice(res + mult * low, m);
    lemma_mod_twice(((mult * 128) % m) * v, m);
}

/// Minimal little-endian base-128 encoding of `v`: seven bits per byte, least
/// significant group first, the high bit set on every byte but the last.
pub open spec fn varint_encode(v: u64) -> Seq<u8>
    decreases v,
{
    if v < 0x80 {
        seq![v as u8]
    } else {
        seq![(v % 128 + 128) as u8] + varint_encode(v / 128)
    }
}

/// Emit the minimal base-128 encoding of `v`.
pub fn encode_varint(v: u64) -> (r: Vec<u8>)
    ensures
        r@ == varint_encode(v),
{
    let mut out: Vec<u8> = Vec::new();
    let mut cur = v;
    proof {
        assert(Seq::<u8>::empty() + varint_encode(v) =~= varint_encode(v));
    }
    loop
        invariant
            varint_encode(v) == out@ + varint_encode(cur),
        decreases cur,
    {
        if cur < 0x80 {
            out.push(cur as u8);
            proof {
                assert(out@ =~= varint_encode(v));
            }
            return out;
        }
        let b = (cur % 128 + 128) as u8;
        let ghost before = out@;
        out.push(b);
        cur = cur / 128;
        proof {
            assert(before + (seq![b] + varint_encode(cur)) =~= out@ + varint_encode(cur));
        }
    }
}

/// Round trip: a read at the start of `varint_encode(v)`, whatever follows it,
/// returns exactly `v` and consumes exactly the encoding.
pub proof fn lemma_varint_round_trip(v: u64, rest: Seq<u8>)
    ensures
        varint_res(varint_encode(v) + rest, 0) == Some((v, varint_encode(v).len() as int)),
    decreases v,
{
    let s = varint_encode(v) + rest;
    if v < 0x80 {
        assert(s[0] == v as u8);
    } else {
        assert(s[0] == (v % 128 + 128) as u8);
        lemma_varint_round_trip(v / 128, rest);
        assert(s.skip(1) =~= varint_encode(v / 128) + rest);
        lemma_varint_skip(s, 1, 1);
        let tail = (v / 128) as u64;
        assert(varint_res(s, 1) == Some((tail, varint_encode(v / 128).len() as int + 1)));
        assert((s[0] - 0x80) as int == v % 128);
        assert(v % 128 + 128 * (v as int / 128) == v as int) by {
            vstd::arithmetic::div_mod::lemma_fundamental_div_mod(v as int, 128);
        }
        lemma_small_mod(v as nat, word() as nat);
        assert(varint_res(s, 0) == Some((v, varint_encode(v).len() as int)));
    }
}

} // verus!

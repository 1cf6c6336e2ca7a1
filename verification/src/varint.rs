//! Variable-length integers as stored in the index files.
//!
//! A value is written least significant 7-bit group first. Every byte but the
//! last has its high bit clear; the last byte of an integer has it set.

use vstd::prelude::*;

verus! {

/// Mask selecting the low 7 bits of a value.
pub const VALUE_MASK: u32 = 127;

/// Marks the last byte of an encoded integer.
pub const CONTINUATION_MASK: u8 = 128;

/// The bytes that encode `v`.
pub open spec fn encode_var_int(v: nat) -> Seq<u8>
    decreases v,
{
    if v < 128 {
        seq![(v + 128) as u8]
    } else {
        seq![(v % 128) as u8] + encode_var_int(v / 128)
    }
}

/// Reads one integer from the start of `s`: its value and the number of bytes
/// it spans, or `None` when `s` ends before a byte with the high bit set.
pub open spec fn parse_var_int(s: Seq<u8>) -> Option<(nat, nat)>
    decreases s.len(),
{
    if s.len() == 0 {
        None
    } else if s[0] >= 128 {
        Some(((s[0] - 128) as nat, 1nat))
    } else {
        match parse_var_int(s.drop_first()) {
            Some((v, l)) => Some(((s[0] + 128 * v) as nat, l + 1)),
            None => None,
        }
    }
}

/// The integer that starts at `pos` in `s`.
pub open spec fn var_int_at(s: Seq<u8>, pos: int) -> Option<(nat, nat)> {
    parse_var_int(s.subrange(pos, s.len() as int))
}

/// Reading back what was written gives the value and the length of its
/// encoding, whatever bytes follow it.
pub proof fn lemma_parse_encode(v: nat, rest: Seq<u8>)
    ensures
        parse_var_int(encode_var_int(v) + rest) == Some((v, encode_var_int(v).len())),
    decreases v,
{
    let s = encode_var_int(v) + rest;
    if v < 128 {
        assert(s[0] == (v + 128) as u8);
    } else {
        lemma_parse_encode(v / 128, rest);
        assert(s.drop_first() =~= encode_var_int(v / 128) + rest);
        assert(s[0] == (v % 128) as u8);
    }
}

/// The encoding is never empty, all its bytes but the last have the high bit
/// clear, and the last has it set.
pub proof fn lemma_encode_shape(v: nat)
    ensures
        encode_var_int(v).len() >= 1,
        encode_var_int(v).last() >= 128,
        forall|i: int| 0 <= i < encode_var_int(v).len() - 1 ==> #[trigger] encode_var_int(v)[i] < 128,
    decreases v,
{
    if v >= 128 {
        lemma_encode_shape(v / 128);
    }
}

/// An integer written into a byte stream is read back from the position it
/// was written at, whatever came before and after it.
pub proof fn law_read_back_written(before: Seq<u8>, v: nat, after: Seq<u8>)
    ensures
        var_int_at(before + encode_var_int(v) + after, before.len() as int)
            == Some((v, encode_var_int(v).len())),
{
    let s = before + encode_var_int(v) + after;
    assert(s.subrange(before.len() as int, s.len() as int) =~= encode_var_int(v) + after);
    lemma_parse_encode(v, after);
}

/// Encoded lengths: at most 5 bytes for a `u32`, at most 10 for a `u64`.
pub proof fn lemma_encode_len(v: nat)
    ensures
        v < 0x1_0000_0000 ==> encode_var_int(v).len() <= 5,
        v < 0x1_0000_0000_0000_0000 ==> encode_var_int(v).len() <= 10,
        v < 128 ==> encode_var_int(v).len() == 1,
        v >= 128 ==> encode_var_int(v).len() == encode_var_int(v / 128).len() + 1,
{
    reveal_with_fuel(encode_var_int, 11);
}


proof fn lemma_low_bits_u32(v: u32)
    ensures
        (v & 127) as nat == v as nat % 128,
        (v >> 7) as nat == v as nat / 128,
        ((v & 127) as u8) as nat == v as nat % 128,
        (((v & 127) as u8) | 128u8) as nat == v as nat % 128 + 128,
{
    assert(v & 127 == v % 128) by (bit_vector);
    assert(v >> 7 == v / 128) by (bit_vector);
    assert(((v & 127) as u8) | 128u8 == ((v & 127) as u8) + 128u8) by (bit_vector);
}

proof fn lemma_low_bits_u64(v: u64)
    ensures
        (v & 127) as nat == v as nat % 128,
        (v >> 7) as nat == v as nat / 128,
        ((v & 127) as u8) as nat == v as nat % 128,
        (((v & 127) as u8) | 128u8) as nat == v as nat % 128 + 128,
{
    assert(v & 127 == v % 128) by (bit_vector);
    assert(v >> 7 == v / 128) by (bit_vector);
    assert(((v & 127) as u8) | 128u8 == ((v & 127) as u8) + 128u8) by (bit_vector);
}

/// Writes the encoding of `value` at the start of `output_buf` and returns the
/// number of bytes written; the rest of the buffer is left as it was.
pub fn get_var_int(value: u32, output_buf: &mut [u8]) -> (len: usize)
    requires
        encode_var_int(value as nat).len() <= old(output_buf)@.len(),
    ensures
        len == encode_var_int(value as nat).len(),
        final(output_buf)@ == encode_var_int(value as nat) + old(output_buf)@.subrange(len as int, old(output_buf)@.len() as int),
{
    let ghost orig = output_buf@;
    let ghost enc = encode_var_int(value as nat);
    let mut v = value;
    let mut buf_idx: usize = 0;
    loop
        invariant
            orig == old(output_buf)@,
            output_buf@.len() == orig.len(),
            enc == encode_var_int(value as nat),
            enc.len() <= orig.len(),
            buf_idx < enc.len(),
            enc == output_buf@.subrange(0, buf_idx as int) + encode_var_int(v as nat),
            forall|i: int| buf_idx <= i < orig.len() ==> output_buf@[i] == orig[i],
        decreases v,
    {
        proof {
            lemma_low_bits_u32(v);
            lemma_encode_len(v as nat);
        }
        let last_seven_bits: u8 = (v & VALUE_MASK) as u8;
        let ghost old_v = v;
        let ghost prev = output_buf@;
        v = v >> 7;
        if v != 0 {
            output_buf[buf_idx] = last_seven_bits;
            assert(output_buf@.subrange(0, buf_idx + 1) =~= prev.subrange(0, buf_idx as int).push(last_seven_bits));
            assert(enc =~= output_buf@.subrange(0, buf_idx + 1) + encode_var_int(v as nat));
            buf_idx = buf_idx + 1;
        } else {
            output_buf[buf_idx] = last_seven_bits | CONTINUATION_MASK;
            assert(output_buf@.subrange(0, buf_idx + 1) =~= enc);
            assert(output_buf@ =~= enc + orig.subrange(enc.len() as int, orig.len() as int));
            return buf_idx + 1;
        }
    }
}

/// Appends the encoding of `value` to `output_buf`.
pub fn get_var_int_vec(value: u32, output_buf: &mut Vec<u8>)
    ensures
        final(output_buf)@ == old(output_buf)@ + encode_var_int(value as nat),
{
    let ghost orig = output_buf@;
    let mut v = value;
    loop
        invariant
            orig == old(output_buf)@,
            orig + encode_var_int(value as nat) == output_buf@ + encode_var_int(v as nat),
        decreases v,
    {
        proof {
            lemma_low_bits_u32(v);
        }
        let last_seven_bits: u8 = (v & VALUE_MASK) as u8;
        let ghost prev = output_buf@;
        let ghost old_v = v;
        v = v >> 7;
        if v != 0 {
            output_buf.push(last_seven_bits);
            assert(prev + encode_var_int(old_v as nat) =~= output_buf@ + encode_var_int(v as nat));
        } else {
            output_buf.push(last_seven_bits | CONTINUATION_MASK);
            assert(prev + encode_var_int(old_v as nat) =~= output_buf@);
            return;
        }
    }
}

/// Appends the encoding of a 64-bit `value` to `output_buf`.
pub fn get_var_int_vec_u64(value: u64, output_buf: &mut Vec<u8>)
    ensures
        final(output_buf)@ == old(output_buf)@ + encode_var_int(value as nat),
{
    let ghost orig = output_buf@;
    let mut v = value;
    loop
        invariant
            orig == old(output_buf)@,
            orig + encode_var_int(value as nat) == output_buf@ + encode_var_int(v as nat),
        decreases v,
    {
        proof {
            lemma_low_bits_u64(v);
        }
        let last_seven_bits: u8 = (v & 127) as u8;
        let ghost prev = output_buf@;
        let ghost old_v = v;
        v = v >> 7;
        if v != 0 {
            output_buf.push(last_seven_bits);
            assert(prev + encode_var_int(old_v as nat) =~= output_buf@ + encode_var_int(v as nat));
        } else {
            output_buf.push(last_seven_bits | CONTINUATION_MASK);
            assert(prev + encode_var_int(old_v as nat) =~= output_buf@);
            return;
        }
    }
}


proof fn lemma_parse_step(s: Seq<u8>, pos: int)
    requires
        0 <= pos < s.len(),
        s[pos] < 128,
    ensures
        var_int_at(s, pos) == (match var_int_at(s, pos + 1) {
            Some((v, l)) => Some(((s[pos] + 128 * v) as nat, l + 1)),
            None => None::<(nat, nat)>,
        }),
{
    assert(s.subrange(pos, s.len() as int).drop_first() =~= s.subrange(pos + 1, s.len() as int));
}

proof fn lemma_parse_last(s: Seq<u8>, pos: int)
    requires
        0 <= pos < s.len(),
        s[pos] >= 128,
    ensures
        var_int_at(s, pos) == Some(((s[pos] - 128) as nat, 1nat)),
{
}

spec fn pow128(n: nat) -> nat
    decreases n,
{
    if n == 0 { 1 } else { 128 * pow128((n - 1) as nat) }
}

proof fn lemma_pow128_bound(n: nat)
    requires
        n <= 9,
    ensures
        1 <= pow128(n) <= 0x8000_0000_0000_0000,
{
    reveal_with_fuel(pow128, 10);
}

proof fn lemma_byte_bits(b: u8)
    ensures
        (b & 127) as nat == (if b >= 128 { b - 128 } else { b as int }),
        (b & 128 != 0) == (b >= 128),
{
    assert(b & 127 == b % 128) by (bit_vector);
    assert((b & 128 != 0) == (b >= 128)) by (bit_vector);
}

/// Reads the integer that starts at `*pos` in `buf` and moves `*pos` past it.
pub fn decode_var_int(buf: &[u8], pos: &mut usize) -> (value: u32)
    requires
        var_int_at(buf@, *old(pos) as int) matches Some((v, l)) && v <= u32::MAX && l <= 5,
        *old(pos) <= buf@.len(),
    ensures
        var_int_at(buf@, *old(pos) as int) == Some((value as nat, (*final(pos) - *old(pos)) as nat)),
        *old(pos) < *final(pos),
{
    let value64 = decode_var_int_u64(buf, pos);
    value64 as u32
}

/// Reads the 64-bit integer that starts at `*pos` in `buf` and moves `*pos`
/// past it.
pub fn decode_var_int_u64(buf: &[u8], pos: &mut usize) -> (value: u64)
    requires
        var_int_at(buf@, *old(pos) as int) matches Some((v, l)) && v <= u64::MAX && l <= 10,
        *old(pos) <= buf@.len(),
    ensures
        var_int_at(buf@, *old(pos) as int) == Some((value as nat, (*final(pos) - *old(pos)) as nat)),
        *old(pos) < *final(pos),
{
    let ghost start = *pos as int;
    let ghost total = var_int_at(buf@, start).unwrap().0;
    let ghost total_len = var_int_at(buf@, start).unwrap().1;
    let mut current_value: u64 = 0;
    let mut multiplier: u64 = 1;
    let mut read: usize = 0;
    loop
        invariant
            start == *old(pos),
            *pos == start + read,
            var_int_at(buf@, start) == Some((total, total_len)),
            total <= u64::MAX,
            total_len <= 10,
            read < total_len,
            var_int_at(buf@, *pos as int) matches Some((rest, rest_len))
                && rest_len == total_len - read
                && total == current_value + multiplier * rest,
            multiplier == pow128(read as nat),
            *pos <= buf@.len(),
            read <= 9,
            current_value < multiplier,
        decreases total_len - read,
    {
        let ghost p = *pos as int;
        assert(p < buf@.len()) by {
            if p == buf@.len() {
                assert(buf@.subrange(p, buf@.len() as int).len() == 0);
            }
        }
        proof {
            lemma_pow128_bound(read as nat);
        }
        let b = buf[*pos];
        *pos = *pos + 1;
        read = read + 1;
        proof {
            lemma_byte_bits(b);
        }
        let low = (b & 127) as u64;
        if b & CONTINUATION_MASK != 0 {
            proof {
                lemma_parse_last(buf@, p);
            }
            assert(total == current_value + multiplier * low);
            assert(multiplier * low <= u64::MAX);
            current_value = current_value + multiplier * low;
            return current_value;
        }
        proof {
            lemma_parse_step(buf@, p);
        }
        let ghost rest = var_int_at(buf@, p + 1).unwrap().0;
        assert(total == current_value + multiplier * low + (multiplier * 128) * rest) by (nonlinear_arith)
            requires
                total == current_value + multiplier * (low + 128 * rest);
        assert(current_value + multiplier * low < multiplier * 128) by (nonlinear_arith)
            requires
                low < 128, multiplier >= 1, current_value < multiplier;
        current_value = current_value + multiplier * low;
        proof {
            lemma_pow128_bound(read as nat);
        }
        multiplier = multiplier * 128;
    }
}

} // verus!

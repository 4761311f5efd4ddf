//! Variable-length unsigned integers: seven bits per byte, least significant
//! group first, the high bit of a byte set when another byte follows.

use vstd::prelude::*;
use crate::model::reader::{DecodeError, Reader};

verus! {

/// The bytes that encode `n`.
pub open spec fn uint_encoding(n: nat) -> Seq<u8>
    decreases n,
{
    if n < 128 {
        seq![n as u8]
    } else {
        seq![(n % 128 + 128) as u8] + uint_encoding(n / 128)
    }
}

/// `128` to the power `i`: the weight of the group at index `i`.
pub open spec fn group_weight(i: nat) -> nat
    decreases i,
{
    if i == 0 {
        1
    } else {
        128 * group_weight((i - 1) as nat)
    }
}

/// What the byte at index `i` of an encoding adds to the value. Only the
/// lowest bit of the tenth group fits into 64 bits; the others are dropped.
pub open spec fn group_value(byte: u8, i: nat) -> nat {
    if i < 9 {
        (byte % 128) as nat * group_weight(i)
    } else {
        (byte % 2) as nat * group_weight(9)
    }
}

/// Decodes the groups from index `i` on. A byte at index ten or beyond is
/// invalid, whatever it holds.
pub open spec fn uint_decoding_from(s: Seq<u8>, i: nat) -> Result<(nat, Seq<u8>), DecodeError>
    decreases s.len(),
{
    if s.len() == 0 {
        Err(DecodeError::UnexpectedEof)
    } else if i >= 10 {
        Err(DecodeError::InvalidData)
    } else if s[0] < 128 {
        Ok((group_value(s[0], i), s.skip(1)))
    } else {
        match uint_decoding_from(s.skip(1), i + 1) {
            Ok((high, rest)) => Ok((group_value(s[0], i) + high, rest)),
            Err(e) => Err(e),
        }
    }
}

/// The value at the front of `s` and the bytes that follow it.
pub open spec fn uint_decoding(s: Seq<u8>) -> Result<(nat, Seq<u8>), DecodeError> {
    uint_decoding_from(s, 0)
}

proof fn lemma_group_weight_shift(shift: u32, i: nat)
    requires
        shift == 7 * i,
        i <= 9,
    ensures
        group_weight(i) == (1u64 << shift),
    decreases i,
{
    if i == 0 {
        assert(1u64 << 0u32 == 1) by (bit_vector);
    } else {
        let prev = (shift - 7) as u32;
        lemma_group_weight_shift(prev, (i - 1) as nat);
        assert(prev <= 56 ==> (1u64 << ((prev + 7) as u32)) == 128 * (1u64 << prev)) by (bit_vector);
    }
}

proof fn lemma_or_is_add(n: u64, byte: u8, shift: u32)
    by (bit_vector)
    requires
        shift == 0 || shift == 7 || shift == 14 || shift == 21 || shift == 28 || shift == 35
            || shift == 42 || shift == 49 || shift == 56 || shift == 63,
        n < (1u64 << shift),
    ensures
        shift < 63 ==> (n | (((byte & 127) as u64) << shift)) == n + ((byte % 128) as u64) * (1u64
            << shift),
        shift == 63 ==> (n | (((byte & 127) as u64) << shift)) == n + ((byte % 2) as u64) * (1u64
            << shift),
        shift < 63 ==> n + ((byte % 128) as u64) * (1u64 << shift) < (1u64 << ((shift + 7) as u32)),
        (byte & 128 == 0) <==> byte < 128,
{
}

proof fn lemma_decode_encoded(m: nat, i: nat, rest: Seq<u8>)
    requires
        i <= 9,
        m * group_weight(i) < 0x1_0000_0000_0000_0000,
    ensures
        uint_decoding_from(uint_encoding(m) + rest, i) == Ok::<_, DecodeError>(
            (m * group_weight(i), rest),
        ),
    decreases m,
{
    let s = uint_encoding(m) + rest;
    let w = group_weight(i);
    assert(group_weight(9) == 0x8000_0000_0000_0000) by {
        reveal_with_fuel(group_weight, 10);
    }
    assert(w >= 1) by {
        lemma_group_weight_shift((7 * i) as u32, i);
        let shift = (7 * i) as u32;
        assert(shift <= 63 ==> (1u64 << shift) >= 1) by (bit_vector);
    }
    if m < 128 {
        assert(s[0] == m as u8);
        assert(s.skip(1) =~= rest);
        if i == 9 {
            assert(m < 2) by (nonlinear_arith)
                requires
                    m * 0x8000_0000_0000_0000 < 0x1_0000_0000_0000_0000,
            ;
        }
    } else {
        assert(i < 9) by (nonlinear_arith)
            requires
                m >= 128,
                i <= 9,
                i == 9 ==> w == 0x8000_0000_0000_0000,
                m * w < 0x1_0000_0000_0000_0000,
        ;
        let b = (m % 128 + 128) as u8;
        assert(s[0] == b);
        assert(b >= 128 && b % 128 == m % 128);
        let tail = uint_encoding(m / 128) + rest;
        assert(s.skip(1) =~= tail);
        assert(group_weight(i + 1) == 128 * w);
        assert((m / 128) * (128 * w) + (m % 128) * w == m * w) by (nonlinear_arith);
        assert((m / 128) * (128 * w) <= m * w) by (nonlinear_arith)
            requires
                (m / 128) * (128 * w) + (m % 128) * w == m * w,
        ;
        lemma_decode_encoded(m / 128, i + 1, rest);
    }
}

/// Decoding the encoding of a number gives the number back and stops exactly
/// behind it, whatever follows.
pub proof fn lemma_uint_roundtrip(n: u64, rest: Seq<u8>)
    ensures
        uint_decoding(uint_encoding(n as nat) + rest) == Ok::<_, DecodeError>((n as nat, rest)),
{
    assert((n as nat) * group_weight(0) == n as nat) by (nonlinear_arith)
        requires
            group_weight(0) == 1,
    ;
    lemma_decode_encoded(n as nat, 0, rest);
}

/// An encoding is one to ten bytes long.
pub proof fn lemma_uint_encoding_len(n: nat)
    ensures
        1 <= uint_encoding(n).len(),
        n < 0x1_0000_0000_0000_0000 ==> uint_encoding(n).len() <= 10,
{
    reveal_with_fuel(uint_encoding, 11);
    if n < 0x1_0000_0000_0000_0000 {
        let n9 = n / 128 / 128 / 128 / 128 / 128 / 128 / 128 / 128 / 128;
        assert(n9 < 128);
    }
}

/// Reads one integer from the front of the reader.
///
/// Fails with `UnexpectedEof` when the input ends before a byte without the
/// continuation bit, and with `InvalidData` at an eleventh byte. On failure
/// the reader's position is not specified.
pub fn read_uint(reader: &mut Reader) -> (r: Result<u64, DecodeError>)
    ensures
        match r {
            Ok(n) => uint_decoding(old(reader)@) == Ok::<_, DecodeError>((n as nat, final(reader)@)),
            Err(e) => uint_decoding(old(reader)@) == Err::<(nat, Seq<u8>), _>(e),
        },
{
    let mut n: u64 = 0;
    let mut shift: u32 = 0;
    let ghost mut i: nat = 0;
    assert(0u64 < (1u64 << 0u32)) by (bit_vector);
    loop
        invariant_except_break
            shift == 7 * i,
            i <= 10,
            i < 10 ==> n < (1u64 << shift),
            uint_decoding(old(reader)@) == match uint_decoding_from(reader@, i) {
                Ok((high, rest)) => Ok::<_, DecodeError>((n as nat + high, rest)),
                Err(e) => Err(e),
            },
        ensures
            uint_decoding(old(reader)@) == Ok::<_, DecodeError>((n as nat, reader@)),
        decreases reader@.len(),
    {
        let byte = match reader.read_u8() {
            Ok(byte) => byte,
            Err(e) => {
                return Err(e);
            },
        };
        if shift >= 64 {
            return Err(DecodeError::InvalidData);
        }
        proof {
            lemma_or_is_add(n, byte, shift);
            lemma_group_weight_shift(shift, i);
            assert(((byte % 128) as u64) * (1u64 << shift) == (byte % 128) as nat * group_weight(i));
            assert(((byte % 2) as u64) * (1u64 << shift) == (byte % 2) as nat * group_weight(i));
        }
        n = n | (((byte & 127) as u64) << shift);
        if byte & 128 == 0 {
            break ;
        }
        shift = shift + 7;
        proof {
            i = i + 1;
        }
    }
    Ok(n)
}

/// Appends the encoding of `n` to the writer.
pub fn write_uint(writer: &mut Vec<u8>, n: u64)
    ensures
        final(writer)@ == old(writer)@ + uint_encoding(n as nat),
{
    let mut n = n;
    let ghost start = n;
    while n > 127
        invariant
            old(writer)@ + uint_encoding(start as nat) == writer@ + uint_encoding(n as nat),
        decreases n,
    {
        assert(((n as u8 & 127) | 128) == (n % 128 + 128) as u8 && (n >> 7) == n / 128 && n % 128
            + 128 < 256) by (bit_vector);
        assert(writer@ + uint_encoding(n as nat) =~= writer@.push((n % 128 + 128) as u8)
            + uint_encoding((n / 128) as nat));
        writer.push((n as u8 & 127) | 128);
        n = n >> 7;
    }
    assert(n <= 127 ==> n as u8 == n) by (bit_vector);
    assert(writer@ + uint_encoding(n as nat) =~= writer@.push(n as u8));
    writer.push(n as u8);
}

} // verus!

//! Fixed-width big-endian integers, as they stand in keys and game ids.

use byteorder::{BigEndian, ByteOrder};
use vstd::prelude::*;

verus! {

/// The `len` low bytes of `n`, most significant first.
pub open spec fn be_bytes(n: nat, len: nat) -> Seq<u8>
    decreases len,
{
    if len == 0 {
        Seq::empty()
    } else {
        be_bytes(n / 256, (len - 1) as nat).push((n % 256) as u8)
    }
}

/// The number whose big-endian digits are the bytes of `s`.
pub open spec fn be_value(s: Seq<u8>) -> nat
    decreases s.len(),
{
    if s.len() == 0 {
        0
    } else {
        be_value(s.drop_last()) * 256 + s.last() as nat
    }
}

/// `256` to the power `len`: the first number that `len` bytes cannot hold.
pub open spec fn be_limit(len: nat) -> nat
    decreases len,
{
    if len == 0 {
        1
    } else {
        256 * be_limit((len - 1) as nat)
    }
}

/// `be_bytes` gives exactly `len` bytes.
pub proof fn lemma_be_bytes_len(n: nat, len: nat)
    ensures
        be_bytes(n, len).len() == len,
    decreases len,
{
    if len > 0 {
        lemma_be_bytes_len(n / 256, (len - 1) as nat);
    }
}

/// A number that fits into `len` bytes is read back from them unchanged.
pub proof fn lemma_be_roundtrip(n: nat, len: nat)
    requires
        n < be_limit(len),
    ensures
        be_value(be_bytes(n, len)) == n,
    decreases len,
{
    if len > 0 {
        let head = be_bytes(n / 256, (len - 1) as nat);
        assert(be_bytes(n, len).drop_last() =~= head);
        lemma_be_roundtrip(n / 256, (len - 1) as nat);
    }
}

/// Bytes are written back from the number they spell, and the number fits
/// into as many bytes.
pub proof fn lemma_be_value_roundtrip(s: Seq<u8>)
    ensures
        be_value(s) < be_limit(s.len()),
        be_bytes(be_value(s), s.len()) == s,
    decreases s.len(),
{
    if s.len() > 0 {
        let init = s.drop_last();
        lemma_be_value_roundtrip(init);
        let n = be_value(s);
        assert(n / 256 == be_value(init) && n % 256 == s.last());
        assert(be_bytes(n, s.len()) =~= be_bytes(n / 256, (s.len() - 1) as nat).push(
            (n % 256) as u8,
        ));
        assert(init.push(s.last()) =~= s);
    } else {
        assert(be_bytes(0, 0) =~= s);
    }
}

/// The limits of the two widths in use.
pub proof fn lemma_be_limits()
    ensures
        be_limit(6) == 0x1_0000_0000_0000,
        be_limit(16) == 0x1_0000_0000_0000_0000_0000_0000_0000_0000,
{
    reveal_with_fuel(be_limit, 17);
}

/// `byteorder::BigEndian::write_u48` on a fresh six-byte buffer: the six low
/// bytes of `n`, most significant first. The call panics on a number of more
/// than 48 bits, which the precondition leaves out.
#[verifier::external_body]
pub(crate) fn u48_to_be(n: u64) -> (bytes: [u8; 6])
    requires
        n < 0x1_0000_0000_0000,
    ensures
        bytes@ == be_bytes(n as nat, 6),
{
    let mut bytes = [0u8; 6];
    BigEndian::write_u48(&mut bytes, n);
    bytes
}

/// `byteorder::BigEndian::read_u48`: the number that the first six bytes
/// spell, most significant first. The call panics on a shorter slice, which
/// the precondition leaves out.
#[verifier::external_body]
pub(crate) fn u48_from_be(bytes: &[u8]) -> (n: u64)
    requires
        bytes@.len() >= 6,
    ensures
        n == be_value(bytes@.take(6)),
{
    BigEndian::read_u48(bytes)
}

/// `byteorder::BigEndian::write_u128` on a fresh sixteen-byte buffer: the
/// bytes of `n`, most significant first.
#[verifier::external_body]
pub(crate) fn u128_to_be(n: u128) -> (bytes: [u8; 16])
    ensures
        bytes@ == be_bytes(n as nat, 16),
{
    let mut bytes = [0u8; 16];
    BigEndian::write_u128(&mut bytes, n);
    bytes
}

/// `byteorder::BigEndian::read_u128`: the number that the first sixteen
/// bytes spell, most significant first. The call panics on a shorter slice,
/// which the precondition leaves out.
#[verifier::external_body]
pub(crate) fn u128_from_be(bytes: &[u8]) -> (n: u128)
    requires
        bytes@.len() >= 16,
    ensures
        n == be_value(bytes@.take(16)),
{
    BigEndian::read_u128(bytes)
}

/// Appends a slice to a byte vector.
pub fn append_bytes(out: &mut Vec<u8>, bytes: &[u8])
    ensures
        final(out)@ == old(out)@ + bytes@,
{
    let mut i: usize = 0;
    while i < bytes.len()
        invariant
            i <= bytes.len(),
            out@ == old(out)@ + bytes@.take(i as int),
        decreases bytes.len() - i,
    {
        out.push(bytes[i]);
        i = i + 1;
        proof {
            assert(bytes@.take(i as int) =~= bytes@.take(i - 1).push(bytes@[i - 1]));
        }
    }
    proof {
        assert(bytes@.take(bytes.len() as int) =~= bytes@);
    }
}

} // verus!

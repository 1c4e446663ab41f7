//! Big-endian integers on the wire.

use byteorder::{BigEndian, ByteOrder};
use vstd::prelude::*;

verus! {

/// The four bytes of `n`, most significant first.
pub open spec fn be_u32_bytes(n: u32) -> Seq<u8> {
    seq![(n >> 24u32) as u8, (n >> 16u32) as u8, (n >> 8u32) as u8, n as u8]
}

/// The number whose big-endian form starts `b` (`b` holds at least four bytes).
pub open spec fn be_u32_value(b: Seq<u8>) -> u32 {
    ((b[0] as u32) << 24u32) | ((b[1] as u32) << 16u32) | ((b[2] as u32) << 8u32) | (b[3] as u32)
}

/// The number whose big-endian form starts `b` (`b` holds at least two bytes).
pub open spec fn be_u16_value(b: Seq<u8>) -> u16 {
    ((b[0] as u16) << 8u16) | (b[1] as u16)
}

proof fn lemma_be_u32_bits(n: u32, b0: u8, b1: u8, b2: u8, b3: u8)
    requires
        b0 == (n >> 24u32) as u8,
        b1 == (n >> 16u32) as u8,
        b2 == (n >> 8u32) as u8,
        b3 == n as u8,
    ensures
        ((b0 as u32) << 24u32) | ((b1 as u32) << 16u32) | ((b2 as u32) << 8u32) | (b3 as u32) == n,
{
    assert(((b0 as u32) << 24u32) | ((b1 as u32) << 16u32) | ((b2 as u32) << 8u32) | (b3 as u32)
        == n) by (bit_vector)
        requires
            b0 == (n >> 24u32) as u8,
            b1 == (n >> 16u32) as u8,
            b2 == (n >> 8u32) as u8,
            b3 == n as u8,
    ;
}

/// Reading back the four bytes written for `n` gives `n`.
pub proof fn lemma_be_u32_round_trip(n: u32)
    ensures
        be_u32_bytes(n).len() == 4,
        be_u32_value(be_u32_bytes(n)) == n,
{
    let b = be_u32_bytes(n);
    lemma_be_u32_bits(n, b[0], b[1], b[2], b[3]);
}

/// The value read depends on the first four bytes alone.
pub proof fn lemma_be_u32_prefix(a: Seq<u8>, b: Seq<u8>)
    requires
        a.len() >= 4,
        b.len() >= 4,
        a.subrange(0, 4) == b.subrange(0, 4),
    ensures
        be_u32_value(a) == be_u32_value(b),
{
    assert(a[0] == a.subrange(0, 4)[0]);
    assert(a[1] == a.subrange(0, 4)[1]);
    assert(a[2] == a.subrange(0, 4)[2]);
    assert(a[3] == a.subrange(0, 4)[3]);
}

/// Relies on byteorder's `BigEndian::write_u32`: it stores the four bytes of
/// `n`, most significant first.
#[verifier::external_body]
pub(crate) fn u32_to_be_bytes(n: u32) -> (r: Vec<u8>)
    ensures
        r@ == be_u32_bytes(n),
{
    let mut buf = vec![0u8; 4];
    BigEndian::write_u32(&mut buf, n);
    buf
}

/// Relies on byteorder's `BigEndian::read_u32`: it reads the first four bytes
/// of `buf`, most significant first, and panics on fewer.
#[verifier::external_body]
pub(crate) fn read_be_u32(buf: &[u8]) -> (r: u32)
    requires
        buf@.len() >= 4,
    ensures
        r == be_u32_value(buf@),
{
    BigEndian::read_u32(buf)
}

/// Relies on byteorder's `BigEndian::read_u16`: it reads the first two bytes
/// of `buf`, most significant first, and panics on fewer.
#[verifier::external_body]
pub(crate) fn read_be_u16(buf: &[u8]) -> (r: u16)
    requires
        buf@.len() >= 2,
    ensures
        r == be_u16_value(buf@),
{
    BigEndian::read_u16(buf)
}

/// Whether two byte strings are the same.
pub(crate) fn bytes_equal(a: &Vec<u8>, b: &Vec<u8>) -> (r: bool)
    ensures
        r <==> a@ == b@,
{
    if a.len() != b.len() {
        return false;
    }
    let mut i: usize = 0;
    while i < a.len()
        invariant
            a@.len() == b@.len(),
            i <= a@.len(),
            forall|j: int| 0 <= j < i ==> a@[j] == b@[j],
        decreases a@.len() - i,
    {
        if a[i] != b[i] {
            return false;
        }
        i = i + 1;
    }
    assert(a@ =~= b@);
    true
}

} // verus!

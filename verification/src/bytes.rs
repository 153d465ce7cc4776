//! Byte strings: comparison, big-endian numbers and their values.

use vstd::prelude::*;

verus! {

/// The number that a big-endian byte string stands for.
pub open spec fn be_value(s: Seq<u8>) -> nat
    decreases s.len(),
{
    if s.len() == 0 {
        0
    } else {
        be_value(s.drop_last()) * 256 + s.last() as nat
    }
}

/// The two bytes of a 16-bit number, most significant first.
pub open spec fn u16_be(n: u16) -> Seq<u8> {
    seq![(n / 0x100) as u8, (n % 0x100) as u8]
}

/// The four bytes of a 32-bit number, most significant first.
pub open spec fn u32_be(n: u32) -> Seq<u8> {
    seq![
        (n / 0x100_0000) as u8,
        (n / 0x1_0000 % 0x100) as u8,
        (n / 0x100 % 0x100) as u8,
        (n % 0x100) as u8,
    ]
}

/// The eight bytes of a 64-bit number, most significant first.
pub open spec fn u64_be(n: u64) -> Seq<u8> {
    seq![
        (n / 0x100_0000_0000_0000) as u8,
        (n / 0x1_0000_0000_0000 % 0x100) as u8,
        (n / 0x100_0000_0000 % 0x100) as u8,
        (n / 0x1_0000_0000 % 0x100) as u8,
        (n / 0x100_0000 % 0x100) as u8,
        (n / 0x1_0000 % 0x100) as u8,
        (n / 0x100 % 0x100) as u8,
        (n % 0x100) as u8,
    ]
}

/// Strict lexicographic order on byte strings; a proper prefix comes first.
pub open spec fn lex_less(a: Seq<u8>, b: Seq<u8>) -> bool
    decreases a.len(),
{
    if b.len() == 0 {
        false
    } else if a.len() == 0 {
        true
    } else if a[0] != b[0] {
        a[0] < b[0]
    } else {
        lex_less(a.skip(1), b.skip(1))
    }
}

/// `byteorder::BigEndian::write_u16` on a buffer of two bytes: the buffer then
/// holds the number's bytes, most significant first.
#[verifier::external_body]
fn be_bytes_u16(n: u16) -> (out: [u8; 2])
    ensures
        out@ == u16_be(n),
{
    let mut out = [0u8; 2];
    <byteorder::BigEndian as byteorder::ByteOrder>::write_u16(&mut out, n);
    out
}

/// `byteorder::BigEndian::write_u32` on a buffer of four bytes: the buffer then
/// holds the number's bytes, most significant first.
#[verifier::external_body]
fn be_bytes_u32(n: u32) -> (out: [u8; 4])
    ensures
        out@ == u32_be(n),
{
    let mut out = [0u8; 4];
    <byteorder::BigEndian as byteorder::ByteOrder>::write_u32(&mut out, n);
    out
}

/// `byteorder::BigEndian::write_u64` on a buffer of eight bytes: the buffer
/// then holds the number's bytes, most significant first.
#[verifier::external_body]
fn be_bytes_u64(n: u64) -> (out: [u8; 8])
    ensures
        out@ == u64_be(n),
{
    let mut out = [0u8; 8];
    <byteorder::BigEndian as byteorder::ByteOrder>::write_u64(&mut out, n);
    out
}

/// Appends a 16-bit number in big-endian order.
pub fn put_u16(out: &mut Vec<u8>, n: u16)
    ensures
        final(out)@ == old(out)@ + u16_be(n),
{
    let b = be_bytes_u16(n);
    out.extend_from_slice(b.as_slice());
}

/// Appends a 32-bit number in big-endian order.
pub fn put_u32(out: &mut Vec<u8>, n: u32)
    ensures
        final(out)@ == old(out)@ + u32_be(n),
{
    let b = be_bytes_u32(n);
    out.extend_from_slice(b.as_slice());
}

/// Appends a 64-bit number in big-endian order.
pub fn put_u64(out: &mut Vec<u8>, n: u64)
    ensures
        final(out)@ == old(out)@ + u64_be(n),
{
    let b = be_bytes_u64(n);
    out.extend_from_slice(b.as_slice());
}

/// Appends a byte string.
pub fn put_bytes(out: &mut Vec<u8>, data: &[u8])
    ensures
        final(out)@ == old(out)@ + data@,
{
    out.extend_from_slice(data);
}

/// Whether two byte strings hold the same bytes.
pub fn bytes_equal(a: &[u8], b: &[u8]) -> (same: bool)
    ensures
        same == (a@ == b@),
{
    if a.len() != b.len() {
        return false;
    }
    let mut i: usize = 0;
    while i < a.len()
        invariant
            a.len() == b.len(),
            i <= a.len(),
            forall|j: int| 0 <= j < i ==> a[j] == b[j],
        decreases a.len() - i,
    {
        if a[i] != b[i] {
            return false;
        }
        i += 1;
    }
    assert(a@ =~= b@);
    true
}

/// Whether `a` comes strictly before `b` in lexicographic order.
pub fn bytes_less(a: &[u8], b: &[u8]) -> (less: bool)
    ensures
        less == lex_less(a@, b@),
{
    let mut i: usize = 0;
    assert(a@.skip(0) =~= a@ && b@.skip(0) =~= b@);
    while i < a.len() && i < b.len()
        invariant
            i <= a.len(),
            i <= b.len(),
            lex_less(a@, b@) == lex_less(a@.skip(i as int), b@.skip(i as int)),
        decreases a.len() - i,
    {
        proof {
            let sa = a@.skip(i as int);
            let sb = b@.skip(i as int);
            assert(sa[0] == a[i as int]);
            assert(sb[0] == b[i as int]);
            assert(sa.skip(1) =~= a@.skip(i + 1));
            assert(sb.skip(1) =~= b@.skip(i + 1));
        }
        if a[i] != b[i] {
            return a[i] < b[i];
        }
        i += 1;
    }
    i < b.len()
}

} // verus!

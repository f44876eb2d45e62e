//! Big-endian numbers on the wire.

use vstd::prelude::*;

verus! {

/// The two octets of a 16-bit number, high octet first.
pub open spec fn be16(x: u16) -> Seq<u8> {
    seq![(x >> 8) as u8, (x & 0xff) as u8]
}

/// The number with the given high and low octet.
pub open spec fn join16(a: u8, b: u8) -> u16 {
    ((a as u16) << 8) | (b as u16)
}

/// The 16-bit number at `i`.
pub open spec fn u16_at(b: Seq<u8>, i: int) -> u16 {
    join16(b[i], b[i + 1])
}

/// The four octets of a 32-bit number, high octet first.
pub open spec fn be32(x: u32) -> Seq<u8> {
    seq![(x >> 24) as u8, ((x >> 16) & 0xff) as u8, ((x >> 8) & 0xff) as u8, (x & 0xff) as u8]
}

/// The number with the given four octets, high octet first.
pub open spec fn join32(a: u8, b: u8, c: u8, d: u8) -> u32 {
    ((a as u32) << 24) | ((b as u32) << 16) | ((c as u32) << 8) | (d as u32)
}

/// The 32-bit number at `i`.
pub open spec fn u32_at(b: Seq<u8>, i: int) -> u32 {
    join32(b[i], b[i + 1], b[i + 2], b[i + 3])
}

pub proof fn lemma_be16(x: u16)
    ensures
        join16(be16(x)[0], be16(x)[1]) == x,
{
    assert((((((x >> 8) as u8) as u16) << 8) | (((x & 0xff) as u8) as u16)) == x) by (bit_vector);
}

pub proof fn lemma_be32(x: u32)
    ensures
        join32(be32(x)[0], be32(x)[1], be32(x)[2], be32(x)[3]) == x,
{
    assert((((((x >> 24) as u8) as u32) << 24) | (((((x >> 16) & 0xff) as u8) as u32) << 16) | ((((
    (x >> 8) & 0xff) as u8) as u32) << 8) | (((x & 0xff) as u8) as u32)) == x) by (bit_vector);
}

/// Reads the 16-bit number at `i`.
pub fn read_u16(b: &[u8], i: usize) -> (r: u16)
    requires
        i + 1 < b@.len(),
    ensures
        r == u16_at(b@, i as int),
{
    ((b[i] as u16) << 8) | (b[i + 1] as u16)
}

/// Reads the 32-bit number at `i`.
pub fn read_u32(b: &[u8], i: usize) -> (r: u32)
    requires
        i + 3 < b@.len(),
    ensures
        r == u32_at(b@, i as int),
{
    assert(b.len() <= usize::MAX);
    ((b[i] as u32) << 24) | ((b[i + 1] as u32) << 16) | ((b[i + 2] as u32) << 8) | (b[i + 3] as u32)
}

/// Appends bytes.
pub fn put_all(out: &mut Vec<u8>, b: &[u8])
    ensures
        final(out)@ == old(out)@ + b@,
{
    let ghost before = out@;
    let mut i: usize = 0;
    while i < b.len()
        invariant
            i <= b@.len(),
            out@ == before + b@.take(i as int),
        decreases b@.len() - i,
    {
        out.push(b[i]);
        assert(out@ =~= before + b@.take(i + 1));
        i = i + 1;
    }
    assert(b@.take(b@.len() as int) =~= b@);
}

/// Appends a 16-bit number, high octet first.
pub fn put_u16(out: &mut Vec<u8>, x: u16)
    ensures
        final(out)@ == old(out)@ + be16(x),
{
    let ghost before = out@;
    out.push((x >> 8) as u8);
    out.push((x & 0xff) as u8);
    assert(out@ =~= before + be16(x));
}

/// Appends a 32-bit number, high octet first.
pub fn put_u32(out: &mut Vec<u8>, x: u32)
    ensures
        final(out)@ == old(out)@ + be32(x),
{
    let ghost before = out@;
    out.push((x >> 24) as u8);
    out.push(((x >> 16) & 0xff) as u8);
    out.push(((x >> 8) & 0xff) as u8);
    out.push((x & 0xff) as u8);
    assert(out@ =~= before + be32(x));
}

/// The value of octets on the wire: the first counts most.
pub proof fn first_octet_counts_most(a: u8, b: u8, c: u8, d: u8)
    ensures
        join16(a, b) == a * 0x100 + b,
        join32(a, b, c, d) == a * 0x100_0000 + b * 0x1_0000 + c * 0x100 + d,
{
    assert((((a as u16) << 8) | (b as u16)) == a * 0x100 + b) by (bit_vector);
    assert((((a as u32) << 24) | ((b as u32) << 16) | ((c as u32) << 8) | (d as u32)) == a
        * 0x100_0000 + b * 0x1_0000 + c * 0x100 + d) by (bit_vector);
}

} // verus!

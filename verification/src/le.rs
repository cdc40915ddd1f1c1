//! Little-endian encoding of the 32-bit integers the page format stores:
//! ids, keys, page numbers and cell counts.

use vstd::prelude::*;

verus! {

/// The four little-endian bytes of a 32-bit integer.
pub open spec fn spec_u32_le(x: u32) -> Seq<u8> {
    seq![
        (x & 0xff) as u8,
        ((x >> 8) & 0xff) as u8,
        ((x >> 16) & 0xff) as u8,
        ((x >> 24) & 0xff) as u8,
    ]
}

/// The 32-bit integer read from four little-endian bytes.
pub open spec fn spec_u32_of_le(s: Seq<u8>) -> u32
    recommends
        s.len() == 4,
{
    (s[0] as u32) | ((s[1] as u32) << 8) | ((s[2] as u32) << 16) | ((s[3] as u32) << 24)
}

/// Reading back the four bytes of an integer gives the integer.
pub proof fn lemma_u32_le_round_trip(x: u32)
    ensures
        spec_u32_le(x).len() == 4,
        spec_u32_of_le(spec_u32_le(x)) == x,
{
    assert(x == (((x & 0xff) as u8) as u32) | ((((x >> 8) & 0xff) as u8) as u32) << 8 | ((((x
        >> 16) & 0xff) as u8) as u32) << 16 | ((((x >> 24) & 0xff) as u8) as u32) << 24)
        by (bit_vector);
}

/// Zero is the only integer whose four bytes are all zero.
pub proof fn lemma_u32_le_zero(x: u32)
    ensures
        spec_u32_le(0u32) == seq![0u8, 0u8, 0u8, 0u8],
        (forall|i: int| 0 <= i < 4 ==> spec_u32_le(x)[i] == 0) ==> x == 0,
{
    assert((0u32 & 0xff) as u8 == 0 && ((0u32 >> 8) & 0xff) as u8 == 0 && ((0u32 >> 16)
        & 0xff) as u8 == 0 && ((0u32 >> 24) & 0xff) as u8 == 0) by (bit_vector);
    assert(spec_u32_le(0u32) =~= seq![0u8, 0u8, 0u8, 0u8]);
    if forall|i: int| 0 <= i < 4 ==> spec_u32_le(x)[i] == 0 {
        assert(spec_u32_le(x)[0] == 0 && spec_u32_le(x)[1] == 0 && spec_u32_le(x)[2] == 0
            && spec_u32_le(x)[3] == 0);
        assert((x & 0xff) as u8 == 0 && ((x >> 8) & 0xff) as u8 == 0 && ((x >> 16) & 0xff) as u8
            == 0 && ((x >> 24) & 0xff) as u8 == 0 ==> x == 0) by (bit_vector);
        assert(x == 0);
    }
}

/// Append the four little-endian bytes of `x`.
pub fn push_u32_le(buf: &mut Vec<u8>, x: u32)
    ensures
        final(buf)@ == old(buf)@ + spec_u32_le(x),
{
    proof {
        assert((x & 0xff) < 256 && ((x >> 8) & 0xff) < 256 && ((x >> 16) & 0xff) < 256 && ((x
            >> 24) & 0xff) < 256) by (bit_vector);
    }
    buf.push((x & 0xff) as u8);
    buf.push(((x >> 8) & 0xff) as u8);
    buf.push(((x >> 16) & 0xff) as u8);
    buf.push(((x >> 24) & 0xff) as u8);
    assert(final(buf)@ =~= old(buf)@ + spec_u32_le(x));
}

/// Read the 32-bit integer stored at `pos`.
pub fn read_u32_le(buf: &[u8], pos: usize) -> (r: u32)
    requires
        pos + 4 <= buf@.len(),
    ensures
        r == spec_u32_of_le(buf@.subrange(pos as int, pos + 4)),
{
    let ghost s = buf@.subrange(pos as int, pos + 4);
    let n = buf.len();
    assert(pos + 4 <= n);
    let b0 = buf[pos];
    let b1 = buf[pos + 1];
    let b2 = buf[pos + 2];
    let b3 = buf[pos + 3];
    assert(b0 == s[0] && b1 == s[1] && b2 == s[2] && b3 == s[3]);
    (b0 as u32) | ((b1 as u32) << 8) | ((b2 as u32) << 16) | ((b3 as u32) << 24)
}

} // verus!

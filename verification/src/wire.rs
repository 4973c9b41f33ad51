use vstd::prelude::*;

verus! {

/// The 16-bit big-endian value at offset `i` of `b`.
pub open spec fn spec_be16(b: Seq<u8>, i: int) -> u16
    recommends
        0 <= i,
        i + 2 <= b.len(),
{
    ((b[i] as int) * 256 + b[i + 1] as int) as u16
}

/// The 32-bit big-endian value at offset `i` of `b`.
pub open spec fn spec_be32(b: Seq<u8>, i: int) -> u32
    recommends
        0 <= i,
        i + 4 <= b.len(),
{
    ((b[i] as int) * 16777216 + (b[i + 1] as int) * 65536 + (b[i + 2] as int) * 256 + b[i
        + 3] as int) as u32
}

/// The two big-endian bytes of a 16-bit value.
pub open spec fn spec_u16_bytes(x: u16) -> Seq<u8> {
    seq![(x / 256) as u8, x as u8]
}

/// The four big-endian bytes of a 32-bit value.
pub open spec fn spec_u32_bytes(x: u32) -> Seq<u8> {
    seq![(x / 16777216) as u8, (x / 65536) as u8, (x / 256) as u8, x as u8]
}

/// Read the 16-bit big-endian value at offset `i`.
pub fn read_be16(buf: &[u8], i: usize) -> (r: u16)
    requires
        i + 2 <= buf@.len(),
    ensures
        r == spec_be16(buf@, i as int),
{
    (buf[i] as u16) * 256 + buf[i + 1] as u16
}

/// Read the 32-bit big-endian value at offset `i`.
pub fn read_be32(buf: &[u8], i: usize) -> (r: u32)
    requires
        i + 4 <= buf@.len(),
    ensures
        r == spec_be32(buf@, i as int),
{
    (buf[i] as u32) * 16777216 + (buf[i + 1] as u32) * 65536 + (buf[i + 2] as u32) * 256 + buf[i
        + 3] as u32
}

/// Append the two big-endian bytes of `x`.
pub fn push_be16(v: &mut Vec<u8>, x: u16)
    ensures
        final(v)@ == old(v)@ + spec_u16_bytes(x),
{
    let ghost pre = v@;
    v.push((x / 256) as u8);
    v.push(x as u8);
    proof {
        assert(v@ =~= pre + spec_u16_bytes(x));
    }
}

/// Append the four big-endian bytes of `x`.
pub fn push_be32(v: &mut Vec<u8>, x: u32)
    ensures
        final(v)@ == old(v)@ + spec_u32_bytes(x),
{
    let ghost pre = v@;
    v.push((x / 16777216) as u8);
    v.push((x / 65536) as u8);
    v.push((x / 256) as u8);
    v.push(x as u8);
    proof {
        assert(v@ =~= pre + spec_u32_bytes(x));
    }
}

} // verus!

//! Big-endian 32-bit codec.
//!
//! Every multi-byte integer in the file format — header fields, keys, child
//! page numbers and value bit patterns — is a big-endian `u32` written at a
//! caller-specified byte offset.

use vstd::prelude::*;

verus! {

/// The `u32` encoded big-endian in the four bytes of `s` starting at `off`.
pub open spec fn be_u32_at(s: Seq<u8>, off: int) -> u32 {
    ((s[off] as int) * 0x100_0000 + (s[off + 1] as int) * 0x1_0000 + (s[off + 2] as int) * 0x100
        + (s[off + 3] as int)) as u32
}

/// Decode the big-endian `u32` at byte offset `offset` of `buf`.
pub fn read_u32(buf: &Vec<u8>, offset: usize) -> (r: u32)
    requires
        offset + 4 <= buf.len(),
    ensures
        r == be_u32_at(buf@, offset as int),
{
    let b0 = buf[offset] as u32;
    let b1 = buf[offset + 1] as u32;
    let b2 = buf[offset + 2] as u32;
    let b3 = buf[offset + 3] as u32;
    b0 * 0x100_0000 + b1 * 0x1_0000 + b2 * 0x100 + b3
}

/// Encode `source` big-endian into the four bytes of `buf` starting at
/// `offset`; every other byte keeps its value.
pub fn write_u32(buf: &mut Vec<u8>, offset: usize, source: u32)
    requires
        offset + 4 <= old(buf).len(),
    ensures
        final(buf).len() == old(buf).len(),
        be_u32_at(final(buf)@, offset as int) == source,
        forall|i: int|
            0 <= i < old(buf).len() && !(offset <= i < offset + 4) ==> final(buf)@[i] == old(
                buf,
            )@[i],
{
    let b0 = ((source >> 24) & 0xff) as u8;
    let b1 = ((source >> 16) & 0xff) as u8;
    let b2 = ((source >> 8) & 0xff) as u8;
    let b3 = (source & 0xff) as u8;
    assert(source == ((source >> 24) & 0xff) * 0x100_0000 + ((source >> 16) & 0xff) * 0x1_0000 + ((
    source >> 8) & 0xff) * 0x100 + (source & 0xff)) by (bit_vector);
    assert((source >> 24) & 0xff < 0x100 && (source >> 16) & 0xff < 0x100 && (source >> 8) & 0xff
        < 0x100 && source & 0xff < 0x100) by (bit_vector);
    buf.set(offset, b0);
    buf.set(offset + 1, b1);
    buf.set(offset + 2, b2);
    buf.set(offset + 3, b3);
}

} // verus!

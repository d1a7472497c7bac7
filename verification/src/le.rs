//! Little-endian integers, the way an image stores them.

use vstd::prelude::*;

verus! {

/// The 16-bit integer at `o`.
pub open spec fn le16(s: Seq<u8>, o: int) -> u16 {
    (s[o] + 0x100 * s[o + 1]) as u16
}

/// The 32-bit integer at `o`.
pub open spec fn le32(s: Seq<u8>, o: int) -> u32 {
    (s[o] + 0x100 * s[o + 1] + 0x1_0000 * s[o + 2] + 0x100_0000 * s[o + 3]) as u32
}

/// The 64-bit integer at `o`.
pub open spec fn le64(s: Seq<u8>, o: int) -> u64 {
    (le32(s, o) + 0x1_0000_0000 * le32(s, o + 4)) as u64
}

/// The signed 32-bit integer at `o`, in two's complement.
pub open spec fn le_i32(s: Seq<u8>, o: int) -> i32 {
    let v = le32(s, o);
    if v < 0x8000_0000 {
        v as i32
    } else {
        (v - 0x1_0000_0000) as i32
    }
}

pub(crate) fn read_u16(data: &[u8], o: usize) -> (v: u16)
    requires
        o + 2 <= data@.len(),
    ensures
        v == le16(data@, o as int),
{
    data[o] as u16 + 0x100 * (data[o + 1] as u16)
}

pub(crate) fn read_u32(data: &[u8], o: usize) -> (v: u32)
    requires
        o + 4 <= data@.len(),
    ensures
        v == le32(data@, o as int),
{
    data[o] as u32 + 0x100 * (data[o + 1] as u32) + 0x1_0000 * (data[o + 2] as u32) + 0x100_0000 * (
    data[o + 3] as u32)
}

pub(crate) fn read_u64(data: &[u8], o: usize) -> (v: u64)
    requires
        o + 8 <= data@.len(),
    ensures
        v == le64(data@, o as int),
{
    assert(data.len() == data@.len());
    read_u32(data, o) as u64 + 0x1_0000_0000 * (read_u32(data, o + 4) as u64)
}

/// `bytes::Buf::get_i32_le` on a byte slice: the signed 32-bit integer that its
/// first four bytes hold in little-endian order. It panics on fewer than four
/// bytes, so there have to be four.
#[verifier::external_body]
pub(crate) fn get_i32_le(data: &[u8]) -> (v: i32)
    requires
        data@.len() >= 4,
    ensures
        v == le_i32(data@, 0),
{
    let mut buf = data;
    bytes::Buf::get_i32_le(&mut buf)
}

} // verus!

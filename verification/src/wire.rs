//! Little-endian integer fields as they appear in the ROM's binary tables.
use vstd::prelude::*;

verus! {

/// The 16-bit little-endian integer stored at byte offset `i` of `data`.
pub open spec fn le16_at(data: Seq<u8>, i: int) -> int {
    data[i] + 0x100 * (data[i + 1] as int)
}

/// The 24-bit little-endian integer stored at byte offset `i` of `data`.
pub open spec fn le24_at(data: Seq<u8>, i: int) -> int {
    data[i] + 0x100 * (data[i + 1] as int) + 0x10000 * (data[i + 2] as int)
}

/// The 32-bit little-endian integer stored at byte offset `i` of `data`.
pub open spec fn le32_at(data: Seq<u8>, i: int) -> int {
    data[i] + 0x100 * (data[i + 1] as int) + 0x10000 * (data[i + 2] as int) + 0x1000000 * (data[
        i + 3
    ] as int)
}

/// Reads the 16-bit little-endian integer at offset `i`.
pub fn read_le16(data: &[u8], i: usize) -> (r: u16)
    requires
        i + 2 <= data@.len(),
    ensures
        r == le16_at(data@, i as int),
{
    data[i] as u16 + 0x100 * (data[i + 1] as u16)
}

/// Reads the 32-bit little-endian integer at offset `i`.
pub fn read_le32(data: &[u8], i: usize) -> (r: u32)
    requires
        i + 4 <= data@.len(),
    ensures
        r == le32_at(data@, i as int),
{
    data[i] as u32 + 0x100 * (data[i + 1] as u32) + 0x10000 * (data[i + 2] as u32) + 0x1000000 * (
    data[i + 3] as u32)
}

} // verus!

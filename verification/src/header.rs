//! The fixed ROM header region: the four 32-bit little-endian fields that
//! locate the name table and the allocation table.
use crate::wire::le32_at;
use vstd::prelude::*;

verus! {

/// The ROM header is only readable when at least this many bytes are present.
pub const HEADER_LEN: usize = 0x50;

/// Failure conditions of the header reader.
#[derive(Debug, PartialEq, Eq, Clone, Copy)]
pub enum RomHeaderError {
    /// The ROM is shorter than the fixed header region.
    TruncatedHeader,
}

/// The four header-derived table descriptors: offset and size of the name
/// table and of the allocation table. No further validation is done here;
/// offsets past the end of the ROM are caught by the downstream table parsers.
#[derive(Debug, PartialEq, Eq, Clone, Copy)]
pub struct TableRegions {
    pub name_table_offset: u32,
    pub name_table_size: u32,
    pub alloc_table_offset: u32,
    pub alloc_table_size: u32,
}

/// Reads the table descriptors from the fixed header offsets 0x40, 0x44,
/// 0x48 and 0x4C.
pub fn read_header(rom: &[u8]) -> (r: Result<TableRegions, RomHeaderError>)
    ensures
        rom@.len() < HEADER_LEN ==> r == Err::<TableRegions, RomHeaderError>(
            RomHeaderError::TruncatedHeader,
        ),
        rom@.len() >= HEADER_LEN ==> match r {
            Ok(t) => t.name_table_offset == le32_at(rom@, 0x40) && t.name_table_size == le32_at(
                rom@,
                0x44,
            ) && t.alloc_table_offset == le32_at(rom@, 0x48) && t.alloc_table_size == le32_at(
                rom@,
                0x4C,
            ),
            Err(e) => false,
        },
{
    if rom.len() < HEADER_LEN {
        return Err(RomHeaderError::TruncatedHeader);
    }
    Ok(
        TableRegions {
            name_table_offset: crate::wire::read_le32(rom, 0x40),
            name_table_size: crate::wire::read_le32(rom, 0x44),
            alloc_table_offset: crate::wire::read_le32(rom, 0x48),
            alloc_table_size: crate::wire::read_le32(rom, 0x4C),
        },
    )
}

} // verus!

//! The file allocation table: a flat array of 8-byte records, one per file
//! id, each holding a 32-bit little-endian start and end offset into the ROM.
use crate::wire::le32_at;
use vstd::prelude::*;

verus! {

/// Failure conditions of the allocation-table parser.
#[derive(Debug, PartialEq, Eq, Clone, Copy)]
pub enum FatError {
    /// The table's byte length is not a multiple of 8, or a record's end
    /// offset lies before its start offset.
    TruncatedAllocationTable,
}

/// One allocation record: the byte range `[start, end)` of a file within the
/// ROM buffer.
#[derive(Debug, PartialEq, Eq, Clone, Copy)]
pub struct AllocEntry {
    pub start: u32,
    pub end: u32,
}

/// The allocation record encoded at array position `i` of the table.
pub open spec fn fat_entry_at(data: Seq<u8>, i: int) -> AllocEntry {
    AllocEntry { start: le32_at(data, 8 * i) as u32, end: le32_at(data, 8 * i + 4) as u32 }
}

/// All records of the table, in file-id order.
pub open spec fn fat_entries(data: Seq<u8>) -> Seq<AllocEntry> {
    Seq::new((data.len() / 8) as nat, |i: int| fat_entry_at(data, i))
}

/// What parsing the table yields: its records, unless the byte length is not
/// a multiple of 8 or some record runs backwards.
pub open spec fn fat_spec(data: Seq<u8>) -> Result<Seq<AllocEntry>, FatError> {
    if data.len() % 8 != 0 {
        Err(FatError::TruncatedAllocationTable)
    } else if exists|i: int|
        0 <= i < fat_entries(data).len() && fat_entries(data)[i].end < fat_entries(data)[i].start {
        Err(FatError::TruncatedAllocationTable)
    } else {
        Ok(fat_entries(data))
    }
}

/// Parses the flat allocation table into its ordered records.
pub fn parse_alloc_table(data: &[u8]) -> (r: Result<Vec<AllocEntry>, FatError>)
    ensures
        match r {
            Ok(v) => fat_spec(data@) == Ok::<Seq<AllocEntry>, FatError>(v@),
            Err(e) => fat_spec(data@) == Err::<Seq<AllocEntry>, FatError>(e),
        },
{
    if data.len() % 8 != 0 {
        return Err(FatError::TruncatedAllocationTable);
    }
    let n = data.len() / 8;
    let mut entries: Vec<AllocEntry> = Vec::new();
    let mut i: usize = 0;
    while i < n
        invariant
            i <= n,
            n == data@.len() / 8,
            data@.len() % 8 == 0,
            entries@.len() == i,
            forall|j: int| 0 <= j < i ==> entries@[j] == fat_entry_at(data@, j),
            forall|j: int| 0 <= j < i ==> entries@[j].start <= entries@[j].end,
        decreases n - i,
    {
        let start = crate::wire::read_le32(data, 8 * i);
        let end = crate::wire::read_le32(data, 8 * i + 4);
        if end < start {
            proof {
                assert(fat_entries(data@)[i as int].end < fat_entries(data@)[i as int].start);
            }
            return Err(FatError::TruncatedAllocationTable);
        }
        entries.push(AllocEntry { start, end });
        i = i + 1;
    }
    proof {
        assert(entries@ =~= fat_entries(data@));
    }
    Ok(entries)
}

} // verus!

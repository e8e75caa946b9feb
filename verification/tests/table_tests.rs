use ravends::fat::{parse_alloc_table, AllocEntry, FatError};
use ravends::fnt::{resolve_name_table, FntError};
use ravends::header::{read_header, RomHeaderError};
use ravends::text_table::{parse_text_file, TextTableError};

fn le32(v: u32) -> [u8; 4] {
    v.to_le_bytes()
}

#[test]
fn header_too_short() {
    let rom = vec![0u8; 0x4F];
    assert_eq!(read_header(&rom).unwrap_err(), RomHeaderError::TruncatedHeader);
}

#[test]
fn header_fields_read_from_fixed_offsets() {
    let mut rom = vec![0u8; 0x50];
    rom[0x40..0x44].copy_from_slice(&le32(0x1234));
    rom[0x44..0x48].copy_from_slice(&le32(0x10));
    rom[0x48..0x4C].copy_from_slice(&le32(0x2000));
    rom[0x4C..0x50].copy_from_slice(&le32(0x20));
    let t = read_header(&rom).unwrap();
    assert_eq!(t.name_table_offset, 0x1234);
    assert_eq!(t.name_table_size, 0x10);
    assert_eq!(t.alloc_table_offset, 0x2000);
    assert_eq!(t.alloc_table_size, 0x20);
}

#[test]
fn alloc_table_length_must_be_multiple_of_eight() {
    let data = vec![0u8; 12];
    assert_eq!(
        parse_alloc_table(&data).unwrap_err(),
        FatError::TruncatedAllocationTable
    );
}

#[test]
fn alloc_table_record_must_not_run_backwards() {
    let mut data = Vec::new();
    data.extend_from_slice(&le32(8));
    data.extend_from_slice(&le32(4));
    assert_eq!(
        parse_alloc_table(&data).unwrap_err(),
        FatError::TruncatedAllocationTable
    );
}

#[test]
fn alloc_table_records_in_file_id_order() {
    let mut data = Vec::new();
    data.extend_from_slice(&le32(0x100));
    data.extend_from_slice(&le32(0x180));
    data.extend_from_slice(&le32(0x200));
    data.extend_from_slice(&le32(0x200));
    let entries = parse_alloc_table(&data).unwrap();
    assert_eq!(
        entries,
        vec![
            AllocEntry { start: 0x100, end: 0x180 },
            AllocEntry { start: 0x200, end: 0x200 },
        ]
    );
}

/// A minimal flat name table: root sub-table, then one file entry "A.BIN"
/// and a terminator.
fn flat_name_table(first_file_id: u16) -> Vec<u8> {
    let mut fnt = Vec::new();
    fnt.extend_from_slice(&le32(8)); // entry list right after the header
    fnt.extend_from_slice(&first_file_id.to_le_bytes());
    fnt.extend_from_slice(&1u16.to_le_bytes()); // one directory in total
    fnt.push(5); // file entry, name length 5
    fnt.extend_from_slice(b"A.BIN");
    fnt.push(0); // terminator
    fnt
}

#[test]
fn root_file_resolves_to_slash_path_and_id_zero() {
    let files = resolve_name_table(&flat_name_table(0)).unwrap();
    assert_eq!(files.len(), 1);
    assert_eq!(files[0].id, 0);
    assert_eq!(files[0].path, b"/A.BIN".to_vec());
}

#[test]
fn file_ids_count_up_from_first_file_id() {
    let mut fnt = Vec::new();
    fnt.extend_from_slice(&le32(8));
    fnt.extend_from_slice(&3u16.to_le_bytes());
    fnt.extend_from_slice(&1u16.to_le_bytes());
    fnt.push(1);
    fnt.push(b'a');
    fnt.push(1);
    fnt.push(b'b');
    fnt.push(0);
    let files = resolve_name_table(&fnt).unwrap();
    assert_eq!(files.len(), 2);
    assert_eq!((files[0].id, files[0].path.clone()), (3, b"/a".to_vec()));
    assert_eq!((files[1].id, files[1].path.clone()), (4, b"/b".to_vec()));
}

#[test]
fn subdirectory_entries_recurse_with_their_own_ids() {
    let mut fnt = Vec::new();
    // root header (directory index 0)
    fnt.extend_from_slice(&le32(16)); // root entries start after both headers
    fnt.extend_from_slice(&0u16.to_le_bytes());
    fnt.extend_from_slice(&2u16.to_le_bytes()); // two directories
    // directory 0xF001 header (index 1)
    fnt.extend_from_slice(&le32(25)); // its entry list, after the root's
    fnt.extend_from_slice(&1u16.to_le_bytes()); // its first file id
    fnt.extend_from_slice(&0xF000u16.to_le_bytes()); // parent
    // root entries: file "r", subdirectory "sub" -> 0xF001, terminator
    fnt.push(1);
    fnt.push(b'r');
    fnt.push(0x83);
    fnt.extend_from_slice(b"sub");
    fnt.extend_from_slice(&0xF001u16.to_le_bytes());
    fnt.push(0);
    // directory 0xF001 entries: file "s", terminator
    fnt.push(1);
    fnt.push(b's');
    fnt.push(0);
    let files = resolve_name_table(&fnt).unwrap();
    assert_eq!(files.len(), 2);
    assert_eq!((files[0].id, files[0].path.clone()), (0, b"/r".to_vec()));
    assert_eq!((files[1].id, files[1].path.clone()), (1, b"/sub/s".to_vec()));
}

#[test]
fn name_table_rejects_zero_directory_count() {
    let mut fnt = Vec::new();
    fnt.extend_from_slice(&le32(8));
    fnt.extend_from_slice(&0u16.to_le_bytes());
    fnt.extend_from_slice(&0u16.to_le_bytes());
    fnt.push(0);
    assert_eq!(resolve_name_table(&fnt).unwrap_err(), FntError::MalformedNameTable);
}

#[test]
fn name_table_rejects_cycle_through_depth_bound() {
    let mut fnt = Vec::new();
    // one directory whose entry list points back into itself
    fnt.extend_from_slice(&le32(8));
    fnt.extend_from_slice(&0u16.to_le_bytes());
    fnt.extend_from_slice(&1u16.to_le_bytes());
    fnt.push(0x81); // subdirectory, name length 1
    fnt.push(b'x');
    fnt.extend_from_slice(&0xF000u16.to_le_bytes()); // back to the root
    fnt.push(0);
    assert_eq!(resolve_name_table(&fnt).unwrap_err(), FntError::MalformedNameTable);
}

#[test]
fn name_table_rejects_truncated_entry_list() {
    let mut fnt = Vec::new();
    fnt.extend_from_slice(&le32(8));
    fnt.extend_from_slice(&0u16.to_le_bytes());
    fnt.extend_from_slice(&1u16.to_le_bytes());
    fnt.push(5); // promises five name bytes, none follow
    assert_eq!(resolve_name_table(&fnt).unwrap_err(), FntError::MalformedNameTable);
}

/// Builds a string table whose entries hold the given UTF-16 code units.
fn string_table(strings: &[&[u16]]) -> Vec<u8> {
    let n = strings.len() as u32;
    let mut body = Vec::new();
    let mut pointers = Vec::new();
    let header = 4 + 4 * strings.len();
    for s in strings {
        pointers.push((header + body.len()) as u32);
        for &u in *s {
            body.extend_from_slice(&u.to_le_bytes());
        }
        body.extend_from_slice(&0u16.to_le_bytes());
    }
    let mut data = Vec::new();
    data.extend_from_slice(&le32(n));
    for p in pointers {
        data.extend_from_slice(&le32(p));
    }
    data.extend_from_slice(&body);
    data
}

#[test]
fn text_table_decodes_two_strings() {
    let data = string_table(&[&[b'H' as u16, b'i' as u16], &[0x00E9]]);
    let strings = parse_text_file(&data).unwrap();
    assert_eq!(strings, vec!["Hi".to_string(), "\u{e9}".to_string()]);
}

#[test]
fn text_table_decodes_surrogate_pair() {
    let data = string_table(&[&[0xD83D, 0xDE00]]);
    let strings = parse_text_file(&data).unwrap();
    assert_eq!(strings, vec!["\u{1F600}".to_string()]);
}

#[test]
fn text_table_rejects_unpaired_surrogate() {
    let data = string_table(&[&[0xD83D, b'x' as u16]]);
    assert_eq!(parse_text_file(&data).unwrap_err(), TextTableError::Utf16Decode);
}

#[test]
fn text_table_rejects_pointer_into_header() {
    let mut data = Vec::new();
    data.extend_from_slice(&le32(1));
    data.extend_from_slice(&le32(3)); // strictly below entryCount * 4
    data.extend_from_slice(&0u16.to_le_bytes());
    assert_eq!(parse_text_file(&data).unwrap_err(), TextTableError::InvalidPointer);
}

#[test]
fn text_table_rejects_pointer_past_buffer() {
    let mut data = Vec::new();
    data.extend_from_slice(&le32(1));
    data.extend_from_slice(&le32(100));
    assert_eq!(parse_text_file(&data).unwrap_err(), TextTableError::InvalidPointer);
}

#[test]
fn text_table_too_short_for_count_is_io() {
    assert_eq!(parse_text_file(&[1, 0]).unwrap_err(), TextTableError::Io);
}

#[test]
fn text_table_with_zero_entries_is_empty() {
    let data = le32(0).to_vec();
    assert_eq!(parse_text_file(&data).unwrap(), Vec::<String>::new());
}

#[test]
fn empty_alloc_table_has_no_records() {
    assert_eq!(parse_alloc_table(&[]).unwrap(), Vec::<AllocEntry>::new());
}

#[test]
fn name_table_rejects_directory_id_below_directory_space() {
    let mut fnt = Vec::new();
    fnt.extend_from_slice(&le32(8));
    fnt.extend_from_slice(&0u16.to_le_bytes());
    fnt.extend_from_slice(&1u16.to_le_bytes());
    fnt.push(0x81);
    fnt.push(b'x');
    fnt.extend_from_slice(&0x0001u16.to_le_bytes()); // not a directory id
    fnt.push(0);
    assert_eq!(resolve_name_table(&fnt).unwrap_err(), FntError::MalformedNameTable);
}

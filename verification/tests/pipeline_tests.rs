use ravends::pipeline::{classify, unpack_rom, FileContent, UnpackError};

fn le32(v: u32) -> [u8; 4] {
    v.to_le_bytes()
}

/// A compressed stream declaring five literal bytes "ABCDE".
fn lz10_abcde() -> Vec<u8> {
    vec![0x10, 0x05, 0x00, 0x00, 0x00, b'A', b'B', b'C', b'D', b'E']
}

/// A compressed stream whose payload is a one-entry string table "Hi".
fn lz10_text_table() -> Vec<u8> {
    let mut payload = Vec::new();
    payload.extend_from_slice(&le32(1));
    payload.extend_from_slice(&le32(8));
    payload.extend_from_slice(&(b'H' as u16).to_le_bytes());
    payload.extend_from_slice(&(b'i' as u16).to_le_bytes());
    payload.extend_from_slice(&0u16.to_le_bytes());
    let mut stream = vec![0x10];
    stream.extend_from_slice(&le32(payload.len() as u32)[0..3]);
    let mut it = payload.chunks(8);
    for chunk in &mut it {
        stream.push(0x00); // all-literal decision byte
        stream.extend_from_slice(chunk);
    }
    stream
}

#[test]
fn classify_raw_when_not_compressed() {
    let data = b"plain".to_vec();
    match classify(&data) {
        FileContent::Raw(v) => assert_eq!(v, data),
        other => panic!("expected raw, got {:?}", other),
    }
}

#[test]
fn classify_binary_when_payload_is_no_string_table() {
    match classify(&lz10_abcde()) {
        FileContent::DecompressedBinary(v) => assert_eq!(v, b"ABCDE".to_vec()),
        other => panic!("expected binary, got {:?}", other),
    }
}

#[test]
fn classify_text_when_payload_is_a_string_table() {
    match classify(&lz10_text_table()) {
        FileContent::Text(strings) => assert_eq!(strings, vec!["Hi".to_string()]),
        other => panic!("expected text, got {:?}", other),
    }
}

/// A ROM with a flat name table of two files and matching allocations:
/// "b.bin" (id 1) holds raw bytes, "t.bin" (id 2) holds a compressed
/// string table; allocation slot 0 is an unnamed empty range.
fn build_rom() -> (Vec<u8>, Vec<u8>, Vec<u8>) {
    let text = lz10_text_table();
    let raw = b"not compressed".to_vec();

    let mut fnt = Vec::new();
    fnt.extend_from_slice(&le32(8));
    fnt.extend_from_slice(&1u16.to_le_bytes()); // first file id 1
    fnt.extend_from_slice(&1u16.to_le_bytes()); // one directory
    fnt.push(5);
    fnt.extend_from_slice(b"b.bin"); // id 1
    fnt.push(5);
    fnt.extend_from_slice(b"t.bin"); // id 2
    fnt.push(0);

    let mut rom = vec![0u8; 0x50];
    let fnt_off = rom.len() as u32;
    rom.extend_from_slice(&fnt);
    let raw_off = rom.len() as u32;
    rom.extend_from_slice(&raw);
    let text_off = rom.len() as u32;
    rom.extend_from_slice(&text);
    let fat_off = rom.len() as u32;
    let mut fat = Vec::new();
    fat.extend_from_slice(&le32(0)); // id 0: empty range (an overlay slot)
    fat.extend_from_slice(&le32(0));
    fat.extend_from_slice(&le32(raw_off));
    fat.extend_from_slice(&le32(raw_off + raw.len() as u32));
    fat.extend_from_slice(&le32(text_off));
    fat.extend_from_slice(&le32(text_off + text.len() as u32));
    rom.extend_from_slice(&fat);

    rom[0x40..0x44].copy_from_slice(&le32(fnt_off));
    rom[0x44..0x48].copy_from_slice(&le32(fnt.len() as u32));
    rom[0x48..0x4C].copy_from_slice(&le32(fat_off));
    rom[0x4C..0x50].copy_from_slice(&le32(fat.len() as u32));
    (rom, raw, text)
}

#[test]
fn unpack_emits_files_in_id_order_with_classified_contents() {
    let (rom, raw, _text) = build_rom();
    let files = unpack_rom(&rom).unwrap();
    assert_eq!(files.len(), 2);
    assert_eq!(files[0].id, 1);
    assert_eq!(files[0].path, b"/b.bin".to_vec());
    match &files[0].content {
        FileContent::Raw(v) => assert_eq!(*v, raw),
        other => panic!("expected raw, got {:?}", other),
    }
    assert_eq!(files[1].id, 2);
    assert_eq!(files[1].path, b"/t.bin".to_vec());
    match &files[1].content {
        FileContent::Text(strings) => assert_eq!(*strings, vec!["Hi".to_string()]),
        other => panic!("expected text, got {:?}", other),
    }
}

#[test]
fn unpack_reorders_files_by_id() {
    // root declares first file id 1; its subdirectory declares first file
    // id 0, so traversal order (root file first) differs from id order.
    let mut fnt = Vec::new();
    fnt.extend_from_slice(&le32(16));
    fnt.extend_from_slice(&1u16.to_le_bytes());
    fnt.extend_from_slice(&2u16.to_le_bytes());
    fnt.extend_from_slice(&le32(23));
    fnt.extend_from_slice(&0u16.to_le_bytes());
    fnt.extend_from_slice(&0xF000u16.to_le_bytes());
    fnt.push(1);
    fnt.push(b'r'); // id 1
    fnt.push(0x81);
    fnt.push(b'd');
    fnt.extend_from_slice(&0xF001u16.to_le_bytes());
    fnt.push(0);
    fnt.push(1);
    fnt.push(b's'); // id 0
    fnt.push(0);

    let mut rom = vec![0u8; 0x50];
    let fnt_off = rom.len() as u32;
    rom.extend_from_slice(&fnt);
    let fat_off = rom.len() as u32;
    let mut fat = Vec::new();
    fat.extend_from_slice(&le32(0));
    fat.extend_from_slice(&le32(0));
    fat.extend_from_slice(&le32(0));
    fat.extend_from_slice(&le32(0));
    rom.extend_from_slice(&fat);
    rom[0x40..0x44].copy_from_slice(&le32(fnt_off));
    rom[0x44..0x48].copy_from_slice(&le32(fnt.len() as u32));
    rom[0x48..0x4C].copy_from_slice(&le32(fat_off));
    rom[0x4C..0x50].copy_from_slice(&le32(fat.len() as u32));

    let files = unpack_rom(&rom).unwrap();
    assert_eq!(files.len(), 2);
    assert_eq!((files[0].id, files[0].path.clone()), (0, b"/d/s".to_vec()));
    assert_eq!((files[1].id, files[1].path.clone()), (1, b"/r".to_vec()));
}

#[test]
fn unpack_rejects_short_rom() {
    let rom = vec![0u8; 0x10];
    assert_eq!(unpack_rom(&rom).unwrap_err(), UnpackError::TruncatedHeader);
}

#[test]
fn unpack_rejects_table_region_past_rom_end() {
    let mut rom = vec![0u8; 0x50];
    rom[0x40..0x44].copy_from_slice(&le32(0x40));
    rom[0x44..0x48].copy_from_slice(&le32(0x100)); // runs past the end
    assert_eq!(unpack_rom(&rom).unwrap_err(), UnpackError::MalformedNameTable);
}

#[test]
fn unpack_rejects_file_id_without_allocation() {
    let (mut rom, _, _) = build_rom();
    // shrink the allocation table to one 8-byte record: ids 1 and 2 lose
    // their entries.
    rom[0x4C..0x50].copy_from_slice(&le32(8));
    assert_eq!(unpack_rom(&rom).unwrap_err(), UnpackError::FileIdOutOfRange);
}

#[test]
fn unpack_rejects_allocation_past_rom_end() {
    let (mut rom, _, _) = build_rom();
    let fat_off = u32::from_le_bytes(rom[0x48..0x4C].try_into().unwrap()) as usize;
    // id 1's record now ends far past the ROM.
    rom[fat_off + 12..fat_off + 16].copy_from_slice(&le32(0xFFFF_0000));
    assert_eq!(
        unpack_rom(&rom).unwrap_err(),
        UnpackError::TruncatedAllocationTable
    );
}

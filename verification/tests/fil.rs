use constructor_assets::parser::fil::{
    extract_files, index_listing, load_index, parse_index_entry, EntrySize, PlanEnd,
    ENTRIES_DECRYPTION_VALUE, INDEX_ENTRY_LEN,
};
use constructor_assets::parser::types::{AssetError, FilFileIndex, FilIndexItem};

/// Obfuscates one plain 17-byte index entry the way the archives store it.
fn encrypt_entry(plain: &[u8; 17], entry: u64) -> Vec<u8> {
    let mut out = Vec::new();
    for (i, c) in plain.iter().enumerate() {
        let bump = (i as u64 + entry * 17) % 256;
        let unmasked = ((*c as u64 + 27 + bump) % 256) as u8;
        out.push(((unmasked ^ 0xA5) as u64 + 39) as u8);
    }
    out
}

fn plain_entry(name: &str, offset: u32) -> [u8; 17] {
    let mut plain = [0u8; 17];
    plain[..name.len()].copy_from_slice(name.as_bytes());
    plain[12] = 0x55;
    plain[13..17].copy_from_slice(&offset.to_le_bytes());
    plain
}

fn archive(entries: &[(&str, u32)], announced: u32) -> Vec<u8> {
    let mut data = (announced ^ ENTRIES_DECRYPTION_VALUE).to_le_bytes().to_vec();
    for (k, (name, offset)) in entries.iter().enumerate() {
        data.extend(encrypt_entry(&plain_entry(name, *offset), k as u64));
    }
    data
}

fn item(name: &str, offset: u64) -> FilIndexItem {
    FilIndexItem { filename: name.to_string(), offset }
}

#[test]
fn parse_index_entry_decodes_name_and_offset() {
    let mut buf = encrypt_entry(&plain_entry("LEVEL1.DAT", 0x0102_0304), 3);
    let entry = parse_index_entry(&mut buf, 3);
    assert_eq!(entry.filename, "LEVEL1.DAT");
    assert_eq!(entry.offset, 0x0102_0304);
    assert_eq!(buf, plain_entry("LEVEL1.DAT", 0x0102_0304).to_vec());
}

#[test]
fn parse_index_entry_known_bytes() {
    // Byte 0 of entry 0: (0 - 39) mod 256 = 217; 217 ^ 0xA5 = 124; 124 - 27 = 97 ('a').
    let mut buf = vec![0u8; 17];
    let entry = parse_index_entry(&mut buf, 0);
    assert_eq!(buf[0], 97);
    // Byte 1: 124 - 27 - 1 = 96 ('`'); and so on down to byte 11.
    assert_eq!(buf[1], 96);
    assert_eq!(entry.filename, "a`_^]\\[ZYXWV");
    // Bytes 13..17 hold 84, 83, 82, 81.
    assert_eq!(entry.offset, u32::from_le_bytes([84, 83, 82, 81]) as u64);
}

#[test]
fn parse_index_entry_wraps_for_large_offsets() {
    let mut buf = encrypt_entry(&plain_entry("X", 7), 1000);
    let entry = parse_index_entry(&mut buf, 1000);
    assert_eq!(entry.filename, "X");
    assert_eq!(entry.offset, 7);
}

#[test]
fn parse_index_entry_keeps_bytes_past_the_entry() {
    let mut buf = encrypt_entry(&plain_entry("X", 7), 0);
    buf.push(0xEE);
    parse_index_entry(&mut buf, 0);
    assert_eq!(buf.len(), 18);
    assert_eq!(buf[17], 0xEE);
}

#[test]
fn parse_index_entry_replaces_invalid_utf8_names() {
    let mut plain = plain_entry("", 9);
    plain[0] = 0xFF;
    plain[1] = 0xFE;
    let mut buf = encrypt_entry(&plain, 0);
    let entry = parse_index_entry(&mut buf, 0);
    assert_eq!(entry.filename, "parsing failed for this entry");
    assert_eq!(entry.offset, 9);
}

#[test]
fn parse_index_entry_drops_inner_nul_bytes() {
    let mut plain = plain_entry("AB", 1);
    plain[5] = b'C';
    let mut buf = encrypt_entry(&plain, 2);
    let entry = parse_index_entry(&mut buf, 2);
    assert_eq!(entry.filename, "ABC");
}

#[test]
fn load_index_reads_all_entries() {
    let data = archive(&[("A.TXT", 100), ("B.DAT", 250), ("", 400)], 3);
    let index = load_index(&data).unwrap();
    assert_eq!(index.num_entries, 3);
    assert_eq!(index.entries.len(), 3);
    assert_eq!(index.entries[0].filename, "A.TXT");
    assert_eq!(index.entries[0].offset, 100);
    assert_eq!(index.entries[1].filename, "B.DAT");
    assert_eq!(index.entries[1].offset, 250);
    assert_eq!(index.entries[2].filename, "");
    assert_eq!(index.entries[2].offset, 400);
}

#[test]
fn load_index_needs_the_first_word() {
    assert_eq!(load_index(&[1, 2, 3]).err(), Some(AssetError::UnexpectedEof));
    assert_eq!(load_index(&[]).err(), Some(AssetError::UnexpectedEof));
}

#[test]
fn load_index_without_entries() {
    let data = archive(&[], 0);
    let index = load_index(&data).unwrap();
    assert_eq!(index.num_entries, 0);
    assert!(index.entries.is_empty());
}

#[test]
fn load_index_short_reads_reuse_the_buffer() {
    // Two entries announced, only the first and 5 bytes of the second present.
    let mut data = archive(&[("A.TXT", 100), ("B.DAT", 250)], 2);
    data.truncate(4 + INDEX_ENTRY_LEN + 5);
    let index = load_index(&data).unwrap();
    assert_eq!(index.entries.len(), 2);
    assert_eq!(index.entries[0].filename, "A.TXT");
    // The second entry is decoded from 5 new bytes and 12 already decoded ones.
    let mut buf = plain_entry("A.TXT", 100).to_vec();
    let fresh = &data[4 + INDEX_ENTRY_LEN..];
    buf[..5].copy_from_slice(fresh);
    let expected = parse_index_entry(&mut buf, 1);
    assert_eq!(index.entries[1].filename, expected.filename);
    assert_eq!(index.entries[1].offset, expected.offset);
}

fn index_of(items: Vec<FilIndexItem>, num_entries: u64) -> FilFileIndex {
    FilFileIndex { num_entries, entries: items }
}

#[test]
fn listing_gives_sizes_between_entries() {
    let index = index_of(vec![item("A", 100), item("B", 1124), item("C", 3172)], 3);
    let (rows, complete) = index_listing(&index);
    assert!(complete);
    assert_eq!(
        rows,
        vec![
            EntrySize { filename: "A".to_string(), size: 1024 },
            EntrySize { filename: "B".to_string(), size: 2048 },
        ]
    );
    // The sizes tile the stretch from the first entry to the last.
    assert_eq!(rows.iter().map(|r| r.size).sum::<u64>(), 3172 - 100);
}

#[test]
fn listing_of_empty_index_does_not_complete() {
    let (rows, complete) = index_listing(&index_of(vec![], 0));
    assert!(rows.is_empty());
    assert!(!complete);
}

#[test]
fn listing_stops_at_decreasing_offsets() {
    let index = index_of(vec![item("A", 100), item("B", 200), item("C", 150)], 3);
    let (rows, complete) = index_listing(&index);
    assert!(!complete);
    assert_eq!(rows, vec![EntrySize { filename: "A".to_string(), size: 100 }]);
}

#[test]
fn listing_stops_where_entries_run_out() {
    let index = index_of(vec![item("A", 100), item("B", 200)], 5);
    let (rows, complete) = index_listing(&index);
    assert!(!complete);
    assert_eq!(rows.len(), 1);
}

#[test]
fn extraction_stops_at_empty_name() {
    let index = index_of(vec![item("A", 100), item("B", 150), item("", 170)], 3);
    let plan = extract_files(&index);
    assert_eq!(plan.end, PlanEnd::Complete);
    assert_eq!(plan.steps.len(), 2);
    assert_eq!(plan.steps[0].filename, "A");
    assert_eq!(plan.steps[0].offset, 100);
    assert_eq!(plan.steps[0].length, 50);
    assert_eq!(plan.steps[1].filename, "B");
    assert_eq!(plan.steps[1].offset, 150);
    assert_eq!(plan.steps[1].length, 20);
    // Each extracted file ends where the next starts.
    assert_eq!(plan.steps[0].offset + plan.steps[0].length, plan.steps[1].offset);
}

#[test]
fn extraction_aborts_without_next_entry() {
    let index = index_of(vec![item("A", 100), item("B", 150)], 2);
    let plan = extract_files(&index);
    assert_eq!(plan.end, PlanEnd::Aborted);
    assert_eq!(plan.steps.len(), 1);
}

#[test]
fn extraction_aborts_on_decreasing_offsets() {
    let index = index_of(vec![item("A", 100), item("B", 90), item("", 0)], 3);
    let plan = extract_files(&index);
    assert_eq!(plan.end, PlanEnd::Aborted);
    assert!(plan.steps.is_empty());
}

#[test]
fn extraction_reports_missing_entries() {
    let index = index_of(vec![], 1);
    let plan = extract_files(&index);
    assert_eq!(plan.end, PlanEnd::MissingEntry);
    assert!(plan.steps.is_empty());
}

#[test]
fn extraction_of_no_entries_is_complete() {
    let plan = extract_files(&index_of(vec![item("A", 1)], 0));
    assert_eq!(plan.end, PlanEnd::Complete);
    assert!(plan.steps.is_empty());
}

use diskchurn::scanner::{absorb_usn_batch, filetime_to_unix_secs, full_path, read_le, resolve_path, FrnEntry, FrnTable, BATCH_FILES};
use std::collections::HashMap;

fn record(frn: u64, parent: u64, attrs: u32, filetime: i64, name: &str) -> Vec<u8> {
    let units: Vec<u16> = name.encode_utf16().collect();
    let name_len = units.len() * 2;
    let len = (60 + name_len + 7) / 8 * 8;
    let len = len.max(64);
    let mut r = vec![0u8; len];
    r[0..4].copy_from_slice(&(len as u32).to_le_bytes());
    r[4..6].copy_from_slice(&2u16.to_le_bytes());
    r[8..16].copy_from_slice(&frn.to_le_bytes());
    r[16..24].copy_from_slice(&parent.to_le_bytes());
    r[32..40].copy_from_slice(&filetime.to_le_bytes());
    r[52..56].copy_from_slice(&attrs.to_le_bytes());
    r[56..58].copy_from_slice(&(name_len as u16).to_le_bytes());
    r[58..60].copy_from_slice(&60u16.to_le_bytes());
    for (i, u) in units.iter().enumerate() {
        r[60 + 2 * i..62 + 2 * i].copy_from_slice(&u.to_le_bytes());
    }
    r
}

// 2024-01-01T00:00:00Z as a FILETIME
const JAN_2024: i64 = (1_704_067_200 + 11_644_473_600) * 10_000_000;

fn buffer(records: &[Vec<u8>], next: u64) -> Vec<u8> {
    let mut b = next.to_le_bytes().to_vec();
    for r in records {
        b.extend_from_slice(r);
    }
    b
}

#[test]
fn filetime_converts_to_unix_seconds() {
    assert_eq!(filetime_to_unix_secs(JAN_2024), 1_704_067_200);
    assert_eq!(filetime_to_unix_secs(JAN_2024 + 9_999_999), 1_704_067_200);
    assert_eq!(filetime_to_unix_secs(0), 0);
    assert_eq!(filetime_to_unix_secs(11_644_473_600 * 10_000_000), 0);
    assert_eq!(filetime_to_unix_secs(-1), u64::MAX / 10_000_000 - 11_644_473_600);
}

#[test]
fn reads_little_endian() {
    let b = [0x01u8, 0x02, 0x03, 0x04, 0x05, 0x06, 0x07, 0x08, 0xff];
    assert_eq!(read_le(&b, 0, 2), 0x0201);
    assert_eq!(read_le(&b, 1, 4), 0x05040302);
    assert_eq!(read_le(&b, 0, 8), 0x0807060504030201);
    assert_eq!(read_le(&b, 8, 1), 0xff);
    assert_eq!(read_le(&b, 3, 0), 0);
}

#[test]
fn batch_records_enter_the_table() {
    let recs = vec![
        record(5, 5, 0x10, JAN_2024, "."),
        record(40, 5, 0x10, JAN_2024, "Users"),
        record(41, 40, 0x20, JAN_2024, "naïve😀.txt"),
    ];
    let buf = buffer(&recs, 0xabcdef);
    let mut map: HashMap<u64, FrnEntry> = HashMap::new();
    let next = absorb_usn_batch(&mut map, &buf, buf.len());
    assert_eq!(next, 0xabcdef);
    assert_eq!(map.len(), 3);
    let f = &map[&41];
    assert_eq!(f.name, "naïve😀.txt");
    assert_eq!(f.parent_frn, 40);
    assert!(!f.is_dir);
    assert_eq!(f.modified, 1_704_067_200);
    assert!(map[&40].is_dir);
}

#[test]
fn short_or_broken_records_stop_or_are_skipped() {
    let mut bad_name = record(7, 5, 0, JAN_2024, "x");
    bad_name[58..60].copy_from_slice(&2000u16.to_le_bytes());
    let good = record(8, 5, 0, JAN_2024, "y");
    let mut short = record(9, 5, 0, JAN_2024, "z");
    short[0..4].copy_from_slice(&10u32.to_le_bytes());
    let after = record(10, 5, 0, JAN_2024, "w");
    let buf = buffer(&[bad_name, good, short, after], 1);
    let mut map: HashMap<u64, FrnEntry> = HashMap::new();
    absorb_usn_batch(&mut map, &buf, buf.len());
    assert_eq!(map.len(), 1);
    assert_eq!(map[&8].name, "y");
    // only the bytes the call returned count
    let mut map2: HashMap<u64, FrnEntry> = HashMap::new();
    let buf2 = buffer(&[record(11, 5, 0, JAN_2024, "a"), record(12, 5, 0, JAN_2024, "b")], 1);
    absorb_usn_batch(&mut map2, &buf2, 8 + 64 + 63);
    assert_eq!(map2.len(), 1);
}

#[test]
fn unpaired_surrogate_becomes_replacement_character() {
    let mut r = record(3, 5, 0, JAN_2024, "ab");
    r[60..62].copy_from_slice(&0xD800u16.to_le_bytes());
    let buf = buffer(&[r], 0);
    let mut map: HashMap<u64, FrnEntry> = HashMap::new();
    absorb_usn_batch(&mut map, &buf, buf.len());
    assert_eq!(map[&3].name, "\u{FFFD}b");
}

fn entry(name: &str, parent: u64) -> FrnEntry {
    FrnEntry { name: name.to_string(), parent_frn: parent, is_dir: false, modified: 0 }
}

#[test]
fn paths_resolve_from_the_root_down() {
    let mut map: HashMap<u64, FrnEntry> = HashMap::new();
    map.insert(5, entry(".", 5));
    map.insert(40, entry("Users", 5));
    map.insert(41, entry("me", 40));
    map.insert(42, entry("notes.txt", 41));
    map.insert(50, entry("orphan", 99));
    assert_eq!(resolve_path(42, &map), Some(vec!["Users".to_string(), "me".to_string(), "notes.txt".to_string()]));
    assert_eq!(resolve_path(5, &map), None);
    assert_eq!(resolve_path(50, &map), None);
    assert_eq!(resolve_path(77, &map), None);
}

#[test]
fn deep_chains_keep_the_last_64_levels() {
    let mut map: HashMap<u64, FrnEntry> = HashMap::new();
    map.insert(0, entry("root", 0));
    for i in 1..=70u64 {
        map.insert(i, entry(&format!("d{}", i), i - 1));
    }
    let p = resolve_path(70, &map).unwrap();
    assert_eq!(p.len(), 64);
    assert_eq!(p[0], "d7");
    assert_eq!(p[63], "d70");
}

#[test]
fn table_enumeration_state_machine() {
    let mut t = FrnTable::new();
    assert_eq!(t.next_start, 0);
    let buf = buffer(&[record(20, 5, 0, JAN_2024, "f")], 77);
    assert!(t.absorb(true, &buf, buf.len() as u32));
    assert_eq!(t.next_start, 77);
    assert!(!t.absorb(false, &buf, buf.len() as u32));
    assert!(!t.absorb(true, &buf, 7));
    assert_eq!(t.next_start, 77);
    let m = t.finish().unwrap();
    assert_eq!(m.len(), 1);
    let empty = FrnTable::new();
    assert_eq!(empty.finish().unwrap_err(), "MFT enumeration returned no entries");
    assert_eq!(BATCH_FILES, 256);
}

#[test]
fn full_path_puts_a_backslash_before_each_component() {
    let parts = vec!["Users".to_string(), "a.txt".to_string()];
    assert_eq!(full_path("C:\\", &parts), "C:\\Users\\a.txt");
    assert_eq!(full_path("C:", &parts), "C:\\Users\\a.txt");
    assert_eq!(full_path("D:\\\\", &[]), "D:");
}

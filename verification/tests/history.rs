use diskchurn::history::{
    drive_key, list_snapshots, parse_snapshot_file_name, prune_victims, save_plan, snapshot_file_name, Snapshot,
    MAX_SNAPSHOTS,
};
use diskchurn::types::{ChurnClass, DiskSnapshot, EntropyClass, FolderStats};

#[test]
fn drive_key_strips_colon_and_backslash() {
    assert_eq!(drive_key("C:\\"), "C");
    assert_eq!(drive_key("D:\\"), "D");
    assert_eq!(drive_key("C:"), "C");
}

#[test]
fn drive_key_trims_only_trailing_backslashes() {
    assert_eq!(drive_key("C:\\\\\\"), "C");
    assert_eq!(drive_key("\\\\srv:\\share\\"), "\\\\srv\\share");
    assert_eq!(drive_key(""), "");
}

#[test]
fn snapshot_file_name_format() {
    assert_eq!(snapshot_file_name("C:\\", 1_715_000_000, 98_765), "C_1715000000_98765.bin");
    assert_eq!(snapshot_file_name("D:", 0, 0), "D_0_0.bin");
}

#[test]
fn snapshot_name_round_trips() {
    for (ts, fc) in [(0u64, 0u64), (1, 2), (1_715_000_000, 98_765), (u64::MAX, u64::MAX)] {
        let name = snapshot_file_name("E:\\", ts, fc);
        assert_eq!(parse_snapshot_file_name(&name, "E:\\"), Some((ts, fc)));
    }
}

#[test]
fn parse_rejects_other_names() {
    assert_eq!(parse_snapshot_file_name("C_1_2.bin", "D:\\"), None);
    assert_eq!(parse_snapshot_file_name("C_1_2.txt", "C:\\"), None);
    assert_eq!(parse_snapshot_file_name("C_1.bin", "C:\\"), None);
    assert_eq!(parse_snapshot_file_name("C_1_2_3.bin", "C:\\"), None);
    assert_eq!(parse_snapshot_file_name("C_x_2.bin", "C:\\"), None);
    assert_eq!(parse_snapshot_file_name("C__2.bin", "C:\\"), None);
    assert_eq!(parse_snapshot_file_name("C_18446744073709551616_2.bin", "C:\\"), None);
    assert_eq!(parse_snapshot_file_name(".bin", "C:\\"), None);
    assert_eq!(parse_snapshot_file_name("CD_1_2.bin", "C:\\"), None);
}

#[test]
fn parse_accepts_what_u64_parsing_accepts() {
    assert_eq!(parse_snapshot_file_name("C_+7_007.bin", "C:\\"), Some((7, 7)));
    assert_eq!(parse_snapshot_file_name("C_1_2.tar.bin", "C:\\"), None);
    assert_eq!(parse_snapshot_file_name("C_18446744073709551615_1.bin", "C:\\"), Some((u64::MAX, 1)));
}

#[test]
fn listing_is_newest_first_and_stable() {
    let names: Vec<String> = vec![
        "C_100_1.bin".into(),
        "notes.txt".into(),
        "C_300_2.bin".into(),
        "D_999_9.bin".into(),
        "C_100_3.bin".into(),
        "C_200_4.bin".into(),
    ];
    let listed = list_snapshots(&names, "C:\\");
    assert_eq!(listed, vec![(300, 2, 2), (200, 4, 5), (100, 1, 0), (100, 3, 4)]);
}

#[test]
fn prune_deletes_beyond_the_newest_ten() {
    let listed: Vec<(u64, u64, usize)> = (0..13).map(|i| (100 - i as u64, 0, i)).collect();
    assert_eq!(prune_victims(&listed), vec![10, 11, 12]);
    assert!(prune_victims(&listed[..MAX_SNAPSHOTS]).is_empty());
}

fn stats(p: &str, s: u64) -> FolderStats {
    FolderStats { path: p.into(), total_size: s, file_count: 3, churn: ChurnClass::Hot, entropy_class: EntropyClass::Dense }
}

#[test]
fn save_plan_skips_empty_scans() {
    let mut snap = DiskSnapshot::default();
    snap.drive = "C:\\".into();
    assert!(save_plan(&snap).is_none());
    snap.folders.push(stats("C:\\x", 5));
    snap.files_scanned = 3;
    snap.total_bytes = 10;
    let (name, s) = save_plan(&snap).unwrap();
    assert!(name.starts_with("C_") && name.ends_with("_3.bin"));
    let (ts, fc) = parse_snapshot_file_name(&name, "C:\\").unwrap();
    assert_eq!(fc, 3);
    assert!(ts > 0);
    assert_eq!(s.drive, "C:\\");
    assert_eq!(s.total_bytes, 10);
    assert_eq!(s.folders.len(), 1);
    assert_eq!(s.folders[0].path, "C:\\x");
}

#[test]
fn snapshot_keeps_the_scan() {
    let mut snap = DiskSnapshot::default();
    snap.drive = "D:\\".into();
    snap.free_bytes = 7;
    snap.folders.push(stats("D:\\a", 1));
    let s: Snapshot = Snapshot::from_disk_at(&snap, 42);
    assert_eq!(s.scanned_at, 42);
    assert_eq!(s.free_bytes, 7);
    assert_eq!(s.folders[0].entropy_class, EntropyClass::Dense);
}

#[test]
fn saving_keeps_the_new_snapshot_and_the_nine_newest_before_it() {
    let mut names: Vec<String> = (0..12u64).map(|k| snapshot_file_name("C:\\", 100 + k, k)).collect();
    names.push(snapshot_file_name("D:\\", 5000, 1));
    names.push("notes.txt".to_string());
    let before = list_snapshots(&names, "C:\\");
    let new_name = snapshot_file_name("C:\\", 1000, 77);
    names.push(new_name.clone());
    let after = list_snapshots(&names, "C:\\");
    assert_eq!(after[0], (1000, 77, names.len() - 1));
    assert_eq!(&after[1..], &before[..]);
    let victims = prune_victims(&after);
    let expected: Vec<usize> = before[MAX_SNAPSHOTS - 1..].iter().map(|e| e.2).collect();
    assert_eq!(victims, expected);
    assert_eq!(victims, vec![2, 1, 0]);
    let kept: Vec<&String> = after[..MAX_SNAPSHOTS].iter().map(|e| &names[e.2]).collect();
    assert_eq!(kept[0], &new_name);
    assert_eq!(kept[1], "C_111_11.bin");
    assert_eq!(kept[9], "C_103_3.bin");
}

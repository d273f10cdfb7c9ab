use diskchurn::app::{
    apply_scan_msg, churn_label, churn_rgb, drive_candidates, entropy_label, filter_by_churn, finish_scan, finish_scan_at, initial_drive,
    scan_snapshot, sidebar_rows, toggle_filter, toggle_selection, top_files, treemap_placeholder, treemap_rgb,
    ScanState, TOP_FILES,
};
use diskchurn::scanner::ScanMsg;
use diskchurn::types::{ChurnClass, DiskSnapshot, EntropyClass, FileNode, FolderStats};

fn file(p: &str, s: u64) -> FileNode {
    FileNode { path: p.into(), size_bytes: s, modified: 0 }
}

fn folder(p: &str, s: u64, c: ChurnClass) -> FolderStats {
    FolderStats { path: p.into(), total_size: s, file_count: 1, churn: c, entropy_class: EntropyClass::Mixed }
}

#[test]
fn drive_candidates_are_a_to_z() {
    let d = drive_candidates();
    assert_eq!(d.len(), 26);
    assert_eq!(d[0], "A:\\");
    assert_eq!(d[2], "C:\\");
    assert_eq!(d[25], "Z:\\");
}

#[test]
fn colours_per_class() {
    assert_eq!(churn_rgb(ChurnClass::Cold), (100, 140, 210));
    assert_eq!(churn_rgb(ChurnClass::Hot), (220, 100, 60));
    assert_eq!(churn_rgb(ChurnClass::Volatile), (220, 50, 50));
    assert_eq!(treemap_rgb(ChurnClass::Cold), (60, 100, 160));
    assert_eq!(treemap_rgb(ChurnClass::Hot), (200, 80, 40));
    assert_eq!(treemap_rgb(ChurnClass::Volatile), (200, 40, 40));
}

#[test]
fn scan_messages_fill_the_snapshot() {
    let mut snap = DiskSnapshot::default();
    assert!(!apply_scan_msg(&mut snap, ScanMsg::Batch(vec![file("C:\\a\\1", 1), file("C:\\a\\2", 2)])));
    assert!(!apply_scan_msg(&mut snap, ScanMsg::Batch(vec![file("C:\\b\\3", 3)])));
    assert_eq!(snap.files_scanned, 3);
    assert_eq!(snap.files[2].path, "C:\\b\\3");
    assert!(!snap.scan_complete);
    assert!(apply_scan_msg(&mut snap, ScanMsg::Done));
    assert!(snap.scan_complete);
    assert_eq!(snap.files_scanned, 3);
    finish_scan(&mut snap, 1000, 400);
    assert_eq!(snap.total_bytes, 1000);
    assert_eq!(snap.free_bytes, 400);
    assert_eq!(snap.folders.len(), 2);
    assert_eq!(snap.folders[0].total_size, 3);
}

#[test]
fn churn_filter_and_sidebar_order() {
    let folders = vec![
        folder("C:\\a", 10, ChurnClass::Hot),
        folder("C:\\b", 30, ChurnClass::Cold),
        folder("C:\\c", 20, ChurnClass::Hot),
        folder("C:\\d", 30, ChurnClass::Hot),
    ];
    let hot = filter_by_churn(&folders, Some(ChurnClass::Hot));
    assert_eq!(hot.iter().map(|f| f.path.as_str()).collect::<Vec<_>>(), vec!["C:\\a", "C:\\c", "C:\\d"]);
    assert_eq!(filter_by_churn(&folders, None).len(), 4);
    assert!(filter_by_churn(&folders, Some(ChurnClass::Volatile)).is_empty());
    assert_eq!(sidebar_rows(&folders, None), vec![1, 3, 2, 0]);
    assert_eq!(sidebar_rows(&folders, Some(ChurnClass::Hot)), vec![3, 2, 0]);
}

#[test]
fn top_files_of_a_folder() {
    let mut files: Vec<FileNode> = (0..12).map(|i| file(&format!("C:\\x\\f{}", i), i as u64 % 5)).collect();
    files.push(file("C:\\x\\sub\\big", 1000));
    files.push(file("C:\\y\\big", 1000));
    let top = top_files(&files, "C:\\x");
    assert_eq!(top.len(), TOP_FILES);
    assert_eq!(top[0], ("f4".to_string(), 4));
    assert_eq!(top[1], ("f9".to_string(), 4));
    assert_eq!(top[2], ("f3".to_string(), 3));
    assert!(top_files(&files, "C:\\z").is_empty());
    assert_eq!(top_files(&files, "C:\\x\\sub"), vec![("big".to_string(), 1000)]);
}

#[test]
fn toggles() {
    assert_eq!(toggle_filter(None, ChurnClass::Hot), Some(ChurnClass::Hot));
    assert_eq!(toggle_filter(Some(ChurnClass::Hot), ChurnClass::Hot), None);
    assert_eq!(toggle_filter(Some(ChurnClass::Cold), ChurnClass::Hot), Some(ChurnClass::Hot));
    assert_eq!(toggle_selection(&None, "C:\\a"), Some("C:\\a".to_string()));
    assert_eq!(toggle_selection(&Some("C:\\a".to_string()), "C:\\a"), None);
    assert_eq!(toggle_selection(&Some("C:\\a".to_string()), "C:\\b"), Some("C:\\b".to_string()));
}

#[test]
fn start_up_and_labels() {
    assert_eq!(initial_drive(&[]), "C:\\");
    assert_eq!(initial_drive(&["D:\\".to_string(), "E:\\".to_string()]), "D:\\");
    let snap = scan_snapshot("F:\\");
    assert_eq!(snap.drive, "F:\\");
    assert!(snap.files.is_empty() && !snap.scan_complete && snap.files_scanned == 0);
    assert_eq!(entropy_label(EntropyClass::Compressible), "compressible");
    assert_eq!(entropy_label(EntropyClass::Mixed), "mixed");
    assert_eq!(entropy_label(EntropyClass::Dense), "dense");
    assert_eq!(treemap_placeholder(ScanState::Idle), "select a drive and click Scan");
    assert_eq!(treemap_placeholder(ScanState::Scanning), "scanning…");
    assert_eq!(treemap_placeholder(ScanState::Done), "no folders to display");
}

#[test]
fn churn_badges() {
    assert_eq!(churn_label(ChurnClass::Cold), "COLD");
    assert_eq!(churn_label(ChurnClass::Hot), "HOT");
    assert_eq!(churn_label(ChurnClass::Volatile), "VOLATILE");
}

#[test]
fn finishing_a_scan_at_a_given_second() {
    let mut snap = DiskSnapshot::default();
    apply_scan_msg(&mut snap, ScanMsg::Batch(vec![file("C:\\a\\1", 1), file("C:\\b\\2", 2)]));
    finish_scan_at(&mut snap, 10, 5, 100);
    assert_eq!((snap.total_bytes, snap.free_bytes), (10, 5));
    assert!(snap.folders.is_empty());
    finish_scan_at(&mut snap, 10, 5, 8_000_000);
    assert_eq!(snap.folders.len(), 2);
    assert_eq!(snap.folders[1].path, "C:\\b");
    assert_eq!(snap.folders[1].total_size, 2);
}

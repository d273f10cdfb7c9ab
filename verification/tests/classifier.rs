use diskchurn::classifier::{churn_of, classify, classify_at, folder_sizes_fit, group_files, COLD_UNTOUCHED_SECS};
use diskchurn::types::{ChurnClass, EntropyClass, FileNode, FolderStats};
use std::time::{SystemTime, UNIX_EPOCH};

fn now() -> u64 {
    SystemTime::now().duration_since(UNIX_EPOCH).unwrap_or_default().as_secs()
}

fn file_at(path: &str, size: u64, days_ago: u64) -> FileNode {
    FileNode {
        path: path.to_string(),
        size_bytes: size,
        modified: now().saturating_sub(days_ago * 86_400),
    }
}

fn find<'a>(folders: &'a [FolderStats], path: &str) -> &'a FolderStats {
    folders.iter().find(|f| f.path == path).unwrap()
}

// --- size aggregation ---

#[test]
fn sizes_and_counts_aggregate_per_parent() {
    let files = vec![
        file_at("C:\\foo\\a.txt", 1_000, 0),
        file_at("C:\\foo\\b.txt", 2_000, 0),
        file_at("C:\\bar\\c.txt", 500, 0),
    ];
    let folders = classify(&files).unwrap();
    let foo = find(&folders, "C:\\foo");
    assert_eq!(foo.total_size, 3_000);
    assert_eq!(foo.file_count, 2);
    let bar = find(&folders, "C:\\bar");
    assert_eq!(bar.total_size, 500);
    assert_eq!(bar.file_count, 1);
}

#[test]
fn untouched_120_days_is_cold() {
    let files = vec![
        file_at("C:\\archive\\a.zip", 1_000_000, 120),
        file_at("C:\\archive\\b.zip", 2_000_000, 150),
    ];
    let folders = classify(&files).unwrap();
    let f = find(&folders, "C:\\archive");
    assert_eq!(f.churn, ChurnClass::Cold);
}

#[test]
fn majority_modified_within_30_days_is_hot() {
    let files: Vec<FileNode> = (0..5)
        .map(|i| file_at(&format!("C:\\logs\\f{}.log", i), 100_000, 5))
        .collect();
    let folders = classify(&files).unwrap();
    let f = find(&folders, "C:\\logs");
    assert_eq!(f.churn, ChurnClass::Hot);
}

#[test]
fn many_small_recent_files_is_volatile() {
    let files: Vec<FileNode> = (0..25)
        .map(|i| file_at(&format!("C:\\cache\\tmp{}.dat", i), 4_096, 2))
        .collect();
    let folders = classify(&files).unwrap();
    let f = find(&folders, "C:\\cache");
    assert_eq!(f.churn, ChurnClass::Volatile);
}

#[test]
fn volatile_requires_minimum_20_files() {
    let files: Vec<FileNode> = (0..10)
        .map(|i| file_at(&format!("C:\\small\\f{}.dat", i), 100, 1))
        .collect();
    let folders = classify(&files).unwrap();
    let f = find(&folders, "C:\\small");
    assert_ne!(f.churn, ChurnClass::Volatile);
}

#[test]
fn files_from_different_folders_do_not_cross_contaminate() {
    let files = vec![
        file_at("C:\\hot\\a.log", 1_000, 1),
        file_at("C:\\cold\\b.zip", 1_000_000, 180),
    ];
    let folders = classify(&files).unwrap();
    let hot = find(&folders, "C:\\hot");
    let cold = find(&folders, "C:\\cold");
    assert_eq!(hot.churn, ChurnClass::Hot);
    assert_eq!(cold.churn, ChurnClass::Cold);
}

// --- fixed clock ---

const NOW: u64 = 1_700_000_000;

fn at(path: &str, size: u64, secs_ago: u64) -> FileNode {
    FileNode { path: path.to_string(), size_bytes: size, modified: NOW - secs_ago }
}

#[test]
fn folders_come_in_order_of_first_file() {
    let files = vec![
        at("C:\\b\\1", 1, 0),
        at("C:\\a\\1", 2, 0),
        at("C:\\b\\2", 3, 0),
    ];
    let folders = classify_at(&files, NOW).unwrap();
    assert_eq!(folders.len(), 2);
    assert_eq!(folders[0].path, "C:\\b");
    assert_eq!(folders[0].total_size, 4);
    assert_eq!(folders[1].path, "C:\\a");
    assert_eq!(folders[0].entropy_class, EntropyClass::Mixed);
}

#[test]
fn files_without_a_folder_are_skipped() {
    let files = vec![at("C:\\", 10, 0), at("", 5, 0), at("C:\\x.txt", 7, 0)];
    let folders = classify_at(&files, NOW).unwrap();
    assert_eq!(folders.len(), 1);
    assert_eq!(folders[0].path, "C:\\");
    assert_eq!(folders[0].total_size, 7);
}

#[test]
fn totals_add_up_to_the_placed_files() {
    let files = vec![
        at("C:\\a\\1", 10, 0),
        at("C:\\b\\c\\2", 20, 0),
        at("C:\\a\\3", 30, 0),
        at("D:\\4", 40, 0),
        at("", 50, 0),
    ];
    let folders = classify_at(&files, NOW).unwrap();
    let total: u64 = folders.iter().map(|f| f.total_size).sum();
    let count: u64 = folders.iter().map(|f| f.file_count).sum();
    assert_eq!(total, 100);
    assert_eq!(count, 4);
}

#[test]
fn sixty_percent_recent_is_not_volatile_but_above_is() {
    // 20 files, 12 touched this week: exactly 60%, not above it
    let mut files: Vec<FileNode> = (0..12).map(|i| at(&format!("C:\\v\\{}", i), 10, 3_600)).collect();
    files.extend((0..8).map(|i| at(&format!("C:\\v\\o{}", i), 10, 60 * 86_400)));
    assert_eq!(classify_at(&files, NOW).unwrap()[0].churn, ChurnClass::Hot);
    files.push(at("C:\\v\\extra", 10, 3_600));
    // 13 of 21 is above 60%
    assert_eq!(classify_at(&files, NOW).unwrap()[0].churn, ChurnClass::Volatile);
}

#[test]
fn large_recent_files_are_hot_not_volatile() {
    let files: Vec<FileNode> = (0..20).map(|i| at(&format!("C:\\big\\{}", i), 20 * 1024 * 1024, 60)).collect();
    assert_eq!(classify_at(&files, NOW).unwrap()[0].churn, ChurnClass::Hot);
}

#[test]
fn thirty_percent_is_cold_and_above_is_hot() {
    let mut files: Vec<FileNode> = (0..3).map(|i| at(&format!("C:\\h\\{}", i), 1, 10 * 86_400)).collect();
    files.extend((0..7).map(|i| at(&format!("C:\\h\\o{}", i), 1, 100 * 86_400)));
    assert_eq!(classify_at(&files, NOW).unwrap()[0].churn, ChurnClass::Cold);
    files.push(at("C:\\h\\new", 1, 0));
    assert_eq!(classify_at(&files, NOW).unwrap()[0].churn, ChurnClass::Hot);
}

#[test]
fn churn_rule_values() {
    assert_eq!(churn_of(20, 20, 13, 13), ChurnClass::Volatile);
    assert_eq!(churn_of(20, 20 * 10_485_760, 13, 13), ChurnClass::Hot);
    assert_eq!(churn_of(19, 19, 19, 19), ChurnClass::Hot);
    assert_eq!(churn_of(10, 10, 0, 3), ChurnClass::Cold);
    assert_eq!(churn_of(10, 10, 0, 4), ChurnClass::Hot);
}

#[test]
fn clock_reads_late_enough() {
    assert!(now() >= COLD_UNTOUCHED_SECS);
    assert!(classify(&[]).unwrap().is_empty());
}

#[test]
fn files_grouped_by_folder_in_report_order() {
    let files = vec![
        file_at("C:\\b\\1", 1, 0),
        file_at("C:\\a\\2", 2, 0),
        file_at("C:\\", 3, 0),
        file_at("C:\\b\\.\\3", 4, 0),
        file_at("C:\\a\\4", 5, 0),
    ];
    assert_eq!(group_files(&files), vec![vec![0, 3], vec![1, 4]]);
    let folders = classify_at(&files, COLD_UNTOUCHED_SECS + now()).unwrap();
    assert_eq!(folders[0].path, "C:\\b");
    assert_eq!(folders[1].path, "C:\\a");
}

#[test]
fn folder_sizes_fit_is_per_folder() {
    let split = vec![file_at("C:\\a\\x", u64::MAX, 0), file_at("C:\\b\\y", u64::MAX, 0)];
    assert!(folder_sizes_fit(&split));
    let together = vec![file_at("C:\\a\\x", u64::MAX, 0), file_at("C:\\a\\y", 1, 0)];
    assert!(!folder_sizes_fit(&together));
    assert!(folder_sizes_fit(&[]));
}

#[test]
fn too_early_a_clock_gives_no_classification() {
    let files = vec![file_at("C:\\a\\x", 10, 0)];
    assert!(classify_at(&files, COLD_UNTOUCHED_SECS - 1).is_none());
    assert!(classify_at(&files, 0).is_none());
    let at_edge = classify_at(&files, COLD_UNTOUCHED_SECS).unwrap();
    assert_eq!(at_edge.len(), 1);
    assert_eq!(at_edge[0].path, "C:\\a");
}

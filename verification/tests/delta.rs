use diskchurn::delta::{apply_min_filter, compute, DeltaKind, FolderDelta};
use diskchurn::history::Snapshot;
use diskchurn::types::{ChurnClass, EntropyClass, FolderStats};

fn folder(p: &str, s: u64) -> FolderStats {
    FolderStats {
        path: p.to_string(),
        total_size: s,
        file_count: 1,
        churn: ChurnClass::Cold,
        entropy_class: EntropyClass::Mixed,
    }
}

fn snap(folders: &[(&str, u64)]) -> Snapshot {
    Snapshot {
        drive: "C:\\".into(),
        total_bytes: 0,
        free_bytes: 0,
        files_scanned: 0,
        scanned_at: 0,
        folders: folders.iter().map(|(p, s)| folder(p, *s)).collect(),
    }
}

fn current(folders: &[(&str, u64)]) -> Vec<FolderStats> {
    folders.iter().map(|(p, s)| folder(p, *s)).collect()
}

// --- compute axioms ---

#[test]
fn grown_when_size_increases() {
    let d = compute(&snap(&[("C:\\a", 1000)]), &current(&[("C:\\a", 2000)]));
    assert_eq!(d[0].kind, DeltaKind::Grown);
    assert_eq!(d[0].delta, 1000);
    assert_eq!(d[0].old_size, 1000);
    assert_eq!(d[0].new_size, 2000);
}

#[test]
fn shrunk_when_size_decreases() {
    let d = compute(&snap(&[("C:\\a", 2000)]), &current(&[("C:\\a", 1000)]));
    assert_eq!(d[0].kind, DeltaKind::Shrunk);
    assert_eq!(d[0].delta, -1000);
}

#[test]
fn unchanged_requires_exact_zero_delta() {
    let d = compute(&snap(&[("C:\\a", 1000)]), &current(&[("C:\\a", 1000)]));
    assert_eq!(d[0].kind, DeltaKind::Unchanged);
    assert_eq!(d[0].delta, 0);
}

#[test]
fn one_byte_change_is_not_unchanged() {
    let d = compute(&snap(&[("C:\\a", 1000)]), &current(&[("C:\\a", 1001)]));
    assert_eq!(d[0].kind, DeltaKind::Grown);
}

#[test]
fn new_folder_absent_from_baseline() {
    let d = compute(&snap(&[]), &current(&[("C:\\new", 5000)]));
    assert_eq!(d[0].kind, DeltaKind::New);
    assert_eq!(d[0].old_size, 0);
    assert_eq!(d[0].delta, 5000);
}

#[test]
fn deleted_folder_absent_from_current() {
    let d = compute(&snap(&[("C:\\gone", 3000)]), &current(&[]));
    assert_eq!(d[0].kind, DeltaKind::Deleted);
    assert_eq!(d[0].new_size, 0);
    assert_eq!(d[0].delta, -3000);
}

#[test]
fn compute_never_filters_output() {
    let baseline = snap(&[("C:\\a", 1000), ("C:\\b", 1000), ("C:\\c", 1000)]);
    let cur = current(&[("C:\\a", 1001), ("C:\\b", 1000), ("C:\\d", 500)]);
    let d = compute(&baseline, &cur);
    assert_eq!(d.len(), 4, "compute must emit all 4 entries unfiltered");
}

// --- display filter axioms ---

#[test]
fn min_bytes_zero_passes_everything() {
    let deltas = vec![FolderDelta { path: "C:\\a".into(), old_size: 100, new_size: 101, delta: 1, kind: DeltaKind::Grown }];
    let out = apply_min_filter(&deltas, 0, [true; 4]);
    assert_eq!(out.len(), 1);
}

#[test]
fn min_bytes_excludes_below_threshold() {
    let deltas = vec![
        FolderDelta { path: "C:\\small".into(), old_size: 0, new_size: 100, delta: 100, kind: DeltaKind::Grown },
        FolderDelta { path: "C:\\large".into(), old_size: 0, new_size: 2_000_000, delta: 2_000_000, kind: DeltaKind::Grown },
    ];
    let out = apply_min_filter(&deltas, 1_000_000, [true; 4]);
    assert_eq!(out.len(), 1);
    assert_eq!(out[0].path, "C:\\large");
}

#[test]
fn kind_toggle_off_excludes_that_kind() {
    let deltas = vec![
        FolderDelta { path: "C:\\new".into(), old_size: 0, new_size: 500, delta: 500, kind: DeltaKind::New },
        FolderDelta { path: "C:\\grown".into(), old_size: 100, new_size: 600, delta: 500, kind: DeltaKind::Grown },
    ];
    let out = apply_min_filter(&deltas, 0, [false, true, true, true]);
    assert_eq!(out.len(), 1);
    assert_eq!(out[0].kind, DeltaKind::Grown);
}

#[test]
fn unchanged_is_always_excluded_from_display() {
    let deltas = vec![FolderDelta { path: "C:\\same".into(), old_size: 1000, new_size: 1000, delta: 0, kind: DeltaKind::Unchanged }];
    let out = apply_min_filter(&deltas, 0, [true; 4]);
    assert!(out.is_empty());
}

// --- further cases ---

#[test]
fn order_is_current_then_deleted_in_baseline_order() {
    let baseline = snap(&[("C:\\x", 1), ("C:\\a", 2), ("C:\\y", 3)]);
    let cur = current(&[("C:\\a", 5), ("C:\\n", 1)]);
    let d = compute(&baseline, &cur);
    let paths: Vec<&str> = d.iter().map(|e| e.path.as_str()).collect();
    assert_eq!(paths, vec!["C:\\a", "C:\\n", "C:\\x", "C:\\y"]);
    assert_eq!(d[0].kind, DeltaKind::Grown);
    assert_eq!(d[1].kind, DeltaKind::New);
    assert_eq!(d[2].kind, DeltaKind::Deleted);
    assert_eq!(d[3].delta, -3);
}

#[test]
fn duplicate_baseline_path_uses_last_size_and_is_deleted_once() {
    let baseline = snap(&[("C:\\a", 1), ("C:\\a", 9)]);
    let d = compute(&baseline, &current(&[]));
    assert_eq!(d.len(), 1);
    assert_eq!(d[0].old_size, 9);
    let d = compute(&baseline, &current(&[("C:\\a", 10)]));
    assert_eq!(d.len(), 1);
    assert_eq!(d[0].delta, 1);
}

#[test]
fn duplicate_current_path_matches_once_then_counts_as_new() {
    let d = compute(&snap(&[("C:\\a", 4)]), &current(&[("C:\\a", 4), ("C:\\a", 6)]));
    assert_eq!(d.len(), 2);
    assert_eq!(d[0].kind, DeltaKind::Unchanged);
    assert_eq!(d[1].kind, DeltaKind::New);
    assert_eq!(d[1].delta, 6);
}

#[test]
fn every_delta_is_new_minus_old() {
    let baseline = snap(&[("C:\\a", 7), ("C:\\b", 70), ("C:\\c", 700)]);
    let cur = current(&[("C:\\b", 3), ("C:\\a", 7), ("C:\\d", 11)]);
    for e in compute(&baseline, &cur) {
        assert_eq!(e.delta, e.new_size as i64 - e.old_size as i64);
    }
}

#[test]
fn shrink_counts_by_magnitude_and_deleted_toggle() {
    let deltas = vec![
        FolderDelta { path: "C:\\s".into(), old_size: 5000, new_size: 1000, delta: -4000, kind: DeltaKind::Shrunk },
        FolderDelta { path: "C:\\d".into(), old_size: 3000, new_size: 0, delta: -3000, kind: DeltaKind::Deleted },
        FolderDelta { path: "C:\\m".into(), old_size: 0, new_size: 0, delta: i64::MIN, kind: DeltaKind::Shrunk },
    ];
    let out = apply_min_filter(&deltas, 3500, [true, true, true, false]);
    assert_eq!(out.len(), 2);
    assert_eq!(out[0].path, "C:\\s");
    assert_eq!(out[1].path, "C:\\m");
    let out = apply_min_filter(&deltas, 3000, [true, true, false, true]);
    assert_eq!(out.len(), 1);
    assert_eq!(out[0].path, "C:\\d");
}

#[test]
fn raising_the_threshold_never_shows_more() {
    let deltas: Vec<FolderDelta> = (0..20i64)
        .map(|i| FolderDelta { path: format!("C:\\{}", i), old_size: 0, new_size: (i * 100) as u64, delta: i * 100, kind: DeltaKind::Grown })
        .collect();
    let mut last = usize::MAX;
    for min in [0u64, 1, 100, 550, 1900, 5000] {
        let n = apply_min_filter(&deltas, min, [true; 4]).len();
        assert!(n <= last);
        last = n;
    }
}

#[test]
fn comparing_the_other_way_round_reverses_every_entry() {
    let b = [("C:\\a", 1000), ("C:\\b", 500), ("C:\\gone", 300), ("C:\\same", 7)];
    let c = [("C:\\b", 800), ("C:\\a", 400), ("C:\\new", 900), ("C:\\same", 7)];
    let forward = compute(&snap(&b), &current(&c));
    let backward = compute(&snap(&c), &current(&b));
    assert_eq!(forward.len(), backward.len());
    for d in &forward {
        let r = backward.iter().find(|x| x.path == d.path).unwrap();
        assert_eq!(r.old_size, d.new_size);
        assert_eq!(r.new_size, d.old_size);
        assert_eq!(r.delta, -d.delta);
        let expected = match d.kind {
            DeltaKind::New => DeltaKind::Deleted,
            DeltaKind::Deleted => DeltaKind::New,
            DeltaKind::Grown => DeltaKind::Shrunk,
            DeltaKind::Shrunk => DeltaKind::Grown,
            DeltaKind::Unchanged => DeltaKind::Unchanged,
        };
        assert_eq!(r.kind, expected);
    }
}

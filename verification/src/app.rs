use vstd::prelude::*;

use crate::classifier::{classify_at, folders_at, sizes_fit};
use crate::clock::now_secs;
use crate::paths::{file_name_of, parent_of, spec_file_name, spec_parent, string_from_chars};
use crate::scanner::ScanMsg;
use crate::types::{files_view, folders_view, ChurnClass, DiskSnapshot, EntropyClass, FileNode, FileView, FolderStats, FolderView};

verus! {

/// Where the window is in the life of a scan.
#[derive(Debug, Clone, Copy, PartialEq, Eq, Structural)]
pub enum ScanState {
    Idle,
    Scanning,
    Done,
}

/// The roots that may hold a drive, `A:\` to `Z:\`; which exist is for the caller to test.
pub fn drive_candidates() -> (out: Vec<String>)
    ensures
        out@.len() == 26,
        forall|i: int| 0 <= i < 26 ==> #[trigger] out@[i]@ == seq![(65 + i) as char, ':', '\\'],
{
    let mut out: Vec<String> = Vec::new();
    let mut i: u8 = 0;
    while i < 26
        invariant
            0 <= i <= 26,
            out@.len() == i,
            forall|k: int| 0 <= k < i ==> #[trigger] out@[k]@ == seq![(65 + k) as char, ':', '\\'],
        decreases 26 - i,
    {
        let letter = (65u8 + i) as char;
        let cs: Vec<char> = vec![letter, ':', '\\'];
        out.push(string_from_chars(cs.as_slice(), 0, 3));
        assert(cs@ =~= seq![(65 + i) as char, ':', '\\']);
        i = i + 1;
    }
    out
}

/// The colour of a churn class in the folder list.
pub fn churn_rgb(churn: ChurnClass) -> (rgb: (u8, u8, u8))
    ensures
        rgb == match churn {
            ChurnClass::Cold => (100u8, 140u8, 210u8),
            ChurnClass::Hot => (220u8, 100u8, 60u8),
            ChurnClass::Volatile => (220u8, 50u8, 50u8),
        },
{
    match churn {
        ChurnClass::Cold => (100, 140, 210),
        ChurnClass::Hot => (220, 100, 60),
        ChurnClass::Volatile => (220, 50, 50),
    }
}

/// The colour of a churn class in the treemap.
pub fn treemap_rgb(churn: ChurnClass) -> (rgb: (u8, u8, u8))
    ensures
        rgb == match churn {
            ChurnClass::Cold => (60u8, 100u8, 160u8),
            ChurnClass::Hot => (200u8, 80u8, 40u8),
            ChurnClass::Volatile => (200u8, 40u8, 40u8),
        },
{
    match churn {
        ChurnClass::Cold => (60, 100, 160),
        ChurnClass::Hot => (200, 80, 40),
        ChurnClass::Volatile => (200, 40, 40),
    }
}

/// Takes one message of the scanning thread into the snapshot; returns whether the scan is done.
/// A batch appends its files and recounts them; the end marks the scan complete.
pub fn apply_scan_msg(snap: &mut DiskSnapshot, msg: ScanMsg) -> (done: bool)
    ensures
        final(snap).drive@ == old(snap).drive@,
        final(snap).total_bytes == old(snap).total_bytes,
        final(snap).free_bytes == old(snap).free_bytes,
        folders_view(final(snap).folders@) == folders_view(old(snap).folders@),
        match msg {
            ScanMsg::Batch(files) => {
                &&& !done
                &&& files_view(final(snap).files@) == files_view(old(snap).files@) + files_view(files@)
                &&& final(snap).files_scanned == final(snap).files@.len()
                &&& final(snap).scan_complete == old(snap).scan_complete
            },
            ScanMsg::Done => {
                &&& done
                &&& files_view(final(snap).files@) == files_view(old(snap).files@)
                &&& final(snap).files_scanned == old(snap).files_scanned
                &&& final(snap).scan_complete
            },
        },
{
    match msg {
        ScanMsg::Batch(files) => {
            let mut files = files;
            let ghost before = snap.files@;
            let ghost added = files@;
            snap.files.append(&mut files);
            assert(files_view(snap.files@) =~= files_view(before) + files_view(added));
            snap.files_scanned = snap.files.len() as u64;
            false
        },
        ScanMsg::Done => {
            snap.scan_complete = true;
            true
        },
    }
}

/// Records the drive's size and free space and classifies the scanned files at second `now`;
/// the folders stay empty when `now` is too early for the classifier's windows.
pub fn finish_scan_at(snap: &mut DiskSnapshot, total: u64, free: u64, now: u64)
    requires
        sizes_fit(files_view(old(snap).files@)),
    ensures
        final(snap).drive@ == old(snap).drive@,
        files_view(final(snap).files@) == files_view(old(snap).files@),
        final(snap).files_scanned == old(snap).files_scanned,
        final(snap).scan_complete == old(snap).scan_complete,
        final(snap).total_bytes == total,
        final(snap).free_bytes == free,
        folders_at(files_view(old(snap).files@), now, folders_view(final(snap).folders@)),
{
    snap.total_bytes = total;
    snap.free_bytes = free;
    match classify_at(snap.files.as_slice(), now) {
        Some(folders) => {
            snap.folders = folders;
        },
        None => {
            snap.folders = Vec::new();
            assert(folders_view(snap.folders@) =~= Seq::<FolderView>::empty());
        },
    }
}

/// `finish_scan_at` at the second the system clock reads.
pub fn finish_scan(snap: &mut DiskSnapshot, total: u64, free: u64)
    requires
        sizes_fit(files_view(old(snap).files@)),
    ensures
        final(snap).drive@ == old(snap).drive@,
        files_view(final(snap).files@) == files_view(old(snap).files@),
        final(snap).files_scanned == old(snap).files_scanned,
        final(snap).scan_complete == old(snap).scan_complete,
        final(snap).total_bytes == total,
        final(snap).free_bytes == free,
        exists|now: u64| #[trigger] folders_at(
            files_view(old(snap).files@),
            now,
            folders_view(final(snap).folders@),
        ),
{
    let now = now_secs();
    finish_scan_at(snap, total, free, now);
    assert(folders_at(files_view(old(snap).files@), now, folders_view(snap.folders@)));
}

/// The churn filter: everything when none is set, else the folders of that class.
pub open spec fn passes(f: FolderView, filter: Option<ChurnClass>) -> bool {
    match filter {
        None => true,
        Some(c) => f.churn == c,
    }
}

/// The folders that pass the filter, in order.
pub open spec fn filtered(fs: Seq<FolderView>, filter: Option<ChurnClass>) -> Seq<FolderView>
    decreases fs.len(),
{
    if fs.len() == 0 {
        Seq::empty()
    } else {
        let r = filtered(fs.drop_last(), filter);
        if passes(fs.last(), filter) {
            r.push(fs.last())
        } else {
            r
        }
    }
}

/// Copies of the folders that pass the churn filter, in order.
pub fn filter_by_churn(folders: &[FolderStats], filter: Option<ChurnClass>) -> (out: Vec<FolderStats>)
    ensures
        folders_view(out@) == filtered(folders_view(folders@), filter),
{
    let ghost fs = folders_view(folders@);
    let mut out: Vec<FolderStats> = Vec::new();
    let n = folders.len();
    let mut i: usize = 0;
    while i < n
        invariant
            n == folders@.len(),
            fs == folders_view(folders@),
            0 <= i <= n,
            folders_view(out@) == filtered(fs.take(i as int), filter),
        decreases n - i,
    {
        assert(fs.take(i + 1).drop_last() =~= fs.take(i as int));
        assert(fs.take(i + 1).last() == folders@[i as int]@);
        let keep = match filter {
            None => true,
            Some(c) => folders[i].churn == c,
        };
        if keep {
            let ghost before = folders_view(out@);
            out.push(folders[i].clone());
            assert(folders_view(out@) =~= before.push(folders@[i as int]@));
        }
        i = i + 1;
    }
    assert(fs.take(n as int) =~= fs);
    out
}

/// Position at which an entry with key `k` goes into a largest-first list: after every entry
/// with a key at least as large.
pub open spec fn rank_pos(s: Seq<(u64, usize)>, k: u64) -> int
    decreases s.len(),
{
    if s.len() == 0 {
        0
    } else if s[0].0 < k {
        0
    } else {
        1 + rank_pos(s.drop_first(), k)
    }
}

/// `s` sorted by key, largest first; equal keys keep their order.
pub open spec fn largest_first(s: Seq<(u64, usize)>) -> Seq<(u64, usize)>
    decreases s.len(),
{
    if s.len() == 0 {
        s
    } else {
        let r = largest_first(s.drop_last());
        r.insert(rank_pos(r, s.last().0), s.last())
    }
}

proof fn lemma_rank_pos_at(s: Seq<(u64, usize)>, k: u64, j: int)
    requires
        0 <= j <= s.len(),
        forall|i: int| 0 <= i < j ==> s[i].0 >= k,
        j == s.len() || s[j].0 < k,
    ensures
        rank_pos(s, k) == j,
    decreases s.len(),
{
    if s.len() > 0 && j > 0 {
        assert forall|i: int| 0 <= i < j - 1 implies s.drop_first()[i].0 >= k by {
            assert(s.drop_first()[i] == s[i + 1]);
        }
        lemma_rank_pos_at(s.drop_first(), k, j - 1);
    }
}

/// Inserts `(k, idx)` into a list kept largest first, after the entries with keys at least `k`.
fn rank_insert(out: &mut Vec<(u64, usize)>, k: u64, idx: usize)
    ensures
        final(out)@ == old(out)@.insert(rank_pos(old(out)@, k), (k, idx)),
{
    let mut j: usize = 0;
    while j < out.len() && out[j].0 >= k
        invariant
            j <= out@.len(),
            forall|q: int| 0 <= q < j ==> out@[q].0 >= k,
        decreases out@.len() - j,
    {
        j = j + 1;
    }
    proof {
        lemma_rank_pos_at(out@, k, j as int);
    }
    out.insert(j, (k, idx));
}

/// `(total size, index)` of the folders that pass the filter, in order.
pub open spec fn sidebar_entries(fs: Seq<FolderView>, filter: Option<ChurnClass>) -> Seq<(u64, usize)>
    decreases fs.len(),
{
    if fs.len() == 0 {
        Seq::empty()
    } else {
        let r = sidebar_entries(fs.drop_last(), filter);
        if passes(fs.last(), filter) {
            r.push((fs.last().total_size, (fs.len() - 1) as usize))
        } else {
            r
        }
    }
}

/// The rows of the folder list: indices of the folders that pass the filter, largest first,
/// folders of equal size in their order.
pub fn sidebar_rows(folders: &[FolderStats], filter: Option<ChurnClass>) -> (out: Vec<usize>)
    ensures
        out@ == largest_first(sidebar_entries(folders_view(folders@), filter)).map_values(
            |e: (u64, usize)| e.1,
        ),
{
    let ghost fs = folders_view(folders@);
    let mut ranked: Vec<(u64, usize)> = Vec::new();
    let n = folders.len();
    let mut i: usize = 0;
    while i < n
        invariant
            n == folders@.len(),
            fs == folders_view(folders@),
            0 <= i <= n,
            ranked@ == largest_first(sidebar_entries(fs.take(i as int), filter)),
        decreases n - i,
    {
        let ghost pre = fs.take(i as int);
        assert(fs.take(i + 1).drop_last() =~= pre);
        assert(fs.take(i + 1).last() == folders@[i as int]@);
        let keep = match filter {
            None => true,
            Some(c) => folders[i].churn == c,
        };
        if keep {
            rank_insert(&mut ranked, folders[i].total_size, i);
            let ghost e = sidebar_entries(fs.take(i + 1), filter);
            assert(e.drop_last() =~= sidebar_entries(pre, filter));
        }
        i = i + 1;
    }
    assert(fs.take(n as int) =~= fs);
    let mut out: Vec<usize> = Vec::new();
    let mut k: usize = 0;
    while k < ranked.len()
        invariant
            0 <= k <= ranked@.len(),
            out@ =~= ranked@.take(k as int).map_values(|e: (u64, usize)| e.1),
        decreases ranked@.len() - k,
    {
        out.push(ranked[k].1);
        k = k + 1;
    }
    assert(ranked@.take(ranked@.len() as int) =~= ranked@);
    out
}

/// Files shown in a folder's detail panel.
pub const TOP_FILES: usize = 10;

/// `(size, index)` of the files directly in `folder`, in order.
pub open spec fn folder_entries(fs: Seq<FileView>, folder: Seq<char>) -> Seq<(u64, usize)>
    decreases fs.len(),
{
    if fs.len() == 0 {
        Seq::empty()
    } else {
        let r = folder_entries(fs.drop_last(), folder);
        if spec_parent(fs.last().path) == Some(folder) {
            r.push((fs.last().size_bytes, (fs.len() - 1) as usize))
        } else {
            r
        }
    }
}

/// The name shown for a file: its last component, or nothing.
pub open spec fn shown_name(path: Seq<char>) -> Seq<char> {
    match spec_file_name(path) {
        Some(n) => n,
        None => Seq::empty(),
    }
}

pub proof fn lemma_entries_index(fs: Seq<FileView>, folder: Seq<char>)
    requires
        fs.len() <= usize::MAX,
    ensures
        forall|q: int| 0 <= q < folder_entries(fs, folder).len() ==> (#[trigger] folder_entries(fs, folder)[q]).1 < fs.len()
            && folder_entries(fs, folder)[q].0 == fs[folder_entries(fs, folder)[q].1 as int].size_bytes,
    decreases fs.len(),
{
    if fs.len() > 0 {
        lemma_entries_index(fs.drop_last(), folder);
        let r = folder_entries(fs.drop_last(), folder);
        assert forall|q: int| 0 <= q < folder_entries(fs, folder).len() implies (#[trigger] folder_entries(fs, folder)[q]).1 < fs.len()
            && folder_entries(fs, folder)[q].0 == fs[folder_entries(fs, folder)[q].1 as int].size_bytes by {
            if q < r.len() {
                assert(folder_entries(fs, folder)[q] == r[q]);
                assert(fs.drop_last()[r[q].1 as int] == fs[r[q].1 as int]);
            } else {
                assert(fs[fs.len() - 1] == fs.last());
            }
        }
    }
}

proof fn lemma_largest_first_members(s: Seq<(u64, usize)>)
    ensures
        largest_first(s).len() == s.len(),
        forall|q: int| 0 <= q < largest_first(s).len() ==> s.contains(#[trigger] largest_first(s)[q]),
    decreases s.len(),
{
    if s.len() > 0 {
        lemma_largest_first_members(s.drop_last());
        let r = largest_first(s.drop_last());
        lemma_rank_pos_bounds(r, s.last().0);
        let p = rank_pos(r, s.last().0);
        assert forall|q: int| 0 <= q < largest_first(s).len() implies s.contains(#[trigger] largest_first(s)[q]) by {
            if q < p {
                assert(largest_first(s)[q] == r[q]);
                let w = choose|w: int| 0 <= w < s.drop_last().len() && s.drop_last()[w] == r[q];
                assert(s[w] == r[q]);
            } else if q == p {
                assert(s[s.len() - 1] == s.last());
            } else {
                assert(largest_first(s)[q] == r[q - 1]);
                let w = choose|w: int| 0 <= w < s.drop_last().len() && s.drop_last()[w] == r[q - 1];
                assert(s[w] == r[q - 1]);
            }
        }
    }
}

proof fn lemma_rank_pos_bounds(s: Seq<(u64, usize)>, k: u64)
    ensures
        0 <= rank_pos(s, k) <= s.len(),
    decreases s.len(),
{
    if s.len() > 0 && s[0].0 >= k {
        lemma_rank_pos_bounds(s.drop_first(), k);
    }
}

/// The detail panel's list: name and size of the largest files directly in `folder`,
/// largest first (files of equal size in scan order), at most `TOP_FILES` of them.
pub fn top_files(files: &[FileNode], folder: &str) -> (out: Vec<(String, u64)>)
    ensures
        ({
            let ranked = largest_first(folder_entries(files_view(files@), folder@));
            &&& out@.len() == if ranked.len() < TOP_FILES { ranked.len() } else { TOP_FILES as nat }
            &&& forall|q: int|
                0 <= q < out@.len() ==> (#[trigger] out@[q]).0@ == shown_name(
                    files@[ranked[q].1 as int].path@,
                ) && out@[q].1 == ranked[q].0
        }),
{
    let ghost fs = files_view(files@);
    let mut ranked: Vec<(u64, usize)> = Vec::new();
    let n = files.len();
    let mut i: usize = 0;
    while i < n
        invariant
            n == files@.len(),
            fs == files_view(files@),
            0 <= i <= n,
            ranked@ == largest_first(folder_entries(fs.take(i as int), folder@)),
        decreases n - i,
    {
        let ghost pre = fs.take(i as int);
        assert(fs.take(i + 1).drop_last() =~= pre);
        assert(fs.take(i + 1).last() == files@[i as int]@);
        let in_folder = match parent_of(files[i].path.as_str()) {
            Some(p) => p.eq(&folder.to_string()),
            None => false,
        };
        if in_folder {
            rank_insert(&mut ranked, files[i].size_bytes, i);
            let ghost e = folder_entries(fs.take(i + 1), folder@);
            assert(e.drop_last() =~= folder_entries(pre, folder@));
        }
        i = i + 1;
    }
    assert(fs.take(n as int) =~= fs);
    let ghost entries = folder_entries(fs, folder@);
    proof {
        lemma_entries_index(fs, folder@);
        lemma_largest_first_members(entries);
    }
    let mut out: Vec<(String, u64)> = Vec::new();
    let mut k: usize = 0;
    while k < ranked.len() && k < TOP_FILES
        invariant
            n == files@.len(),
            fs == files_view(files@),
            ranked@ == largest_first(entries),
            entries == folder_entries(fs, folder@),
            forall|q: int| 0 <= q < ranked@.len() ==> entries.contains(#[trigger] ranked@[q]),
            forall|q: int| 0 <= q < entries.len() ==> (#[trigger] entries[q]).1 < fs.len()
                && entries[q].0 == fs[entries[q].1 as int].size_bytes,
            0 <= k <= ranked@.len(),
            k <= TOP_FILES,
            out@.len() == k,
            forall|q: int|
                0 <= q < k ==> (#[trigger] out@[q]).0@ == shown_name(
                    files@[ranked@[q].1 as int].path@,
                ) && out@[q].1 == ranked@[q].0,
        decreases ranked@.len() - k,
    {
        let (size, idx) = ranked[k];
        proof {
            assert(entries.contains(ranked@[k as int]));
            let w = choose|w: int| 0 <= w < entries.len() && entries[w] == ranked@[k as int];
            assert(entries[w].1 < fs.len());
        }
        let name = file_name_of(files[idx].path.as_str());
        out.push((name, size));
        k = k + 1;
    }
    out
}

/// A click on a churn filter: clicking the active one clears it, another one selects it.
pub fn toggle_filter(current: Option<ChurnClass>, clicked: ChurnClass) -> (next: Option<ChurnClass>)
    ensures
        next == if current == Some(clicked) { None } else { Some(clicked) },
{
    match current {
        Some(c) if c == clicked => None,
        _ => Some(clicked),
    }
}

/// A click on a folder: clicking the selected one clears the selection, another selects it.
pub fn toggle_selection(current: &Option<String>, clicked: &str) -> (next: Option<String>)
    ensures
        match current {
            Some(c) if c@ == clicked@ => next is None,
            _ => next matches Some(n) && n@ == clicked@,
        },
{
    let clicked_string = clicked.to_string();
    match current {
        Some(c) => {
            if c.eq(&clicked_string) {
                None
            } else {
                Some(clicked_string)
            }
        },
        None => Some(clicked_string),
    }
}


/// The drive selected at start: the first one found, else `C:\`.
pub fn initial_drive(drives: &[String]) -> (d: String)
    ensures
        drives@.len() > 0 ==> d@ == drives@[0]@,
        drives@.len() == 0 ==> d@ == "C:\\"@,
{
    if drives.len() > 0 {
        drives[0].clone()
    } else {
        proof {
            broadcast use vstd::string::to_string_from_display_ensures_for_str;
        }
        "C:\\".to_string()
    }
}

/// A fresh snapshot for a scan of `drive`.
pub fn scan_snapshot(drive: &str) -> (snap: DiskSnapshot)
    ensures
        snap.drive@ == drive@,
        snap.total_bytes == 0,
        snap.free_bytes == 0,
        snap.files@.len() == 0,
        snap.folders@.len() == 0,
        !snap.scan_complete,
        snap.files_scanned == 0,
{
    proof {
        broadcast use vstd::string::to_string_from_display_ensures_for_str;
    }
    DiskSnapshot {
        drive: drive.to_string(),
        total_bytes: 0,
        free_bytes: 0,
        files: Vec::new(),
        folders: Vec::new(),
        scan_complete: false,
        files_scanned: 0,
    }
}

/// The word shown for an entropy class in the folder list.
pub fn entropy_label(class: EntropyClass) -> (label: &'static str)
    ensures
        label@ == match class {
            EntropyClass::Compressible => "compressible"@,
            EntropyClass::Mixed => "mixed"@,
            EntropyClass::Dense => "dense"@,
        },
{
    match class {
        EntropyClass::Compressible => "compressible",
        EntropyClass::Mixed => "mixed",
        EntropyClass::Dense => "dense",
    }
}

/// The badge shown for a churn class in the folder list.
pub fn churn_label(churn: ChurnClass) -> (label: &'static str)
    ensures
        label@ == match churn {
            ChurnClass::Cold => "COLD"@,
            ChurnClass::Hot => "HOT"@,
            ChurnClass::Volatile => "VOLATILE"@,
        },
{
    match churn {
        ChurnClass::Cold => "COLD",
        ChurnClass::Hot => "HOT",
        ChurnClass::Volatile => "VOLATILE",
    }
}

/// What the treemap area says when there is nothing to draw.
pub fn treemap_placeholder(state: ScanState) -> (text: &'static str)
    ensures
        text@ == match state {
            ScanState::Idle => "select a drive and click Scan"@,
            ScanState::Scanning => "scanning\u{2026}"@,
            ScanState::Done => "no folders to display"@,
        },
{
    match state {
        ScanState::Idle => "select a drive and click Scan",
        ScanState::Scanning => "scanning\u{2026}",
        ScanState::Done => "no folders to display",
    }
}


proof fn lemma_rank_pos_props(s: Seq<(u64, usize)>, k: u64)
    ensures
        0 <= rank_pos(s, k) <= s.len(),
        forall|i: int| 0 <= i < rank_pos(s, k) ==> (#[trigger] s[i]).0 >= k,
        rank_pos(s, k) < s.len() ==> s[rank_pos(s, k)].0 < k,
    decreases s.len(),
{
    if s.len() > 0 && s[0].0 >= k {
        lemma_rank_pos_props(s.drop_first(), k);
        assert forall|i: int| 0 <= i < rank_pos(s, k) implies (#[trigger] s[i]).0 >= k by {
            if i > 0 {
                assert(s[i] == s.drop_first()[i - 1]);
            }
        }
    }
}

/// The folder list and the detail panel are ordered largest first, and hold each entry exactly
/// as often as the unordered entries do.
pub proof fn law_largest_first_is_sorted_permutation(s: Seq<(u64, usize)>)
    ensures
        forall|i: int, j: int|
            0 <= i < j < largest_first(s).len() ==> (#[trigger] largest_first(s)[i]).0 >= (#[trigger] largest_first(s)[j]).0,
        largest_first(s).to_multiset() == s.to_multiset(),
    decreases s.len(),
{
    broadcast use vstd::seq_lib::group_to_multiset_ensures;

    if s.len() > 0 {
        let pre = s.drop_last();
        law_largest_first_is_sorted_permutation(pre);
        let r = largest_first(pre);
        let x = s.last();
        lemma_rank_pos_props(r, x.0);
        let p = rank_pos(r, x.0);
        let t = r.insert(p, x);
        assert forall|i: int, j: int| 0 <= i < j < t.len() implies (#[trigger] t[i]).0 >= (#[trigger] t[j]).0 by {
            if j < p {
                assert(t[i] == r[i] && t[j] == r[j]);
            } else if j == p {
                assert(t[i] == r[i]);
            } else if i < p {
                assert(t[i] == r[i] && t[j] == r[j - 1]);
                if j - 1 > p {
                    assert(r[p].0 >= r[j - 1].0);
                }
            } else if i == p {
                assert(t[j] == r[j - 1]);
                if j - 1 > p {
                    assert(r[p].0 >= r[j - 1].0);
                }
            } else {
                assert(t[i] == r[i - 1] && t[j] == r[j - 1]);
            }
        }
        assert(pre.push(x) =~= s);
    }
}


/// The churn filter keeps exactly the folders of the chosen class, in order: every folder it
/// returns is one of the input and, when a class is chosen, of that class; every folder of the
/// chosen class is returned; with no class chosen all folders are returned as they are.
pub proof fn law_churn_filter_keeps_exactly_the_class(fs: Seq<FolderView>, filter: Option<ChurnClass>)
    ensures
        filtered(fs, filter).len() <= fs.len(),
        forall|i: int|
            0 <= i < filtered(fs, filter).len() ==> fs.contains(#[trigger] filtered(fs, filter)[i]) && (
            filter matches Some(c) ==> filtered(fs, filter)[i].churn == c),
        forall|j: int|
            0 <= j < fs.len() && (filter is None || (#[trigger] fs[j]).churn == filter->0) ==> filtered(
                fs,
                filter,
            ).contains(fs[j]),
        filter is None ==> filtered(fs, filter) == fs,
    decreases fs.len(),
{
    if fs.len() > 0 {
        let pre = fs.drop_last();
        law_churn_filter_keeps_exactly_the_class(pre, filter);
        let r = filtered(pre, filter);
        let out = filtered(fs, filter);
        assert forall|i: int| 0 <= i < out.len() implies fs.contains(#[trigger] out[i]) && (
        filter matches Some(c) ==> out[i].churn == c) by {
            if i < r.len() {
                assert(out[i] == r[i]);
                let q = choose|q: int| 0 <= q < pre.len() && pre[q] == r[i];
                assert(fs[q] == pre[q]);
            } else {
                assert(fs[fs.len() - 1] == fs.last());
            }
        }
        assert forall|j: int| 0 <= j < fs.len() && (filter is None || (#[trigger] fs[j]).churn == filter->0)
            implies out.contains(fs[j]) by {
            if j < pre.len() {
                assert(pre[j] == fs[j]);
                let q = choose|q: int| 0 <= q < r.len() && r[q] == pre[j];
                assert(out[q] == r[q]);
            } else {
                assert(fs[j] == fs.last());
                assert(out[out.len() - 1] == fs.last());
            }
        }
        if filter is None {
            assert(pre.push(fs.last()) =~= fs);
        }
    }
}

proof fn lemma_sidebar_entries(fs: Seq<FolderView>, filter: Option<ChurnClass>)
    requires
        fs.len() <= usize::MAX,
    ensures
        forall|i: int|
            0 <= i < sidebar_entries(fs, filter).len() ==> {
                let e = #[trigger] sidebar_entries(fs, filter)[i];
                &&& e.1 < fs.len()
                &&& e.0 == fs[e.1 as int].total_size
                &&& (filter matches Some(c) ==> fs[e.1 as int].churn == c)
            },
        forall|j: int|
            0 <= j < fs.len() && (filter is None || (#[trigger] fs[j]).churn == filter->0) ==> sidebar_entries(
                fs,
                filter,
            ).contains((fs[j].total_size, j as usize)),
    decreases fs.len(),
{
    if fs.len() > 0 {
        let pre = fs.drop_last();
        lemma_sidebar_entries(pre, filter);
        let r = sidebar_entries(pre, filter);
        let out = sidebar_entries(fs, filter);
        assert forall|i: int| 0 <= i < out.len() implies {
            let e = #[trigger] out[i];
            &&& e.1 < fs.len()
            &&& e.0 == fs[e.1 as int].total_size
            &&& (filter matches Some(c) ==> fs[e.1 as int].churn == c)
        } by {
            if i < r.len() {
                assert(out[i] == r[i]);
                assert(fs[r[i].1 as int] == pre[r[i].1 as int]);
            } else {
                assert(fs[fs.len() - 1] == fs.last());
            }
        }
        assert forall|j: int| 0 <= j < fs.len() && (filter is None || (#[trigger] fs[j]).churn == filter->0)
            implies out.contains((fs[j].total_size, j as usize)) by {
            if j < pre.len() {
                assert(pre[j] == fs[j]);
                let q = choose|q: int| 0 <= q < r.len() && r[q] == (pre[j].total_size, j as usize);
                assert(out[q] == r[q]);
            } else {
                assert(fs[j] == fs.last());
                assert(out[out.len() - 1] == (fs.last().total_size, (fs.len() - 1) as usize));
            }
        }
    }
}

/// The rows of the folder list are exactly the folders of the chosen class (all folders when
/// none is chosen): each row is a folder of that class, each such folder has a row, and rows
/// run from the largest folder to the smallest.
pub proof fn law_sidebar_rows_are_the_class(fs: Seq<FolderView>, filter: Option<ChurnClass>)
    requires
        fs.len() <= usize::MAX,
    ensures
        ({
            let rows = largest_first(sidebar_entries(fs, filter)).map_values(|e: (u64, usize)| e.1);
            &&& forall|i: int|
                0 <= i < rows.len() ==> #[trigger] rows[i] < fs.len() && (filter matches Some(c)
                    ==> fs[rows[i] as int].churn == c)
            &&& forall|j: int|
                0 <= j < fs.len() && (filter is None || (#[trigger] fs[j]).churn == filter->0)
                    ==> rows.contains(j as usize)
            &&& forall|i: int, k: int|
                0 <= i < k < rows.len() ==> fs[(#[trigger] rows[i]) as int].total_size >= fs[(
                #[trigger] rows[k]) as int].total_size
        }),
{
    broadcast use vstd::seq_lib::group_to_multiset_ensures;

    let ents = sidebar_entries(fs, filter);
    let sorted = largest_first(ents);
    let rows = sorted.map_values(|e: (u64, usize)| e.1);
    lemma_sidebar_entries(fs, filter);
    law_largest_first_is_sorted_permutation(ents);
    assert forall|i: int| 0 <= i < sorted.len() implies {
        let e = #[trigger] sorted[i];
        &&& e.1 < fs.len()
        &&& e.0 == fs[e.1 as int].total_size
        &&& (filter matches Some(c) ==> fs[e.1 as int].churn == c)
    } by {
        let e = sorted[i];
        assert(sorted.contains(e));
        assert(sorted.to_multiset().count(e) > 0);
        assert(ents.contains(e));
        let q = choose|q: int| 0 <= q < ents.len() && ents[q] == e;
    }
    assert forall|i: int| 0 <= i < rows.len() implies #[trigger] rows[i] < fs.len() && (filter matches Some(
        c,
    ) ==> fs[rows[i] as int].churn == c) by {
        assert(rows[i] == sorted[i].1);
    }
    assert forall|j: int| 0 <= j < fs.len() && (filter is None || (#[trigger] fs[j]).churn == filter->0)
        implies rows.contains(j as usize) by {
        let e = (fs[j].total_size, j as usize);
        assert(ents.contains(e));
        assert(ents.to_multiset().count(e) > 0);
        assert(sorted.contains(e));
        let q = choose|q: int| 0 <= q < sorted.len() && sorted[q] == e;
        assert(rows[q] == j as usize);
    }
    assert forall|i: int, k: int| 0 <= i < k < rows.len() implies fs[(#[trigger] rows[i]) as int].total_size
        >= fs[(#[trigger] rows[k]) as int].total_size by {
        assert(rows[i] == sorted[i].1);
        assert(rows[k] == sorted[k].1);
        assert(sorted[i].0 >= sorted[k].0);
    }
}

} // verus!

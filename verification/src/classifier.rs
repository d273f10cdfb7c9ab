use vstd::prelude::*;
use vstd::hash_map::StringHashMap;

use crate::clock::now_secs;
use crate::paths::{parent_of, spec_parent};
use crate::types::{files_view, folders_view, ChurnClass, EntropyClass, FileNode, FileView, FolderStats, FolderView};

verus! {

/// A file touched within this many seconds counts toward "hot" (30 days).
pub const HOT_WINDOW_SECS: u64 = 2_592_000;

/// A file touched within this many seconds counts toward "volatile" (7 days).
pub const VOLATILE_WINDOW_SECS: u64 = 604_800;

/// A folder needs at least this many files to be volatile.
pub const VOLATILE_MIN_FILE_COUNT: u64 = 20;

/// Age after which a file counts as untouched (90 days).
pub const COLD_UNTOUCHED_SECS: u64 = 7_776_000;

/// A volatile folder's files average fewer bytes than this (10 MiB).
pub const VOLATILE_MAX_AVG_SIZE: u64 = 10_485_760;

/// The file lies directly in folder `k`.
pub open spec fn in_folder(f: FileView, k: Seq<char>) -> bool {
    spec_parent(f.path) == Some(k)
}

/// Total bytes of the files directly in folder `k`.
pub open spec fn folder_size(fs: Seq<FileView>, k: Seq<char>) -> nat
    decreases fs.len(),
{
    if fs.len() == 0 {
        0
    } else {
        folder_size(fs.drop_last(), k) + if in_folder(fs.last(), k) {
            fs.last().size_bytes as nat
        } else {
            0
        }
    }
}

/// Number of files directly in folder `k` modified at or after second `cutoff`.
pub open spec fn folder_recent(fs: Seq<FileView>, k: Seq<char>, cutoff: int) -> nat
    decreases fs.len(),
{
    if fs.len() == 0 {
        0
    } else {
        folder_recent(fs.drop_last(), k, cutoff) + if in_folder(fs.last(), k)
            && fs.last().modified >= cutoff {
            1nat
        } else {
            0nat
        }
    }
}

/// Number of files directly in folder `k`.
pub open spec fn folder_count(fs: Seq<FileView>, k: Seq<char>) -> nat {
    folder_recent(fs, k, 0)
}

/// The folders that hold the files, each once, in order of first appearance.
pub open spec fn folder_keys(fs: Seq<FileView>) -> Seq<Seq<char>>
    decreases fs.len(),
{
    if fs.len() == 0 {
        Seq::empty()
    } else {
        let ks = folder_keys(fs.drop_last());
        match spec_parent(fs.last().path) {
            Some(p) => if ks.contains(p) {
                ks
            } else {
                ks.push(p)
            },
            None => ks,
        }
    }
}

/// The churn rule. A share "above 60%" of recent files is `5 * recent > 3 * count`,
/// and "above 30%" is `10 * recent > 3 * count`.
pub open spec fn churn_rule(count: nat, total: nat, recent_week: nat, recent_month: nat) -> ChurnClass {
    if count >= VOLATILE_MIN_FILE_COUNT && 5 * recent_week > 3 * count && total / count
        < VOLATILE_MAX_AVG_SIZE {
        ChurnClass::Volatile
    } else if count > 0 && 10 * recent_month > 3 * count {
        ChurnClass::Hot
    } else {
        ChurnClass::Cold
    }
}

/// The class of folder `k` at second `now`.
pub open spec fn folder_churn(fs: Seq<FileView>, k: Seq<char>, now: int) -> ChurnClass {
    churn_rule(
        folder_count(fs, k),
        folder_size(fs, k),
        folder_recent(fs, k, now - VOLATILE_WINDOW_SECS),
        folder_recent(fs, k, now - HOT_WINDOW_SECS),
    )
}

/// What the classifier reports for folder `k` at second `now`.
pub open spec fn folder_stats(fs: Seq<FileView>, k: Seq<char>, now: int) -> FolderView {
    FolderView {
        path: k,
        total_size: folder_size(fs, k) as u64,
        file_count: folder_count(fs, k) as u64,
        churn: folder_churn(fs, k, now),
        entropy_class: EntropyClass::Mixed,
    }
}

/// `out` is the classification of `fs` at second `now`: one entry per folder that holds a
/// file, in order of first appearance.
pub open spec fn classified(fs: Seq<FileView>, now: int, out: Seq<FolderView>) -> bool {
    &&& out.len() == folder_keys(fs).len()
    &&& forall|i: int| 0 <= i < out.len() ==> #[trigger] out[i] == folder_stats(fs, folder_keys(fs)[i], now)
}

/// The folders a finished scan reports for `fs` at second `now`: none when `now` is earlier
/// than `COLD_UNTOUCHED_SECS`, else the classification.
pub open spec fn folders_at(fs: Seq<FileView>, now: u64, out: Seq<FolderView>) -> bool {
    if now < COLD_UNTOUCHED_SECS {
        out.len() == 0
    } else {
        classified(fs, now as int, out)
    }
}

/// No folder's total exceeds what a `u64` holds.
pub open spec fn sizes_fit(fs: Seq<FileView>) -> bool {
    forall|k: Seq<char>| #[trigger] folder_size(fs, k) <= u64::MAX
}

pub proof fn lemma_size_prefix(fs: Seq<FileView>, i: int, k: Seq<char>)
    requires
        0 <= i <= fs.len(),
    ensures
        folder_size(fs.take(i), k) <= folder_size(fs, k),
    decreases fs.len(),
{
    if i < fs.len() {
        assert(fs.drop_last().take(i) =~= fs.take(i));
        lemma_size_prefix(fs.drop_last(), i, k);
    } else {
        assert(fs.take(i) =~= fs);
    }
}

pub proof fn lemma_recent_le_len(fs: Seq<FileView>, k: Seq<char>, cutoff: int)
    ensures
        folder_recent(fs, k, cutoff) <= fs.len(),
        folder_recent(fs, k, cutoff) <= folder_count(fs, k),
    decreases fs.len(),
{
    if fs.len() > 0 {
        lemma_recent_le_len(fs.drop_last(), k, cutoff);
    }
}

/// Every folder key holds at least one file, and keys are distinct.
pub proof fn lemma_keys(fs: Seq<FileView>)
    ensures
        folder_keys(fs).no_duplicates(),
        forall|j: int| 0 <= j < folder_keys(fs).len() ==> folder_count(fs, #[trigger] folder_keys(fs)[j]) > 0,
        forall|f: int| 0 <= f < fs.len() && spec_parent(#[trigger] fs[f].path) is Some
            ==> folder_keys(fs).contains(spec_parent(fs[f].path)->0),
    decreases fs.len(),
{
    if fs.len() > 0 {
        let pre = fs.drop_last();
        lemma_keys(pre);
        let ks = folder_keys(pre);
        assert forall|j: int| 0 <= j < folder_keys(fs).len() implies folder_count(
            fs,
            #[trigger] folder_keys(fs)[j],
        ) > 0 by {
            let k = folder_keys(fs)[j];
            if j < ks.len() {
                assert(folder_count(pre, ks[j]) > 0);
            }
        }
        assert forall|f: int| 0 <= f < fs.len() && spec_parent(#[trigger] fs[f].path) is Some
            implies folder_keys(fs).contains(spec_parent(fs[f].path)->0) by {
            if f < pre.len() {
                assert(pre[f] == fs[f]);
                let p = spec_parent(fs[f].path)->0;
                let w = choose|w: int| 0 <= w < ks.len() && ks[w] == p;
                assert(folder_keys(fs)[w] == p);
            } else {
                let p = spec_parent(fs[f].path)->0;
                if !ks.contains(p) {
                    assert(folder_keys(fs)[ks.len() as int] == p);
                }
            }
        }
    }
}

/// The classification at the second the system clock reads, as `classify_at` gives it.
pub fn classify(files: &[FileNode]) -> (out: Option<Vec<FolderStats>>)
    requires
        sizes_fit(files_view(files@)),
    ensures
        exists|now: u64| #[trigger] classified_or_early(files_view(files@), now, out),
{
    let now = now_secs();
    let out = classify_at(files, now);
    assert(classified_or_early(files_view(files@), now, out));
    out
}

/// `out` is what classifying `fs` at second `now` gives: nothing when `now` is earlier than
/// `COLD_UNTOUCHED_SECS`, where the windows would reach before the epoch, else the classification.
pub open spec fn classified_or_early(fs: Seq<FileView>, now: u64, out: Option<Vec<FolderStats>>) -> bool {
    match out {
        None => now < COLD_UNTOUCHED_SECS,
        Some(v) => now >= COLD_UNTOUCHED_SECS && classified(fs, now as int, folders_view(v@)),
    }
}

/// Groups the files by the folder that holds them and classifies each folder at second `now`;
/// `None` when `now` is earlier than `COLD_UNTOUCHED_SECS`.
pub fn classify_at(files: &[FileNode], now: u64) -> (out: Option<Vec<FolderStats>>)
    requires
        sizes_fit(files_view(files@)),
    ensures
        out is None <==> now < COLD_UNTOUCHED_SECS,
        out matches Some(v) ==> classified(files_view(files@), now as int, folders_view(v@)),
{
    if now < COLD_UNTOUCHED_SECS {
        return None;
    }
    Some(classify_folders(files, now))
}

/// The classification of the files at second `now`, one entry per folder in order of first
/// appearance.
fn classify_folders(files: &[FileNode], now: u64) -> (out: Vec<FolderStats>)
    requires
        now >= COLD_UNTOUCHED_SECS,
        sizes_fit(files_view(files@)),
    ensures
        classified(files_view(files@), now as int, folders_view(out@)),
{
    let ghost fv = files_view(files@);
    let week_cutoff = now - VOLATILE_WINDOW_SECS;
    let month_cutoff = now - HOT_WINDOW_SECS;
    let mut index: StringHashMap<usize> = StringHashMap::new();
    let mut paths: Vec<String> = Vec::new();
    let mut totals: Vec<u64> = Vec::new();
    let mut counts: Vec<u64> = Vec::new();
    let mut weeks: Vec<u64> = Vec::new();
    let mut months: Vec<u64> = Vec::new();
    let n = files.len();
    let mut i: usize = 0;
    while i < n
        invariant
            n == files@.len(),
            fv == files_view(files@),
            sizes_fit(fv),
            0 <= i <= n,
            week_cutoff == now - VOLATILE_WINDOW_SECS,
            month_cutoff == now - HOT_WINDOW_SECS,
            paths@.len() == folder_keys(fv.take(i as int)).len(),
            totals@.len() == paths@.len(),
            counts@.len() == paths@.len(),
            weeks@.len() == paths@.len(),
            months@.len() == paths@.len(),
            forall|j: int|
                0 <= j < paths@.len() ==> {
                    let k = #[trigger] folder_keys(fv.take(i as int))[j];
                    &&& paths@[j]@ == k
                    &&& totals@[j] == folder_size(fv.take(i as int), k)
                    &&& counts@[j] == folder_count(fv.take(i as int), k)
                    &&& weeks@[j] == folder_recent(fv.take(i as int), k, week_cutoff as int)
                    &&& months@[j] == folder_recent(fv.take(i as int), k, month_cutoff as int)
                },
            forall|k: Seq<char>| #[trigger]
                index@.contains_key(k) <==> folder_keys(fv.take(i as int)).contains(k),
            forall|j: int|
                0 <= j < paths@.len() ==> #[trigger] index@[folder_keys(fv.take(i as int))[j]]
                    == j,
        decreases n - i,
    {
        let ghost pre = fv.take(i as int);
        let ghost post = fv.take(i + 1);
        assert(post.drop_last() =~= pre);
        assert(post.last() == files@[i as int]@);
        proof {
            lemma_keys(pre);
        }
        let f = &files[i];
        match parent_of(f.path.as_str()) {
            None => {
                assert forall|j: int| 0 <= j < paths@.len() implies {
                    let k = #[trigger] folder_keys(post)[j];
                    &&& paths@[j]@ == k
                    &&& totals@[j] == folder_size(post, k)
                    &&& counts@[j] == folder_count(post, k)
                    &&& weeks@[j] == folder_recent(post, k, week_cutoff as int)
                    &&& months@[j] == folder_recent(post, k, month_cutoff as int)
                } by {
                    assert(folder_keys(post)[j] == folder_keys(pre)[j]);
                }
            },
            Some(p) => {
                let ghost ks = folder_keys(pre);
                match index.get(p.as_str()) {
                    Some(jr) => {
                        let j = *jr;
                        let ghost w = choose|w: int| 0 <= w < ks.len() && ks[w] == p@;
                        assert(index@[ks[w]] == w);
                        assert(j == w);
                        assert(folder_keys(post) == ks);
                        proof {
                            lemma_size_prefix(fv, i + 1, p@);
                            lemma_recent_le_len(pre, p@, 0);
                        }
                        let t = totals[j] + f.size_bytes;
                        totals.set(j, t);
                        let c = counts[j] + 1;
                        counts.set(j, c);
                        if f.modified >= week_cutoff {
                            proof {
                                lemma_recent_le_len(pre, p@, week_cutoff as int);
                            }
                            let x = weeks[j] + 1;
                            weeks.set(j, x);
                        }
                        if f.modified >= month_cutoff {
                            proof {
                                lemma_recent_le_len(pre, p@, month_cutoff as int);
                            }
                            let x = months[j] + 1;
                            months.set(j, x);
                        }
                        assert forall|m: int| 0 <= m < paths@.len() implies {
                            let k = #[trigger] folder_keys(post)[m];
                            &&& paths@[m]@ == k
                            &&& totals@[m] == folder_size(post, k)
                            &&& counts@[m] == folder_count(post, k)
                            &&& weeks@[m] == folder_recent(post, k, week_cutoff as int)
                            &&& months@[m] == folder_recent(post, k, month_cutoff as int)
                        } by {
                            if m != j {
                                assert(ks[m] != ks[j as int]);
                            }
                        }
                    },
                    None => {
                        assert(!ks.contains(p@));
                        assert(folder_keys(post) == ks.push(p@));
                        let ghost old_len = paths@.len();
                        proof {
                            lemma_size_prefix(fv, i + 1, p@);
                            lemma_absent_zero(pre, p@);
                        }
                        assert(folder_recent(pre, p@, week_cutoff as int) == 0);
                        assert(folder_recent(pre, p@, month_cutoff as int) == 0);
                        assert(folder_recent(pre, p@, 0) == 0);
                        let w: u64 = if f.modified >= week_cutoff {
                            1
                        } else {
                            0
                        };
                        let mo: u64 = if f.modified >= month_cutoff {
                            1
                        } else {
                            0
                        };
                        let pos = paths.len();
                        index.insert(p.clone(), pos);
                        paths.push(p);
                        totals.push(f.size_bytes);
                        counts.push(1);
                        weeks.push(w);
                        months.push(mo);
                        assert forall|m: int| 0 <= m < paths@.len() implies {
                            let k = #[trigger] folder_keys(post)[m];
                            &&& paths@[m]@ == k
                            &&& totals@[m] == folder_size(post, k)
                            &&& counts@[m] == folder_count(post, k)
                            &&& weeks@[m] == folder_recent(post, k, week_cutoff as int)
                            &&& months@[m] == folder_recent(post, k, month_cutoff as int)
                        } by {
                            if m < old_len {
                                assert(ks[m] != p@);
                                assert(folder_keys(post)[m] == ks[m]);
                            } else {
                                assert(folder_size(pre, p@) == 0) by {
                                    lemma_absent_zero(pre, p@);
                                }
                            }
                        }
                        assert forall|j: int|
                            0 <= j < paths@.len() implies #[trigger] index@[folder_keys(
                            post,
                        )[j]] == j by {
                            if j < old_len {
                                assert(ks[j] != p@);
                            }
                        }
                        assert forall|k: Seq<char>| #[trigger]
                            index@.contains_key(k) <==> folder_keys(post).contains(k) by {
                            if k == p@ {
                                assert(folder_keys(post)[old_len as int] == p@);
                            } else if folder_keys(post).contains(k) {
                                let z = choose|z: int|
                                    0 <= z < folder_keys(post).len() && folder_keys(post)[z]
                                        == k;
                                assert(ks[z] == k);
                            } else if ks.contains(k) {
                                let z = choose|z: int| 0 <= z < ks.len() && ks[z] == k;
                                assert(folder_keys(post)[z] == k);
                            }
                        }
                    },
                }
            },
        }
        i = i + 1;
    }
    let ghost all = fv.take(n as int);
    assert(all =~= fv);
    let mut out: Vec<FolderStats> = Vec::new();
    let m = paths.len();
    let mut j: usize = 0;
    proof {
        lemma_keys(fv);
    }
    while j < m
        invariant
            fv == files_view(files@),
            all == fv,
            m == paths@.len(),
            0 <= j <= m,
            m == folder_keys(fv).len(),
            totals@.len() == m,
            counts@.len() == m,
            weeks@.len() == m,
            months@.len() == m,
            week_cutoff == now - VOLATILE_WINDOW_SECS,
            month_cutoff == now - HOT_WINDOW_SECS,
            forall|q: int|
                0 <= q < m ==> {
                    let k = #[trigger] folder_keys(fv)[q];
                    &&& paths@[q]@ == k
                    &&& totals@[q] == folder_size(fv, k)
                    &&& counts@[q] == folder_count(fv, k)
                    &&& weeks@[q] == folder_recent(fv, k, week_cutoff as int)
                    &&& months@[q] == folder_recent(fv, k, month_cutoff as int)
                },
            forall|q: int| 0 <= q < m ==> folder_count(fv, #[trigger] folder_keys(fv)[q]) > 0,
            out@.len() == j,
            forall|q: int|
                0 <= q < j ==> #[trigger] out@[q]@ == folder_stats(fv, folder_keys(fv)[q], now as int),
        decreases m - j,
    {
        let ghost k = folder_keys(fv)[j as int];
        assert(paths@[j as int]@ == k);
        let total = totals[j];
        let count = counts[j];
        let week = weeks[j];
        let month = months[j];
        assert(count > 0);
        let churn = churn_of(count, total, week, month);
        out.push(
            FolderStats {
                path: paths[j].clone(),
                total_size: total,
                file_count: count,
                churn,
                entropy_class: EntropyClass::Mixed,
            },
        );
        j = j + 1;
    }
    assert(folders_view(out@) =~= Seq::new(
        out@.len(),
        |q: int| folder_stats(fv, folder_keys(fv)[q], now as int),
    ));
    out
}

proof fn lemma_absent_zero(fs: Seq<FileView>, k: Seq<char>)
    requires
        !folder_keys(fs).contains(k),
    ensures
        folder_size(fs, k) == 0,
        folder_count(fs, k) == 0,
        forall|c: int| folder_recent(fs, k, c) == 0,
    decreases fs.len(),
{
    if fs.len() > 0 {
        let pre = fs.drop_last();
        if folder_keys(pre).contains(k) {
            let z = choose|z: int| 0 <= z < folder_keys(pre).len() && folder_keys(pre)[z] == k;
            assert(folder_keys(fs)[z] == k);
        }
        lemma_absent_zero(pre, k);
        if spec_parent(fs.last().path) == Some(k) {
            if !folder_keys(pre).contains(k) {
                assert(folder_keys(fs)[folder_keys(pre).len() as int] == k);
            }
        }
        assert(!in_folder(fs.last(), k));
        assert forall|c: int| folder_recent(fs, k, c) == 0 by {
            assert(folder_recent(pre, k, c) == 0);
        }
    }
}

/// Indices of the files directly in folder `k`, in order.
pub open spec fn members(fs: Seq<FileView>, k: Seq<char>) -> Seq<usize>
    decreases fs.len(),
{
    if fs.len() == 0 {
        Seq::empty()
    } else {
        let r = members(fs.drop_last(), k);
        if in_folder(fs.last(), k) {
            r.push((fs.len() - 1) as usize)
        } else {
            r
        }
    }
}

/// Total bytes of the files at the indices `idx`.
pub open spec fn sizes_at(fs: Seq<FileView>, idx: Seq<usize>) -> nat
    decreases idx.len(),
{
    if idx.len() == 0 {
        0
    } else {
        sizes_at(fs, idx.drop_last()) + fs[idx.last() as int].size_bytes as nat
    }
}

proof fn lemma_members_bound(fs: Seq<FileView>, k: Seq<char>)
    requires
        fs.len() <= usize::MAX,
    ensures
        forall|m: int| 0 <= m < members(fs, k).len() ==> #[trigger] members(fs, k)[m] < fs.len(),
    decreases fs.len(),
{
    if fs.len() > 0 {
        let r = members(fs.drop_last(), k);
        lemma_members_bound(fs.drop_last(), k);
        assert forall|m: int| 0 <= m < members(fs, k).len() implies #[trigger] members(fs, k)[m] < fs.len() by {
            if m < r.len() {
                assert(members(fs, k)[m] == r[m]);
            }
        }
    }
}

proof fn lemma_sizes_at_extend(fs: Seq<FileView>, x: FileView, idx: Seq<usize>)
    requires
        forall|m: int| 0 <= m < idx.len() ==> #[trigger] idx[m] < fs.len(),
    ensures
        sizes_at(fs.push(x), idx) == sizes_at(fs, idx),
    decreases idx.len(),
{
    if idx.len() > 0 {
        assert(idx[idx.len() - 1] == idx.last());
        lemma_sizes_at_extend(fs, x, idx.drop_last());
    }
}

/// The bytes of a folder's members are its total.
proof fn lemma_members_size(fs: Seq<FileView>, k: Seq<char>)
    requires
        fs.len() <= usize::MAX,
    ensures
        sizes_at(fs, members(fs, k)) == folder_size(fs, k),
    decreases fs.len(),
{
    if fs.len() > 0 {
        let pre = fs.drop_last();
        lemma_members_size(pre, k);
        lemma_members_bound(pre, k);
        assert(pre.push(fs.last()) =~= fs);
        lemma_sizes_at_extend(pre, fs.last(), members(pre, k));
        if in_folder(fs.last(), k) {
            assert(members(fs, k).drop_last() =~= members(pre, k));
        }
    }
}

proof fn lemma_sizes_at_prefix(fs: Seq<FileView>, idx: Seq<usize>, t: int)
    requires
        0 <= t <= idx.len(),
    ensures
        sizes_at(fs, idx.take(t)) <= sizes_at(fs, idx),
    decreases idx.len(),
{
    if t < idx.len() {
        assert(idx.drop_last().take(t) =~= idx.take(t));
        lemma_sizes_at_prefix(fs, idx.drop_last(), t);
    } else {
        assert(idx.take(t) =~= idx);
    }
}

proof fn lemma_absent_members(fs: Seq<FileView>, k: Seq<char>)
    requires
        !folder_keys(fs).contains(k),
    ensures
        members(fs, k) == Seq::<usize>::empty(),
    decreases fs.len(),
{
    if fs.len() > 0 {
        let pre = fs.drop_last();
        if folder_keys(pre).contains(k) {
            let z = choose|z: int| 0 <= z < folder_keys(pre).len() && folder_keys(pre)[z] == k;
            assert(folder_keys(fs)[z] == k);
        }
        lemma_absent_members(pre, k);
        if spec_parent(fs.last().path) == Some(k) {
            assert(folder_keys(fs)[folder_keys(pre).len() as int] == k);
        }
    }
}

/// For each folder in the order `classify_at` reports them, the indices of its files, in order.
pub fn group_files(files: &[FileNode]) -> (out: Vec<Vec<usize>>)
    ensures
        out@.len() == folder_keys(files_view(files@)).len(),
        forall|j: int|
            0 <= j < out@.len() ==> (#[trigger] out@[j])@ == members(
                files_view(files@),
                folder_keys(files_view(files@))[j],
            ),
{
    let ghost fv = files_view(files@);
    let mut index: StringHashMap<usize> = StringHashMap::new();
    let mut paths: Vec<String> = Vec::new();
    let mut groups: Vec<Vec<usize>> = Vec::new();
    let n = files.len();
    let mut i: usize = 0;
    while i < n
        invariant
            n == files@.len(),
            fv == files_view(files@),
            0 <= i <= n,
            paths@.len() == folder_keys(fv.take(i as int)).len(),
            groups@.len() == paths@.len(),
            forall|j: int|
                0 <= j < paths@.len() ==> {
                    let k = #[trigger] folder_keys(fv.take(i as int))[j];
                    &&& paths@[j]@ == k
                    &&& groups@[j]@ == members(fv.take(i as int), k)
                },
            forall|k: Seq<char>| #[trigger]
                index@.contains_key(k) <==> folder_keys(fv.take(i as int)).contains(k),
            forall|j: int|
                0 <= j < paths@.len() ==> #[trigger] index@[folder_keys(fv.take(i as int))[j]]
                    == j,
        decreases n - i,
    {
        let ghost pre = fv.take(i as int);
        let ghost post = fv.take(i + 1);
        assert(post.drop_last() =~= pre);
        assert(post.last() == files@[i as int]@);
        assert(post.len() == i + 1);
        proof {
            lemma_keys(pre);
        }
        let f = &files[i];
        match parent_of(f.path.as_str()) {
            None => {
                assert forall|j: int| 0 <= j < paths@.len() implies {
                    let k = #[trigger] folder_keys(post)[j];
                    &&& paths@[j]@ == k
                    &&& groups@[j]@ == members(post, k)
                } by {
                    assert(folder_keys(post)[j] == folder_keys(pre)[j]);
                }
            },
            Some(p) => {
                let ghost ks = folder_keys(pre);
                match index.get(p.as_str()) {
                    Some(jr) => {
                        let j = *jr;
                        let ghost w = choose|w: int| 0 <= w < ks.len() && ks[w] == p@;
                        assert(index@[ks[w]] == w);
                        assert(j == w);
                        assert(folder_keys(post) == ks);
                        groups[j].push(i);
                        assert forall|m: int| 0 <= m < paths@.len() implies {
                            let k = #[trigger] folder_keys(post)[m];
                            &&& paths@[m]@ == k
                            &&& groups@[m]@ == members(post, k)
                        } by {
                            if m != j {
                                assert(ks[m] != ks[j as int]);
                            }
                        }
                    },
                    None => {
                        assert(!ks.contains(p@));
                        assert(folder_keys(post) == ks.push(p@));
                        let ghost old_len = paths@.len();
                        proof {
                            lemma_absent_members(pre, p@);
                        }
                        let pos = paths.len();
                        index.insert(p.clone(), pos);
                        paths.push(p);
                        let mut g: Vec<usize> = Vec::new();
                        g.push(i);
                        groups.push(g);
                        assert forall|m: int| 0 <= m < paths@.len() implies {
                            let k = #[trigger] folder_keys(post)[m];
                            &&& paths@[m]@ == k
                            &&& groups@[m]@ == members(post, k)
                        } by {
                            if m < old_len {
                                assert(ks[m] != p@);
                                assert(folder_keys(post)[m] == ks[m]);
                            } else {
                                assert(members(post, p@) =~= seq![i]);
                            }
                        }
                        assert forall|j: int|
                            0 <= j < paths@.len() implies #[trigger] index@[folder_keys(
                            post,
                        )[j]] == j by {
                            if j < old_len {
                                assert(ks[j] != p@);
                            }
                        }
                        assert forall|k: Seq<char>| #[trigger]
                            index@.contains_key(k) <==> folder_keys(post).contains(k) by {
                            if k == p@ {
                                assert(folder_keys(post)[old_len as int] == p@);
                            } else if folder_keys(post).contains(k) {
                                let z = choose|z: int|
                                    0 <= z < folder_keys(post).len() && folder_keys(post)[z]
                                        == k;
                                assert(ks[z] == k);
                            } else if ks.contains(k) {
                                let z = choose|z: int| 0 <= z < ks.len() && ks[z] == k;
                                assert(folder_keys(post)[z] == k);
                            }
                        }
                    },
                }
            },
        }
        i = i + 1;
    }
    assert(fv.take(n as int) =~= fv);
    groups
}

/// Whether every folder's total fits a `u64`, which `classify` requires.
pub fn folder_sizes_fit(files: &[FileNode]) -> (ok: bool)
    ensures
        ok == sizes_fit(files_view(files@)),
{
    let ghost fv = files_view(files@);
    let groups = group_files(files);
    let ghost ks = folder_keys(fv);
    let n = files.len();
    assert(fv.len() == n);
    let mut j: usize = 0;
    while j < groups.len()
        invariant
            fv == files_view(files@),
            ks == folder_keys(fv),
            n == fv.len(),
            groups@.len() == ks.len(),
            forall|q: int| 0 <= q < groups@.len() ==> (#[trigger] groups@[q])@ == members(fv, ks[q]),
            0 <= j <= groups@.len(),
            forall|q: int| 0 <= q < j ==> folder_size(fv, #[trigger] ks[q]) <= u64::MAX,
        decreases groups@.len() - j,
    {
        let g = &groups[j];
        let ghost k = ks[j as int];
        proof {
            lemma_members_bound(fv, k);
            lemma_members_size(fv, k);
        }
        let mut acc: u64 = 0;
        let mut t: usize = 0;
        while t < g.len()
            invariant
                g@ == members(fv, k),
                sizes_at(fv, g@) == folder_size(fv, k),
                fv == files_view(files@),
                n == fv.len(),
                forall|m: int| 0 <= m < g@.len() ==> #[trigger] g@[m] < n,
                0 <= t <= g@.len(),
                acc == sizes_at(fv, g@.take(t as int)),
            decreases g@.len() - t,
        {
            assert(g@.take(t + 1).drop_last() =~= g@.take(t as int));
            let idx = g[t];
            assert(files@[idx as int]@ == fv[idx as int]);
            match acc.checked_add(files[idx].size_bytes) {
                Some(v) => {
                    acc = v;
                },
                None => {
                    proof {
                        lemma_sizes_at_prefix(fv, g@, t + 1);
                        assert(g@.take(t + 1).last() == idx);
                        assert(sizes_at(fv, g@.take(t + 1)) == acc + fv[idx as int].size_bytes);
                        assert(folder_size(fv, k) > u64::MAX);
                    }
                    return false;
                },
            }
            t = t + 1;
        }
        assert(g@.take(t as int) =~= g@);
        j = j + 1;
    }
    proof {
        lemma_keys(fv);
        assert forall|k: Seq<char>| #[trigger] folder_size(fv, k) <= u64::MAX by {
            if ks.contains(k) {
                let q = choose|q: int| 0 <= q < ks.len() && ks[q] == k;
            } else {
                lemma_absent_zero(fv, k);
            }
        }
    }
    true
}

/// The churn class of a folder with `count` files of `total` bytes, of which `recent_week`
/// and `recent_month` were modified within the volatile and hot windows.
pub fn churn_of(count: u64, total: u64, recent_week: u64, recent_month: u64) -> (c: ChurnClass)
    requires
        count > 0,
    ensures
        c == churn_rule(count as nat, total as nat, recent_week as nat, recent_month as nat),
{
    if count >= VOLATILE_MIN_FILE_COUNT && (recent_week as u128) * 5 > (count as u128) * 3 {
        let avg = total / count;
        if avg < VOLATILE_MAX_AVG_SIZE {
            return ChurnClass::Volatile;
        }
    }
    if (recent_month as u128) * 10 > (count as u128) * 3 {
        return ChurnClass::Hot;
    }
    ChurnClass::Cold
}


/// The churn thresholds. With `count` files of `total` bytes, `week` of them touched within
/// 7 days and `month` within 30 days:
/// - volatile exactly when there are at least 20 files, more than 60% touched within 7 days,
///   averaging under 10 MiB each;
/// - otherwise hot exactly when more than 30% were touched within 30 days;
/// - otherwise cold. A folder at or below 30% is never hot, however many files that is.
pub proof fn law_churn_thresholds(count: nat, total: nat, week: nat, month: nat)
    requires
        count > 0,
    ensures
        churn_rule(count, total, week, month) == ChurnClass::Volatile <==> (count >= 20 && 5 * week
            > 3 * count && total / count < 10_485_760),
        churn_rule(count, total, week, month) == ChurnClass::Hot <==> (!(count >= 20 && 5 * week > 3
            * count && total / count < 10_485_760) && 10 * month > 3 * count),
        churn_rule(count, total, week, month) == ChurnClass::Cold <==> (!(count >= 20 && 5 * week > 3
            * count && total / count < 10_485_760) && 10 * month <= 3 * count),
        churn_rule(count, total, week, month) == ChurnClass::Hot ==> 10 * month > 3 * count,
{
}


proof fn lemma_recent_antitone(fs: Seq<FileView>, k: Seq<char>, early: int, late: int)
    requires
        early <= late,
    ensures
        folder_recent(fs, k, late) <= folder_recent(fs, k, early),
    decreases fs.len(),
{
    if fs.len() > 0 {
        lemma_recent_antitone(fs.drop_last(), k, early, late);
    }
}

/// A volatile folder holds at least `VOLATILE_MIN_FILE_COUNT` files, more than 60% of them
/// touched within the volatile window, averaging under `VOLATILE_MAX_AVG_SIZE` bytes.
pub proof fn law_volatile_needs_many_small_recent_files(fs: Seq<FileView>, k: Seq<char>, now: int)
    ensures
        folder_churn(fs, k, now) == ChurnClass::Volatile ==> {
            &&& folder_count(fs, k) >= VOLATILE_MIN_FILE_COUNT
            &&& 5 * folder_recent(fs, k, now - VOLATILE_WINDOW_SECS) > 3 * folder_count(fs, k)
            &&& folder_size(fs, k) / folder_count(fs, k) < VOLATILE_MAX_AVG_SIZE
        },
{
}

/// A folder none of whose files was touched within the hot window is cold.
pub proof fn law_untouched_folder_is_cold(fs: Seq<FileView>, k: Seq<char>, now: int)
    requires
        folder_recent(fs, k, now - HOT_WINDOW_SECS) == 0,
    ensures
        folder_churn(fs, k, now) == ChurnClass::Cold,
{
    lemma_recent_antitone(fs, k, now - HOT_WINDOW_SECS, now - VOLATILE_WINDOW_SECS);
}

/// A folder with more than 30% of its files touched within the hot window is hot, unless it
/// is volatile.
pub proof fn law_recently_touched_folder_is_hot(fs: Seq<FileView>, k: Seq<char>, now: int)
    requires
        10 * folder_recent(fs, k, now - HOT_WINDOW_SECS) > 3 * folder_count(fs, k),
    ensures
        folder_churn(fs, k, now) != ChurnClass::Cold,
{
    lemma_recent_le_len(fs, k, now - HOT_WINDOW_SECS);
}

proof fn lemma_append_other_folder(fs: Seq<FileView>, other: Seq<FileView>, k: Seq<char>, c: int)
    requires
        forall|i: int| 0 <= i < other.len() ==> !in_folder(#[trigger] other[i], k),
    ensures
        folder_size(fs + other, k) == folder_size(fs, k),
        folder_recent(fs + other, k, c) == folder_recent(fs, k, c),
    decreases other.len(),
{
    if other.len() == 0 {
        assert(fs + other =~= fs);
    } else {
        let o = other.drop_last();
        assert forall|i: int| 0 <= i < o.len() implies !in_folder(#[trigger] o[i], k) by {
            assert(o[i] == other[i]);
        }
        lemma_append_other_folder(fs, o, k, c);
        assert((fs + other).drop_last() =~= fs + o);
        assert((fs + other).last() == other[other.len() - 1]);
    }
}

/// Files of other folders do not change a folder's numbers or class.
pub proof fn law_folders_do_not_cross_contaminate(fs: Seq<FileView>, other: Seq<FileView>, k: Seq<char>, now: int)
    requires
        forall|i: int| 0 <= i < other.len() ==> !in_folder(#[trigger] other[i], k),
    ensures
        folder_stats(fs + other, k, now) == folder_stats(fs, k, now),
{
    lemma_append_other_folder(fs, other, k, 0);
    lemma_append_other_folder(fs, other, k, now - VOLATILE_WINDOW_SECS);
    lemma_append_other_folder(fs, other, k, now - HOT_WINDOW_SECS);
}

/// Total bytes of the files that lie in some folder.
pub open spec fn placed_size(fs: Seq<FileView>) -> nat
    decreases fs.len(),
{
    if fs.len() == 0 {
        0
    } else {
        placed_size(fs.drop_last()) + if spec_parent(fs.last().path) is Some {
            fs.last().size_bytes as nat
        } else {
            0
        }
    }
}

/// Number of files that lie in some folder.
pub open spec fn placed_count(fs: Seq<FileView>) -> nat
    decreases fs.len(),
{
    if fs.len() == 0 {
        0
    } else {
        placed_count(fs.drop_last()) + if spec_parent(fs.last().path) is Some {
            1nat
        } else {
            0nat
        }
    }
}

/// Sum of the folder totals of `out`.
pub open spec fn sum_totals(out: Seq<FolderView>) -> nat
    decreases out.len(),
{
    if out.len() == 0 {
        0
    } else {
        sum_totals(out.drop_last()) + out.last().total_size as nat
    }
}

/// Sum of the file counts of `out`.
pub open spec fn sum_counts(out: Seq<FolderView>) -> nat
    decreases out.len(),
{
    if out.len() == 0 {
        0
    } else {
        sum_counts(out.drop_last()) + out.last().file_count as nat
    }
}

spec fn keys_size(fs: Seq<FileView>, ks: Seq<Seq<char>>) -> nat
    decreases ks.len(),
{
    if ks.len() == 0 {
        0
    } else {
        keys_size(fs, ks.drop_last()) + folder_size(fs, ks.last())
    }
}

spec fn keys_count(fs: Seq<FileView>, ks: Seq<Seq<char>>) -> nat
    decreases ks.len(),
{
    if ks.len() == 0 {
        0
    } else {
        keys_count(fs, ks.drop_last()) + folder_count(fs, ks.last())
    }
}

proof fn lemma_keys_step(fs: Seq<FileView>, ks: Seq<Seq<char>>)
    requires
        fs.len() > 0,
        ks.no_duplicates(),
    ensures
        keys_size(fs, ks) == keys_size(fs.drop_last(), ks) + match spec_parent(fs.last().path) {
            Some(p) => if ks.contains(p) { fs.last().size_bytes as nat } else { 0 },
            None => 0,
        },
        keys_count(fs, ks) == keys_count(fs.drop_last(), ks) + match spec_parent(fs.last().path) {
            Some(p) => if ks.contains(p) { 1nat } else { 0nat },
            None => 0nat,
        },
    decreases ks.len(),
{
    if ks.len() > 0 {
        let kd = ks.drop_last();
        assert(kd.no_duplicates()) by {
            assert forall|i: int, j: int| 0 <= i < kd.len() && 0 <= j < kd.len() && i != j implies kd[i] != kd[j] by {
                assert(kd[i] == ks[i]);
                assert(kd[j] == ks[j]);
            }
        }
        lemma_keys_step(fs, kd);
        match spec_parent(fs.last().path) {
            Some(p) => {
                if ks.last() == p {
                    assert(!kd.contains(p)) by {
                        if kd.contains(p) {
                            let w = choose|w: int| 0 <= w < kd.len() && kd[w] == p;
                            assert(ks[w] == ks[ks.len() - 1]);
                        }
                    }
                    assert(ks.contains(p)) by {
                        assert(ks[ks.len() - 1] == p);
                    }
                } else {
                    assert(ks.contains(p) == kd.contains(p)) by {
                        if ks.contains(p) {
                            let w = choose|w: int| 0 <= w < ks.len() && ks[w] == p;
                            assert(w != ks.len() - 1);
                            assert(kd[w] == p);
                        }
                        if kd.contains(p) {
                            let w = choose|w: int| 0 <= w < kd.len() && kd[w] == p;
                            assert(ks[w] == p);
                        }
                    }
                }
            },
            None => {},
        }
    }
}

proof fn lemma_keys_total(fs: Seq<FileView>)
    ensures
        keys_size(fs, folder_keys(fs)) == placed_size(fs),
        keys_count(fs, folder_keys(fs)) == placed_count(fs),
    decreases fs.len(),
{
    if fs.len() > 0 {
        let pre = fs.drop_last();
        lemma_keys_total(pre);
        lemma_keys(pre);
        lemma_keys(fs);
        let ks = folder_keys(pre);
        match spec_parent(fs.last().path) {
            Some(p) => {
                if ks.contains(p) {
                    lemma_keys_step(fs, ks);
                } else {
                    let ks2 = ks.push(p);
                    assert(ks2.drop_last() =~= ks);
                    lemma_keys_step(fs, ks);
                    lemma_absent_zero(pre, p);
                    assert(folder_size(fs, p) == fs.last().size_bytes);
                    assert(folder_count(fs, p) == 1) by {
                        assert(folder_recent(pre, p, 0) == 0);
                    }
                }
            },
            None => {
                lemma_keys_step(fs, ks);
            },
        }
    }
}

proof fn lemma_sum_matches_keys(fs: Seq<FileView>, ks: Seq<Seq<char>>, now: int, out: Seq<FolderView>)
    requires
        sizes_fit(fs),
        fs.len() <= u64::MAX,
        out.len() == ks.len(),
        forall|i: int| 0 <= i < out.len() ==> #[trigger] out[i] == folder_stats(fs, ks[i], now),
    ensures
        sum_totals(out) == keys_size(fs, ks),
        sum_counts(out) == keys_count(fs, ks),
    decreases ks.len(),
{
    if ks.len() > 0 {
        assert forall|i: int| 0 <= i < out.drop_last().len() implies #[trigger] out.drop_last()[i] == folder_stats(
            fs,
            ks.drop_last()[i],
            now,
        ) by {
            assert(out.drop_last()[i] == out[i]);
        }
        lemma_sum_matches_keys(fs, ks.drop_last(), now, out.drop_last());
        let k = ks.last();
        assert(out.last() == out[out.len() - 1]);
        assert(folder_size(fs, k) <= u64::MAX);
        lemma_recent_le_len(fs, k, 0);
    }
}

/// Classification keeps every byte and every file: the folder totals add up to the size of
/// the files that lie in a folder, and the folder counts to their number.
pub proof fn law_classify_conserves_bytes_and_files(fs: Seq<FileView>, now: int, out: Seq<FolderView>)
    requires
        classified(fs, now, out),
        sizes_fit(fs),
        fs.len() <= u64::MAX,
    ensures
        sum_totals(out) == placed_size(fs),
        sum_counts(out) == placed_count(fs),
{
    lemma_sum_matches_keys(fs, folder_keys(fs), now, out);
    lemma_keys_total(fs);
}

} // verus!

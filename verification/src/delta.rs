use vstd::prelude::*;
use vstd::hash_map::StringHashMap;

use crate::history::Snapshot;
use crate::types::{folders_view, FolderStats, FolderView};

verus! {

/// How a folder changed between two scans.
#[derive(Debug, Clone, Copy, PartialEq, Eq, Structural)]
pub enum DeltaKind {
    New,
    Deleted,
    Grown,
    Shrunk,
    Unchanged,
}

/// The change of one folder between a baseline snapshot and the current scan.
#[derive(Debug)]
pub struct FolderDelta {
    pub path: String,
    pub old_size: u64,
    pub new_size: u64,
    pub delta: i64,
    pub kind: DeltaKind,
}

pub struct DeltaView {
    pub path: Seq<char>,
    pub old_size: u64,
    pub new_size: u64,
    pub delta: i64,
    pub kind: DeltaKind,
}

impl View for FolderDelta {
    type V = DeltaView;

    open spec fn view(&self) -> DeltaView {
        DeltaView {
            path: self.path@,
            old_size: self.old_size,
            new_size: self.new_size,
            delta: self.delta,
            kind: self.kind,
        }
    }
}

pub open spec fn deltas_view(ds: Seq<FolderDelta>) -> Seq<DeltaView> {
    ds.map_values(|d: FolderDelta| d@)
}

pub open spec fn refs_view(ds: Seq<&FolderDelta>) -> Seq<DeltaView> {
    ds.map_values(|d: &FolderDelta| d@)
}

/// |delta| as an integer.
pub open spec fn magnitude(d: i64) -> int {
    if d < 0 {
        -d
    } else {
        d as int
    }
}

/// The display rule: large enough, and of a kind the user shows. `show` holds the toggles
/// for New, Grown, Shrunk and Deleted in that order; Unchanged is never shown.
pub open spec fn shown(d: DeltaView, min_bytes: u64, show: Seq<bool>) -> bool {
    &&& magnitude(d.delta) >= min_bytes
    &&& match d.kind {
        DeltaKind::New => show[0],
        DeltaKind::Grown => show[1],
        DeltaKind::Shrunk => show[2],
        DeltaKind::Deleted => show[3],
        DeltaKind::Unchanged => false,
    }
}

/// The deltas that pass the display rule, in their order.
pub open spec fn shown_deltas(ds: Seq<DeltaView>, min_bytes: u64, show: Seq<bool>) -> Seq<DeltaView>
    decreases ds.len(),
{
    if ds.len() == 0 {
        Seq::empty()
    } else {
        let rest = shown_deltas(ds.drop_last(), min_bytes, show);
        if shown(ds.last(), min_bytes, show) {
            rest.push(ds.last())
        } else {
            rest
        }
    }
}

fn unsigned_abs(d: i64) -> (r: u64)
    ensures
        r == magnitude(d),
{
    if d >= 0 {
        d as u64
    } else {
        ((-(d + 1)) as u64) + 1
    }
}

/// The deltas worth displaying: at least `min_bytes` of change and of a kind switched on
/// in `show` (New, Grown, Shrunk, Deleted); Unchanged entries never pass.
pub fn apply_min_filter<'a>(deltas: &'a [FolderDelta], min_bytes: u64, show: [bool; 4]) -> (out: Vec<&'a FolderDelta>)
    ensures
        refs_view(out@) == shown_deltas(deltas_view(deltas@), min_bytes, show@),
{
    let mut out: Vec<&'a FolderDelta> = Vec::new();
    let n = deltas.len();
    let mut i: usize = 0;
    while i < n
        invariant
            n == deltas@.len(),
            0 <= i <= n,
            refs_view(out@) == shown_deltas(deltas_view(deltas@).take(i as int), min_bytes, show@),
        decreases n - i,
    {
        let d = &deltas[i];
        let ghost pre = deltas_view(deltas@).take(i as int);
        assert(deltas_view(deltas@).take(i + 1).drop_last() =~= pre);
        let big = unsigned_abs(d.delta) >= min_bytes;
        let on = match d.kind {
            DeltaKind::New => show[0],
            DeltaKind::Grown => show[1],
            DeltaKind::Shrunk => show[2],
            DeltaKind::Deleted => show[3],
            DeltaKind::Unchanged => false,
        };
        if big && on {
            out.push(d);
            assert(refs_view(out@) =~= refs_view(out@.drop_last()).push(d@));
        }
        i = i + 1;
    }
    assert(deltas_view(deltas@).take(n as int) =~= deltas_view(deltas@));
    out
}

/// Kind of a change of `delta` bytes for a folder present in both scans.
pub open spec fn kind_of(delta: int) -> DeltaKind {
    if delta > 0 {
        DeltaKind::Grown
    } else if delta < 0 {
        DeltaKind::Shrunk
    } else {
        DeltaKind::Unchanged
    }
}

/// Sizes by path in the baseline; a path listed twice keeps its last size.
pub open spec fn base_sizes(bs: Seq<FolderView>) -> Map<Seq<char>, u64>
    decreases bs.len(),
{
    if bs.len() == 0 {
        Map::empty()
    } else {
        base_sizes(bs.drop_last()).insert(bs.last().path, bs.last().total_size)
    }
}

/// The baseline sizes not yet matched after the current folders `cs` were looked up.
pub open spec fn unmatched(cs: Seq<FolderView>, m: Map<Seq<char>, u64>) -> Map<Seq<char>, u64>
    decreases cs.len(),
{
    if cs.len() == 0 {
        m
    } else {
        unmatched(cs.drop_last(), m).remove(cs.last().path)
    }
}

/// The delta of current folder `f` against the unmatched baseline sizes `m`.
pub open spec fn delta_for(f: FolderView, m: Map<Seq<char>, u64>) -> DeltaView {
    if m.contains_key(f.path) {
        DeltaView {
            path: f.path,
            old_size: m[f.path],
            new_size: f.total_size,
            delta: (f.total_size - m[f.path]) as i64,
            kind: kind_of(f.total_size - m[f.path]),
        }
    } else {
        DeltaView {
            path: f.path,
            old_size: 0,
            new_size: f.total_size,
            delta: f.total_size as i64,
            kind: DeltaKind::New,
        }
    }
}

/// One delta per current folder, in order.
pub open spec fn current_deltas(cs: Seq<FolderView>, m: Map<Seq<char>, u64>) -> Seq<DeltaView>
    decreases cs.len(),
{
    if cs.len() == 0 {
        Seq::empty()
    } else {
        current_deltas(cs.drop_last(), m).push(delta_for(cs.last(), unmatched(cs.drop_last(), m)))
    }
}

/// The baseline paths left in `m` after `bs` was walked, each removed once taken.
pub open spec fn left_after(bs: Seq<FolderView>, m: Map<Seq<char>, u64>) -> Map<Seq<char>, u64>
    decreases bs.len(),
{
    if bs.len() == 0 {
        m
    } else {
        left_after(bs.drop_last(), m).remove(bs.last().path)
    }
}

/// One Deleted delta per path left in `m`, in the baseline's order of first appearance.
pub open spec fn deleted_deltas(bs: Seq<FolderView>, m: Map<Seq<char>, u64>) -> Seq<DeltaView>
    decreases bs.len(),
{
    if bs.len() == 0 {
        Seq::empty()
    } else {
        let r = left_after(bs.drop_last(), m);
        let rest = deleted_deltas(bs.drop_last(), m);
        let p = bs.last().path;
        if r.contains_key(p) {
            rest.push(
                DeltaView {
                    path: p,
                    old_size: r[p],
                    new_size: 0,
                    delta: (-r[p]) as i64,
                    kind: DeltaKind::Deleted,
                },
            )
        } else {
            rest
        }
    }
}

/// Every change from baseline `bs` to current `cs`: first one entry per current folder, then
/// one Deleted entry per baseline path that no current folder matched.
pub open spec fn spec_compute(bs: Seq<FolderView>, cs: Seq<FolderView>) -> Seq<DeltaView> {
    current_deltas(cs, base_sizes(bs)) + deleted_deltas(bs, unmatched(cs, base_sizes(bs)))
}

/// Every size fits an `i64`, so that differences are exact.
pub open spec fn sizes_signed(fs: Seq<FolderView>) -> bool {
    forall|i: int| 0 <= i < fs.len() ==> #[trigger] fs[i].total_size <= i64::MAX
}

pub proof fn lemma_base_sizes_bound(bs: Seq<FolderView>)
    requires
        sizes_signed(bs),
    ensures
        forall|k: Seq<char>| #[trigger] base_sizes(bs).contains_key(k) ==> base_sizes(bs)[k] <= i64::MAX,
    decreases bs.len(),
{
    if bs.len() > 0 {
        assert(sizes_signed(bs.drop_last())) by {
            assert forall|i: int| 0 <= i < bs.drop_last().len() implies #[trigger] bs.drop_last()[i].total_size <= i64::MAX by {
                assert(bs.drop_last()[i] == bs[i]);
            }
        }
        lemma_base_sizes_bound(bs.drop_last());
        assert(bs.last() == bs[bs.len() - 1]);
        assert(bs[bs.len() - 1].total_size <= i64::MAX);
        assert forall|k: Seq<char>| #[trigger] base_sizes(bs).contains_key(k) implies base_sizes(bs)[k] <= i64::MAX by {
            if k != bs.last().path {
                assert(base_sizes(bs.drop_last()).contains_key(k));
            }
        }
    }
}

/// Compares the current folders with a baseline snapshot. Nothing is filtered: every current
/// folder yields New, Grown, Shrunk or Unchanged, and every unmatched baseline path Deleted.
pub fn compute(baseline: &Snapshot, current: &[FolderStats]) -> (out: Vec<FolderDelta>)
    requires
        sizes_signed(folders_view(baseline.folders@)),
        sizes_signed(folders_view(current@)),
    ensures
        deltas_view(out@) == spec_compute(folders_view(baseline.folders@), folders_view(current@)),
{
    let ghost bs = folders_view(baseline.folders@);
    let ghost cs = folders_view(current@);
    let mut base: StringHashMap<u64> = StringHashMap::new();
    let nb = baseline.folders.len();
    let mut i: usize = 0;
    while i < nb
        invariant
            nb == baseline.folders@.len(),
            bs == folders_view(baseline.folders@),
            0 <= i <= nb,
            base@ == base_sizes(bs.take(i as int)),
        decreases nb - i,
    {
        let f = &baseline.folders[i];
        assert(bs.take(i + 1).drop_last() =~= bs.take(i as int));
        base.insert(f.path.clone(), f.total_size);
        i = i + 1;
    }
    assert(bs.take(nb as int) =~= bs);
    proof {
        lemma_base_sizes_bound(bs);
    }
    let ghost m0 = base_sizes(bs);
    let mut out: Vec<FolderDelta> = Vec::new();
    let nc = current.len();
    let mut j: usize = 0;
    while j < nc
        invariant
            nc == current@.len(),
            cs == folders_view(current@),
            sizes_signed(cs),
            m0 == base_sizes(bs),
            forall|k: Seq<char>| #[trigger] m0.contains_key(k) ==> m0[k] <= i64::MAX,
            0 <= j <= nc,
            base@ == unmatched(cs.take(j as int), m0),
            deltas_view(out@) == current_deltas(cs.take(j as int), m0),
        decreases nc - j,
    {
        let f = &current[j];
        let ghost pre = cs.take(j as int);
        assert(cs.take(j + 1).drop_last() =~= pre);
        assert(cs.take(j + 1).last() == cs[j as int]);
        assert(cs[j as int] == f@);
        assert(cs[j as int].total_size <= i64::MAX);
        proof {
            lemma_unmatched_sub(pre, m0);
        }
        let d = match base.get(f.path.as_str()) {
            Some(old) => {
                let old_size: u64 = *old;
                let delta: i64 = (f.total_size as i64) - (old_size as i64);
                let kind = if delta > 0 {
                    DeltaKind::Grown
                } else if delta < 0 {
                    DeltaKind::Shrunk
                } else {
                    DeltaKind::Unchanged
                };
                FolderDelta {
                    path: f.path.clone(),
                    old_size,
                    new_size: f.total_size,
                    delta,
                    kind,
                }
            },
            None => FolderDelta {
                path: f.path.clone(),
                old_size: 0,
                new_size: f.total_size,
                delta: f.total_size as i64,
                kind: DeltaKind::New,
            },
        };
        base.remove(f.path.as_str());
        out.push(d);
        assert(deltas_view(out@) =~= deltas_view(out@.drop_last()).push(d@));
        j = j + 1;
    }
    assert(cs.take(nc as int) =~= cs);
    let ghost r0 = unmatched(cs, m0);
    let ghost first = deltas_view(out@);
    proof {
        lemma_unmatched_sub(cs, m0);
    }
    let mut k: usize = 0;
    while k < nb
        invariant
            nb == baseline.folders@.len(),
            bs == folders_view(baseline.folders@),
            0 <= k <= nb,
            r0 == unmatched(cs, m0),
            forall|q: Seq<char>| #[trigger] r0.contains_key(q) ==> r0[q] <= i64::MAX,
            base@ == left_after(bs.take(k as int), r0),
            deltas_view(out@) == first + deleted_deltas(bs.take(k as int), r0),
        decreases nb - k,
    {
        let f = &baseline.folders[k];
        let ghost pre = bs.take(k as int);
        assert(bs.take(k + 1).drop_last() =~= pre);
        assert(bs.take(k + 1).last() == f@);
        proof {
            lemma_left_sub(pre, r0);
        }
        match base.get(f.path.as_str()) {
            Some(old) => {
                let old_size: u64 = *old;
                let d = FolderDelta {
                    path: f.path.clone(),
                    old_size,
                    new_size: 0,
                    delta: -(old_size as i64),
                    kind: DeltaKind::Deleted,
                };
                let ghost before = deltas_view(out@);
                out.push(d);
                assert(deltas_view(out@) =~= before.push(d@));
                assert(left_after(pre, r0).contains_key(f@.path));
                assert(old_size == left_after(pre, r0)[f@.path]);
                assert(deleted_deltas(bs.take(k + 1), r0) == deleted_deltas(pre, r0).push(d@));
                assert(deltas_view(out@) =~= first + deleted_deltas(bs.take(k + 1), r0));
            },
            None => {
                assert(deleted_deltas(bs.take(k + 1), r0) == deleted_deltas(pre, r0));
            },
        }
        base.remove(f.path.as_str());
        k = k + 1;
    }
    assert(bs.take(nb as int) =~= bs);
    out
}

proof fn lemma_unmatched_sub(cs: Seq<FolderView>, m: Map<Seq<char>, u64>)
    ensures
        forall|k: Seq<char>| #[trigger] unmatched(cs, m).contains_key(k) ==> m.contains_key(k) && unmatched(cs, m)[k] == m[k],
    decreases cs.len(),
{
    if cs.len() > 0 {
        lemma_unmatched_sub(cs.drop_last(), m);
        assert forall|k: Seq<char>| #[trigger] unmatched(cs, m).contains_key(k) implies m.contains_key(k) && unmatched(cs, m)[k] == m[k] by {
            assert(unmatched(cs.drop_last(), m).contains_key(k));
        }
    }
}

proof fn lemma_left_sub(bs: Seq<FolderView>, m: Map<Seq<char>, u64>)
    ensures
        forall|k: Seq<char>| #[trigger] left_after(bs, m).contains_key(k) ==> m.contains_key(k) && left_after(bs, m)[k] == m[k],
    decreases bs.len(),
{
    if bs.len() > 0 {
        lemma_left_sub(bs.drop_last(), m);
        assert forall|k: Seq<char>| #[trigger] left_after(bs, m).contains_key(k) implies m.contains_key(k) && left_after(bs, m)[k] == m[k] by {
            assert(left_after(bs.drop_last(), m).contains_key(k));
        }
    }
}


proof fn lemma_current_deltas_shape(cs: Seq<FolderView>, m: Map<Seq<char>, u64>)
    ensures
        current_deltas(cs, m).len() == cs.len(),
        forall|i: int|
            0 <= i < cs.len() ==> #[trigger] current_deltas(cs, m)[i] == delta_for(
                cs[i],
                unmatched(cs.take(i), m),
            ),
    decreases cs.len(),
{
    if cs.len() > 0 {
        let pre = cs.drop_last();
        lemma_current_deltas_shape(pre, m);
        assert forall|i: int| 0 <= i < cs.len() implies #[trigger] current_deltas(cs, m)[i] == delta_for(
            cs[i],
            unmatched(cs.take(i), m),
        ) by {
            if i < pre.len() {
                assert(pre.take(i) =~= cs.take(i));
                assert(pre[i] == cs[i]);
            } else {
                assert(cs.take(i) =~= pre);
            }
        }
    }
}

proof fn lemma_deleted_all_deleted(bs: Seq<FolderView>, m: Map<Seq<char>, u64>)
    ensures
        forall|i: int|
            0 <= i < deleted_deltas(bs, m).len() ==> {
                let d = #[trigger] deleted_deltas(bs, m)[i];
                &&& d.kind == DeltaKind::Deleted
                &&& d.new_size == 0
                &&& m.contains_key(d.path)
                &&& d.old_size == m[d.path]
                &&& d.delta == (-m[d.path]) as i64
            },
    decreases bs.len(),
{
    if bs.len() > 0 {
        lemma_deleted_all_deleted(bs.drop_last(), m);
        lemma_left_sub(bs.drop_last(), m);
    }
}

/// Every current folder gets exactly one entry, at its own position and in order, reporting its
/// size; all later entries are deletions. Nothing that changed is ever left out.
pub proof fn law_compute_reports_every_current_folder(bs: Seq<FolderView>, cs: Seq<FolderView>)
    ensures
        spec_compute(bs, cs).len() >= cs.len(),
        forall|i: int|
            0 <= i < cs.len() ==> {
                let d = #[trigger] spec_compute(bs, cs)[i];
                &&& d.path == cs[i].path
                &&& d.new_size == cs[i].total_size
                &&& d.kind != DeltaKind::Deleted
            },
        forall|i: int|
            cs.len() <= i < spec_compute(bs, cs).len() ==> (#[trigger] spec_compute(bs, cs)[i]).kind
                == DeltaKind::Deleted,
{
    let m = base_sizes(bs);
    lemma_current_deltas_shape(cs, m);
    lemma_deleted_all_deleted(bs, unmatched(cs, m));
    let cur = current_deltas(cs, m);
    let del = deleted_deltas(bs, unmatched(cs, m));
    assert forall|i: int| cs.len() <= i < spec_compute(bs, cs).len() implies (#[trigger] spec_compute(
        bs,
        cs,
    )[i]).kind == DeltaKind::Deleted by {
        assert(spec_compute(bs, cs)[i] == del[i - cs.len()]);
    }
    assert forall|i: int| 0 <= i < cs.len() implies {
        let d = #[trigger] spec_compute(bs, cs)[i];
        &&& d.path == cs[i].path
        &&& d.new_size == cs[i].total_size
        &&& d.kind != DeltaKind::Deleted
    } by {
        assert(spec_compute(bs, cs)[i] == cur[i]);
    }
}

/// Every entry's delta is its new size minus its old size; a new folder had no old size, a
/// deleted one has no new size, and a folder in both scans is Grown, Shrunk or Unchanged by
/// the sign of its delta (Unchanged only for an exact zero).
pub proof fn law_delta_is_size_difference(bs: Seq<FolderView>, cs: Seq<FolderView>)
    requires
        sizes_signed(bs),
        sizes_signed(cs),
    ensures
        forall|i: int|
            0 <= i < spec_compute(bs, cs).len() ==> {
                let d = #[trigger] spec_compute(bs, cs)[i];
                &&& d.delta == d.new_size - d.old_size
                &&& d.kind == DeltaKind::New ==> d.old_size == 0
                &&& d.kind == DeltaKind::Deleted ==> d.new_size == 0
                &&& (d.kind != DeltaKind::New && d.kind != DeltaKind::Deleted) ==> d.kind == kind_of(
                    d.delta as int,
                )
            },
{
    let m = base_sizes(bs);
    lemma_base_sizes_bound(bs);
    lemma_current_deltas_shape(cs, m);
    lemma_unmatched_sub(cs, m);
    lemma_deleted_all_deleted(bs, unmatched(cs, m));
    let cur = current_deltas(cs, m);
    let del = deleted_deltas(bs, unmatched(cs, m));
    assert forall|i: int| 0 <= i < spec_compute(bs, cs).len() implies {
        let d = #[trigger] spec_compute(bs, cs)[i];
        &&& d.delta == d.new_size - d.old_size
        &&& d.kind == DeltaKind::New ==> d.old_size == 0
        &&& d.kind == DeltaKind::Deleted ==> d.new_size == 0
        &&& (d.kind != DeltaKind::New && d.kind != DeltaKind::Deleted) ==> d.kind == kind_of(
            d.delta as int,
        )
    } by {
        if i < cs.len() {
            assert(spec_compute(bs, cs)[i] == cur[i]);
            assert(cs[i].total_size <= i64::MAX);
            let u = unmatched(cs.take(i), m);
            lemma_unmatched_sub(cs.take(i), m);
            if u.contains_key(cs[i].path) {
                assert(u[cs[i].path] <= i64::MAX);
            }
        } else {
            assert(spec_compute(bs, cs)[i] == del[i - cs.len()]);
            let d = del[i - cs.len()];
            assert(unmatched(cs, m)[d.path] <= i64::MAX);
        }
    }
}

/// With no size threshold and every kind switched on, exactly the entries that changed are shown.
pub proof fn law_zero_threshold_shows_every_change(ds: Seq<DeltaView>)
    ensures
        forall|i: int|
            0 <= i < ds.len() ==> (shown(#[trigger] ds[i], 0, seq![true, true, true, true]) <==> ds[i].kind
                != DeltaKind::Unchanged),
        (forall|i: int| 0 <= i < ds.len() ==> (#[trigger] ds[i]).kind != DeltaKind::Unchanged)
            ==> shown_deltas(ds, 0, seq![true, true, true, true]) == ds,
    decreases ds.len(),
{
    if ds.len() > 0 {
        law_zero_threshold_shows_every_change(ds.drop_last());
        if forall|i: int| 0 <= i < ds.len() ==> (#[trigger] ds[i]).kind != DeltaKind::Unchanged {
            assert forall|i: int| 0 <= i < ds.drop_last().len() implies (#[trigger] ds.drop_last()[i]).kind
                != DeltaKind::Unchanged by {
                assert(ds.drop_last()[i] == ds[i]);
            }
            assert(ds[ds.len() - 1] == ds.last());
            assert(ds.drop_last().push(ds.last()) =~= ds);
        }
    }
}

/// An Unchanged entry is never shown, whatever the threshold and toggles.
pub proof fn law_unchanged_never_shown(ds: Seq<DeltaView>, min_bytes: u64, show: Seq<bool>)
    ensures
        forall|i: int|
            0 <= i < shown_deltas(ds, min_bytes, show).len() ==> (#[trigger] shown_deltas(
                ds,
                min_bytes,
                show,
            )[i]).kind != DeltaKind::Unchanged,
    decreases ds.len(),
{
    if ds.len() > 0 {
        law_unchanged_never_shown(ds.drop_last(), min_bytes, show);
    }
}

/// Raising the threshold never shows more entries.
pub proof fn law_threshold_is_monotone(ds: Seq<DeltaView>, low: u64, high: u64, show: Seq<bool>)
    requires
        low <= high,
    ensures
        shown_deltas(ds, high, show).len() <= shown_deltas(ds, low, show).len(),
    decreases ds.len(),
{
    if ds.len() > 0 {
        law_threshold_is_monotone(ds.drop_last(), low, high, show);
    }
}


/// Some folder of `fs` has path `k`.
pub open spec fn has_path(fs: Seq<FolderView>, k: Seq<char>) -> bool {
    exists|i: int| 0 <= i < fs.len() && (#[trigger] fs[i]).path == k
}

proof fn lemma_has_path_push(fs: Seq<FolderView>, k: Seq<char>)
    requires
        fs.len() > 0,
    ensures
        has_path(fs, k) <==> has_path(fs.drop_last(), k) || fs.last().path == k,
{
    if has_path(fs, k) {
        let i = choose|i: int| 0 <= i < fs.len() && (#[trigger] fs[i]).path == k;
        if i < fs.len() - 1 {
            assert(fs.drop_last()[i] == fs[i]);
        }
    }
    if has_path(fs.drop_last(), k) {
        let i = choose|i: int| 0 <= i < fs.drop_last().len() && (#[trigger] fs.drop_last()[i]).path == k;
        assert(fs[i] == fs.drop_last()[i]);
    }
    if fs.last().path == k {
        assert(fs[fs.len() - 1] == fs.last());
    }
}

proof fn lemma_base_dom(bs: Seq<FolderView>, k: Seq<char>)
    ensures
        base_sizes(bs).contains_key(k) <==> has_path(bs, k),
    decreases bs.len(),
{
    if bs.len() > 0 {
        lemma_base_dom(bs.drop_last(), k);
        lemma_has_path_push(bs, k);
    }
}

proof fn lemma_unmatched_dom(cs: Seq<FolderView>, m: Map<Seq<char>, u64>, k: Seq<char>)
    ensures
        unmatched(cs, m).contains_key(k) <==> m.contains_key(k) && !has_path(cs, k),
    decreases cs.len(),
{
    if cs.len() > 0 {
        lemma_unmatched_dom(cs.drop_last(), m, k);
        lemma_has_path_push(cs, k);
    }
}

proof fn lemma_left_dom(bs: Seq<FolderView>, m: Map<Seq<char>, u64>, k: Seq<char>)
    ensures
        left_after(bs, m).contains_key(k) <==> m.contains_key(k) && !has_path(bs, k),
    decreases bs.len(),
{
    if bs.len() > 0 {
        lemma_left_dom(bs.drop_last(), m, k);
        lemma_has_path_push(bs, k);
    }
}

proof fn lemma_deleted_paths(bs: Seq<FolderView>, m: Map<Seq<char>, u64>)
    ensures
        forall|q: int|
            0 <= q < deleted_deltas(bs, m).len() ==> has_path(bs, (#[trigger] deleted_deltas(bs, m)[q]).path),
        forall|q1: int, q2: int|
            0 <= q1 < q2 < deleted_deltas(bs, m).len() ==> (#[trigger] deleted_deltas(bs, m)[q1]).path
                != (#[trigger] deleted_deltas(bs, m)[q2]).path,
        forall|k: Seq<char>|
            m.contains_key(k) && #[trigger] has_path(bs, k) ==> exists|q: int|
                0 <= q < deleted_deltas(bs, m).len() && (#[trigger] deleted_deltas(bs, m)[q]).path == k,
    decreases bs.len(),
{
    if bs.len() > 0 {
        let pre = bs.drop_last();
        lemma_deleted_paths(pre, m);
        let rest = deleted_deltas(pre, m);
        let del = deleted_deltas(bs, m);
        let p = bs.last().path;
        lemma_left_dom(pre, m, p);
        assert forall|q: int| 0 <= q < del.len() implies has_path(bs, (#[trigger] del[q]).path) by {
            lemma_has_path_push(bs, del[q].path);
            if q < rest.len() {
                assert(del[q] == rest[q]);
            }
        }
        assert forall|q1: int, q2: int| 0 <= q1 < q2 < del.len() implies (#[trigger] del[q1]).path
            != (#[trigger] del[q2]).path by {
            if q2 < rest.len() {
                assert(del[q1] == rest[q1]);
                assert(del[q2] == rest[q2]);
            } else {
                assert(del[q1] == rest[q1]);
                assert(has_path(pre, rest[q1].path));
            }
        }
        assert forall|k: Seq<char>| m.contains_key(k) && #[trigger] has_path(bs, k) implies exists|q: int|
            0 <= q < del.len() && (#[trigger] del[q]).path == k by {
            lemma_has_path_push(bs, k);
            if has_path(pre, k) {
                let q = choose|q: int| 0 <= q < rest.len() && (#[trigger] rest[q]).path == k;
                assert(del[q] == rest[q]);
            } else {
                assert(del[rest.len() as int].path == k);
            }
        }
    }
}

/// The entries after the current folders are one Deleted entry per baseline path that no current
/// folder has, and nothing else: each such path exactly once, no path of a current folder.
pub proof fn law_deleted_are_missing_baseline_paths(bs: Seq<FolderView>, cs: Seq<FolderView>)
    ensures
        forall|i: int|
            cs.len() <= i < spec_compute(bs, cs).len() ==> has_path(bs, (#[trigger] spec_compute(bs, cs)[i]).path)
                && !has_path(cs, spec_compute(bs, cs)[i].path),
        forall|i: int, j: int|
            cs.len() <= i < j < spec_compute(bs, cs).len() ==> (#[trigger] spec_compute(bs, cs)[i]).path
                != (#[trigger] spec_compute(bs, cs)[j]).path,
        forall|k: Seq<char>|
            #[trigger] has_path(bs, k) && !has_path(cs, k) ==> exists|i: int|
                cs.len() <= i < spec_compute(bs, cs).len() && (#[trigger] spec_compute(bs, cs)[i]).path == k,
{
    let m = base_sizes(bs);
    let r = unmatched(cs, m);
    lemma_current_deltas_shape(cs, m);
    lemma_deleted_paths(bs, r);
    lemma_deleted_all_deleted(bs, r);
    let cur = current_deltas(cs, m);
    let del = deleted_deltas(bs, r);
    let all = spec_compute(bs, cs);
    assert forall|i: int| cs.len() <= i < all.len() implies has_path(bs, (#[trigger] all[i]).path) && !has_path(
        cs,
        all[i].path,
    ) by {
        assert(all[i] == del[i - cs.len()]);
        lemma_unmatched_dom(cs, m, del[i - cs.len()].path);
    }
    assert forall|i: int, j: int| cs.len() <= i < j < all.len() implies (#[trigger] all[i]).path != (#[trigger] all[j]).path by {
        assert(all[i] == del[i - cs.len()]);
        assert(all[j] == del[j - cs.len()]);
    }
    assert forall|k: Seq<char>| #[trigger] has_path(bs, k) && !has_path(cs, k) implies exists|i: int|
        cs.len() <= i < all.len() && (#[trigger] all[i]).path == k by {
        lemma_base_dom(bs, k);
        lemma_unmatched_dom(cs, m, k);
        let q = choose|q: int| 0 <= q < del.len() && (#[trigger] del[q]).path == k;
        assert(all[cs.len() + q] == del[q]);
    }
}


/// No two folders share a path.
pub open spec fn paths_distinct(fs: Seq<FolderView>) -> bool {
    forall|i: int, j: int| 0 <= i < j < fs.len() ==> (#[trigger] fs[i]).path != (#[trigger] fs[j]).path
}

/// The paths of the entries, in order.
pub open spec fn delta_paths(ds: Seq<DeltaView>) -> Seq<Seq<char>> {
    ds.map_values(|d: DeltaView| d.path)
}

/// A kind of change seen from the other scan.
pub open spec fn reversed_kind(k: DeltaKind) -> DeltaKind {
    match k {
        DeltaKind::New => DeltaKind::Deleted,
        DeltaKind::Deleted => DeltaKind::New,
        DeltaKind::Grown => DeltaKind::Shrunk,
        DeltaKind::Shrunk => DeltaKind::Grown,
        DeltaKind::Unchanged => DeltaKind::Unchanged,
    }
}

/// An entry seen from the other scan: sizes swapped, delta negated, kind reversed.
pub open spec fn reversed(d: DeltaView) -> DeltaView {
    DeltaView {
        path: d.path,
        old_size: d.new_size,
        new_size: d.old_size,
        delta: (-d.delta) as i64,
        kind: reversed_kind(d.kind),
    }
}

/// The entry for path `k` when each path occurs at most once in each scan.
#[verifier::opaque]
pub open spec fn entry_for(bs: Seq<FolderView>, cs: Seq<FolderView>, k: Seq<char>) -> DeltaView {
    let mb = base_sizes(bs);
    let mc = base_sizes(cs);
    if mc.contains_key(k) {
        if mb.contains_key(k) {
            DeltaView {
                path: k,
                old_size: mb[k],
                new_size: mc[k],
                delta: (mc[k] - mb[k]) as i64,
                kind: kind_of(mc[k] - mb[k]),
            }
        } else {
            DeltaView { path: k, old_size: 0, new_size: mc[k], delta: mc[k] as i64, kind: DeltaKind::New }
        }
    } else {
        DeltaView { path: k, old_size: mb[k], new_size: 0, delta: (-mb[k]) as i64, kind: DeltaKind::Deleted }
    }
}

proof fn lemma_base_at(fs: Seq<FolderView>, i: int)
    requires
        paths_distinct(fs),
        0 <= i < fs.len(),
    ensures
        base_sizes(fs).contains_key(fs[i].path),
        base_sizes(fs)[fs[i].path] == fs[i].total_size,
    decreases fs.len(),
{
    let pre = fs.drop_last();
    if i < fs.len() - 1 {
        assert(paths_distinct(pre)) by {
            assert forall|a: int, b: int| 0 <= a < b < pre.len() implies (#[trigger] pre[a]).path
                != (#[trigger] pre[b]).path by {
                assert(pre[a] == fs[a]);
                assert(pre[b] == fs[b]);
            }
        }
        assert(pre[i] == fs[i]);
        lemma_base_at(pre, i);
        assert(fs[fs.len() - 1].path != fs[i].path);
    }
}

proof fn lemma_not_in_prefix(cs: Seq<FolderView>, i: int)
    requires
        paths_distinct(cs),
        0 <= i < cs.len(),
    ensures
        !has_path(cs.take(i), cs[i].path),
{
    if has_path(cs.take(i), cs[i].path) {
        let j = choose|j: int| 0 <= j < cs.take(i).len() && (#[trigger] cs.take(i)[j]).path == cs[i].path;
        assert(cs.take(i)[j] == cs[j]);
    }
}

/// With each path at most once per scan, `compute` lists each path of either scan exactly once,
/// with the entry `entry_for` gives it.
proof fn lemma_compute_by_path(bs: Seq<FolderView>, cs: Seq<FolderView>)
    requires
        paths_distinct(bs),
        paths_distinct(cs),
    ensures
        delta_paths(spec_compute(bs, cs)).no_duplicates(),
        forall|i: int|
            0 <= i < spec_compute(bs, cs).len() ==> {
                let d = #[trigger] spec_compute(bs, cs)[i];
                &&& d == entry_for(bs, cs, d.path)
                &&& (has_path(bs, d.path) || has_path(cs, d.path))
            },
        forall|k: Seq<char>|
            has_path(bs, k) || has_path(cs, k) ==> #[trigger] delta_paths(spec_compute(bs, cs)).contains(k),
{
    reveal(entry_for);
    let mb = base_sizes(bs);
    let mc = base_sizes(cs);
    let r = unmatched(cs, mb);
    let all = spec_compute(bs, cs);
    let cur = current_deltas(cs, mb);
    let del = deleted_deltas(bs, r);
    lemma_current_deltas_shape(cs, mb);
    lemma_deleted_all_deleted(bs, r);
    lemma_deleted_paths(bs, r);
    lemma_unmatched_sub(cs, mb);
    law_deleted_are_missing_baseline_paths(bs, cs);
    assert forall|i: int| 0 <= i < all.len() implies {
        let d = #[trigger] all[i];
        &&& d == entry_for(bs, cs, d.path)
        &&& (has_path(bs, d.path) || has_path(cs, d.path))
    } by {
        if i < cs.len() {
            assert(all[i] == cur[i]);
            let k = cs[i].path;
            let u = unmatched(cs.take(i), mb);
            lemma_not_in_prefix(cs, i);
            lemma_unmatched_dom(cs.take(i), mb, k);
            lemma_unmatched_sub(cs.take(i), mb);
            lemma_base_at(cs, i);
            assert(has_path(cs, k)) by {
                assert(cs[i].path == k);
            }
        } else {
            assert(all[i] == del[i - cs.len()]);
            let d = del[i - cs.len()];
            lemma_base_dom(cs, d.path);
            assert(r.contains_key(d.path));
        }
    }
    let ps = delta_paths(all);
    assert forall|a: int, b: int| 0 <= a < ps.len() && 0 <= b < ps.len() && a != b implies ps[a] != ps[b] by {
        let (x, y) = if a < b { (a, b) } else { (b, a) };
        if y < cs.len() {
            assert(all[x] == cur[x]);
            assert(all[y] == cur[y]);
        } else if x >= cs.len() {
            assert(all[x] == del[x - cs.len()]);
            assert(all[y] == del[y - cs.len()]);
        } else {
            assert(all[x] == cur[x]);
            assert(has_path(cs, all[x].path)) by {
                assert(cs[x].path == all[x].path);
            }
        }
    }
    assert forall|k: Seq<char>| has_path(bs, k) || has_path(cs, k) implies #[trigger] ps.contains(k) by {
        if has_path(cs, k) {
            let i = choose|i: int| 0 <= i < cs.len() && (#[trigger] cs[i]).path == k;
            assert(all[i] == cur[i]);
            assert(ps[i] == k);
        } else {
            let i = choose|i: int| cs.len() <= i < all.len() && (#[trigger] all[i]).path == k;
            assert(ps[i] == k);
        }
    }
}

proof fn lemma_entry_reversed(bs: Seq<FolderView>, cs: Seq<FolderView>, k: Seq<char>)
    requires
        sizes_signed(bs),
        sizes_signed(cs),
        has_path(bs, k) || has_path(cs, k),
    ensures
        entry_for(cs, bs, k) == reversed(entry_for(bs, cs, k)),
{
    reveal(entry_for);
    lemma_base_dom(bs, k);
    lemma_base_dom(cs, k);
    lemma_base_sizes_bound(bs);
    lemma_base_sizes_bound(cs);
}

proof fn lemma_reversed_seqs(bs: Seq<FolderView>, cs: Seq<FolderView>, r1: Seq<DeltaView>, r2: Seq<DeltaView>)
    requires
        sizes_signed(bs),
        sizes_signed(cs),
        delta_paths(r1).no_duplicates(),
        delta_paths(r2).no_duplicates(),
        forall|i: int|
            0 <= i < r1.len() ==> {
                let d = #[trigger] r1[i];
                &&& d == entry_for(bs, cs, d.path)
                &&& (has_path(bs, d.path) || has_path(cs, d.path))
            },
        forall|i: int|
            0 <= i < r2.len() ==> {
                let d = #[trigger] r2[i];
                &&& d == entry_for(cs, bs, d.path)
                &&& (has_path(cs, d.path) || has_path(bs, d.path))
            },
        forall|k: Seq<char>| has_path(bs, k) || has_path(cs, k) ==> #[trigger] delta_paths(r1).contains(k),
        forall|k: Seq<char>| has_path(cs, k) || has_path(bs, k) ==> #[trigger] delta_paths(r2).contains(k),
    ensures
        r2.len() == r1.len(),
        forall|i: int|
            0 <= i < r1.len() ==> exists|j: int| 0 <= j < r2.len() && #[trigger] r2[j] == reversed(#[trigger] r1[i]),
        forall|j: int|
            0 <= j < r2.len() ==> exists|i: int| 0 <= i < r1.len() && #[trigger] r2[j] == reversed(#[trigger] r1[i]),
{
    let p1 = delta_paths(r1);
    let p2 = delta_paths(r2);
    assert forall|i: int| 0 <= i < r1.len() implies exists|j: int|
        0 <= j < r2.len() && #[trigger] r2[j] == reversed(#[trigger] r1[i]) by {
        let k = r1[i].path;
        assert(p1[i] == k);
        assert(p2.contains(k));
        let j = choose|j: int| 0 <= j < p2.len() && p2[j] == k;
        assert(r2[j].path == k);
        lemma_entry_reversed(bs, cs, k);
    }
    assert forall|j: int| 0 <= j < r2.len() implies exists|i: int|
        0 <= i < r1.len() && #[trigger] r2[j] == reversed(#[trigger] r1[i]) by {
        let k = r2[j].path;
        assert(p2[j] == k);
        assert(p1.contains(k));
        let i = choose|i: int| 0 <= i < p1.len() && p1[i] == k;
        assert(r1[i].path == k);
        lemma_entry_reversed(bs, cs, k);
    }
    assert(p1.to_set() =~= p2.to_set()) by {
        assert forall|k: Seq<char>| p1.to_set().contains(k) <==> p2.to_set().contains(k) by {
            if p1.contains(k) {
                let i = choose|i: int| 0 <= i < p1.len() && p1[i] == k;
                assert(r1[i].path == k);
            }
            if p2.contains(k) {
                let j = choose|j: int| 0 <= j < p2.len() && p2[j] == k;
                assert(r2[j].path == k);
            }
        }
    }
    p1.unique_seq_to_set();
    p2.unique_seq_to_set();
}

/// Comparing the two scans the other way round gives the same entries reversed: as many of
/// them, and for each entry one with the same path, sizes swapped, the delta negated, New and
/// Deleted swapped, Grown and Shrunk swapped, Unchanged kept. Each path occurs at most once
/// in each scan.
pub proof fn law_compute_reversed(bs: Seq<FolderView>, cs: Seq<FolderView>)
    requires
        paths_distinct(bs),
        paths_distinct(cs),
        sizes_signed(bs),
        sizes_signed(cs),
    ensures
        spec_compute(cs, bs).len() == spec_compute(bs, cs).len(),
        forall|i: int|
            0 <= i < spec_compute(bs, cs).len() ==> exists|j: int|
                0 <= j < spec_compute(cs, bs).len() && #[trigger] spec_compute(cs, bs)[j] == reversed(
                    #[trigger] spec_compute(bs, cs)[i],
                ),
        forall|j: int|
            0 <= j < spec_compute(cs, bs).len() ==> exists|i: int|
                0 <= i < spec_compute(bs, cs).len() && #[trigger] spec_compute(cs, bs)[j] == reversed(
                    #[trigger] spec_compute(bs, cs)[i],
                ),
{
    lemma_compute_by_path(bs, cs);
    lemma_compute_by_path(cs, bs);
    lemma_reversed_seqs(bs, cs, spec_compute(bs, cs), spec_compute(cs, bs));
}


/// The display rule per kind: an entry is shown exactly when its change is at least
/// `min_bytes` in either direction and the toggle of its own kind is on (New, Grown, Shrunk,
/// Deleted in that order); an Unchanged entry never is.
pub proof fn law_display_rule(d: DeltaView, min_bytes: u64, show: Seq<bool>)
    requires
        show.len() == 4,
    ensures
        d.kind == DeltaKind::New ==> (shown(d, min_bytes, show) <==> ((d.delta >= min_bytes || d.delta
            <= -min_bytes) && show[0])),
        d.kind == DeltaKind::Grown ==> (shown(d, min_bytes, show) <==> ((d.delta >= min_bytes
            || d.delta <= -min_bytes) && show[1])),
        d.kind == DeltaKind::Shrunk ==> (shown(d, min_bytes, show) <==> ((d.delta >= min_bytes
            || d.delta <= -min_bytes) && show[2])),
        d.kind == DeltaKind::Deleted ==> (shown(d, min_bytes, show) <==> ((d.delta >= min_bytes
            || d.delta <= -min_bytes) && show[3])),
        d.kind == DeltaKind::Unchanged ==> !shown(d, min_bytes, show),
{
}

/// Whether an entry is shown depends on the toggle of its own kind only: two toggle sets that
/// agree on it show it alike.
pub proof fn law_display_ignores_other_toggles(d: DeltaView, min_bytes: u64, s1: Seq<bool>, s2: Seq<bool>)
    requires
        s1.len() == 4,
        s2.len() == 4,
        d.kind == DeltaKind::New ==> s1[0] == s2[0],
        d.kind == DeltaKind::Grown ==> s1[1] == s2[1],
        d.kind == DeltaKind::Shrunk ==> s1[2] == s2[2],
        d.kind == DeltaKind::Deleted ==> s1[3] == s2[3],
    ensures
        shown(d, min_bytes, s1) == shown(d, min_bytes, s2),
{
}

/// The filter keeps exactly the entries the display rule shows: everything it returns is an
/// entry of the input that is shown, and every shown entry of the input is returned, in order.
pub proof fn law_filter_keeps_exactly_the_shown(ds: Seq<DeltaView>, min_bytes: u64, show: Seq<bool>)
    ensures
        shown_deltas(ds, min_bytes, show).len() <= ds.len(),
        forall|i: int|
            0 <= i < shown_deltas(ds, min_bytes, show).len() ==> shown(
                #[trigger] shown_deltas(ds, min_bytes, show)[i],
                min_bytes,
                show,
            ) && ds.contains(shown_deltas(ds, min_bytes, show)[i]),
        forall|j: int|
            0 <= j < ds.len() && shown(#[trigger] ds[j], min_bytes, show) ==> shown_deltas(
                ds,
                min_bytes,
                show,
            ).contains(ds[j]),
    decreases ds.len(),
{
    if ds.len() > 0 {
        let pre = ds.drop_last();
        law_filter_keeps_exactly_the_shown(pre, min_bytes, show);
        let r = shown_deltas(pre, min_bytes, show);
        let out = shown_deltas(ds, min_bytes, show);
        assert forall|i: int| 0 <= i < out.len() implies shown(#[trigger] out[i], min_bytes, show)
            && ds.contains(out[i]) by {
            if i < r.len() {
                assert(out[i] == r[i]);
                let q = choose|q: int| 0 <= q < pre.len() && pre[q] == r[i];
                assert(ds[q] == pre[q]);
            } else {
                assert(ds[ds.len() - 1] == ds.last());
            }
        }
        assert forall|j: int| 0 <= j < ds.len() && shown(#[trigger] ds[j], min_bytes, show) implies out.contains(
            ds[j],
        ) by {
            if j < pre.len() {
                assert(pre[j] == ds[j]);
                let q = choose|q: int| 0 <= q < r.len() && r[q] == pre[j];
                assert(out[q] == r[q]);
            } else {
                assert(ds[j] == ds.last());
                assert(out[out.len() - 1] == ds.last());
            }
        }
    }
}

} // verus!

use vstd::prelude::*;

use crate::clock::now_secs;
use crate::decimal::{all_digits, decimal, is_digit, lemma_decimal_digits, law_decimal_round_trip, parse_u64, parse_u64_spec, push_decimal};
use crate::paths::{chars_of, string_from_chars};
use crate::types::{folders_view, DiskSnapshot, FolderStats, FolderView};

verus! {

/// Snapshots kept per drive.
pub const MAX_SNAPSHOTS: usize = 10;

/// What is kept of a scan between sessions.
#[derive(Debug)]
pub struct Snapshot {
    pub drive: String,
    pub total_bytes: u64,
    pub free_bytes: u64,
    pub files_scanned: u64,
    pub folders: Vec<FolderStats>,
    pub scanned_at: u64,
}

/// `s` with its trailing backslashes removed.
pub open spec fn trim_backslashes(s: Seq<char>) -> Seq<char>
    decreases s.len(),
{
    if s.len() > 0 && s.last() == '\\' {
        trim_backslashes(s.drop_last())
    } else {
        s
    }
}

/// `s` without its colons.
pub open spec fn without_colons(s: Seq<char>) -> Seq<char>
    decreases s.len(),
{
    if s.len() == 0 {
        s
    } else {
        let r = without_colons(s.drop_last());
        if s.last() == ':' {
            r
        } else {
            r.push(s.last())
        }
    }
}

/// The key under which a drive's snapshots are filed: `C:\` becomes `C`.
pub open spec fn spec_drive_key(drive: Seq<char>) -> Seq<char> {
    without_colons(trim_backslashes(drive))
}

/// The file name of a snapshot: `<key>_<scanned_at>_<files_scanned>.bin`.
pub open spec fn snapshot_name(drive: Seq<char>, scanned_at: nat, files_scanned: nat) -> Seq<char> {
    spec_drive_key(drive) + seq!['_'] + decimal(scanned_at) + seq!['_'] + decimal(files_scanned)
        + seq!['.', 'b', 'i', 'n']
}

/// Index of the last `c` in `s`, or -1.
pub open spec fn last_index(s: Seq<char>, c: char) -> int
    decreases s.len(),
{
    if s.len() == 0 {
        -1
    } else if s.last() == c {
        s.len() - 1
    } else {
        last_index(s.drop_last(), c)
    }
}

/// Index of the first `c` in `s`, or -1.
pub open spec fn first_index(s: Seq<char>, c: char) -> int
    decreases s.len(),
{
    if s.len() == 0 {
        -1
    } else if s[0] == c {
        0
    } else if first_index(s.drop_first(), c) < 0 {
        -1
    } else {
        1 + first_index(s.drop_first(), c)
    }
}

/// Stem and extension of a file name, as `Path::file_stem` and `Path::extension` split it:
/// at the last dot, unless that dot starts the name or the name is `..`.
pub open spec fn stem_and_ext(name: Seq<char>) -> Option<(Seq<char>, Seq<char>)> {
    let d = last_index(name, '.');
    if name == seq!['.', '.'] || d <= 0 {
        None
    } else {
        Some((name.take(d), name.skip(d + 1)))
    }
}

/// The timestamp and file count that a snapshot file name holds for the drive with `key`.
pub open spec fn parse_snapshot_name(name: Seq<char>, key: Seq<char>) -> Option<(u64, u64)> {
    match stem_and_ext(name) {
        None => None,
        Some((stem, ext)) => {
            let prefix = key.push('_');
            if ext != seq!['b', 'i', 'n'] || stem.len() < prefix.len() || stem.take(
                prefix.len() as int,
            ) != prefix {
                None
            } else {
                let rest = stem.skip(prefix.len() as int);
                let u = first_index(rest, '_');
                if u < 0 {
                    None
                } else {
                    match (parse_u64_spec(rest.take(u)), parse_u64_spec(rest.skip(u + 1))) {
                        (Some(ts), Some(fc)) => Some((ts, fc)),
                        _ => None,
                    }
                }
            }
        },
    }
}

/// The key under which a drive's snapshots are filed: trailing backslashes and all
/// colons removed.
pub fn drive_key(drive: &str) -> (key: String)
    ensures
        key@ == spec_drive_key(drive@),
{
    let cs = chars_of(drive);
    let out = drive_key_chars(&cs);
    string_from_chars(out.as_slice(), 0, out.len())
}

fn drive_key_chars(cs: &Vec<char>) -> (out: Vec<char>)
    ensures
        out@ == spec_drive_key(cs@),
{
    let mut e = cs.len();
    assert(cs@.take(e as int) =~= cs@);
    while e > 0 && cs[e - 1] == '\\'
        invariant
            e <= cs@.len(),
            trim_backslashes(cs@) == trim_backslashes(cs@.take(e as int)),
        decreases e,
    {
        assert(cs@.take(e as int).drop_last() =~= cs@.take(e - 1));
        e = e - 1;
    }
    let ghost t = cs@.take(e as int);
    assert(trim_backslashes(t) == t);
    let mut out: Vec<char> = Vec::new();
    let mut i: usize = 0;
    while i < e
        invariant
            e <= cs@.len(),
            t == cs@.take(e as int),
            0 <= i <= e,
            out@ == without_colons(t.take(i as int)),
        decreases e - i,
    {
        assert(t.take(i + 1).drop_last() =~= t.take(i as int));
        let c = cs[i];
        if c != ':' {
            out.push(c);
        }
        i = i + 1;
    }
    assert(t.take(e as int) =~= t);
    out
}

/// The file name under which a snapshot of `drive` taken at `scanned_at` with
/// `files_scanned` files is stored.
pub fn snapshot_file_name(drive: &str, scanned_at: u64, files_scanned: u64) -> (name: String)
    ensures
        name@ == snapshot_name(drive@, scanned_at as nat, files_scanned as nat),
{
    let cs = chars_of(drive);
    let mut out = drive_key_chars(&cs);
    out.push('_');
    push_decimal(&mut out, scanned_at);
    out.push('_');
    push_decimal(&mut out, files_scanned);
    out.push('.');
    out.push('b');
    out.push('i');
    out.push('n');
    assert(out@ =~= snapshot_name(drive@, scanned_at as nat, files_scanned as nat));
    string_from_chars(out.as_slice(), 0, out.len())
}

fn last_index_exec(s: &Vec<char>, c: char) -> (r: Option<usize>)
    ensures
        match r {
            Some(i) => last_index(s@, c) == i,
            None => last_index(s@, c) == -1,
        },
{
    let mut k = s.len();
    assert(s@.take(k as int) =~= s@);
    while k > 0
        invariant
            k <= s@.len(),
            last_index(s@, c) == last_index(s@.take(k as int), c),
        decreases k,
    {
        assert(s@.take(k as int).drop_last() =~= s@.take(k - 1));
        if s[k - 1] == c {
            return Some(k - 1);
        }
        k = k - 1;
    }
    None
}

proof fn lemma_last_index_bounds(s: Seq<char>, c: char)
    ensures
        -1 <= last_index(s, c) < s.len(),
    decreases s.len(),
{
    if s.len() > 0 && s.last() != c {
        lemma_last_index_bounds(s.drop_last(), c);
    }
}

proof fn lemma_first_index_at(s: Seq<char>, c: char, j: int)
    requires
        0 <= j <= s.len(),
        forall|i: int| 0 <= i < j ==> s[i] != c,
        j == s.len() || s[j] == c,
    ensures
        first_index(s, c) == if j == s.len() { -1 } else { j },
    decreases s.len(),
{
    if s.len() > 0 && j > 0 {
        assert forall|i: int| 0 <= i < j - 1 implies s.drop_first()[i] != c by {
            assert(s.drop_first()[i] == s[i + 1]);
        }
        lemma_first_index_at(s.drop_first(), c, j - 1);
    }
}

/// The timestamp and file count that a snapshot file name of the drive holds, or `None` when
/// the name is not one of that drive's snapshots.
pub fn parse_snapshot_file_name(file_name: &str, drive: &str) -> (out: Option<(u64, u64)>)
    ensures
        out == parse_snapshot_name(file_name@, spec_drive_key(drive@)),
{
    let name = chars_of(file_name);
    let dk = chars_of(drive);
    let key = drive_key_chars(&dk);
    let ghost prefix = key@.push('_');
    let n = name.len();
    let d = match last_index_exec(&name, '.') {
        Some(d) => d,
        None => {
            return None;
        },
    };
    proof {
        lemma_last_index_bounds(name@, '.');
    }
    if d == 0 || (n == 2 && name[0] == '.' && name[1] == '.') {
        assert(name@ == seq!['.', '.'] ==> n == 2 && name@[0] == '.' && name@[1] == '.');
        return None;
    }
    assert(name@ != seq!['.', '.']) by {
        if name@ == seq!['.', '.'] {
            assert(name@[0] == '.' && name@[1] == '.');
        }
    }
    let ghost stem = name@.take(d as int);
    let ghost ext = name@.skip(d + 1);
    if !(n - d - 1 == 3 && name[d + 1] == 'b' && name[d + 2] == 'i' && name[d + 3] == 'n') {
        assert(ext != seq!['b', 'i', 'n']) by {
            if ext == seq!['b', 'i', 'n'] {
                assert(ext.len() == 3);
                assert(ext[0] == name@[d + 1]);
                assert(ext[1] == name@[d + 2]);
                assert(ext[2] == name@[d + 3]);
            }
        }
        return None;
    }
    assert(ext =~= seq!['b', 'i', 'n']);
    let kl = key.len();
    if d <= kl {
        return None;
    }
    assert(stem_and_ext(name@) == Some((stem, ext)));
    let mut i: usize = 0;
    while i < kl
        invariant
            kl == key@.len(),
            kl + 1 <= d <= n,
            n == name@.len(),
            stem == name@.take(d as int),
            prefix == key@.push('_'),
            key@ == spec_drive_key(drive@),
            name@ == file_name@,
            stem_and_ext(name@) == Some((stem, ext)),
            ext == seq!['b', 'i', 'n'],
            0 <= i <= kl,
            forall|q: int| 0 <= q < i ==> name@[q] == key@[q],
        decreases kl - i,
    {
        if name[i] != key[i] {
            assert(stem.take(prefix.len() as int) != prefix) by {
                assert(stem.take(prefix.len() as int)[i as int] == name@[i as int]);
                assert(prefix[i as int] == key@[i as int]);
            }
            return None;
        }
        i = i + 1;
    }
    if name[kl] != '_' {
        assert(stem.take(prefix.len() as int) != prefix) by {
            assert(stem.take(prefix.len() as int)[kl as int] == name@[kl as int]);
        }
        return None;
    }
    assert(stem.take(prefix.len() as int) =~= prefix);
    let start = kl + 1;
    let ghost rest = stem.skip(prefix.len() as int);
    let mut u = start;
    while u < d && name[u] != '_'
        invariant
            start <= u <= d <= n,
            n == name@.len(),
            rest == name@.subrange(start as int, d as int),
            forall|q: int| start <= q < u ==> name@[q] != '_',
        decreases d - u,
    {
        u = u + 1;
    }
    proof {
        lemma_first_index_at(rest, '_', u - start);
    }
    if u == d {
        return None;
    }
    assert(rest.take(u - start) =~= name@.subrange(start as int, u as int));
    assert(rest.skip(u - start + 1) =~= name@.subrange(u + 1, d as int));
    let ts = parse_u64(&name, start, u);
    let fc = parse_u64(&name, u + 1, d);
    match (ts, fc) {
        (Some(t), Some(f)) => Some((t, f)),
        _ => None,
    }
}

/// Position at which an entry with timestamp `t` goes into a newest-first list: after every
/// entry at least as new.
pub open spec fn insert_pos(s: Seq<(u64, u64, usize)>, t: u64) -> int
    decreases s.len(),
{
    if s.len() == 0 {
        0
    } else if s[0].0 < t {
        0
    } else {
        1 + insert_pos(s.drop_first(), t)
    }
}

/// `s` sorted newest first; entries with equal timestamps keep their order.
pub open spec fn newest_first(s: Seq<(u64, u64, usize)>) -> Seq<(u64, u64, usize)>
    decreases s.len(),
{
    if s.len() == 0 {
        s
    } else {
        let r = newest_first(s.drop_last());
        r.insert(insert_pos(r, s.last().0), s.last())
    }
}

/// `(timestamp, files, index)` of each name that is one of the drive's snapshots, in order.
pub open spec fn parsed_names(names: Seq<Seq<char>>, key: Seq<char>) -> Seq<(u64, u64, usize)>
    decreases names.len(),
{
    if names.len() == 0 {
        Seq::empty()
    } else {
        let r = parsed_names(names.drop_last(), key);
        match parse_snapshot_name(names.last(), key) {
            Some((ts, fc)) => r.push((ts, fc, (names.len() - 1) as usize)),
            None => r,
        }
    }
}

pub open spec fn names_view(v: Seq<String>) -> Seq<Seq<char>> {
    v.map_values(|s: String| s@)
}

proof fn lemma_insert_pos_at(s: Seq<(u64, u64, usize)>, t: u64, j: int)
    requires
        0 <= j <= s.len(),
        forall|i: int| 0 <= i < j ==> s[i].0 >= t,
        j == s.len() || s[j].0 < t,
    ensures
        insert_pos(s, t) == j,
    decreases s.len(),
{
    if s.len() > 0 && j > 0 {
        assert forall|i: int| 0 <= i < j - 1 implies s.drop_first()[i].0 >= t by {
            assert(s.drop_first()[i] == s[i + 1]);
        }
        lemma_insert_pos_at(s.drop_first(), t, j - 1);
    }
}

/// The snapshots of a drive among the file names of the snapshot folder, as
/// `(scanned_at, files_scanned, index into file_names)`, newest first.
pub fn list_snapshots(file_names: &[String], drive: &str) -> (out: Vec<(u64, u64, usize)>)
    ensures
        out@ == newest_first(parsed_names(names_view(file_names@), spec_drive_key(drive@))),
{
    let ghost names = names_view(file_names@);
    let ghost key = spec_drive_key(drive@);
    let mut out: Vec<(u64, u64, usize)> = Vec::new();
    let n = file_names.len();
    let mut i: usize = 0;
    while i < n
        invariant
            n == file_names@.len(),
            names == names_view(file_names@),
            key == spec_drive_key(drive@),
            0 <= i <= n,
            out@ == newest_first(parsed_names(names.take(i as int), key)),
        decreases n - i,
    {
        let ghost pre = names.take(i as int);
        assert(names.take(i + 1).drop_last() =~= pre);
        assert(names.take(i + 1).last() == file_names@[i as int]@);
        match parse_snapshot_file_name(file_names[i].as_str(), drive) {
            Some((ts, fc)) => {
                let ghost r = out@;
                let mut j: usize = 0;
                while j < out.len() && out[j].0 >= ts
                    invariant
                        j <= out@.len(),
                        forall|q: int| 0 <= q < j ==> out@[q].0 >= ts,
                    decreases out@.len() - j,
                {
                    j = j + 1;
                }
                proof {
                    lemma_insert_pos_at(out@, ts, j as int);
                }
                out.insert(j, (ts, fc, i));
                assert(parsed_names(names.take(i + 1), key) == parsed_names(pre, key).push(
                    (ts, fc, i),
                ));
                assert(parsed_names(names.take(i + 1), key).drop_last() =~= parsed_names(pre, key));
            },
            None => {},
        }
        i = i + 1;
    }
    assert(names.take(n as int) =~= names);
    out
}

/// The indices of the entries of a newest-first listing beyond the first `MAX_SNAPSHOTS`.
pub open spec fn pruned(listed: Seq<(u64, u64, usize)>) -> Seq<usize> {
    if listed.len() > MAX_SNAPSHOTS {
        listed.skip(MAX_SNAPSHOTS as int).map_values(|e: (u64, u64, usize)| e.2)
    } else {
        Seq::empty()
    }
}

/// The indices of the listed snapshots beyond the newest `MAX_SNAPSHOTS`, which are deleted.
pub fn prune_victims(listed: &[(u64, u64, usize)]) -> (out: Vec<usize>)
    ensures
        out@ == pruned(listed@),
{
    let mut out: Vec<usize> = Vec::new();
    let n = listed.len();
    if n <= MAX_SNAPSHOTS {
        return out;
    }
    let mut i: usize = MAX_SNAPSHOTS;
    while i < n
        invariant
            n == listed@.len(),
            MAX_SNAPSHOTS <= i <= n,
            out@ =~= listed@.subrange(MAX_SNAPSHOTS as int, i as int).map_values(
                |e: (u64, u64, usize)| e.2,
            ),
        decreases n - i,
    {
        out.push(listed[i].2);
        i = i + 1;
    }
    assert(listed@.subrange(MAX_SNAPSHOTS as int, n as int) =~= listed@.skip(MAX_SNAPSHOTS as int));
    out
}

fn clone_folders(v: &Vec<FolderStats>) -> (out: Vec<FolderStats>)
    ensures
        folders_view(out@) == folders_view(v@),
{
    let mut out: Vec<FolderStats> = Vec::new();
    let mut i: usize = 0;
    while i < v.len()
        invariant
            0 <= i <= v@.len(),
            folders_view(out@) =~= folders_view(v@).take(i as int),
        decreases v@.len() - i,
    {
        let ghost before = folders_view(out@);
        out.push(v[i].clone());
        assert(folders_view(out@) =~= before.push(v@[i as int]@));
        i = i + 1;
    }
    assert(folders_view(v@).take(v@.len() as int) =~= folders_view(v@));
    out
}

impl Snapshot {
    /// What is kept of a scan, stamped `scanned_at`.
    pub fn from_disk_at(s: &DiskSnapshot, scanned_at: u64) -> (out: Snapshot)
        ensures
            out.drive@ == s.drive@,
            out.total_bytes == s.total_bytes,
            out.free_bytes == s.free_bytes,
            out.files_scanned == s.files_scanned,
            folders_view(out.folders@) == folders_view(s.folders@),
            out.scanned_at == scanned_at,
    {
        Snapshot {
            drive: s.drive.clone(),
            total_bytes: s.total_bytes,
            free_bytes: s.free_bytes,
            files_scanned: s.files_scanned,
            folders: clone_folders(&s.folders),
            scanned_at,
        }
    }

    /// What is kept of a scan, stamped with the system clock.
    pub fn from_disk(s: &DiskSnapshot) -> (out: Snapshot)
        ensures
            out.drive@ == s.drive@,
            out.total_bytes == s.total_bytes,
            out.free_bytes == s.free_bytes,
            out.files_scanned == s.files_scanned,
            folders_view(out.folders@) == folders_view(s.folders@),
    {
        Self::from_disk_at(s, now_secs())
    }
}

/// What saving a scan at second `ts` writes: `None` for a scan without folders, else the file
/// name `<key>_<ts>_<files_scanned>.bin` and the snapshot, stamped `ts`, to store under it.
pub fn save_plan_at(snap: &DiskSnapshot, ts: u64) -> (out: Option<(String, Snapshot)>)
    ensures
        out is None <==> snap.folders@.len() == 0,
        out matches Some((name, s)) ==> {
            &&& name@ == snapshot_name(snap.drive@, ts as nat, snap.files_scanned as nat)
            &&& s.scanned_at == ts
            &&& s.drive@ == snap.drive@
            &&& s.total_bytes == snap.total_bytes
            &&& s.free_bytes == snap.free_bytes
            &&& s.files_scanned == snap.files_scanned
            &&& folders_view(s.folders@) == folders_view(snap.folders@)
        },
{
    if snap.folders.len() == 0 {
        return None;
    }
    let name = snapshot_file_name(snap.drive.as_str(), ts, snap.files_scanned);
    let s = Snapshot::from_disk_at(snap, ts);
    Some((name, s))
}

/// What saving a scan writes, stamped with the clock: `save_plan_at` at the second it reads.
/// The name's timestamp is the stored snapshot's.
pub fn save_plan(snap: &DiskSnapshot) -> (out: Option<(String, Snapshot)>)
    ensures
        out is None <==> snap.folders@.len() == 0,
        out matches Some((name, s)) ==> {
            &&& exists|ts: u64| #[trigger] snapshot_name(snap.drive@, ts as nat, snap.files_scanned as nat) == name@
            &&& name@ == snapshot_name(snap.drive@, s.scanned_at as nat, snap.files_scanned as nat)
            &&& s.drive@ == snap.drive@
            &&& s.total_bytes == snap.total_bytes
            &&& s.free_bytes == snap.free_bytes
            &&& s.files_scanned == snap.files_scanned
            &&& folders_view(s.folders@) == folders_view(snap.folders@)
        },
{
    let ts = now_secs();
    let out = save_plan_at(snap, ts);
    if let Some((name, s)) = &out {
        assert(snapshot_name(snap.drive@, ts as nat, snap.files_scanned as nat) == name@);
    }
    out
}


proof fn lemma_no_char(s: Seq<char>, c: char)
    requires
        all_digits(s),
        !is_digit(c),
    ensures
        forall|i: int| 0 <= i < s.len() ==> s[i] != c,
{
}

/// A snapshot's file name reads back, for the same drive, as the timestamp and file count it
/// was made from.
pub proof fn law_snapshot_name_round_trip(drive: Seq<char>, scanned_at: u64, files_scanned: u64)
    ensures
        parse_snapshot_name(snapshot_name(drive, scanned_at as nat, files_scanned as nat), spec_drive_key(drive))
            == Some((scanned_at, files_scanned)),
{
    let key = spec_drive_key(drive);
    let d1 = decimal(scanned_at as nat);
    let d2 = decimal(files_scanned as nat);
    lemma_decimal_digits(scanned_at as nat);
    lemma_decimal_digits(files_scanned as nat);
    law_decimal_round_trip(scanned_at);
    law_decimal_round_trip(files_scanned);
    let stem = key + seq!['_'] + d1 + seq!['_'] + d2;
    let name = snapshot_name(drive, scanned_at as nat, files_scanned as nat);
    assert(name =~= stem.push('.').push('b').push('i').push('n'));
    assert(name.drop_last() =~= stem.push('.').push('b').push('i'));
    assert(name.drop_last().drop_last() =~= stem.push('.').push('b'));
    assert(name.drop_last().drop_last().drop_last() =~= stem.push('.'));
    let n1 = name.drop_last();
    let n2 = n1.drop_last();
    let n3 = n2.drop_last();
    assert(name.last() == 'n');
    assert(n1.last() == 'i');
    assert(n2.last() == 'b');
    assert(n3.last() == '.');
    assert(last_index(n3, '.') == stem.len());
    assert(last_index(n2, '.') == last_index(n3, '.'));
    assert(last_index(n1, '.') == last_index(n2, '.'));
    assert(last_index(name, '.') == stem.len());
    assert(name != seq!['.', '.']) by {
        assert(name.len() != 2);
    }
    assert(name.take(stem.len() as int) =~= stem);
    assert(name.skip(stem.len() as int + 1) =~= seq!['b', 'i', 'n']);
    let prefix = key.push('_');
    assert(stem.take(prefix.len() as int) =~= prefix);
    let rest = stem.skip(prefix.len() as int);
    assert(rest =~= d1 + seq!['_'] + d2);
    lemma_no_char(d1, '_');
    assert forall|i: int| 0 <= i < d1.len() implies rest[i] != '_' by {
        assert(rest[i] == d1[i]);
    }
    assert(rest[d1.len() as int] == '_');
    lemma_first_index_at(rest, '_', d1.len() as int);
    assert(rest.take(d1.len() as int) =~= d1);
    assert(rest.skip(d1.len() as int + 1) =~= d2);
}

/// Entries listed newest first are in non-increasing timestamp order.
pub open spec fn newest_first_ordered(s: Seq<(u64, u64, usize)>) -> bool {
    forall|i: int, j: int| 0 <= i < j < s.len() ==> (#[trigger] s[i]).0 >= (#[trigger] s[j]).0
}

proof fn lemma_insert_pos_props(s: Seq<(u64, u64, usize)>, t: u64)
    ensures
        0 <= insert_pos(s, t) <= s.len(),
        forall|i: int| 0 <= i < insert_pos(s, t) ==> (#[trigger] s[i]).0 >= t,
        insert_pos(s, t) < s.len() ==> s[insert_pos(s, t)].0 < t,
    decreases s.len(),
{
    if s.len() > 0 && s[0].0 >= t {
        lemma_insert_pos_props(s.drop_first(), t);
        assert forall|i: int| 0 <= i < insert_pos(s, t) implies (#[trigger] s[i]).0 >= t by {
            if i > 0 {
                assert(s[i] == s.drop_first()[i - 1]);
            }
        }
    }
}

/// The listing is newest first, and holds each of the drive's snapshots exactly as often as
/// the names do.
pub proof fn law_listing_is_sorted_permutation(s: Seq<(u64, u64, usize)>)
    ensures
        newest_first_ordered(newest_first(s)),
        newest_first(s).to_multiset() == s.to_multiset(),
    decreases s.len(),
{
    broadcast use vstd::seq_lib::group_to_multiset_ensures;

    if s.len() > 0 {
        let pre = s.drop_last();
        law_listing_is_sorted_permutation(pre);
        let r = newest_first(pre);
        let x = s.last();
        lemma_insert_pos_props(r, x.0);
        let p = insert_pos(r, x.0);
        let t = r.insert(p, x);
        assert forall|i: int, j: int| 0 <= i < j < t.len() implies (#[trigger] t[i]).0 >= (#[trigger] t[j]).0 by {
            if j < p {
                assert(t[i] == r[i] && t[j] == r[j]);
            } else if j == p {
                assert(t[i] == r[i]);
            } else if i < p {
                assert(t[i] == r[i] && t[j] == r[j - 1]);
                assert(r[p].0 < x.0);
                if j - 1 > p {
                    assert(r[p].0 >= r[j - 1].0);
                }
            } else if i == p {
                assert(t[j] == r[j - 1]);
                assert(r[p].0 < x.0);
                if j - 1 > p {
                    assert(r[p].0 >= r[j - 1].0);
                }
            } else {
                assert(t[i] == r[i - 1] && t[j] == r[j - 1]);
            }
        }
        assert(pre.push(x) =~= s);
    }
}

/// Pruning deletes only snapshots that are at most as new as every snapshot it keeps, and
/// keeps the `MAX_SNAPSHOTS` newest.
pub proof fn law_prune_keeps_the_newest(listed: Seq<(u64, u64, usize)>)
    requires
        newest_first_ordered(listed),
    ensures
        forall|k: int, v: int|
            0 <= k < MAX_SNAPSHOTS && MAX_SNAPSHOTS <= v < listed.len() ==> (#[trigger] listed[k]).0 >= (#[trigger] listed[v]).0,
{
}


proof fn lemma_without_colons(s: Seq<char>)
    ensures
        forall|i: int| 0 <= i < without_colons(s).len() ==> #[trigger] without_colons(s)[i] != ':',
    decreases s.len(),
{
    if s.len() > 0 {
        let r = without_colons(s.drop_last());
        lemma_without_colons(s.drop_last());
        assert forall|i: int| 0 <= i < without_colons(s).len() implies #[trigger] without_colons(s)[i] != ':' by {
            if i < r.len() {
                assert(without_colons(s)[i] == r[i]);
            }
        }
    }
}

/// A drive key holds no colon.
pub proof fn law_drive_key_has_no_colon(drive: Seq<char>)
    ensures
        forall|i: int| 0 <= i < spec_drive_key(drive).len() ==> #[trigger] spec_drive_key(drive)[i] != ':',
{
    lemma_without_colons(trim_backslashes(drive));
}


/// The file names that the entries of a listing point to.
pub open spec fn listed_names(names: Seq<Seq<char>>, listing: Seq<(u64, u64, usize)>) -> Seq<Seq<char>> {
    listing.map_values(|e: (u64, u64, usize)| names[e.2 as int])
}

/// The first `n` entries of `s`, or all of them when there are fewer.
pub open spec fn at_most(s: Seq<(u64, u64, usize)>, n: int) -> Seq<(u64, u64, usize)> {
    if s.len() > n {
        s.take(n)
    } else {
        s
    }
}

proof fn lemma_parsed_entries(names: Seq<Seq<char>>, key: Seq<char>)
    requires
        names.len() <= usize::MAX,
    ensures
        forall|i: int|
            0 <= i < parsed_names(names, key).len() ==> {
                let e = #[trigger] parsed_names(names, key)[i];
                &&& 0 <= e.2 < names.len()
                &&& parse_snapshot_name(names[e.2 as int], key) == Some((e.0, e.1))
            },
    decreases names.len(),
{
    if names.len() > 0 {
        let pre = names.drop_last();
        lemma_parsed_entries(pre, key);
        let r = parsed_names(pre, key);
        assert forall|i: int| 0 <= i < parsed_names(names, key).len() implies {
            let e = #[trigger] parsed_names(names, key)[i];
            &&& 0 <= e.2 < names.len()
            &&& parse_snapshot_name(names[e.2 as int], key) == Some((e.0, e.1))
        } by {
            if i < r.len() {
                assert(parsed_names(names, key)[i] == r[i]);
                assert(names[r[i].2 as int] == pre[r[i].2 as int]);
            } else {
                assert(names[names.len() - 1] == names.last());
            }
        }
    }
}

/// Saving a snapshot of `drive` stamped `ts`, later than every snapshot of the drive already
/// among the folder's `names`, adds the file `snapshot_name(drive, ts, fc)`. The listing then
/// is the new snapshot followed by the earlier listing; pruning deletes exactly the earlier
/// snapshots beyond the newest nine, all of them files of this drive and none the new one; so
/// what stays of the drive is the new snapshot and the nine newest before it.
pub proof fn law_save_keeps_new_and_nine_newest(names: Seq<Seq<char>>, drive: Seq<char>, ts: u64, fc: u64)
    requires
        names.len() < usize::MAX,
        forall|i: int|
            0 <= i < newest_first(parsed_names(names, spec_drive_key(drive))).len() ==> (#[trigger] newest_first(
                parsed_names(names, spec_drive_key(drive)),
            )[i]).0 < ts,
    ensures
        ({
            let key = spec_drive_key(drive);
            let before = newest_first(parsed_names(names, key));
            let after = names.push(snapshot_name(drive, ts as nat, fc as nat));
            let listing = newest_first(parsed_names(after, key));
            &&& listing == seq![(ts, fc, names.len() as usize)] + before
            &&& pruned(listing) == (if before.len() > MAX_SNAPSHOTS - 1 {
                before.skip(MAX_SNAPSHOTS - 1).map_values(|e: (u64, u64, usize)| e.2)
            } else {
                Seq::empty()
            })
            &&& (forall|j: int|
                0 <= j < pruned(listing).len() ==> {
                    let v = #[trigger] pruned(listing)[j];
                    &&& v < names.len()
                    &&& parse_snapshot_name(after[v as int], key) is Some
                })
            &&& listed_names(after, at_most(listing, MAX_SNAPSHOTS as int)) == seq![
                snapshot_name(drive, ts as nat, fc as nat),
            ] + listed_names(names, at_most(before, MAX_SNAPSHOTS - 1))
        }),
{
    let key = spec_drive_key(drive);
    let name = snapshot_name(drive, ts as nat, fc as nat);
    let before = newest_first(parsed_names(names, key));
    let after = names.push(name);
    law_snapshot_name_round_trip(drive, ts, fc);
    assert(after.drop_last() =~= names);
    assert(parsed_names(after, key) == parsed_names(names, key).push((ts, fc, names.len() as usize)));
    assert(parsed_names(after, key).drop_last() =~= parsed_names(names, key));
    let x = (ts, fc, names.len() as usize);
    lemma_insert_pos_at(before, ts, 0);
    let listing = newest_first(parsed_names(after, key));
    assert(listing == before.insert(0, x));
    assert(listing =~= seq![x] + before);
    if before.len() > MAX_SNAPSHOTS - 1 {
        assert(pruned(listing) =~= before.skip(MAX_SNAPSHOTS - 1).map_values(|e: (u64, u64, usize)| e.2));
    } else {
        assert(pruned(listing) =~= Seq::<usize>::empty());
    }
    lemma_parsed_entries(names, key);
    law_listing_is_sorted_permutation(parsed_names(names, key));
    broadcast use vstd::seq_lib::group_to_multiset_ensures;
    assert forall|j: int| 0 <= j < pruned(listing).len() implies {
        let v = #[trigger] pruned(listing)[j];
        &&& v < names.len()
        &&& parse_snapshot_name(after[v as int], key) is Some
    } by {
        let e = before[j + MAX_SNAPSHOTS - 1];
        assert(pruned(listing)[j] == listing[j + MAX_SNAPSHOTS].2);
        assert(listing[j + MAX_SNAPSHOTS] == e);
        assert(before.contains(e));
        assert(parsed_names(names, key).to_multiset().count(e) > 0);
        assert(parsed_names(names, key).contains(e));
        let q = choose|q: int| 0 <= q < parsed_names(names, key).len() && parsed_names(names, key)[q] == e;
        assert(after[e.2 as int] == names[e.2 as int]);
    }
    let kept = at_most(listing, MAX_SNAPSHOTS as int);
    let kb = at_most(before, MAX_SNAPSHOTS - 1);
    assert(kept =~= seq![x] + kb);
    assert forall|i: int| 0 <= i < kb.len() implies after[(#[trigger] kb[i]).2 as int] == names[kb[i].2 as int] by {
        let e = kb[i];
        assert(e == before[i]);
        assert(before.contains(e));
        assert(parsed_names(names, key).to_multiset().count(e) > 0);
        assert(parsed_names(names, key).contains(e));
        let q = choose|q: int| 0 <= q < parsed_names(names, key).len() && parsed_names(names, key)[q] == e;
    }
    assert(listed_names(after, kept) =~= seq![name] + listed_names(names, kb));
}

} // verus!

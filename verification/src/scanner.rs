use vstd::prelude::*;
use std::collections::HashMap;

use crate::history::trim_backslashes;
use crate::paths::{chars_of, string_from_chars};
use crate::types::FileNode;

verus! {

broadcast use vstd::std_specs::hash::group_hash_axioms;

/// A message from the scanning thread.
pub enum ScanMsg {
    Batch(Vec<FileNode>),
    Done,
}

/// Size in bytes of the fixed part of a USN_RECORD_V2.
pub const USN_RECORD_HEADER: usize = 64;

/// One entry of the master file table, keyed elsewhere by its file reference number.
#[derive(Debug)]
pub struct FrnEntry {
    pub name: String,
    pub parent_frn: u64,
    pub is_dir: bool,
    /// Last change, in whole seconds since the Unix epoch.
    pub modified: u64,
}

pub struct FrnView {
    pub name: Seq<char>,
    pub parent_frn: u64,
    pub is_dir: bool,
    pub modified: u64,
}

impl View for FrnEntry {
    type V = FrnView;

    open spec fn view(&self) -> FrnView {
        FrnView { name: self.name@, parent_frn: self.parent_frn, is_dir: self.is_dir, modified: self.modified }
    }
}

pub open spec fn table_view(m: Map<u64, FrnEntry>) -> Map<u64, FrnView> {
    m.map_values(|e: FrnEntry| e@)
}

pub open spec fn pow256(n: nat) -> nat
    decreases n,
{
    if n == 0 {
        1
    } else {
        256 * pow256((n - 1) as nat)
    }
}

/// The little-endian number in bytes `b[i..i + n]`.
pub open spec fn le(b: Seq<u8>, i: int, n: nat) -> nat
    decreases n,
{
    if n == 0 {
        0
    } else {
        b[i] as nat + 256 * le(b, i + 1, (n - 1) as nat)
    }
}

proof fn lemma_le_bound(b: Seq<u8>, i: int, n: nat)
    ensures
        le(b, i, n) < pow256(n),
    decreases n,
{
    if n > 0 {
        lemma_le_bound(b, i + 1, (n - 1) as nat);
    }
}

proof fn lemma_pow256_8()
    ensures
        pow256(8) == 0x1_0000_0000_0000_0000,
{
    reveal_with_fuel(pow256, 9);
}

proof fn lemma_le_small(b: Seq<u8>, i: int)
    ensures
        le(b, i, 2) < 0x1_0000,
        le(b, i, 4) < 0x1_0000_0000,
{
    reveal_with_fuel(pow256, 5);
    lemma_le_bound(b, i, 2);
    lemma_le_bound(b, i, 4);
}

proof fn lemma_pow256_mono(a: nat, c: nat)
    requires
        a <= c,
    ensures
        pow256(a) <= pow256(c),
    decreases c,
{
    if a < c {
        lemma_pow256_mono(a, (c - 1) as nat);
    }
}

/// Reads the little-endian number of `n` bytes at `i`.
pub fn read_le(buf: &[u8], i: usize, n: usize) -> (v: u64)
    requires
        n <= 8,
        i + n <= buf@.len(),
    ensures
        v == le(buf@, i as int, n as nat),
{
    let blen = buf.len();
    let mut acc: u64 = 0;
    let mut k: usize = n;
    proof {
        lemma_pow256_8();
    }
    while k > 0
        invariant
            n <= 8,
            i + n <= buf@.len(),
            blen == buf@.len(),
            0 <= k <= n,
            acc == le(buf@, i + k, (n - k) as nat),
            pow256(8) == 0x1_0000_0000_0000_0000,
        decreases k,
    {
        proof {
            lemma_le_bound(buf@, i + k, (n - k) as nat);
            lemma_pow256_mono((n - k + 1) as nat, 8);
        }
        let byte = buf[i + k - 1];
        acc = acc * 256 + byte as u64;
        k = k - 1;
    }
    acc
}

/// std's UTF-16 decoding with U+FFFD in place of each unpaired surrogate.
pub open spec fn decode_utf16_lossy(u: Seq<u16>) -> Seq<char>
    decreases u.len(),
{
    if u.len() == 0 {
        Seq::empty()
    } else if u[0] < 0xD800 || u[0] > 0xDFFF {
        seq![u[0] as char] + decode_utf16_lossy(u.drop_first())
    } else if u[0] <= 0xDBFF && u.len() >= 2 && 0xDC00 <= u[1] <= 0xDFFF {
        seq![(0x10000 + (u[0] - 0xD800) * 0x400 + (u[1] - 0xDC00)) as char]
            + decode_utf16_lossy(u.subrange(2, u.len() as int))
    } else {
        seq!['\u{FFFD}'] + decode_utf16_lossy(u.drop_first())
    }
}

/// `String::from_utf16_lossy`: decodes UTF-16 code units, each unpaired surrogate becoming
/// U+FFFD, as its documentation states.
#[verifier::external_body]
fn utf16_lossy(units: &[u16]) -> (s: String)
    ensures
        s@ == decode_utf16_lossy(units@),
{
    String::from_utf16_lossy(units)
}

/// Seconds since the Unix epoch of a FILETIME (100 ns ticks since 1601), 0 for times
/// before 1970; `raw` holds the FILETIME's 64 bits.
pub open spec fn filetime_secs(raw: u64) -> u64 {
    if raw / 10_000_000 >= 11_644_473_600 {
        (raw / 10_000_000 - 11_644_473_600) as u64
    } else {
        0
    }
}

/// Converts a FILETIME to whole seconds since the Unix epoch, clamping earlier times to 0.
pub fn filetime_to_unix_secs(ft: i64) -> (secs: u64)
    ensures
        secs == filetime_secs(ft as u64),
{
    filetime_bits_to_unix_secs(ft as u64)
}

fn filetime_bits_to_unix_secs(raw: u64) -> (secs: u64)
    ensures
        secs == filetime_secs(raw),
{
    let ticks = raw / 10_000_000;
    ticks.saturating_sub(11_644_473_600)
}

pub open spec fn rec_len(b: Seq<u8>, off: int) -> nat {
    le(b, off, 4)
}

pub open spec fn name_bytes(b: Seq<u8>, off: int) -> nat {
    le(b, off + 56, 2)
}

pub open spec fn name_offset(b: Seq<u8>, off: int) -> nat {
    le(b, off + 58, 2)
}

/// The record at `off` carries a file name that lies within the valid bytes.
pub open spec fn name_fits(b: Seq<u8>, valid: int, off: int) -> bool {
    &&& off + name_offset(b, off) + name_bytes(b, off) <= valid
    &&& name_bytes(b, off) / 2 > 0
}

/// The UTF-16 code units of the name of the record at `off`.
pub open spec fn name_units(b: Seq<u8>, off: int) -> Seq<u16> {
    Seq::new(
        name_bytes(b, off) / 2,
        |k: int| le(b, off + name_offset(b, off) + 2 * k, 2) as u16,
    )
}

/// The entry that the record at `off` describes.
pub open spec fn record_entry(b: Seq<u8>, off: int) -> FrnView {
    FrnView {
        name: decode_utf16_lossy(name_units(b, off)),
        parent_frn: le(b, off + 16, 8) as u64,
        is_dir: (le(b, off + 52, 4) as u32) & 0x10u32 != 0,
        modified: filetime_secs(le(b, off + 32, 8) as u64),
    }
}

pub open spec fn remaining(valid: int, off: int) -> int {
    if valid >= off {
        valid - off
    } else {
        0
    }
}

/// The table after the records from `off` on are added to `m`: a record needs its fixed
/// part within `valid` bytes and a length of at least that part, else the walk stops; a record
/// whose name does not fit is skipped; a later record of the same number replaces an earlier one.
pub open spec fn usn_entries(b: Seq<u8>, valid: int, off: int, m: Map<u64, FrnView>) -> Map<u64, FrnView>
    decreases remaining(valid, off),
{
    if off + 64 > valid || rec_len(b, off) < 64 {
        m
    } else {
        let m2 = if name_fits(b, valid, off) {
            m.insert(le(b, off + 8, 8) as u64, record_entry(b, off))
        } else {
            m
        };
        usn_entries(b, valid, off + rec_len(b, off), m2)
    }
}

fn read_name(buf: &[u8], valid: usize, off: usize) -> (s: String)
    requires
        valid <= buf@.len(),
        off + 64 <= valid,
        name_fits(buf@, valid as int, off as int),
    ensures
        s@ == decode_utf16_lossy(name_units(buf@, off as int)),
{
    let nb = read_le(buf, off + 56, 2) as usize;
    let no = read_le(buf, off + 58, 2) as usize;
    let len = nb / 2;
    let start = off + no;
    let mut units: Vec<u16> = Vec::new();
    let mut k: usize = 0;
    while k < len
        invariant
            valid <= buf@.len(),
            nb == name_bytes(buf@, off as int),
            no == name_offset(buf@, off as int),
            len == nb / 2,
            start == off + no,
            start + nb <= valid,
            0 <= k <= len,
            units@ =~= name_units(buf@, off as int).take(k as int),
        decreases len - k,
    {
        let u = read_le(buf, start + 2 * k, 2) as u16;
        units.push(u);
        k = k + 1;
    }
    assert(units@ =~= name_units(buf@, off as int));
    utf16_lossy(units.as_slice())
}

/// Adds the records of one buffer returned by FSCTL_ENUM_USN_DATA to `entries` and returns
/// the file reference number to resume from, which the buffer's first 8 bytes hold.
/// `valid` is the number of bytes the call returned.
pub fn absorb_usn_batch(entries: &mut HashMap<u64, FrnEntry>, buf: &[u8], valid: usize) -> (next_start: u64)
    requires
        8 <= valid <= buf@.len(),
    ensures
        next_start == le(buf@, 0, 8),
        table_view(final(entries)@) == usn_entries(buf@, valid as int, 8, table_view(old(entries)@)),
{
    let next_start = read_le(buf, 0, 8);
    let ghost target = usn_entries(buf@, valid as int, 8, table_view(entries@));
    let mut off: usize = 8;
    while off <= valid && valid - off >= USN_RECORD_HEADER
        invariant
            valid <= buf@.len(),
            usn_entries(buf@, valid as int, off as int, table_view(entries@)) == target,
        decreases remaining(valid as int, off as int),
    {
        proof {
            lemma_le_small(buf@, off as int);
            lemma_le_small(buf@, off + 56);
            lemma_le_small(buf@, off + 58);
            lemma_le_small(buf@, off + 52);
        }
        let len = read_le(buf, off, 4) as usize;
        let ghost m_old = table_view(entries@);
        assert(len == rec_len(buf@, off as int));
        if len < USN_RECORD_HEADER {
            assert(usn_entries(buf@, valid as int, off as int, m_old) == m_old);
            assert(usn_entries(buf@, valid as int, valid as int, m_old) == m_old);
            off = valid;
        } else {
            let nb = read_le(buf, off + 56, 2) as usize;
            let no = read_le(buf, off + 58, 2) as usize;
            let fits = no <= valid - off && nb <= valid - off - no && nb / 2 > 0;
            assert(fits == name_fits(buf@, valid as int, off as int));
            let ghost key = le(buf@, off + 8, 8) as u64;
            let ghost m2 = if fits {
                m_old.insert(key, record_entry(buf@, off as int))
            } else {
                m_old
            };
            assert(usn_entries(buf@, valid as int, off as int, m_old) == usn_entries(
                buf@,
                valid as int,
                off + len,
                m2,
            ));
            if fits {
                let name = read_name(buf, valid, off);
                let frn = read_le(buf, off + 8, 8);
                let parent = read_le(buf, off + 16, 8);
                let stamp = read_le(buf, off + 32, 8);
                let attrs = read_le(buf, off + 52, 4) as u32;
                let entry = FrnEntry {
                    name,
                    parent_frn: parent,
                    is_dir: attrs & 0x10u32 != 0,
                    modified: filetime_bits_to_unix_secs(stamp),
                };
                assert(entry@ == record_entry(buf@, off as int));
                entries.insert(frn, entry);
                assert(table_view(entries@) =~= m2);
            }
            assert(table_view(entries@) == m2);
            if len > valid - off {
                assert(usn_entries(buf@, valid as int, off + len, m2) == m2);
                assert(usn_entries(buf@, valid as int, valid as int, m2) == m2);
                off = valid;
            } else {
                off = off + len;
            }
        }
    }
    next_start
}

/// The walk from `cur` toward the root, at most `fuel` steps: the names met, leaf first.
/// `None` when an entry on the way is missing; the walk stops at the root, whose parent is
/// itself.
pub open spec fn walk(m: Map<u64, FrnView>, cur: u64, fuel: nat) -> Option<Seq<Seq<char>>>
    decreases fuel,
{
    if fuel == 0 {
        Some(Seq::empty())
    } else if !m.contains_key(cur) {
        None
    } else if m[cur].parent_frn == cur {
        Some(Seq::empty())
    } else {
        match walk(m, m[cur].parent_frn, (fuel - 1) as nat) {
            None => None,
            Some(rest) => Some(seq![m[cur].name] + rest),
        }
    }
}

/// The path components of `frn`, root first, within 64 levels; `None` when an entry is
/// missing or the path has no component.
pub open spec fn resolved(m: Map<u64, FrnView>, frn: u64) -> Option<Seq<Seq<char>>> {
    match walk(m, frn, 64) {
        None => None,
        Some(p) => if p.len() == 0 {
            None
        } else {
            Some(p.reverse())
        },
    }
}

pub open spec fn strings_view(v: Seq<String>) -> Seq<Seq<char>> {
    v.map_values(|s: String| s@)
}

/// The components of the path of `frn`, from below the drive root down to the entry itself,
/// found by following parent numbers through `map`.
pub fn resolve_path(frn: u64, map: &HashMap<u64, FrnEntry>) -> (out: Option<Vec<String>>)
    ensures
        match out {
            Some(v) => resolved(table_view(map@), frn) == Some(strings_view(v@)),
            None => resolved(table_view(map@), frn) is None,
        },
{
    let ghost m = table_view(map@);
    let mut parts: Vec<String> = Vec::new();
    let mut cur = frn;
    let mut steps: usize = 0;
    let mut at_root = false;
    while steps < 64 && !at_root
        invariant
            m == table_view(map@),
            0 <= steps <= 64,
            walk(m, frn, 64) == match walk(m, cur, (64 - steps) as nat) {
                None => None,
                Some(r) => Some(strings_view(parts@) + r),
            },
            at_root ==> walk(m, cur, (64 - steps) as nat) == Some(Seq::<Seq<char>>::empty()),
        decreases 64 - steps, if at_root { 0int } else { 1int },
    {
        let entry = match map.get(&cur) {
            Some(e) => e,
            None => {
                return None;
            },
        };
        if entry.parent_frn == cur {
            assert(m[cur] == entry@);
            at_root = true;
        } else {
            let ghost before = parts@;
            parts.push(entry.name.clone());
            assert(strings_view(parts@) =~= strings_view(before).push(entry.name@));
            assert(m[cur] == entry@);
            proof {
                let r = walk(m, entry.parent_frn, (64 - steps - 1) as nat);
                if r is Some {
                    assert(strings_view(before) + (seq![entry.name@] + r->0) =~= strings_view(
                        parts@,
                    ) + r->0);
                }
            }
            cur = entry.parent_frn;
            steps = steps + 1;
        }
    }
    assert(strings_view(parts@) + Seq::<Seq<char>>::empty() =~= strings_view(parts@));
    assert(walk(m, frn, 64) == Some(strings_view(parts@)));
    let n = parts.len();
    if n == 0 {
        return None;
    }
    let mut out: Vec<String> = Vec::new();
    let mut k: usize = n;
    while k > 0
        invariant
            0 <= k <= n,
            n == parts@.len(),
            strings_view(out@) =~= strings_view(parts@).reverse().take((n - k) as int),
        decreases k,
    {
        let ghost before = out@;
        out.push(parts[k - 1].clone());
        assert(strings_view(out@) =~= strings_view(before).push(parts@[k - 1]@));
        assert(strings_view(parts@).reverse()[n - k] == parts@[k - 1]@);
        k = k - 1;
    }
    assert(strings_view(out@) =~= strings_view(parts@).reverse());
    Some(out)
}

/// Files sent per batch message.
pub const BATCH_FILES: usize = 256;

/// The full path of an entry: the drive root without its trailing backslashes, then each
/// component after a backslash.
pub open spec fn joined_path(drive: Seq<char>, parts: Seq<Seq<char>>) -> Seq<char>
    decreases parts.len(),
{
    if parts.len() == 0 {
        trim_backslashes(drive)
    } else {
        joined_path(drive, parts.drop_last()) + seq!['\\'] + parts.last()
    }
}

/// The full path of an entry whose components `resolve_path` gave, on drive `drive` (`C:\`).
pub fn full_path(drive: &str, parts: &[String]) -> (out: String)
    ensures
        out@ == joined_path(drive@, strings_view(parts@)),
{
    let cs = chars_of(drive);
    let mut e = cs.len();
    assert(cs@.take(e as int) =~= cs@);
    while e > 0 && cs[e - 1] == '\\'
        invariant
            e <= cs@.len(),
            trim_backslashes(cs@) == trim_backslashes(cs@.take(e as int)),
        decreases e,
    {
        assert(cs@.take(e as int).drop_last() =~= cs@.take(e - 1));
        e = e - 1;
    }
    let mut out: Vec<char> = Vec::new();
    let mut i: usize = 0;
    while i < e
        invariant
            e <= cs@.len(),
            0 <= i <= e,
            out@ == cs@.take(i as int),
        decreases e - i,
    {
        out.push(cs[i]);
        assert(out@ =~= cs@.take(i + 1));
        i = i + 1;
    }
    assert(trim_backslashes(cs@.take(e as int)) == cs@.take(e as int));
    let ghost ps = strings_view(parts@);
    let mut k: usize = 0;
    while k < parts.len()
        invariant
            ps == strings_view(parts@),
            0 <= k <= parts@.len(),
            out@ == joined_path(drive@, ps.take(k as int)),
        decreases parts@.len() - k,
    {
        assert(ps.take(k + 1).drop_last() =~= ps.take(k as int));
        let pc = chars_of(parts[k].as_str());
        out.push('\\');
        let ghost base = out@;
        let mut t: usize = 0;
        while t < pc.len()
            invariant
                0 <= t <= pc@.len(),
                out@ == base + pc@.take(t as int),
            decreases pc@.len() - t,
        {
            out.push(pc[t]);
            assert(out@ =~= base + pc@.take(t + 1));
            t = t + 1;
        }
        assert(pc@.take(pc@.len() as int) =~= pc@);
        assert(ps.take(k + 1).last() == parts@[k as int]@);
        k = k + 1;
    }
    assert(ps.take(parts@.len() as int) =~= ps);
    string_from_chars(out.as_slice(), 0, out.len())
}

/// The master file table being read through FSCTL_ENUM_USN_DATA, buffer by buffer.
pub struct FrnTable {
    pub entries: HashMap<u64, FrnEntry>,
    /// The file reference number from which the next call enumerates.
    pub next_start: u64,
}

impl FrnTable {
    /// An empty table that starts the enumeration at number 0.
    pub fn new() -> (t: FrnTable)
        ensures
            t.entries@ == Map::<u64, FrnEntry>::empty(),
            t.next_start == 0,
    {
        FrnTable { entries: HashMap::new(), next_start: 0 }
    }

    /// Takes the outcome of one enumeration call: whether it succeeded, its buffer and the
    /// number of bytes it returned. Returns whether to call again; a failed call or one that
    /// returned fewer than 8 bytes ends the enumeration and changes nothing.
    pub fn absorb(&mut self, call_ok: bool, buf: &[u8], bytes_returned: u32) -> (more: bool)
        requires
            bytes_returned <= buf@.len(),
        ensures
            more == (call_ok && bytes_returned >= 8),
            more ==> final(self).next_start == le(buf@, 0, 8) && table_view(final(self).entries@)
                == usn_entries(buf@, bytes_returned as int, 8, table_view(old(self).entries@)),
            !more ==> final(self).next_start == old(self).next_start && final(self).entries@
                == old(self).entries@,
    {
        if !call_ok || bytes_returned < 8 {
            return false;
        }
        let next = absorb_usn_batch(&mut self.entries, buf, bytes_returned as usize);
        self.next_start = next;
        true
    }

    /// The finished table, or an error when the enumeration found no entry at all.
    pub fn finish(self) -> (out: Result<HashMap<u64, FrnEntry>, String>)
        ensures
            match out {
                Ok(m) => m@ == self.entries@ && self.entries@.len() > 0,
                Err(e) => self.entries@.len() == 0 && e@ == "MFT enumeration returned no entries"@,
            },
    {
        if self.entries.is_empty() {
            proof {
                broadcast use vstd::string::to_string_from_display_ensures_for_str;
            }
            return Err("MFT enumeration returned no entries".to_string());
        }
        assert(self.entries@.dom().finite());
        assert(self.entries@.len() > 0) by {
            if self.entries@.len() == 0 {
                self.entries@.dom().lemma_len0_is_empty();
                assert(self.entries@ =~= Map::<u64, FrnEntry>::empty());
            }
        }
        Ok(self.entries)
    }
}


proof fn lemma_walk_len(m: Map<u64, FrnView>, cur: u64, fuel: nat)
    ensures
        walk(m, cur, fuel) matches Some(p) ==> p.len() <= fuel,
    decreases fuel,
{
    if fuel > 0 && m.contains_key(cur) && m[cur].parent_frn != cur {
        lemma_walk_len(m, m[cur].parent_frn, (fuel - 1) as nat);
    }
}

/// A resolved path has between 1 and 64 components, and its last one is the entry's own name.
pub proof fn law_resolved_path_is_bounded(m: Map<u64, FrnView>, frn: u64)
    ensures
        resolved(m, frn) matches Some(p) ==> 1 <= p.len() <= 64 && m.contains_key(frn) && p.last()
            == m[frn].name,
{
    lemma_walk_len(m, frn, 64);
    if let Some(p) = resolved(m, frn) {
        let w = walk(m, frn, 64)->0;
        assert(w[0] == m[frn].name);
        assert(p.last() == w.reverse()[w.len() - 1]);
    }
}


/// A record is a directory exactly when bit 4 of its FileAttributes (FILE_ATTRIBUTE_DIRECTORY,
/// 0x10) is set; no other attribute bit, hidden, system or archive among them, makes one.
pub proof fn law_directory_bit(b: Seq<u8>, off: int)
    ensures
        record_entry(b, off).is_dir <==> ((le(b, off + 52, 4) as u32) / 16) % 2 == 1,
{
    let a: u32 = le(b, off + 52, 4) as u32;
    assert((a & 0x10u32 != 0) == ((a / 16) % 2 == 1)) by (bit_vector);
}

} // verus!

use vstd::prelude::*;

verus! {

/// A path separator: Windows accepts both slashes.
pub open spec fn is_sep(c: char) -> bool {
    c == '\\' || c == '/'
}

pub open spec fn is_ascii_letter(c: char) -> bool {
    ('a' <= c && c <= 'z') || ('A' <= c && c <= 'Z')
}

/// Length of a drive prefix such as `C:` at the start of `s` (0 when there is none).
pub open spec fn prefix_len(s: Seq<char>) -> int {
    if s.len() >= 2 && s[1] == ':' && is_ascii_letter(s[0]) {
        2
    } else {
        0
    }
}

/// End of the prefix and of the root separator that may follow it.
pub open spec fn root_end(s: Seq<char>) -> int {
    let p = prefix_len(s);
    if s.len() > p && is_sep(s[p]) {
        p + 1
    } else {
        p
    }
}

/// 1 when the body of a path without a root starts with a `.` component, which is kept as the
/// current directory; 0 otherwise.
pub open spec fn cur_dir_len(s: Seq<char>) -> int {
    let b = root_end(s);
    if b == prefix_len(s) && s.len() > b && s[b] == '.' && (s.len() == b + 1 || is_sep(s[b + 1])) {
        1
    } else {
        0
    }
}

/// Where the components after the prefix, the root and a leading current directory begin.
pub open spec fn body_start(s: Seq<char>) -> int {
    root_end(s) + cur_dir_len(s)
}

/// A `.` component ends at `e` within `s[lo..e]`.
pub open spec fn dot_ends_at(s: Seq<char>, lo: int, e: int) -> bool {
    e > lo && s[e - 1] == '.' && (e - 1 == lo || is_sep(s[e - 2]))
}

/// `e` moved left past the separators and `.` components that end `s[..e]`, never below `lo`.
pub open spec fn trim_back(s: Seq<char>, lo: int, e: int) -> int
    decreases e - lo,
{
    if e > lo && (is_sep(s[e - 1]) || dot_ends_at(s, lo, e)) {
        trim_back(s, lo, e - 1)
    } else {
        e
    }
}

/// Index of the last separator in `s[lo..e]`, or -1 when there is none.
pub open spec fn last_sep(s: Seq<char>, lo: int, e: int) -> int
    decreases e - lo,
{
    if e <= lo {
        -1
    } else if is_sep(s[e - 1]) {
        e - 1
    } else {
        last_sep(s, lo, e - 1)
    }
}

/// The directory that holds the last component of a Windows-style path, or `None` when the
/// path is empty or names only a drive or a root. Separators repeat freely, `.` components are
/// skipped but for a leading one of a path without a root, and `..` is an ordinary component.
/// UNC and verbatim prefixes are not recognised.
pub open spec fn spec_parent(s: Seq<char>) -> Option<Seq<char>> {
    let b = root_end(s);
    let l = body_start(s);
    let e = trim_back(s, l, s.len() as int);
    if e <= l {
        if cur_dir_len(s) == 1 {
            Some(s.subrange(0, b))
        } else {
            None
        }
    } else {
        let j = last_sep(s, l, e);
        if j < 0 {
            Some(s.subrange(0, l))
        } else {
            Some(s.subrange(0, trim_back(s, l, j)))
        }
    }
}

/// The last component of a path, or `None` when the path ends in a drive, a root, a leading
/// current directory or `..`.
pub open spec fn spec_file_name(s: Seq<char>) -> Option<Seq<char>> {
    let l = body_start(s);
    let e = trim_back(s, l, s.len() as int);
    if e <= l {
        None
    } else {
        let j = last_sep(s, l, e);
        let comp = s.subrange(if j < 0 { l } else { j + 1 }, e);
        if comp == seq!['.', '.'] {
            None
        } else {
            Some(comp)
        }
    }
}

proof fn lemma_trim_bounds(s: Seq<char>, lo: int, e: int)
    requires
        lo <= e,
    ensures
        lo <= trim_back(s, lo, e) <= e,
    decreases e - lo,
{
    if e > lo && (is_sep(s[e - 1]) || dot_ends_at(s, lo, e)) {
        lemma_trim_bounds(s, lo, e - 1);
    }
}

proof fn lemma_last_sep_bounds(s: Seq<char>, lo: int, e: int)
    ensures
        last_sep(s, lo, e) == -1 || (lo <= last_sep(s, lo, e) < e),
    decreases e - lo,
{
    if e > lo && !is_sep(s[e - 1]) {
        lemma_last_sep_bounds(s, lo, e - 1);
    }
}

/// The characters of a string, in order.
pub fn chars_of(s: &str) -> (out: Vec<char>)
    ensures
        out@ == s@,
{
    let mut out: Vec<char> = Vec::new();
    for c in it: s.chars()
        invariant
            out@ == it.seq().take(it.index() as int),
            it.seq() == s@,
    {
        out.push(c);
    }
    out
}

/// `String` built from `cs[lo..hi]`, through std's `FromIterator<char>` for `String`;
/// the string holds exactly those characters.
#[verifier::external_body]
pub(crate) fn string_from_chars(cs: &[char], lo: usize, hi: usize) -> (out: String)
    requires
        lo <= hi <= cs@.len(),
    ensures
        out@ == cs@.subrange(lo as int, hi as int),
{
    cs[lo..hi].iter().collect()
}

fn is_sep_exec(c: char) -> (b: bool)
    ensures
        b == is_sep(c),
{
    c == '\\' || c == '/'
}

fn root_end_exec(s: &Vec<char>) -> (b: usize)
    ensures
        b == root_end(s@),
{
    let n = s.len();
    let p: usize = if n >= 2 && s[1] == ':' && (('a' <= s[0] && s[0] <= 'z') || ('A' <= s[0]
        && s[0] <= 'Z')) {
        2
    } else {
        0
    };
    if n > p && is_sep_exec(s[p]) {
        p + 1
    } else {
        p
    }
}

fn trim_back_exec(s: &Vec<char>, lo: usize, e: usize) -> (r: usize)
    requires
        lo <= e <= s@.len(),
    ensures
        r == trim_back(s@, lo as int, e as int),
{
    let mut k = e;
    while k > lo && (is_sep_exec(s[k - 1]) || (s[k - 1] == '.' && (k - 1 == lo || is_sep_exec(s[k - 2]))))
        invariant
            lo <= k <= e <= s@.len(),
            trim_back(s@, lo as int, e as int) == trim_back(s@, lo as int, k as int),
        decreases k,
    {
        k = k - 1;
    }
    k
}

fn body_start_exec(s: &Vec<char>, b: usize) -> (l: usize)
    requires
        b == root_end(s@),
    ensures
        l == body_start(s@),
        l == b || l == b + 1,
{
    let n = s.len();
    let p: usize = if n >= 2 && s[1] == ':' && (('a' <= s[0] && s[0] <= 'z') || ('A' <= s[0]
        && s[0] <= 'Z')) {
        2
    } else {
        0
    };
    if b == p && n > b && s[b] == '.' && (n == b + 1 || is_sep_exec(s[b + 1])) {
        b + 1
    } else {
        b
    }
}

fn last_sep_exec(s: &Vec<char>, lo: usize, e: usize) -> (r: Option<usize>)
    requires
        lo <= e <= s@.len(),
    ensures
        match r {
            Some(j) => last_sep(s@, lo as int, e as int) == j,
            None => last_sep(s@, lo as int, e as int) == -1,
        },
{
    let mut k = e;
    while k > lo
        invariant
            lo <= k <= e <= s@.len(),
            last_sep(s@, lo as int, e as int) == last_sep(s@, lo as int, k as int),
        decreases k,
    {
        if is_sep_exec(s[k - 1]) {
            return Some(k - 1);
        }
        k = k - 1;
    }
    None
}

/// The parent directory of `path`, as `spec_parent` defines it.
pub fn parent_of(path: &str) -> (out: Option<String>)
    ensures
        match out {
            Some(p) => spec_parent(path@) == Some(p@),
            None => spec_parent(path@) is None,
        },
{
    let s = chars_of(path);
    let b = root_end_exec(&s);
    let l = body_start_exec(&s, b);
    let e = trim_back_exec(&s, l, s.len());
    proof {
        lemma_trim_bounds(s@, l as int, s@.len() as int);
    }
    if e <= l {
        if l == b + 1 {
            return Some(string_from_chars(s.as_slice(), 0, b));
        }
        return None;
    }
    match last_sep_exec(&s, l, e) {
        None => Some(string_from_chars(s.as_slice(), 0, l)),
        Some(j) => {
            proof {
                lemma_last_sep_bounds(s@, l as int, e as int);
                lemma_trim_bounds(s@, l as int, j as int);
            }
            let k = trim_back_exec(&s, l, j);
            Some(string_from_chars(s.as_slice(), 0, k))
        },
    }
}

} // verus!

verus! {

/// The last component of `path` as `spec_file_name` defines it, or the empty string when
/// there is none.
pub fn file_name_of(path: &str) -> (out: String)
    ensures
        match spec_file_name(path@) {
            Some(n) => out@ == n,
            None => out@ == Seq::<char>::empty(),
        },
{
    let s = chars_of(path);
    let b = root_end_exec(&s);
    let l = body_start_exec(&s, b);
    let e = trim_back_exec(&s, l, s.len());
    proof {
        lemma_trim_bounds(s@, l as int, s@.len() as int);
    }
    if e <= l {
        return String::new();
    }
    let start = match last_sep_exec(&s, l, e) {
        None => l,
        Some(j) => {
            proof {
                lemma_last_sep_bounds(s@, l as int, e as int);
            }
            j + 1
        },
    };
    assert(l <= start <= e);
    if e - start == 2 && s[start] == '.' && s[start + 1] == '.' {
        assert(s@.subrange(start as int, e as int) =~= seq!['.', '.']);
        return String::new();
    }
    assert(s@.subrange(start as int, e as int) != seq!['.', '.']) by {
        if s@.subrange(start as int, e as int) == seq!['.', '.'] {
            assert(seq!['.', '.'].len() == 2);
            assert(s@.subrange(start as int, e as int).len() == e - start);
            assert(e - start == 2);
            assert(s@.subrange(start as int, e as int)[0] == s@[start as int]);
            assert(s@.subrange(start as int, e as int)[1] == s@[start + 1]);
        }
    }
    string_from_chars(s.as_slice(), start, e)
}

} // verus!

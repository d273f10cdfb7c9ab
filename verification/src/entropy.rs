use vstd::prelude::*;

verus! {

/// Bytes read from the start of each file to estimate its entropy (64 KiB).
pub const SAMPLE_SIZE: usize = 65536;

/// How many times byte `b` occurs in `s`.
pub open spec fn occurrences(s: Seq<u8>, b: int) -> nat
    decreases s.len(),
{
    if s.len() == 0 {
        0
    } else {
        occurrences(s.drop_last(), b) + if s.last() == b {
            1nat
        } else {
            0nat
        }
    }
}

proof fn lemma_occurrences_le(s: Seq<u8>, b: int)
    ensures
        occurrences(s, b) <= s.len(),
    decreases s.len(),
{
    if s.len() > 0 {
        lemma_occurrences_le(s.drop_last(), b);
    }
}

/// The byte histogram of the first `n` bytes read into `buf`, from which the entropy of the
/// file is computed; `None` when nothing was read, and the file keeps no entropy.
pub fn sample_histogram(buf: &[u8], n: usize) -> (out: Option<Vec<u64>>)
    requires
        n <= buf@.len(),
    ensures
        out is None <==> n == 0,
        out matches Some(counts) ==> counts@.len() == 256 && forall|b: int|
            0 <= b < 256 ==> #[trigger] counts@[b] == occurrences(buf@.take(n as int), b),
{
    if n == 0 {
        return None;
    }
    let mut counts: Vec<u64> = Vec::new();
    let mut k: usize = 0;
    while k < 256
        invariant
            0 <= k <= 256,
            counts@.len() == k,
            forall|b: int| 0 <= b < k ==> #[trigger] counts@[b] == 0,
        decreases 256 - k,
    {
        counts.push(0);
        k = k + 1;
    }
    let ghost s = buf@.take(n as int);
    let mut i: usize = 0;
    while i < n
        invariant
            n <= buf@.len(),
            s == buf@.take(n as int),
            0 <= i <= n,
            counts@.len() == 256,
            forall|b: int| 0 <= b < 256 ==> #[trigger] counts@[b] == occurrences(s.take(i as int), b),
        decreases n - i,
    {
        let x = buf[i];
        let ghost pre = s.take(i as int);
        assert(s.take(i + 1).drop_last() =~= pre);
        assert(s.take(i + 1).last() == x);
        proof {
            lemma_occurrences_le(pre, x as int);
        }
        let c = counts[x as usize] + 1;
        counts.set(x as usize, c);
        i = i + 1;
    }
    assert(s.take(n as int) =~= s);
    Some(counts)
}


/// Sum of the occurrences of the byte values below `upto`.
pub open spec fn histogram_total(s: Seq<u8>, upto: int) -> nat
    decreases upto,
{
    if upto <= 0 {
        0
    } else {
        histogram_total(s, upto - 1) + occurrences(s, upto - 1)
    }
}

proof fn lemma_total_push(s: Seq<u8>, x: u8, upto: int)
    requires
        0 <= upto <= 256,
    ensures
        histogram_total(s.push(x), upto) == histogram_total(s, upto) + if x < upto { 1nat } else { 0nat },
    decreases upto,
{
    if upto > 0 {
        lemma_total_push(s, x, upto - 1);
        assert(s.push(x).drop_last() =~= s);
    }
}

/// The histogram counts every sampled byte exactly once: its counts add up to the sample length.
pub proof fn law_histogram_counts_every_byte(s: Seq<u8>)
    ensures
        histogram_total(s, 256) == s.len(),
    decreases s.len(),
{
    if s.len() > 0 {
        law_histogram_counts_every_byte(s.drop_last());
        lemma_total_push(s.drop_last(), s.last(), 256);
        assert(s.drop_last().push(s.last()) =~= s);
    } else {
        lemma_total_empty(s, 256);
    }
}

proof fn lemma_total_empty(s: Seq<u8>, upto: int)
    requires
        s.len() == 0,
    ensures
        histogram_total(s, upto) == 0,
    decreases upto,
{
    if upto > 0 {
        lemma_total_empty(s, upto - 1);
    }
}

} // verus!

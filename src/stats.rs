//! Statistics over a sorted sequence of latencies: nearest-rank
//! percentiles and a ten-bucket histogram with linearly spaced edges.

use vstd::prelude::*;

verus! {

/// The percentile targets reported, in increasing order.
pub const PERCENTILE_TARGETS: [u64; 7] = [10, 25, 50, 75, 90, 95, 99];

/// Number of histogram buckets between the fastest and slowest latency;
/// the histogram has one more edge than this.
pub const BUCKET_COUNT: u64 = 10;

/// Width of the longest histogram bar.
pub const BAR_WIDTH: u64 = 40;

pub open spec fn sorted(s: Seq<u64>) -> bool {
    forall|i: int, j: int| 0 <= i <= j < s.len() ==> s[i] <= s[j]
}

/// Rank of index `i` among `n` samples, as a whole percentage.
pub open spec fn rank(i: int, n: int) -> int {
    i * 100 / n
}

/// The first index at or after `i` whose rank reaches `p`, or `n` if none does.
pub open spec fn first_rank_index(n: int, p: int, i: int) -> int
    decreases n - i,
{
    if i >= n {
        n
    } else if rank(i, n) >= p {
        i
    } else {
        first_rank_index(n, p, i + 1)
    }
}

/// The nearest-rank percentile `p` of sorted samples `s`: the sample at the
/// first index whose rank reaches `p`, absent when no index does.
pub open spec fn percentile_of(s: Seq<u64>, p: int) -> Option<u64> {
    let k = first_rank_index(s.len() as int, p, 0);
    if k < s.len() {
        Some(s[k])
    } else {
        None
    }
}

proof fn lemma_first_rank_index_bounds(n: int, p: int, i: int)
    requires
        0 <= i,
    ensures
        i <= n ==> i <= first_rank_index(n, p, i) <= n,
        first_rank_index(n, p, i) < n ==> rank(first_rank_index(n, p, i), n) >= p,
    decreases n - i,
{
    if i < n && rank(i, n) < p {
        lemma_first_rank_index_bounds(n, p, i + 1);
    }
}

proof fn lemma_first_rank_index_monotone(n: int, p1: int, p2: int, i: int)
    requires
        0 <= i <= n,
        p1 <= p2,
    ensures
        first_rank_index(n, p1, i) <= first_rank_index(n, p2, i),
    decreases n - i,
{
    if i < n {
        if rank(i, n) >= p2 {
        } else if rank(i, n) >= p1 {
            lemma_first_rank_index_bounds(n, p2, i + 1);
        } else {
            lemma_first_rank_index_monotone(n, p1, p2, i + 1);
        }
    }
}

/// For sorted samples, a higher percentile target never yields a smaller
/// latency: whenever the higher target is present, so is the lower one, and
/// its value is no larger.
pub proof fn lemma_percentiles_monotone(s: Seq<u64>, p1: int, p2: int)
    requires
        sorted(s),
        p1 <= p2,
        percentile_of(s, p2) is Some,
    ensures
        percentile_of(s, p1) is Some,
        percentile_of(s, p1)->Some_0 <= percentile_of(s, p2)->Some_0,
{
    let n = s.len() as int;
    lemma_first_rank_index_monotone(n, p1, p2, 0);
    lemma_first_rank_index_bounds(n, p1, 0);
    lemma_first_rank_index_bounds(n, p2, 0);
}

/// The percentile `p` of sorted latencies: the first sample whose rank
/// `i * 100 / n` reaches `p`.
pub fn percentile(lats: &Vec<u64>, p: u64) -> (r: Option<u64>)
    ensures
        r == percentile_of(lats@, p as int),
{
    let n = lats.len();
    let mut i: usize = 0;
    while i < n
        invariant
            n == lats@.len(),
            i <= n,
            first_rank_index(n as int, p as int, 0) == first_rank_index(n as int, p as int, i as int),
        decreases n - i,
    {
        let r: u128 = (i as u128) * 100 / (n as u128);
        if r >= p as u128 {
            return Some(lats[i]);
        }
        i = i + 1;
    }
    None
}

#[derive(Clone, Copy, Debug)]
pub struct PercentileRow {
    pub target: u64,
    pub latency_us: Option<u64>,
}

/// One row per target of `PERCENTILE_TARGETS`, in order, each with its
/// nearest-rank percentile of the sorted latencies.
pub fn percentile_table(lats: &Vec<u64>) -> (r: Vec<PercentileRow>)
    ensures
        r@.len() == PERCENTILE_TARGETS@.len(),
        forall|j: int| 0 <= j < r@.len() ==> r@[j].target == PERCENTILE_TARGETS@[j]
            && r@[j].latency_us == percentile_of(lats@, PERCENTILE_TARGETS@[j] as int),
{
    let targets = PERCENTILE_TARGETS;
    let mut rows: Vec<PercentileRow> = Vec::new();
    let mut j: usize = 0;
    while j < 7
        invariant
            targets@ == PERCENTILE_TARGETS@,
            j <= 7,
            rows@.len() == j,
            forall|k: int| 0 <= k < j ==> rows@[k].target == PERCENTILE_TARGETS@[k]
                && rows@[k].latency_us == percentile_of(lats@, PERCENTILE_TARGETS@[k] as int),
        decreases 7 - j,
    {
        let p = targets[j];
        let v = percentile(lats, p);
        rows.push(PercentileRow { target: p, latency_us: v });
        j = j + 1;
    }
    rows
}

/// Edge `i` of the histogram between `fastest` and `slowest`: linearly
/// spaced, with the last edge exactly `slowest`.
pub open spec fn edge_of(fastest: int, slowest: int, i: int) -> int {
    if i >= BUCKET_COUNT {
        slowest
    } else {
        fastest + i * (slowest - fastest) / (BUCKET_COUNT as int)
    }
}

/// The first bucket at or after `i` whose edge is at least `x`; the last
/// bucket takes whatever remains.
pub open spec fn first_bucket(fastest: int, slowest: int, x: int, i: int) -> int
    decreases BUCKET_COUNT - i,
{
    if i >= BUCKET_COUNT {
        BUCKET_COUNT as int
    } else if x <= edge_of(fastest, slowest, i) {
        i
    } else {
        first_bucket(fastest, slowest, x, i + 1)
    }
}

/// The bucket of latency `x`; when all latencies are equal every sample goes
/// to the last bucket.
pub open spec fn bucket_of(fastest: int, slowest: int, x: int) -> int {
    if fastest == slowest {
        BUCKET_COUNT as int
    } else {
        first_bucket(fastest, slowest, x, 0)
    }
}

/// How many of the samples `s` fall in bucket `b`.
pub open spec fn bucket_count(s: Seq<u64>, fastest: int, slowest: int, b: int) -> nat
    decreases s.len(),
{
    if s.len() == 0 {
        0
    } else {
        bucket_count(s.drop_last(), fastest, slowest, b) + (if bucket_of(fastest, slowest, s.last() as int) == b {
            1nat
        } else {
            0nat
        })
    }
}

/// Sum of the counts of buckets `0..m`.
pub open spec fn bucket_total(s: Seq<u64>, fastest: int, slowest: int, m: int) -> nat
    decreases m,
{
    if m <= 0 {
        0
    } else {
        bucket_total(s, fastest, slowest, m - 1) + bucket_count(s, fastest, slowest, m - 1)
    }
}

pub open spec fn fastest_of(s: Seq<u64>) -> int {
    if s.len() == 0 {
        0
    } else {
        s[0] as int
    }
}

pub open spec fn slowest_of(s: Seq<u64>) -> int {
    if s.len() == 0 {
        0
    } else {
        s.last() as int
    }
}

pub open spec fn max_of(s: Seq<u64>) -> int
    decreases s.len(),
{
    if s.len() == 0 {
        0
    } else {
        let m = max_of(s.drop_last());
        if s.last() as int > m {
            s.last() as int
        } else {
            m
        }
    }
}

/// Sum of the values of `s`.
pub open spec fn sum_of(s: Seq<u64>) -> int
    decreases s.len(),
{
    if s.len() == 0 {
        0
    } else {
        sum_of(s.drop_last()) + s.last()
    }
}

/// The counts of a histogram's buckets, in order.
pub open spec fn counts_of(h: Seq<Bucket>) -> Seq<u64> {
    h.map_values(|k: Bucket| k.count)
}

proof fn lemma_sum_counts_is_total(c: Seq<u64>, s: Seq<u64>, f: int, sl: int, m: int)
    requires
        0 <= m <= c.len(),
        forall|b: int| 0 <= b < c.len() ==> c[b] == bucket_count(s, f, sl, b),
    ensures
        sum_of(c.take(m)) == bucket_total(s, f, sl, m),
    decreases m,
{
    if m > 0 {
        assert(c.take(m).drop_last() =~= c.take(m - 1));
        lemma_sum_counts_is_total(c, s, f, sl, m - 1);
    }
}

/// Length of the bar drawn for a bucket of `count` samples when the fullest
/// bucket holds `max` samples.
pub open spec fn bar_of(count: int, max: int) -> int {
    if max == 0 {
        0
    } else {
        count * (BAR_WIDTH as int) / max
    }
}

proof fn lemma_first_bucket_range(fastest: int, slowest: int, x: int, i: int)
    requires
        0 <= i,
    ensures
        0 <= first_bucket(fastest, slowest, x, i) <= BUCKET_COUNT,
    decreases BUCKET_COUNT - i,
{
    if i < BUCKET_COUNT && !(x <= edge_of(fastest, slowest, i)) {
        lemma_first_bucket_range(fastest, slowest, x, i + 1);
    }
}

/// Sum over `b < m` of the indicator that `k == b`.
spec fn hits(k: int, m: int) -> nat
    decreases m,
{
    if m <= 0 {
        0
    } else {
        hits(k, m - 1) + (if k == m - 1 {
            1nat
        } else {
            0nat
        })
    }
}

proof fn lemma_hits(k: int, m: int)
    requires
        0 <= m,
    ensures
        hits(k, m) == (if 0 <= k < m {
            1nat
        } else {
            0nat
        }),
    decreases m,
{
    if m > 0 {
        lemma_hits(k, m - 1);
    }
}

proof fn lemma_bucket_total_push(s: Seq<u64>, fastest: int, slowest: int, m: int)
    requires
        s.len() > 0,
        0 <= m,
    ensures
        bucket_total(s, fastest, slowest, m) == bucket_total(s.drop_last(), fastest, slowest, m)
            + hits(bucket_of(fastest, slowest, s.last() as int), m),
    decreases m,
{
    if m > 0 {
        lemma_bucket_total_push(s, fastest, slowest, m - 1);
    }
}

/// Every sample falls in exactly one of the histogram's buckets, so the
/// bucket counts add up to the number of samples.
pub proof fn lemma_histogram_total(s: Seq<u64>, fastest: int, slowest: int)
    ensures
        bucket_total(s, fastest, slowest, BUCKET_COUNT + 1) == s.len(),
    decreases s.len(),
{
    if s.len() > 0 {
        lemma_histogram_total(s.drop_last(), fastest, slowest);
        lemma_bucket_total_push(s, fastest, slowest, BUCKET_COUNT + 1);
        let x = s.last() as int;
        lemma_first_bucket_range(fastest, slowest, x, 0);
        lemma_hits(bucket_of(fastest, slowest, x), BUCKET_COUNT + 1);
    } else {
        lemma_bucket_total_zero(s, fastest, slowest, BUCKET_COUNT + 1);
    }
}

proof fn lemma_bucket_total_zero(s: Seq<u64>, fastest: int, slowest: int, m: int)
    requires
        s.len() == 0,
        0 <= m,
    ensures
        bucket_total(s, fastest, slowest, m) == 0,
    decreases m,
{
    if m > 0 {
        lemma_bucket_total_zero(s, fastest, slowest, m - 1);
    }
}

#[derive(Clone, Copy, Debug)]
pub struct Bucket {
    /// Upper edge of the bucket, in microseconds.
    pub edge_us: u64,
    pub count: u64,
    /// Length of the bar drawn for this bucket.
    pub bar: u64,
}

fn edge(fastest: u64, slowest: u64, i: u64) -> (r: u64)
    requires
        fastest <= slowest,
        i <= BUCKET_COUNT,
    ensures
        r == edge_of(fastest as int, slowest as int, i as int),
{
    if i >= BUCKET_COUNT {
        slowest
    } else {
        let w = slowest - fastest;
        proof {
            assert((i as int) * (w as int) <= (BUCKET_COUNT as int) * (w as int)) by (nonlinear_arith)
                requires i <= BUCKET_COUNT, 0 <= w;
            assert((i as int) * (w as int) / (BUCKET_COUNT as int) <= w as int) by (nonlinear_arith)
                requires 0 <= (i as int) * (w as int) <= (BUCKET_COUNT as int) * (w as int);
        }
        let d: u128 = (i as u128) * (w as u128) / (BUCKET_COUNT as u128);
        fastest + d as u64
    }
}

fn bucket_index(fastest: u64, slowest: u64, x: u64) -> (r: usize)
    requires
        fastest <= slowest,
    ensures
        r == bucket_of(fastest as int, slowest as int, x as int),
        r <= BUCKET_COUNT,
{
    if fastest == slowest {
        return BUCKET_COUNT as usize;
    }
    let mut i: u64 = 0;
    while i < BUCKET_COUNT
        invariant
            fastest < slowest,
            i <= BUCKET_COUNT,
            first_bucket(fastest as int, slowest as int, x as int, 0)
                == first_bucket(fastest as int, slowest as int, x as int, i as int),
        decreases BUCKET_COUNT - i,
    {
        if x <= edge(fastest, slowest, i) {
            return i as usize;
        }
        i = i + 1;
    }
    BUCKET_COUNT as usize
}

/// The histogram of sorted latencies: `BUCKET_COUNT + 1` buckets whose
/// edges run linearly from the fastest to the slowest sample, each with its
/// sample count and a bar scaled so the fullest bucket gets `BAR_WIDTH`.
pub fn histogram(lats: &Vec<u64>) -> (r: Vec<Bucket>)
    requires
        sorted(lats@),
    ensures
        r@.len() == BUCKET_COUNT + 1,
        forall|b: int| #![trigger r@[b]] 0 <= b <= BUCKET_COUNT ==> {
            &&& r@[b].edge_us == edge_of(fastest_of(lats@), slowest_of(lats@), b)
            &&& r@[b].count == bucket_count(lats@, fastest_of(lats@), slowest_of(lats@), b)
            &&& r@[b].bar == bar_of(
                r@[b].count as int,
                max_of(counts_of(r@)),
            )
        },
        sum_of(counts_of(r@)) == lats@.len(),
{
    let n = lats.len();
    let fastest: u64 = if n == 0 { 0 } else { lats[0] };
    let slowest: u64 = if n == 0 { 0 } else { lats[n - 1] };
    let ghost f = fastest as int;
    let ghost sl = slowest as int;
    let mut counts: Vec<u64> = Vec::new();
    let mut b: usize = 0;
    while b <= 10
        invariant
            b <= 11,
            counts@.len() == b,
            forall|k: int| 0 <= k < b ==> counts@[k] == 0,
        decreases 11 - b,
    {
        counts.push(0);
        b = b + 1;
    }
    let mut i: usize = 0;
    while i < n
        invariant
            n == lats@.len(),
            sorted(lats@),
            f == fastest_of(lats@),
            sl == slowest_of(lats@),
            f == fastest as int,
            sl == slowest as int,
            fastest <= slowest,
            i <= n,
            counts@.len() == 11,
            forall|k: int| #![trigger counts@[k]] 0 <= k <= 10 ==>
                counts@[k] == bucket_count(lats@.take(i as int), f, sl, k),
        decreases n - i,
    {
        let k = bucket_index(fastest, slowest, lats[i]);
        assert(lats@.take(i + 1).drop_last() =~= lats@.take(i as int));
        proof {
            assert(bucket_count(lats@.take(i as int), f, sl, k as int) <= i) by {
                lemma_bucket_count_le(lats@.take(i as int), f, sl, k as int);
            }
        }
        let c = counts[k];
        let ghost prev = counts@;
        counts.set(k, c + 1);
        proof {
            let t = lats@.take(i + 1);
            assert(t.last() == lats@[i as int]);
            assert forall|q: int| #![trigger counts@[q]] 0 <= q <= 10 implies counts@[q]
                == bucket_count(t, f, sl, q) by {
                assert(prev[q] == bucket_count(lats@.take(i as int), f, sl, q));
                assert(t.drop_last() == lats@.take(i as int));
                assert(bucket_of(f, sl, t.last() as int) == k as int);
                assert(counts@[q] == prev[q] + (if q == k as int { 1int } else { 0int }));
                assert(bucket_count(t, f, sl, q) == bucket_count(t.drop_last(), f, sl, q) + (if bucket_of(f, sl, t.last() as int) == q {
                    1nat
                } else {
                    0nat
                }));
            }
        }
        i = i + 1;
    }
    assert(lats@.take(n as int) =~= lats@);
    let mut max: u64 = 0;
    let mut j: usize = 0;
    while j < 11
        invariant
            counts@.len() == 11,
            j <= 11,
            max == max_of(counts@.take(j as int)),
        decreases 11 - j,
    {
        assert(counts@.take(j + 1).drop_last() =~= counts@.take(j as int));
        if counts[j] > max {
            max = counts[j];
        }
        j = j + 1;
    }
    assert(counts@.take(11) =~= counts@);
    let mut rows: Vec<Bucket> = Vec::new();
    let mut e: usize = 0;
    while e < 11
        invariant
            counts@.len() == 11,
            e <= 11,
            fastest <= slowest,
            max == max_of(counts@),
            rows@.len() == e,
            forall|k: int| #![trigger rows@[k]] 0 <= k < e ==> {
                &&& rows@[k].edge_us == edge_of(fastest as int, slowest as int, k)
                &&& rows@[k].count == counts@[k]
                &&& rows@[k].bar == bar_of(counts@[k] as int, max as int)
            },
        decreases 11 - e,
    {
        let c = counts[e];
        let bar: u64 = if max == 0 {
            0
        } else {
            proof {
                lemma_max_of_ge(counts@, e as int);
                assert((c as int) * (BAR_WIDTH as int) / (max as int) <= BAR_WIDTH as int) by (nonlinear_arith)
                    requires c <= max, max > 0;
            }
            ((c as u128) * (BAR_WIDTH as u128) / (max as u128)) as u64
        };
        rows.push(Bucket { edge_us: edge(fastest, slowest, e as u64), count: c, bar });
        e = e + 1;
    }
    assert(counts_of(rows@) =~= counts@);
    proof {
        lemma_sum_counts_is_total(counts@, lats@, f, sl, 11);
        lemma_histogram_total(lats@, f, sl);
        assert(counts@.take(11) =~= counts@);
    }
    rows
}

proof fn lemma_bucket_count_le(s: Seq<u64>, f: int, sl: int, b: int)
    ensures
        bucket_count(s, f, sl, b) <= s.len(),
    decreases s.len(),
{
    if s.len() > 0 {
        lemma_bucket_count_le(s.drop_last(), f, sl, b);
    }
}

proof fn lemma_max_of_ge(s: Seq<u64>, k: int)
    requires
        0 <= k < s.len(),
    ensures
        s[k] <= max_of(s),
    decreases s.len(),
{
    if k < s.len() - 1 {
        lemma_max_of_ge(s.drop_last(), k);
    }
}

} // verus!

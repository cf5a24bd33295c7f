//! The run's aggregate of observations, and the summary derived from it once
//! every worker has finished.

use vstd::prelude::*;
use crate::stats::{
    Bucket, PercentileRow, PERCENTILE_TARGETS, BUCKET_COUNT, sorted, percentile_of, edge_of,
    bucket_count, bar_of, max_of, sum_of, counts_of, fastest_of, slowest_of, histogram, percentile_table,
};

verus! {

/// Status recorded for a request whose transport exchange failed.
pub const TRANSPORT_FAILURE: u16 = 0;

/// One completed request attempt.
#[derive(Clone, Copy, Debug, PartialEq, Eq, Structural)]
pub struct Observation {
    pub status: u16,
    pub latency_us: u64,
}

/// How many observations carried one status code.
#[derive(Clone, Copy, Debug, PartialEq, Eq, Structural)]
pub struct StatusCount {
    pub status: u16,
    pub count: u64,
}

/// Number of observations in `s` with status `status`.
pub open spec fn count_status(s: Seq<Observation>, status: u16) -> nat
    decreases s.len(),
{
    if s.len() == 0 {
        0
    } else {
        count_status(s.drop_last(), status) + (if s.last().status == status {
            1nat
        } else {
            0nat
        })
    }
}

/// Sum of the counts in a status table.
pub open spec fn sum_counts(t: Seq<StatusCount>) -> nat
    decreases t.len(),
{
    if t.len() == 0 {
        0
    } else {
        (sum_counts(t.drop_last()) + t.last().count) as nat
    }
}

/// Whether `status` has a row in the table `t`.
pub open spec fn has_status(t: Seq<StatusCount>, status: u16) -> bool {
    exists|i: int| 0 <= i < t.len() && t[i].status == status
}

/// Sum of the latencies of `s`.
pub open spec fn sum_latency(s: Seq<Observation>) -> nat
    decreases s.len(),
{
    if s.len() == 0 {
        0
    } else {
        (sum_latency(s.drop_last()) + s.last().latency_us) as nat
    }
}

/// The latencies of `s`, in order.
pub open spec fn latencies(s: Seq<Observation>) -> Seq<u64> {
    s.map_values(|o: Observation| o.latency_us)
}

/// `total / n`, and 0 when there is nothing to divide by.
pub open spec fn mean(total: int, n: int) -> int {
    if n == 0 {
        0
    } else {
        total / n
    }
}

/// The shared aggregate of one run.
pub struct Report {
    /// Bytes of the bodies of responses with status 200.
    pub size_total: u64,
    /// Sum of all latencies, in microseconds.
    pub time_total_us: u64,
    /// Number of recorded observations.
    pub req_num: u64,
    /// Observations in the order they were recorded.
    pub results: Vec<Observation>,
    /// One row per distinct status, in order of first appearance.
    pub status_num: Vec<StatusCount>,
}

impl Report {
    /// The report is consistent: the request count, the latency total and
    /// the status table all agree with the recorded observations.
    pub open spec fn wf(&self) -> bool {
        &&& self.req_num == self.results@.len()
        &&& self.time_total_us == sum_latency(self.results@)
        &&& sum_counts(self.status_num@) == self.req_num
        &&& forall|i: int| #![trigger self.status_num@[i]] 0 <= i < self.status_num@.len()
            ==> self.status_num@[i].count == count_status(self.results@, self.status_num@[i].status)
        &&& forall|i: int, j: int| 0 <= i < j < self.status_num@.len()
            ==> self.status_num@[i].status != self.status_num@[j].status
        &&& forall|k: int| 0 <= k < self.results@.len() ==> has_status(self.status_num@, #[trigger] self.results@[k].status)
    }

    /// How many observations had status `status`.
    pub open spec fn count_of(&self, status: u16) -> nat {
        count_status(self.results@, status)
    }

    /// An empty report.
    pub fn new() -> (r: Self)
        ensures
            r.wf(),
            r.size_total == 0,
            r.time_total_us == 0,
            r.req_num == 0,
            r.results@.len() == 0,
            r.status_num@.len() == 0,
    {
        Report {
            size_total: 0,
            time_total_us: 0,
            req_num: 0,
            results: Vec::new(),
            status_num: Vec::new(),
        }
    }

    /// Records one observation: its latency joins the total, its status is
    /// counted, and `bytes`, when present, joins the size total.
    pub fn record(&mut self, status: u16, latency_us: u64, bytes: Option<u64>)
        requires
            old(self).wf(),
            old(self).req_num < u64::MAX,
            old(self).time_total_us + latency_us <= u64::MAX,
            bytes matches Some(b) ==> old(self).size_total + b <= u64::MAX,
        ensures
            final(self).wf(),
            final(self).results@ == old(self).results@.push(Observation { status, latency_us }),
            final(self).req_num == old(self).req_num + 1,
            final(self).time_total_us == old(self).time_total_us + latency_us,
            final(self).size_total == old(self).size_total + match bytes {
                Some(b) => b as int,
                None => 0,
            },
            has_status(old(self).status_num@, status) ==> final(self).status_num@.len()
                == old(self).status_num@.len(),
            !has_status(old(self).status_num@, status) ==> final(self).status_num@
                == old(self).status_num@.push(StatusCount { status, count: 1 }),
            forall|s: u16| #[trigger] final(self).count_of(s) == old(self).count_of(s) + (if s == status {
                1nat
            } else {
                0nat
            }),
    {
        let ghost old_results = self.results@;
        let ghost old_table = self.status_num@;
        let obs = Observation { status, latency_us };
        self.results.push(obs);
        self.req_num = self.req_num + 1;
        self.time_total_us = self.time_total_us + latency_us;
        match bytes {
            Some(b) => {
                self.size_total = self.size_total + b;
            },
            None => {},
        }
        proof {
            let r = self.results@;
            assert(r.drop_last() =~= old_results);
            assert forall|s: u16| #[trigger] count_status(r, s) == count_status(old_results, s) + (if s
                == status {
                1nat
            } else {
                0nat
            }) by {}
            assert(sum_latency(r) == sum_latency(old_results) + latency_us);
        }
        let n = self.status_num.len();
        match find_status(&self.status_num, status) {
            Some(i) => {
                let c = self.status_num[i].count;
                proof {
                    lemma_count_status_le(old_results, status);
                }
                self.status_num.set(i, StatusCount { status, count: c + 1 });
                proof {
                    lemma_sum_counts_update(old_table, i as int, (c + 1) as u64);
                    let t = self.status_num@;
                    assert(t =~= old_table.update(i as int, StatusCount { status: old_table[i as int].status, count: (c + 1) as u64 }));
                    assert forall|k: int| #![trigger t[k]] 0 <= k < t.len() implies t[k].count
                        == count_status(self.results@, t[k].status) by {
                        if k != i {
                            assert(old_table[k].status != status);
                        }
                    }
                    assert forall|k: int| 0 <= k < self.results@.len() implies has_status(
                        t,
                        #[trigger] self.results@[k].status,
                    ) by {
                        if k < old_results.len() {
                            assert(old_results[k] == self.results@[k]);
                            assert(has_status(old_table, old_results[k].status));
                            let w = choose|w: int| 0 <= w < old_table.len() && old_table[w].status == old_results[k].status;
                            assert(t[w].status == old_table[w].status);
                        } else {
                            assert(t[i as int].status == status);
                        }
                    }
                }
                return;
            },
            None => {},
        }
        proof {
            assert(!has_status(old_table, status));
            assert(count_status(old_results, status) == 0) by {
                lemma_count_status_absent(old_results, old_table, status);
            }
        }
        self.status_num.push(StatusCount { status, count: 1 });
        proof {
            let t = self.status_num@;
            assert(t.drop_last() =~= old_table);
            assert forall|k: int| 0 <= k < self.results@.len() implies has_status(
                t,
                #[trigger] self.results@[k].status,
            ) by {
                if k < old_results.len() {
                    assert(old_results[k] == self.results@[k]);
                    assert(has_status(old_table, old_results[k].status));
                    let w = choose|w: int| 0 <= w < old_table.len() && old_table[w].status == old_results[k].status;
                    assert(t[w].status == old_table[w].status);
                } else {
                    assert(t[n as int].status == status);
                }
            }
            assert forall|k: int| #![trigger t[k]] 0 <= k < t.len() implies t[k].count
                == count_status(self.results@, t[k].status) by {
                if k < n {
                    assert(old_table[k].status != status);
                }
            }
        }
    }
}

fn find_status(t: &Vec<StatusCount>, status: u16) -> (r: Option<usize>)
    ensures
        r matches Some(i) ==> i < t@.len() && t@[i as int].status == status,
        r is None ==> !has_status(t@, status),
{
    let n = t.len();
    let mut i: usize = 0;
    while i < n
        invariant
            n == t@.len(),
            i <= n,
            forall|k: int| 0 <= k < i ==> t@[k].status != status,
        decreases n - i,
    {
        if t[i].status == status {
            return Some(i);
        }
        i = i + 1;
    }
    None
}

proof fn lemma_count_status_le(s: Seq<Observation>, status: u16)
    ensures
        count_status(s, status) <= s.len(),
    decreases s.len(),
{
    if s.len() > 0 {
        lemma_count_status_le(s.drop_last(), status);
    }
}

proof fn lemma_count_status_absent(s: Seq<Observation>, t: Seq<StatusCount>, status: u16)
    requires
        !has_status(t, status),
        forall|k: int| 0 <= k < s.len() ==> has_status(t, #[trigger] s[k].status),
    ensures
        count_status(s, status) == 0,
    decreases s.len(),
{
    if s.len() > 0 {
        let p = s.drop_last();
        assert forall|k: int| 0 <= k < p.len() implies has_status(t, #[trigger] p[k].status) by {
            assert(p[k] == s[k]);
        }
        lemma_count_status_absent(p, t, status);
        assert(has_status(t, s[s.len() - 1].status));
    }
}

proof fn lemma_sum_counts_update(t: Seq<StatusCount>, i: int, c: u64)
    requires
        0 <= i < t.len(),
    ensures
        sum_counts(t.update(i, StatusCount { status: t[i].status, count: c })) == sum_counts(t)
            - t[i].count + c,
    decreases t.len(),
{
    let u = t.update(i, StatusCount { status: t[i].status, count: c });
    if i < t.len() - 1 {
        assert(u.drop_last() =~= t.drop_last().update(i, StatusCount { status: t[i].status, count: c }));
        lemma_sum_counts_update(t.drop_last(), i, c);
    } else {
        assert(u.drop_last() =~= t.drop_last());
    }
}

/// What one request attempt came to, as seen by a worker.
#[derive(Clone, Copy, Debug, PartialEq, Eq, Structural)]
pub enum Outcome {
    /// The exchange completed with `status`; `body_len` is the body's length
    /// when it was read, which happens for status 200 only.
    Response { status: u16, body_len: u64 },
    /// The transport failed before a status was available.
    Failed,
}

/// The status recorded for an outcome.
pub open spec fn status_of(o: Outcome) -> u16 {
    match o {
        Outcome::Response { status, .. } => status,
        Outcome::Failed => TRANSPORT_FAILURE,
    }
}

/// The bytes an outcome adds to the size total: the body of a 200 response.
pub open spec fn bytes_of(o: Outcome) -> Option<u64> {
    match o {
        Outcome::Response { status, body_len } => if status == 200 {
            Some(body_len)
        } else {
            None
        },
        Outcome::Failed => None,
    }
}

/// Whether a response with this status has its body read and counted.
pub fn reads_body(status: u16) -> (r: bool)
    ensures
        r == (status == 200),
{
    status == 200
}

/// Sorted latencies and every statistic derived from a finished run.
pub struct Summary {
    /// Wall-clock span of the whole run, in microseconds.
    pub total_us: u64,
    pub time_fastest_us: u64,
    pub time_slowest_us: u64,
    pub time_average_us: u64,
    pub req_per_sec: u128,
    pub size_total: u64,
    pub size_per_req: u64,
    pub req_num: u64,
    pub statuses: Vec<StatusCount>,
    /// All recorded latencies, ascending.
    pub latencies: Vec<u64>,
    pub histogram: Vec<Bucket>,
    pub percentiles: Vec<PercentileRow>,
}

/// Relies on slice::sort_unstable: it leaves the same elements in
/// ascending order.
#[verifier::external_body]
fn sort_ascending(v: &mut Vec<u64>)
    ensures
        sorted(final(v)@),
        final(v)@.to_multiset() == old(v)@.to_multiset(),
{
    v.sort_unstable();
}

/// Requests per second over a run of `elapsed_us` microseconds, truncated;
/// 0 for an empty span.
pub open spec fn rate_of(num_requests: int, elapsed_us: int) -> int {
    mean(num_requests * 1_000_000, elapsed_us)
}

impl Report {
    /// Records the outcome of one request attempt: a failed transport is
    /// counted under `TRANSPORT_FAILURE`, and only a 200 response's body
    /// joins the size total.
    pub fn record_outcome(&mut self, outcome: Outcome, latency_us: u64)
        requires
            old(self).wf(),
            old(self).req_num < u64::MAX,
            old(self).time_total_us + latency_us <= u64::MAX,
            bytes_of(outcome) matches Some(b) ==> old(self).size_total + b <= u64::MAX,
        ensures
            final(self).wf(),
            final(self).results@ == old(self).results@.push(
                Observation { status: status_of(outcome), latency_us },
            ),
            final(self).req_num == old(self).req_num + 1,
            final(self).time_total_us == old(self).time_total_us + latency_us,
            final(self).size_total == old(self).size_total + match bytes_of(outcome) {
                Some(b) => b as int,
                None => 0,
            },
            forall|s: u16| #[trigger] final(self).count_of(s) == old(self).count_of(s) + (if s
                == status_of(outcome) {
                1nat
            } else {
                0nat
            }),
    {
        match outcome {
            Outcome::Response { status, body_len } => {
                if reads_body(status) {
                    self.record(status, latency_us, Some(body_len));
                } else {
                    self.record(status, latency_us, None);
                }
            },
            Outcome::Failed => {
                self.record(TRANSPORT_FAILURE, latency_us, None);
            },
        }
    }

    /// The statistics of a finished run of `num_requests` requests that took
    /// `elapsed_us` microseconds: averages guarded against an empty run,
    /// latencies sorted, histogram and percentile table over them.
    pub fn finalize(&self, num_requests: u64, elapsed_us: u64) -> (r: Summary)
        requires
            self.wf(),
        ensures
            sorted(r.latencies@),
            r.latencies@.to_multiset() == latencies(self.results@).to_multiset(),
            r.latencies@.len() == self.req_num,
            r.total_us == elapsed_us,
            r.time_fastest_us == fastest_of(r.latencies@),
            r.time_slowest_us == slowest_of(r.latencies@),
            r.time_average_us == mean(self.time_total_us as int, self.req_num as int),
            r.req_per_sec == rate_of(num_requests as int, elapsed_us as int),
            r.size_total == self.size_total,
            r.size_per_req == mean(self.size_total as int, self.req_num as int),
            r.req_num == self.req_num,
            r.statuses@ == self.status_num@,
            r.histogram@.len() == BUCKET_COUNT + 1,
            forall|b: int| #![trigger r.histogram@[b]] 0 <= b <= BUCKET_COUNT ==> {
                &&& r.histogram@[b].edge_us == edge_of(r.time_fastest_us as int, r.time_slowest_us as int, b)
                &&& r.histogram@[b].count == bucket_count(r.latencies@, r.time_fastest_us as int, r.time_slowest_us as int, b)
                &&& r.histogram@[b].bar == bar_of(
                    r.histogram@[b].count as int,
                    max_of(counts_of(r.histogram@)),
                )
            },
            sum_of(counts_of(r.histogram@)) == self.req_num,
            r.percentiles@.len() == PERCENTILE_TARGETS@.len(),
            forall|j: int| 0 <= j < r.percentiles@.len() ==> r.percentiles@[j].target
                == PERCENTILE_TARGETS@[j] && r.percentiles@[j].latency_us == percentile_of(
                r.latencies@,
                PERCENTILE_TARGETS@[j] as int,
            ),
    {
        let n = self.results.len();
        let mut lats: Vec<u64> = Vec::new();
        let mut i: usize = 0;
        while i < n
            invariant
                n == self.results@.len(),
                i <= n,
                lats@ == latencies(self.results@).take(i as int),
            decreases n - i,
        {
            lats.push(self.results[i].latency_us);
            assert(lats@ =~= latencies(self.results@).take(i + 1));
            i = i + 1;
        }
        assert(lats@ =~= latencies(self.results@));
        sort_ascending(&mut lats);
        proof {
            lats@.to_multiset_ensures();
            latencies(self.results@).to_multiset_ensures();
        }
        let fastest: u64 = if n == 0 { 0 } else { lats[0] };
        let slowest: u64 = if n == 0 { 0 } else { lats[n - 1] };
        let time_average_us: u64 = if self.req_num == 0 { 0 } else { self.time_total_us / self.req_num };
        let size_per_req: u64 = if self.req_num == 0 { 0 } else { self.size_total / self.req_num };
        let req_per_sec: u128 = if elapsed_us == 0 {
            0
        } else {
            (num_requests as u128) * 1_000_000 / (elapsed_us as u128)
        };
        let hist = histogram(&lats);
        let pct = percentile_table(&lats);
        Summary {
            total_us: elapsed_us,
            time_fastest_us: fastest,
            time_slowest_us: slowest,
            time_average_us,
            req_per_sec,
            size_total: self.size_total,
            size_per_req,
            req_num: self.req_num,
            statuses: self.status_num.clone(),
            latencies: lats,
            histogram: hist,
            percentiles: pct,
        }
    }
}

/// Once a run is complete, the status counts add up to the number of
/// requests, and there is one recorded result per request.
pub proof fn lemma_report_consistent(r: &Report)
    requires
        r.wf(),
    ensures
        sum_counts(r.status_num@) == r.req_num,
        r.req_num == r.results@.len(),
{
}

/// The per-request size, truncated, never overstates the size total.
pub proof fn lemma_size_per_req_bound(size_total: u64, req_num: u64)
    requires
        req_num > 0,
    ensures
        mean(size_total as int, req_num as int) * req_num <= size_total,
{
    let t = size_total as int;
    let n = req_num as int;
    assert((t / n) * n <= t) by (nonlinear_arith)
        requires n > 0, t >= 0;
}

} // verus!

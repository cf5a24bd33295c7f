use boom::config::{
    basic_auth, check_counts, credentials, parse_auth, parse_port, parse_proxy, split_pair,
    authorization_value, ConfigError, HeaderKind, RequestSpec,
};
use boom::dispatch::{plan_queues, worker_of, DispatchError, WorkItem};
use boom::report::{reads_body, Outcome, Report, StatusCount, Summary, TRANSPORT_FAILURE};
use boom::stats::{histogram, percentile, percentile_table, PERCENTILE_TARGETS};

/// Runs the dispatch plan of `n` requests over `c` workers, recording for
/// request `i` the outcome and latency that `f` gives it.
fn run(n: u64, c: usize, f: impl Fn(u64) -> (Outcome, u64)) -> Summary {
    let queues = plan_queues(n, c).unwrap();
    let mut report = Report::new();
    for q in queues.iter() {
        for item in q.iter() {
            match item {
                WorkItem::Execute(i) => {
                    let (o, lat) = f(*i);
                    report.record_outcome(o, lat);
                }
                WorkItem::Stop => break,
            }
        }
    }
    report.finalize(n, 1_000_000)
}

fn count_for(s: &Summary, status: u16) -> u64 {
    s.statuses.iter().filter(|c| c.status == status).map(|c| c.count).sum()
}

#[test]
fn dispatch_shares_round_robin() {
    for n in 0u64..25 {
        for c in 1usize..7 {
            let qs = plan_queues(n, c).unwrap();
            assert_eq!(qs.len(), c);
            let mut total = 0u64;
            for (k, q) in qs.iter().enumerate() {
                let k = k as u64;
                let expected = if k < n { (n - k + c as u64 - 1) / c as u64 } else { 0 };
                assert_eq!(q.len() as u64, expected + 1);
                assert_eq!(*q.last().unwrap(), WorkItem::Stop);
                for (j, item) in q[..q.len() - 1].iter().enumerate() {
                    assert_eq!(*item, WorkItem::Execute(k + j as u64 * c as u64));
                }
                total += expected;
            }
            assert_eq!(total, n);
        }
    }
}

#[test]
fn dispatch_ten_over_three() {
    let qs = plan_queues(10, 3).unwrap();
    assert_eq!(
        qs[0],
        vec![WorkItem::Execute(0), WorkItem::Execute(3), WorkItem::Execute(6), WorkItem::Execute(9), WorkItem::Stop]
    );
    assert_eq!(qs[1], vec![WorkItem::Execute(1), WorkItem::Execute(4), WorkItem::Execute(7), WorkItem::Stop]);
    assert_eq!(qs[2], vec![WorkItem::Execute(2), WorkItem::Execute(5), WorkItem::Execute(8), WorkItem::Stop]);
    assert_eq!(worker_of(7, 3), 1);
}

#[test]
fn dispatch_refuses_empty_pool() {
    assert_eq!(plan_queues(5, 0), Err(DispatchError::NoWorkers));
}

#[test]
fn dispatch_more_workers_than_requests() {
    let qs = plan_queues(2, 4).unwrap();
    assert_eq!(qs[0], vec![WorkItem::Execute(0), WorkItem::Stop]);
    assert_eq!(qs[1], vec![WorkItem::Execute(1), WorkItem::Stop]);
    assert_eq!(qs[2], vec![WorkItem::Stop]);
    assert_eq!(qs[3], vec![WorkItem::Stop]);
}

#[test]
fn scenario_uniform_responses() {
    let s = run(10, 2, |_| (Outcome::Response { status: 200, body_len: 50 }, 100_000));
    assert_eq!(s.size_total, 500);
    assert_eq!(s.size_per_req, 50);
    assert_eq!(s.time_average_us, 100_000);
    assert_eq!(s.req_num, 10);
    assert_eq!(s.statuses, vec![StatusCount { status: 200, count: 10 }]);
    assert_eq!(s.req_per_sec, 10);
}

#[test]
fn scenario_single_request() {
    let s = run(1, 4, |_| (Outcome::Response { status: 200, body_len: 7 }, 4_321));
    assert_eq!(s.time_slowest_us, s.time_fastest_us);
    assert_eq!(s.time_fastest_us, 4_321);
    let nonzero: Vec<usize> = (0..s.histogram.len()).filter(|&b| s.histogram[b].count > 0).collect();
    assert_eq!(nonzero, vec![10]);
    assert_eq!(s.histogram[10].count, 1);
    assert_eq!(s.histogram[10].bar, 40);
    let present: Vec<u64> = s.percentiles.iter().filter_map(|p| p.latency_us).collect();
    for v in present.iter() {
        assert_eq!(*v, 4_321);
    }
}

#[test]
fn scenario_no_requests() {
    let s = run(0, 3, |_| (Outcome::Failed, 0));
    assert_eq!(s.req_num, 0);
    assert_eq!(s.time_average_us, 0);
    assert_eq!(s.size_per_req, 0);
    assert_eq!(s.time_fastest_us, 0);
    assert_eq!(s.time_slowest_us, 0);
    assert!(s.percentiles.iter().all(|p| p.latency_us.is_none()));
    assert_eq!(s.histogram.len(), 11);
    assert!(s.histogram.iter().all(|b| b.count == 0 && b.bar == 0));
    assert!(s.statuses.is_empty());
}

#[test]
fn scenario_mixed_statuses() {
    let s = run(10, 3, |i| {
        if i < 7 {
            (Outcome::Response { status: 200, body_len: 10 + i }, 1_000 * (i + 1))
        } else {
            (Outcome::Response { status: 500, body_len: 999 }, 1_000 * (i + 1))
        }
    });
    assert_eq!(count_for(&s, 200), 7);
    assert_eq!(count_for(&s, 500), 3);
    assert_eq!(s.statuses.len(), 2);
    assert_eq!(s.size_total, (10..17).sum::<u64>());
    assert_eq!(s.size_per_req, 91 / 10);
    assert_eq!(s.time_fastest_us, 1_000);
    assert_eq!(s.time_slowest_us, 10_000);
    assert_eq!(s.time_average_us, 5_500);
}

#[test]
fn transport_failure_is_recorded() {
    let mut r = Report::new();
    r.record_outcome(Outcome::Failed, 30);
    r.record_outcome(Outcome::Response { status: 404, body_len: 12 }, 20);
    r.record_outcome(Outcome::Response { status: 200, body_len: 12 }, 10);
    assert_eq!(r.req_num, 3);
    assert_eq!(r.results.len(), 3);
    assert_eq!(r.results[0].status, TRANSPORT_FAILURE);
    assert_eq!(r.size_total, 12);
    assert_eq!(r.time_total_us, 60);
    let total: u64 = r.status_num.iter().map(|c| c.count).sum();
    assert_eq!(total, r.req_num);
    assert!(reads_body(200));
    assert!(!reads_body(204));
}

#[test]
fn record_counts_statuses_in_first_seen_order() {
    let mut r = Report::new();
    r.record(500, 1, None);
    r.record(200, 2, Some(5));
    r.record(500, 3, None);
    assert_eq!(
        r.status_num,
        vec![StatusCount { status: 500, count: 2 }, StatusCount { status: 200, count: 1 }]
    );
    assert_eq!(r.size_total, 5);
}

#[test]
fn size_per_req_truncates() {
    let mut r = Report::new();
    r.record(200, 1, Some(10));
    r.record(200, 1, Some(0));
    r.record(200, 1, Some(0));
    let s = r.finalize(3, 0);
    assert_eq!(s.size_per_req, 3);
    assert!(s.size_per_req * s.req_num <= s.size_total);
    assert_eq!(s.req_per_sec, 0);
}

#[test]
fn finalize_sorts_latencies() {
    let mut r = Report::new();
    for lat in [50u64, 10, 40, 20, 30] {
        r.record(200, lat, None);
    }
    let s = r.finalize(5, 2_000_000);
    assert_eq!(s.latencies, vec![10, 20, 30, 40, 50]);
    assert_eq!(s.time_fastest_us, 10);
    assert_eq!(s.time_slowest_us, 50);
    assert_eq!(s.req_per_sec, 2);
}

#[test]
fn histogram_edges_counts_and_bars() {
    let lats: Vec<u64> = vec![0, 0, 0, 10, 55, 100];
    let h = histogram(&lats);
    let edges: Vec<u64> = h.iter().map(|b| b.edge_us).collect();
    assert_eq!(edges, vec![0, 10, 20, 30, 40, 50, 60, 70, 80, 90, 100]);
    let counts: Vec<u64> = h.iter().map(|b| b.count).collect();
    assert_eq!(counts, vec![3, 1, 0, 0, 0, 0, 1, 0, 0, 0, 1]);
    assert_eq!(counts.iter().sum::<u64>(), lats.len() as u64);
    assert_eq!(h[0].bar, 40);
    assert_eq!(h[1].bar, 13);
    assert_eq!(h[2].bar, 0);
}

#[test]
fn histogram_counts_sum_to_samples() {
    let lats: Vec<u64> = (0..97u64).map(|i| i * i % 1013).collect::<Vec<_>>();
    let mut sorted = lats.clone();
    sorted.sort();
    let h = histogram(&sorted);
    assert_eq!(h.iter().map(|b| b.count).sum::<u64>(), 97);
}

#[test]
fn histogram_equal_latencies_in_last_bucket() {
    let h = histogram(&vec![7, 7, 7]);
    assert_eq!(h[10].count, 3);
    assert!(h[..10].iter().all(|b| b.count == 0));
}

#[test]
fn percentiles_nearest_rank() {
    let lats: Vec<u64> = (1..=10).collect();
    let t = percentile_table(&lats);
    let got: Vec<(u64, Option<u64>)> = t.iter().map(|p| (p.target, p.latency_us)).collect();
    assert_eq!(
        got,
        vec![(10, Some(2)), (25, Some(4)), (50, Some(6)), (75, Some(9)), (90, Some(10)), (95, None), (99, None)]
    );
    assert_eq!(PERCENTILE_TARGETS.len(), 7);
    assert_eq!(percentile(&lats, 0), Some(1));
    assert_eq!(percentile(&vec![], 10), None);
}

#[test]
fn percentiles_non_decreasing() {
    let lats: Vec<u64> = (0..100u64).map(|i| i * i / 7).collect();
    let t = percentile_table(&lats);
    let present: Vec<u64> = t.iter().filter_map(|p| p.latency_us).collect();
    assert_eq!(present.len(), 7);
    for w in present.windows(2) {
        assert!(w[0] <= w[1]);
    }
}

#[test]
fn split_pair_needs_exactly_one_colon() {
    assert_eq!(split_pair("user:pw"), Some(("user".to_string(), "pw".to_string())));
    assert_eq!(split_pair(":"), Some((String::new(), String::new())));
    assert_eq!(split_pair("nocolon"), None);
    assert_eq!(split_pair("a:b:c"), None);
    assert_eq!(split_pair("é:ü"), Some(("é".to_string(), "ü".to_string())));
}

#[test]
fn auth_and_proxy_parsing() {
    assert_eq!(parse_auth("alice:secret"), Ok(("alice".to_string(), "secret".to_string())));
    assert_eq!(parse_auth("alice"), Err(ConfigError::InvalidAuth));
    assert_eq!(parse_proxy("proxy.local:8080"), Ok(("proxy.local".to_string(), 8080)));
    assert_eq!(parse_proxy("proxy.local:65535"), Ok(("proxy.local".to_string(), 65535)));
    assert_eq!(parse_proxy("proxy.local:65536"), Err(ConfigError::InvalidProxy));
    assert_eq!(parse_proxy("proxy.local:80a"), Err(ConfigError::InvalidProxy));
    assert_eq!(parse_proxy("proxy.local:"), Err(ConfigError::InvalidProxy));
    assert_eq!(parse_proxy("proxy.local"), Err(ConfigError::InvalidProxy));
    assert_eq!(parse_port("00042"), Some(42));
    assert_eq!(parse_port("99999999999999999999999"), None);
}

#[test]
fn count_validation() {
    assert_eq!(check_counts(200, 50), Ok((200, 50)));
    assert_eq!(check_counts(0, 1), Ok((0, 1)));
    assert_eq!(check_counts(10, 0), Err(ConfigError::InvalidConcurrency));
    assert_eq!(check_counts(10, -3), Err(ConfigError::InvalidConcurrency));
    assert_eq!(check_counts(-1, 3), Err(ConfigError::InvalidCount));
}

#[test]
fn basic_auth_header_value() {
    assert_eq!(credentials("user", "pass"), b"user:pass".to_vec());
    assert_eq!(authorization_value(&b"abc".to_vec()), b"Basic abc".to_vec());
    assert_eq!(basic_auth("user", "pass"), b"Basic dXNlcjpwYXNz".to_vec());
    assert_eq!(basic_auth("Aladdin", "open sesame"), b"Basic QWxhZGRpbjpvcGVuIHNlc2FtZQ==".to_vec());
}

fn spec(keepalive: bool, compress: bool, user: &str) -> RequestSpec {
    RequestSpec {
        method: "GET".to_string(),
        url: "http://localhost/".to_string(),
        body: String::new(),
        content_type: "text/html".to_string(),
        username: user.to_string(),
        password: "pw".to_string(),
        proxy_host: String::new(),
        proxy_port: 0,
        keepalive,
        compress,
    }
}

#[test]
fn request_headers_follow_flags() {
    assert_eq!(
        spec(true, true, "").headers(),
        vec![HeaderKind::UserAgent, HeaderKind::ContentType, HeaderKind::AcceptGzip]
    );
    assert_eq!(
        spec(false, false, "me").headers(),
        vec![HeaderKind::UserAgent, HeaderKind::ConnectionClose, HeaderKind::ContentType, HeaderKind::Authorization]
    );
    assert_eq!(spec(true, true, "").authorization(), None);
    assert_eq!(spec(true, true, "me").authorization(), Some(b"Basic bWU6cHc=".to_vec()));
}

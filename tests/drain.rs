use local_drain::clock::clock_position;
use local_drain::codec::{decode_ts, encode_ts};
use local_drain::timeseries::next_stats_exec;
use local_drain::value::{decode_i64, decode_u64};
use local_drain::{
    AggregatedMetric, DrainError, FilteredData, LocalDrain, MetricData, Percentiles,
    QueryAnswerMetrics, QueryMetricsType, TimeStats,
};

fn percentile_step(old: usize, sample: usize, sd: f64, q: f64) -> u64 {
    let delta = sd * 0.01;
    if sample == old {
        old as u64
    } else if sample < old {
        (old as f64 - delta / q) as u64
    } else {
        (old as f64 + delta / (1.0 - q)) as u64
    }
}

fn estimator(old: Option<TimeStats>, t: u64) -> TimeStats {
    match old {
        None => TimeStats {
            count: 1,
            mean: (t as f64).to_bits(),
            var: 0,
            p50: t,
            p90: t,
            p99: t,
            p99_9: t,
            p99_99: t,
            p99_999: t,
            p100: t,
        },
        Some(o) => {
            let n = o.count as f64;
            let mean = f64::from_bits(o.mean);
            let var = f64::from_bits(o.var);
            let x = t as f64;
            let new_mean = (mean * n + x) / (n + 1.0);
            let dev = x - mean;
            let new_var = (var * n + dev * dev) / (n + 1.0);
            let sd = new_var.sqrt();
            let s = t as usize;
            TimeStats {
                count: o.count + 1,
                mean: new_mean.to_bits(),
                var: new_var.to_bits(),
                p50: percentile_step(o.p50 as usize, s, sd, 0.5),
                p90: percentile_step(o.p90 as usize, s, sd, 0.9),
                p99: percentile_step(o.p99 as usize, s, sd, 0.99),
                p99_9: percentile_step(o.p99_9 as usize, s, sd, 0.999),
                p99_99: percentile_step(o.p99_99 as usize, s, sd, 0.9999),
                p99_999: percentile_step(o.p99_999 as usize, s, sd, 0.99999),
                p100: o.p100.max(t),
            }
        }
    }
}

fn drain() -> LocalDrain {
    LocalDrain::new(String::from("sozu")).expect("temporary store")
}

fn put(d: &mut LocalDrain, name: &str, cluster: Option<&str>, backend: Option<&str>, m: MetricData, t: i64) {
    d.receive_metric_at(name, cluster, backend, m, t, &estimator).expect("stored");
}

fn cluster_query(d: &LocalDrain, metric: &str, cluster: &str) -> Vec<(Vec<u8>, FilteredData)> {
    let q = QueryMetricsType::Cluster {
        metrics: vec![metric.to_string()],
        clusters: vec![cluster.to_string()],
    };
    match d.query(&q).expect("query") {
        QueryAnswerMetrics::Cluster(a) => {
            assert_eq!(a.len(), 1);
            assert_eq!(a[0].cluster_id, cluster.as_bytes().to_vec());
            a[0].values.iter().map(|v| (v.prefix.clone(), v.value)).collect()
        }
        other => panic!("unexpected answer {:?}", other),
    }
}

fn count_row(d: &LocalDrain, prefix: &str, t: i64) -> Option<i64> {
    d.row_at(false, prefix.as_bytes(), t).expect("row").map(|v| decode_i64(&v))
}

#[test]
fn gauge_set_then_query_returns_latest() {
    let mut d = drain();
    put(&mut d, "conn", Some("A"), None, MetricData::Gauge(5), 100);
    put(&mut d, "conn", Some("A"), None, MetricData::Gauge(7), 101);
    let v = cluster_query(&d, "conn", "A");
    assert_eq!(v, vec![(b"conn\tA".to_vec(), FilteredData::Gauge(7))]);
}

#[test]
fn gauge_deltas_accumulate() {
    let mut d = drain();
    put(&mut d, "conn", Some("A"), None, MetricData::GaugeAdd(3), 200);
    put(&mut d, "conn", Some("A"), None, MetricData::GaugeAdd(2), 210);
    let v = cluster_query(&d, "conn", "A");
    assert_eq!(v, vec![(b"conn\tA".to_vec(), FilteredData::Gauge(5))]);
}

#[test]
fn gauge_delta_without_recent_row_starts_from_delta() {
    let mut d = drain();
    put(&mut d, "conn", Some("A"), None, MetricData::GaugeAdd(3), 200);
    put(&mut d, "conn", Some("A"), None, MetricData::GaugeAdd(2), 400);
    let v = cluster_query(&d, "conn", "A");
    assert_eq!(v, vec![(b"conn\tA".to_vec(), FilteredData::Gauge(2))]);
}

#[test]
fn counts_sum_per_second() {
    let mut d = drain();
    put(&mut d, "req", Some("A"), None, MetricData::Count(1), 300);
    put(&mut d, "req", Some("A"), None, MetricData::Count(4), 300);
    put(&mut d, "req", Some("A"), None, MetricData::Count(2), 305);
    assert_eq!(count_row(&d, "req\tA", 300), Some(5));
    assert_eq!(count_row(&d, "req\tA", 305), Some(2));
    let v = cluster_query(&d, "req", "A");
    assert_eq!(v, vec![(b"req\tA".to_vec(), FilteredData::Count(2))]);
}

#[test]
fn minute_roll_up_collapses_sixty_rows() {
    let mut d = drain();
    for t in 3540..3600 {
        put(&mut d, "r", Some("A"), None, MetricData::Count(1), t);
    }
    d.clear(3600).expect("clear");
    assert_eq!(count_row(&d, "r\tA", 3540), Some(60));
    for t in 3541..3600 {
        assert_eq!(count_row(&d, "r\tA", t), None);
    }
}

#[test]
fn minute_roll_up_keeps_latest_gauge() {
    let mut d = drain();
    put(&mut d, "g", Some("A"), None, MetricData::Gauge(4), 1205);
    put(&mut d, "g", Some("A"), None, MetricData::Gauge(9), 1230);
    put(&mut d, "g", Some("A"), None, MetricData::Gauge(6), 1210);
    d.clear(1260).expect("clear");
    let row = d.row_at(false, b"g\tA", 1200).expect("row").expect("collapsed row");
    assert_eq!(decode_u64(&row), 9);
    assert_eq!(d.row_at(false, b"g\tA", 1230).expect("row"), None);
}

#[test]
fn time_sample_initialises_percentiles() {
    let mut d = drain();
    put(&mut d, "lat", Some("A"), None, MetricData::Time(42), 1000);
    let v = cluster_query(&d, "lat", "A");
    let expected = Percentiles {
        samples: 1,
        p_50: 42,
        p_90: 42,
        p_99: 42,
        p_99_9: 42,
        p_99_99: 42,
        p_99_999: 42,
        p_100: 42,
    };
    assert_eq!(v, vec![(b"lat\tA".to_vec(), FilteredData::Percentiles(expected))]);
}

#[test]
fn retention_drops_rows_older_than_a_day() {
    let mut d = drain();
    for h in 0..25i64 {
        put(&mut d, "hits", Some("A"), None, MetricData::Count(1), h * 3600);
    }
    let now = 25 * 3600;
    d.clear(now).expect("clear");
    assert_eq!(count_row(&d, "hits\tA", 0), None);
    for h in 1..25i64 {
        assert_eq!(count_row(&d, "hits\tA", h * 3600), Some(1), "hour {}", h);
    }
    match d.query(&QueryMetricsType::List).expect("list") {
        QueryAnswerMetrics::List(ps) => assert_eq!(ps, vec![b"hits\tA".to_vec()]),
        other => panic!("unexpected answer {:?}", other),
    }
}

#[test]
fn clear_twice_changes_nothing_the_second_time() {
    let mut d = drain();
    for t in [3500i64, 3530, 3545, 3570, 3599] {
        put(&mut d, "c", Some("A"), None, MetricData::Count(3), t);
    }
    d.clear(3600).expect("clear");
    let after_first: Vec<Option<i64>> = (0..3600).map(|t| count_row(&d, "c\tA", t)).collect();
    d.clear(3600).expect("clear");
    let after_second: Vec<Option<i64>> = (0..3600).map(|t| count_row(&d, "c\tA", t)).collect();
    assert_eq!(after_first, after_second);
    assert_eq!(count_row(&d, "c\tA", 0), Some(6));
    assert_eq!(count_row(&d, "c\tA", 3540), Some(9));
}

#[test]
fn clear_evicts_series_with_only_the_sentinel_left() {
    let mut d = drain();
    put(&mut d, "old", Some("A"), None, MetricData::Count(1), 100);
    d.clear(100 + 2 * 86400 - (100 + 2 * 86400) % 3600).expect("clear");
    match d.query(&QueryMetricsType::List).expect("list") {
        QueryAnswerMetrics::List(ps) => assert!(ps.is_empty()),
        other => panic!("unexpected answer {:?}", other),
    }
}

#[test]
fn percentiles_stay_ordered() {
    let mut d = drain();
    for (i, s) in [10usize, 1000, 3, 500, 7, 90000, 1, 42].iter().enumerate() {
        put(&mut d, "lat", Some("B"), None, MetricData::Time(*s), 5001 + i as i64 * 0);
    }
    let v = cluster_query(&d, "lat", "B");
    match v[0].1 {
        FilteredData::Percentiles(p) => {
            assert_eq!(p.samples, 8);
            assert!(p.p_50 <= p.p_90 && p.p_90 <= p.p_99 && p.p_99 <= p.p_99_9);
            assert!(p.p_99_9 <= p.p_99_99 && p.p_99_99 <= p.p_99_999 && p.p_99_999 <= p.p_100);
            assert_eq!(p.p_100, 90000);
        }
        other => panic!("unexpected value {:?}", other),
    }
}

#[test]
fn next_stats_clamps_proposals() {
    let old = TimeStats { count: 3, mean: 0, var: 0, p50: 10, p90: 20, p99: 30, p99_9: 40, p99_99: 50, p99_999: 60, p100: 70 };
    let proposal = TimeStats { count: 0, mean: 1, var: 2, p50: 90, p90: 5, p99: 100, p99_9: 0, p99_99: 80, p99_999: 1, p100: 0 };
    let s = next_stats_exec(Some(old), 65, proposal);
    assert_eq!(s.count, 4);
    assert_eq!((s.mean, s.var), (1, 2));
    assert_eq!((s.p50, s.p90, s.p99, s.p99_9, s.p99_99, s.p99_999, s.p100), (70, 70, 70, 70, 70, 70, 70));
    let first = next_stats_exec(None, 8, proposal);
    assert_eq!((first.count, first.mean, first.var, first.p50, first.p100), (1, 1, 0, 8, 8));
}

#[test]
fn backend_observations_write_both_namespaces() {
    let mut d = drain();
    put(&mut d, "bytes", Some("A"), Some("b1"), MetricData::Count(7), 500);
    assert_eq!(count_row(&d, "bytes\tA", 500), Some(7));
    let row = d.row_at(true, b"bytes\tA\tb1", 500).expect("row").expect("backend row");
    assert_eq!(decode_i64(&row), 7);
    let q = QueryMetricsType::Backend {
        metrics: vec!["bytes".to_string()],
        backends: vec![("A".to_string(), "b1".to_string())],
    };
    match d.query(&q).expect("query") {
        QueryAnswerMetrics::Backend(a) => {
            assert_eq!(a.len(), 1);
            assert_eq!(a[0].backend_id, b"b1".to_vec());
            assert_eq!(a[0].values[0].prefix, b"bytes\tA\tb1".to_vec());
            assert_eq!(a[0].values[0].value, FilteredData::Count(7));
        }
        other => panic!("unexpected answer {:?}", other),
    }
}

#[test]
fn backend_time_queries_are_empty() {
    let mut d = drain();
    put(&mut d, "lat", Some("A"), Some("b1"), MetricData::Time(5), 500);
    let q = QueryMetricsType::Backend {
        metrics: vec!["lat".to_string()],
        backends: vec![("A".to_string(), "b1".to_string())],
    };
    match d.query(&q).expect("query") {
        QueryAnswerMetrics::Backend(a) => assert!(a[0].values.is_empty()),
        other => panic!("unexpected answer {:?}", other),
    }
}

#[test]
fn unknown_metrics_are_skipped() {
    let mut d = drain();
    put(&mut d, "conn", Some("A"), None, MetricData::Gauge(1), 100);
    let v = cluster_query(&d, "nothing", "A");
    assert!(v.is_empty());
}

#[test]
fn reserved_bytes_in_ids_are_refused() {
    let mut d = drain();
    let r = d.receive_metric_at("conn", Some("A\tB"), None, MetricData::Gauge(1), 100, &estimator);
    assert!(matches!(r, Err(DrainError::InvalidId)));
    let r = d.receive_metric_at("co\u{7f}nn", Some("A"), None, MetricData::Gauge(1), 100, &estimator);
    assert!(matches!(r, Err(DrainError::InvalidId)));
    let r = d.receive_metric_at("conn", Some("A"), Some("b "), MetricData::Gauge(1), 100, &estimator);
    assert!(matches!(r, Err(DrainError::InvalidId)));
    match d.query(&QueryMetricsType::List).expect("list") {
        QueryAnswerMetrics::List(ps) => assert!(ps.is_empty()),
        other => panic!("unexpected answer {:?}", other),
    }
}

#[test]
fn kind_change_of_a_series_is_refused() {
    let mut d = drain();
    put(&mut d, "conn", Some("A"), None, MetricData::Gauge(1), 100);
    let r = d.receive_metric_at("conn", Some("A"), None, MetricData::Count(1), 101, &estimator);
    assert!(matches!(r, Err(DrainError::KindMismatch)));
    let r = d.receive_metric_at("conn", Some("A"), None, MetricData::Time(1), 101, &estimator);
    assert!(matches!(r, Err(DrainError::KindMismatch)));
}

#[test]
fn process_metrics_update_in_place() {
    let mut d = drain();
    put(&mut d, "workers", None, None, MetricData::Gauge(4), 100);
    put(&mut d, "workers", None, None, MetricData::GaugeAdd(-1), 101);
    put(&mut d, "accepted", None, None, MetricData::Count(2), 101);
    put(&mut d, "accepted", None, None, MetricData::Count(5), 102);
    put(&mut d, "wait", None, None, MetricData::Time(12), 102);
    put(&mut d, "wait", None, None, MetricData::Time(14), 103);
    assert_eq!(d.data.len(), 3);
    assert!(matches!(d.data[0].value, AggregatedMetric::Gauge(3)));
    assert!(matches!(d.data[1].value, AggregatedMetric::Count(7)));
    match &d.data[2].value {
        AggregatedMetric::Time(_) => assert_eq!(d.data[2].value.samples(), Some(2)),
        _ => panic!("expected a histogram"),
    }
    assert_eq!(d.data[0].value.samples(), None);
    match d.query(&QueryMetricsType::List).expect("list") {
        QueryAnswerMetrics::List(ps) => assert!(ps.is_empty()),
        other => panic!("unexpected answer {:?}", other),
    }
}

#[test]
fn dump_reports_newest_rows() {
    let mut d = drain();
    put(&mut d, "conn", Some("A"), Some("b"), MetricData::Gauge(3), 999);
    put(&mut d, "conn", Some("A"), Some("b"), MetricData::Gauge(8), 1001);
    put(&mut d, "lat", Some("A"), None, MetricData::Time(3), 1001);
    let es = d.dump_cluster_data().expect("dump");
    assert_eq!(es.len(), 2);
    assert_eq!(es[0].cluster_id, b"A".to_vec());
    assert_eq!(es[0].backend_id, None);
    assert_eq!(es[0].name, b"conn".to_vec());
    assert_eq!(es[0].value, FilteredData::Gauge(8));
    assert_eq!(es[1].backend_id, Some(b"b".to_vec()));
    assert_eq!(es[1].value, FilteredData::Gauge(8));
}

#[test]
fn timestamps_encode_and_decode() {
    assert_eq!(encode_ts(0), b"0".to_vec());
    assert_eq!(encode_ts(3540), b"3540".to_vec());
    assert_eq!(encode_ts(-61), b"-61".to_vec());
    assert_eq!(encode_ts(i64::MIN), i64::MIN.to_string().into_bytes());
    assert_eq!(decode_ts(b"3540"), Some(3540));
    assert_eq!(decode_ts(b"-61"), Some(-61));
    assert_eq!(decode_ts(i64::MAX.to_string().as_bytes()), Some(i64::MAX));
    assert_eq!(decode_ts(b"007"), None);
    assert_eq!(decode_ts(b"-0"), None);
    assert_eq!(decode_ts(b""), None);
    assert_eq!(decode_ts(b"12a"), None);
    assert_eq!(decode_ts(b"9223372036854775808"), None);
}

#[test]
fn clock_positions() {
    assert_eq!(clock_position(3600), (0, 0));
    assert_eq!(clock_position(3661), (1, 1));
    assert_eq!(clock_position(1000), (40, 16));
    assert_eq!(clock_position(-1), (59, 59));
}

#[test]
fn receive_stamps_with_the_clock() {
    let mut d = drain();
    d.receive_metric("conn", Some("A"), None, MetricData::Gauge(3), &estimator).expect("stored");
    let v = cluster_query(&d, "conn", "A");
    assert_eq!(v, vec![(b"conn\tA".to_vec(), FilteredData::Gauge(3))]);
}

#[test]
fn sentinel_follows_registration_and_eviction() {
    let mut d = drain();
    put(&mut d, "old", Some("A"), None, MetricData::Count(1), 100);
    let zero = Some(vec![0u8; 8]);
    assert_eq!(d.get_last_before(b"old\tA\x7f", b"old\tA\x7f\x00", false).expect("read"), zero);
    d.clear(172800).expect("clear");
    assert_eq!(d.get_last_before(b"old\tA\x7f", b"old\tA\x7f\x00", false).expect("read"), None);
}

#[test]
fn time_series_register_ten_sentinels() {
    let mut d = drain();
    put(&mut d, "lat", Some("A"), None, MetricData::Time(5), 1001);
    for field in ["count", "mean", "var", "p50", "p90", "p99", "p99.9", "p99.99", "p99.999", "p100"] {
        let mut end = format!("lat\tA.{} \u{7f}", field).into_bytes();
        let start = end.clone();
        end.push(0);
        assert_eq!(d.get_last_before(&start, &end, false).expect("read"), Some(vec![0u8; 8]), "{}", field);
    }
}

#[test]
fn distinct_clusters_keep_apart() {
    let mut d = drain();
    put(&mut d, "conn", Some("A"), None, MetricData::Gauge(1), 100);
    put(&mut d, "conn", Some("B"), None, MetricData::Gauge(2), 101);
    assert_eq!(cluster_query(&d, "conn", "A"), vec![(b"conn\tA".to_vec(), FilteredData::Gauge(1))]);
    assert_eq!(cluster_query(&d, "conn", "B"), vec![(b"conn\tB".to_vec(), FilteredData::Gauge(2))]);
}

#[test]
fn eviction_is_decided_per_series() {
    let mut d = drain();
    put(&mut d, "conn", Some("A"), None, MetricData::Count(1), 100);
    put(&mut d, "conn", Some("AB"), None, MetricData::Count(1), 172000);
    d.clear(172800).expect("clear");
    match d.query(&QueryMetricsType::List).expect("list") {
        QueryAnswerMetrics::List(ps) => assert_eq!(ps, vec![b"conn\tAB".to_vec()]),
        other => panic!("unexpected answer {:?}", other),
    }
    assert_eq!(count_row(&d, "conn\tAB", 169200), Some(1));
}

#[test]
fn clear_with_only_time_series_succeeds() {
    let mut d = drain();
    put(&mut d, "lat", Some("A"), None, MetricData::Time(9), 1001);
    d.clear(3600).expect("clear");
    match d.query(&QueryMetricsType::List).expect("list") {
        QueryAnswerMetrics::List(ps) => assert_eq!(ps, vec![b"lat\tA".to_vec()]),
        other => panic!("unexpected answer {:?}", other),
    }
}

#[test]
fn kind_mismatch_leaves_the_drain_usable() {
    let mut d = drain();
    put(&mut d, "conn", Some("A"), None, MetricData::Gauge(1), 100);
    let r = d.receive_metric_at("conn", Some("A"), Some("b"), MetricData::Count(1), 101, &estimator);
    assert!(matches!(r, Err(DrainError::KindMismatch)));
    put(&mut d, "conn", Some("A"), None, MetricData::Gauge(4), 102);
    assert_eq!(cluster_query(&d, "conn", "A"), vec![(b"conn\tA".to_vec(), FilteredData::Gauge(4))]);
}

#[test]
fn first_latency_sample_is_counted() {
    let a = AggregatedMetric::new(MetricData::Time(17));
    assert_eq!(a.samples(), Some(1));
    let mut d = drain();
    put(&mut d, "wait", None, None, MetricData::Time(3), 100);
    assert_eq!(d.data[0].value.samples(), Some(1));
}

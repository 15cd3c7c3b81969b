use memcache::TimeSeries;
use memcache::statistics::compute_average;
use memcache::statistics::compute_metric;
use memcache::statistics::compute_p0;
use memcache::statistics::compute_p90;
use memcache::statistics::compute_p99;
use memcache::statistics::compute_p999;
use memcache::statistics::sorted_samples;

#[test]
fn test_sorted_samples() {
    let samples = vec![3, 1, 5, 2, 4];
    assert_eq!(sorted_samples(&samples), vec![1, 2, 3, 4, 5]);
}

#[test]
fn test_compute_average() {
    assert_eq!(compute_average(&vec![]), None);
    assert_eq!(compute_average(&vec![2, 4, 6]), Some(4));
    // Floor division.
    assert_eq!(compute_average(&vec![1, 2]), Some(1));
}

#[test]
fn test_percentile_guards() {
    let nine: Vec<u64> = (1..=9).collect();
    let ten: Vec<u64> = (1..=10).collect();
    assert_eq!(compute_p0(&vec![]), None);
    assert_eq!(compute_p0(&vec![7]), Some(7));
    assert_eq!(compute_p90(&nine), None);
    assert_eq!(compute_p90(&ten), Some(10));
    assert_eq!(compute_p99(&ten), None);
    assert_eq!(compute_p999(&ten), None);
}

#[test]
fn test_compute_p99_exact() {
    let hundred: Vec<u64> = (1..=100).collect();
    // index = floor(100 * 99 / 100) = 99 of the ascending order
    assert_eq!(compute_p99(&hundred), Some(100));
}

#[test]
fn test_compute_metric_fields() {
    let samples = vec![5, 1, 3];
    let m = compute_metric("req", &samples);
    assert_eq!(m.name, "req");
    assert_eq!(m.n, 3);
    assert_eq!(m.avg, Some(3));
    assert_eq!(m.p0, Some(1));
    assert_eq!(m.p90, None);
}

#[test]
fn test_time_series_add_and_compute() {
    let mut ts = TimeSeries::new();
    ts.add_timer("get", 10, 4);
    ts.add_timer("get", 10, 8);
    ts.add_timer("set", 11, 6);

    let timers = ts.get_timers();
    assert_eq!(timers.len(), 2);
    assert_eq!(timers[0].0, "get");
    assert_eq!(timers[0].1, vec![(10, vec![4, 8])]);
    assert_eq!(timers[1].0, "set");

    let metrics = ts.compute_metrics();
    assert_eq!(metrics.len(), 2);
    assert_eq!(metrics[0].0, "get");
    assert_eq!(metrics[0].1.n, 2);
    assert_eq!(metrics[0].1.avg, Some(6));
    assert_eq!(metrics[1].0, "set");
    assert_eq!(metrics[1].1.avg, Some(6));
}

#[test]
fn test_time_series_buckets_by_second() {
    let mut ts = TimeSeries::new();
    ts.add_timer("get", 10, 1);
    ts.add_timer("get", 11, 2);
    let timers = ts.get_timers();
    assert_eq!(timers[0].1, vec![(10, vec![1]), (11, vec![2])]);
    // The metric aggregates the full sample set, across all buckets.
    let metrics = ts.compute_metrics();
    assert_eq!(metrics[0].1.n, 2);
    assert_eq!(metrics[0].1.avg, Some(1));
    assert_eq!(metrics[0].1.p0, Some(1));
}

#[test]
fn test_percentiles_across_buckets() {
    // Ten samples spread over several seconds reach the p90 guard only
    // because the aggregate runs over the full sample set.
    let mut ts = TimeSeries::new();
    for v in 1..=5u64 {
        ts.add_timer("get", 10, v);
    }
    for v in 6..=10u64 {
        ts.add_timer("get", 11, v);
    }
    let metrics = ts.compute_metrics();
    assert_eq!(metrics[0].1.n, 10);
    assert_eq!(metrics[0].1.p90, Some(10));
    assert_eq!(metrics[0].1.avg, Some(5));
}

#[test]
fn test_time_series_clear() {
    let mut ts = TimeSeries::new();
    ts.add_timer("get", 10, 1);
    ts.clear();
    assert_eq!(ts.get_timers().len(), 0);
}

#[test]
fn test_time_series_merge() {
    let mut a = TimeSeries::new();
    a.add_timer("get", 10, 1);
    a.add_timer("set", 10, 2);

    let mut b = TimeSeries::new();
    b.add_timer("get", 10, 3);
    b.add_timer("get", 11, 4);
    b.add_timer("del", 10, 5);

    a.merge(&b);
    let timers = a.get_timers();
    assert_eq!(timers.len(), 3);
    assert_eq!(timers[0].0, "get");
    assert_eq!(timers[0].1, vec![(10, vec![1, 3]), (11, vec![4])]);
    assert_eq!(timers[1].0, "set");
    assert_eq!(timers[1].1, vec![(10, vec![2])]);
    assert_eq!(timers[2].0, "del");
    assert_eq!(timers[2].1, vec![(10, vec![5])]);
}

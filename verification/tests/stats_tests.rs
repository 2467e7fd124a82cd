use blockrace::aggregator::get_latency_status;
use blockrace::aggregator::Aggregator;
use blockrace::engine::Engine;
use blockrace::event::LatencySample;

fn aggregator(max_plausible_ms: i64, thresholds: Vec<i64>) -> Aggregator {
    Aggregator::new(max_plausible_ms, thresholds).unwrap()
}

#[test]
fn deterministic_stats_for_a_literal_vector() {
    // samples [100, 50, 300, 50] sort to [50, 50, 100, 300]:
    // p50 index = 50 * (4 - 1) / 100 = 1, so p50 = 50
    let mut a = aggregator(60_000, vec![]);
    for v in [100, 50, 300, 50] {
        assert!(a.record(v));
    }
    let st = a.snapshot();
    assert_eq!(st.count, 4);
    assert_eq!(st.min_ms, 50);
    assert_eq!(st.max_ms, 300);
    assert_eq!(st.sum_ms, 500);
    assert_eq!(st.avg_ms, 125);
    assert_eq!(st.sum_ms as f64 / st.count as f64, 125.0);
    assert_eq!(st.p50_ms, 50);
    // p90/p95/p99 index = floor(p * 3 / 100) = 2 for four samples
    assert_eq!(st.p90_ms, 100);
    assert_eq!(st.p95_ms, 100);
    assert_eq!(st.p99_ms, 100);
    assert_eq!(st.filtered_out, 0);

    // the identical ordered feed gives the identical summary
    let mut b = aggregator(60_000, vec![]);
    for v in [100, 50, 300, 50] {
        assert!(b.record(v));
    }
    let st2 = b.snapshot();
    assert_eq!(st2.count, st.count);
    assert_eq!(st2.sum_ms, st.sum_ms);
    assert_eq!(st2.avg_ms, st.avg_ms);
    assert_eq!(st2.min_ms, st.min_ms);
    assert_eq!(st2.max_ms, st.max_ms);
    assert_eq!(st2.p50_ms, st.p50_ms);
    assert_eq!(st2.p90_ms, st.p90_ms);
    assert_eq!(st2.p95_ms, st.p95_ms);
    assert_eq!(st2.p99_ms, st.p99_ms);
}

#[test]
fn implausible_samples_are_filtered_not_clamped() {
    let mut a = aggregator(60_000, vec![]);
    assert!(!a.record(-5));
    assert!(!a.record(10_000_000));
    assert!(a.record(120));
    let st = a.snapshot();
    assert_eq!(st.count, 1);
    assert_eq!(st.filtered_out, 2);
    assert_eq!(st.min_ms, 120);
    assert_eq!(st.max_ms, 120);
    assert_eq!(st.avg_ms, 120);
}

#[test]
fn empty_snapshot_is_all_zeros() {
    let a = aggregator(60_000, vec![500, 1000]);
    let st = a.snapshot();
    assert_eq!(st.count, 0);
    assert_eq!(st.sum_ms, 0);
    assert_eq!(st.avg_ms, 0);
    assert_eq!(st.min_ms, 0);
    assert_eq!(st.max_ms, 0);
    assert_eq!(st.p50_ms, 0);
    assert_eq!(st.p99_ms, 0);
    assert_eq!(st.bucket_counts, vec![0, 0]);
    assert!(a.running_avg_ms().is_none());
}

#[test]
fn buckets_count_samples_strictly_below_each_threshold() {
    let mut a = aggregator(60_000, vec![500, 1000, 2000]);
    for v in [100, 499, 500, 999, 1500, 2500] {
        assert!(a.record(v));
    }
    let st = a.snapshot();
    assert_eq!(st.bucket_counts, vec![2, 4, 5]);
}

#[test]
fn running_average_needs_no_snapshot() {
    let mut a = aggregator(60_000, vec![]);
    assert!(a.record(10));
    assert!(a.record(11));
    // truncated toward zero: (10 + 11) / 2 = 10
    assert_eq!(a.running_avg_ms(), Some(10));
}

#[test]
fn percentile_rank_uses_the_clamped_index() {
    // nine samples: p50 index = 50 * 8 / 100 = 4, p99 index = 99 * 8 / 100 = 7
    let mut a = aggregator(60_000, vec![]);
    for v in [9, 8, 7, 6, 5, 4, 3, 2, 1] {
        assert!(a.record(v));
    }
    let st = a.snapshot();
    assert_eq!(st.p50_ms, 5);
    assert_eq!(st.p90_ms, 8);
    assert_eq!(st.p95_ms, 8);
    assert_eq!(st.p99_ms, 8);
    // one sample: every percentile is that sample
    let mut b = aggregator(60_000, vec![]);
    assert!(b.record(77));
    let st1 = b.snapshot();
    assert_eq!(st1.p50_ms, 77);
    assert_eq!(st1.p99_ms, 77);
    assert_eq!(st1.min_ms, 77);
    assert_eq!(st1.max_ms, 77);
}

#[test]
fn per_source_snapshots_stay_independent() {
    let mut engine = Engine::new(
        vec!["A".to_string(), "B".to_string()],
        60_000,
        60_000,
        vec![1000],
    )
    .unwrap();
    let sample = |v: i64, source: &str, key: u64| LatencySample {
        value_ms: v,
        source_id: source.to_string(),
        ordering_key: key,
        observed_at: 0,
    };
    assert!(engine.submit_latency_sample(sample(100, "A", 1)));
    assert!(engine.submit_latency_sample(sample(300, "A", 2)));
    assert!(engine.submit_latency_sample(sample(2_000, "B", 1)));
    assert!(!engine.submit_latency_sample(sample(-1, "B", 2)));
    assert!(!engine.submit_latency_sample(sample(5, "C", 3)));
    let a = engine.snapshot_stats(&"A".to_string()).unwrap();
    assert_eq!(a.count, 2);
    assert_eq!(a.avg_ms, 200);
    assert_eq!(a.filtered_out, 0);
    let b = engine.snapshot_stats(&"B".to_string()).unwrap();
    assert_eq!(b.count, 1);
    assert_eq!(b.filtered_out, 1);
    assert!(engine.snapshot_stats(&"C".to_string()).is_none());
    let all = engine.snapshot_stats_all();
    assert_eq!(all.len(), 2);
    assert_eq!(all[0].0, "A");
    assert_eq!(all[0].1.count, 2);
    assert_eq!(all[1].0, "B");
    assert_eq!(all[1].1.count, 1);
}

#[test]
fn get_latency_status_rates_measurement_samples() {
    assert_eq!(get_latency_status(0), "🟢 EXCELLENT");
    assert_eq!(get_latency_status(499), "🟢 EXCELLENT");
    assert_eq!(get_latency_status(500), "🟡 GOOD");
    assert_eq!(get_latency_status(999), "🟡 GOOD");
    assert_eq!(get_latency_status(1000), "🟠 FAIR");
    assert_eq!(get_latency_status(1999), "🟠 FAIR");
    assert_eq!(get_latency_status(2000), "🔴 SLOW");
}

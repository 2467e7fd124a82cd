use blockrace::correlator::Correlator;
use blockrace::event::ArrivalEvent;
use blockrace::event::propagation_latency_ms;
use blockrace::resolver::get_latency_status;
use blockrace::resolver::{classify_latency, default_thresholds, resolve, Quality};

fn event(key: u64, source: &str, observed: i64, claimed: Option<i64>) -> ArrivalEvent {
    ArrivalEvent {
        ordering_key: key,
        claimed_production_time: claimed,
        observed_time: observed,
        source_id: source.to_string(),
    }
}

fn complete_result(
    a: (&str, i64, Option<i64>),
    b: (&str, i64, Option<i64>),
) -> blockrace::correlator::CorrelationResult {
    let mut c = Correlator::new(vec![a.0.to_string(), b.0.to_string()], 60_000).unwrap();
    assert!(c.ingest(event(1, a.0, a.1, a.2)).is_none());
    c.ingest(event(1, b.0, b.1, b.2)).unwrap()
}

#[test]
fn resolve_reports_winner_margin_and_per_side_quality() {
    // LaserStream: observed 1_000_800, claimed 1_000_000 -> 800ms, excellent
    // RPC: observed 1_001_500, claimed 1_000_000 -> 1500ms, fair
    let result = complete_result(
        ("LaserStream", 1_000_800, Some(1_000_000)),
        ("RPC", 1_001_500, Some(1_000_000)),
    );
    let report = resolve(&result, &default_thresholds());
    assert!(report.complete);
    assert_eq!(report.winner_source_id, Some("LaserStream".to_string()));
    assert_eq!(report.margin_ms, Some(700));
    assert_eq!(report.sides.len(), 2);
    assert_eq!(report.sides[0].source_id, "LaserStream");
    assert_eq!(report.sides[0].propagation_latency_ms, Some(800));
    assert_eq!(report.sides[0].quality, Some(Quality::Excellent));
    assert_eq!(report.sides[1].source_id, "RPC");
    assert_eq!(report.sides[1].propagation_latency_ms, Some(1500));
    assert_eq!(report.sides[1].quality, Some(Quality::Fair));
    // the pair rates as its best side; the slow side stays visible above
    assert_eq!(report.overall, Some(Quality::Excellent));
}

#[test]
fn resolve_keeps_an_evicted_result_incomplete() {
    let mut c = Correlator::new(vec!["A".to_string(), "B".to_string()], 1_000).unwrap();
    assert!(c.ingest(event(3, "B", 100, Some(50))).is_none());
    let evicted = c.sweep(5_000);
    let report = resolve(&evicted[0], &default_thresholds());
    assert!(!report.complete);
    assert_eq!(report.winner_source_id, None);
    assert_eq!(report.margin_ms, None);
    assert_eq!(report.sides.len(), 1);
    assert_eq!(report.sides[0].source_id, "B");
}

#[test]
fn sides_without_a_claim_carry_no_quality() {
    let result = complete_result(("A", 500, None), ("B", 700, Some(100)));
    let report = resolve(&result, &default_thresholds());
    assert_eq!(report.sides[0].quality, None);
    assert_eq!(report.sides[0].propagation_latency_ms, None);
    assert_eq!(report.sides[1].propagation_latency_ms, Some(600));
    assert_eq!(report.sides[1].quality, Some(Quality::Excellent));
    assert_eq!(report.overall, Some(Quality::Excellent));
}

#[test]
fn classify_latency_follows_the_thresholds() {
    let t = default_thresholds();
    assert_eq!(classify_latency(899, &t), Quality::Excellent);
    assert_eq!(classify_latency(900, &t), Quality::Good);
    assert_eq!(classify_latency(1199, &t), Quality::Good);
    assert_eq!(classify_latency(1200, &t), Quality::Fair);
    assert_eq!(classify_latency(1999, &t), Quality::Fair);
    assert_eq!(classify_latency(2000, &t), Quality::Slow);
    assert_eq!(classify_latency(-5, &t), Quality::Excellent);
}

#[test]
fn get_latency_status_rates_race_lines() {
    assert_eq!(get_latency_status(899), "🟢 EXCELLENT");
    assert_eq!(get_latency_status(900), "🟡 GOOD");
    assert_eq!(get_latency_status(1199), "🟡 GOOD");
    assert_eq!(get_latency_status(1200), "🟠 FAIR");
    assert_eq!(get_latency_status(1999), "🟠 FAIR");
    assert_eq!(get_latency_status(2000), "🔴 SLOW");
}

#[test]
fn propagation_latency_derives_from_the_claim() {
    let with_claim = event(1, "A", 1_500, Some(900));
    assert_eq!(propagation_latency_ms(&with_claim), Some(600));
    let without = event(1, "A", 1_500, None);
    assert_eq!(propagation_latency_ms(&without), None);
    // a difference beyond the i64 range pins to the bound instead of wrapping
    let extreme = event(1, "A", i64::MAX, Some(i64::MIN));
    assert_eq!(propagation_latency_ms(&extreme), Some(i64::MAX));
}

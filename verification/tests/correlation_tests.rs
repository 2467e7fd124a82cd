use blockrace::correlator::Correlator;
use blockrace::engine::Engine;
use blockrace::event::ConfigError;

fn two_source_correlator() -> Correlator {
    Correlator::new(vec!["LaserStream".to_string(), "RPC".to_string()], 60_000).unwrap()
}

fn event(
    key: u64,
    source: &str,
    observed: i64,
    claimed: Option<i64>,
) -> blockrace::event::ArrivalEvent {
    blockrace::event::ArrivalEvent {
        ordering_key: key,
        claimed_production_time: claimed,
        observed_time: observed,
        source_id: source.to_string(),
    }
}

#[test]
fn correlation_completes_only_after_both_sides() {
    let mut c = two_source_correlator();
    let first = c.ingest(event(100, "LaserStream", 1_000, Some(400)));
    assert!(first.is_none());
    let second = c.ingest(event(100, "RPC", 1_250, Some(400)));
    let result = second.expect("both sides submitted: exactly one result");
    assert_eq!(result.ordering_key, 100);
    assert!(result.complete);
    assert_eq!(result.winner_source_id, Some("LaserStream".to_string()));
    assert_eq!(result.margin_ms, Some(250));
    // the slot is gone and the key is terminal: a stray late event is dropped
    assert!(c.pending.is_empty());
    assert!(c.ingest(event(100, "RPC", 1_300, None)).is_none());
    assert_eq!(c.late_count, 1);
}

#[test]
fn first_arrival_wins_for_a_filled_side() {
    let mut c = two_source_correlator();
    assert!(c.ingest(event(7, "RPC", 500, None)).is_none());
    // a second RPC observation of the same block must not overwrite the first
    assert!(c.ingest(event(7, "RPC", 400, None)).is_none());
    assert_eq!(c.duplicate_count, 1);
    let result = c.ingest(event(7, "LaserStream", 600, None)).unwrap();
    assert_eq!(result.winner_source_id, Some("RPC".to_string()));
    // the margin comes from the first RPC arrival (500), not the duplicate
    assert_eq!(result.margin_ms, Some(100));
}

#[test]
fn tie_yields_no_winner_and_zero_margin() {
    let mut c = two_source_correlator();
    assert!(c.ingest(event(42, "LaserStream", 9_000, None)).is_none());
    let result = c.ingest(event(42, "RPC", 9_000, None)).unwrap();
    assert!(result.complete);
    assert_eq!(result.winner_source_id, None);
    assert_eq!(result.margin_ms, Some(0));
}

#[test]
fn eviction_reports_one_incomplete_result_without_a_winner() {
    let mut c = two_source_correlator();
    assert!(c.ingest(event(5, "RPC", 1_000, Some(900))).is_none());
    // before the retention window elapses nothing is evicted
    assert!(c.sweep(30_000).is_empty());
    assert_eq!(c.pending.len(), 1);
    // after the window the one-sided slot is evicted exactly once
    let evicted = c.sweep(61_000);
    assert_eq!(evicted.len(), 1);
    assert_eq!(evicted[0].ordering_key, 5);
    assert!(!evicted[0].complete);
    assert_eq!(evicted[0].winner_source_id, None);
    assert_eq!(evicted[0].margin_ms, None);
    assert!(c.pending.is_empty());
    // a second sweep emits nothing more for that key
    assert!(c.sweep(120_000).is_empty());
    // and a late event for the evicted key is discarded
    assert!(c.ingest(event(5, "LaserStream", 70_000, None)).is_none());
    assert_eq!(c.late_count, 1);
}

#[test]
fn unknown_source_is_counted_and_ignored() {
    let mut c = two_source_correlator();
    assert!(c.ingest(event(9, "SomeOtherFeed", 100, None)).is_none());
    assert_eq!(c.unknown_source_count, 1);
    assert!(c.pending.is_empty());
}

#[test]
fn interleaved_tasks_lose_no_key() {
    // two simulated submitters, one per source, interleaved over many
    // distinct keys: every key must end complete, none orphaned
    let mut engine = Engine::new(
        vec!["LaserStream".to_string(), "RPC".to_string()],
        60_000,
        60_000,
        vec![],
    )
    .unwrap();
    let n: u64 = 50;
    let mut completed = 0;
    for round in 0..n {
        // the two tasks race in alternating order with differing timings
        let (first, second) = if round % 2 == 0 {
            ("LaserStream", "RPC")
        } else {
            ("RPC", "LaserStream")
        };
        let base = 1_000 + round as i64 * 10;
        assert!(!engine.submit_arrival(round, first.to_string(), base, None));
        if engine.submit_arrival(round, second.to_string(), base + 5, None) {
            completed += 1;
        }
    }
    assert_eq!(completed, n);
    let results = engine.poll_latest_correlation_results();
    assert_eq!(results.len(), n as usize);
    for (i, r) in results.iter().enumerate() {
        assert_eq!(r.ordering_key, i as u64);
        assert!(r.complete);
        assert_eq!(r.margin_ms, Some(5));
    }
    // no partial state survives for any key
    assert!(engine.correlator.pending.is_empty());
    // a drained buffer stays drained
    assert!(engine.poll_latest_correlation_results().is_empty());
}

#[test]
fn engine_routes_results_and_sweeps() {
    let mut engine = Engine::new(
        vec!["A".to_string(), "B".to_string()],
        10_000,
        60_000,
        vec![],
    )
    .unwrap();
    assert!(!engine.submit_arrival(1, "A".to_string(), 100, None));
    assert!(engine.submit_arrival(1, "B".to_string(), 140, None));
    assert!(!engine.submit_arrival(2, "A".to_string(), 200, None));
    // key 2 never completes; the deadline sweep evicts it
    assert_eq!(engine.sweep(20_000), 1);
    let results = engine.poll_latest_correlation_results();
    assert_eq!(results.len(), 2);
    assert!(results[0].complete);
    assert_eq!(results[0].ordering_key, 1);
    assert_eq!(results[0].winner_source_id, Some("A".to_string()));
    assert_eq!(results[0].margin_ms, Some(40));
    assert!(!results[1].complete);
    assert_eq!(results[1].ordering_key, 2);
    assert_eq!(results[1].winner_source_id, None);
}

#[test]
fn configuration_errors_are_fatal_at_construction() {
    assert!(matches!(
        Correlator::new(vec![], 1_000),
        Err(ConfigError::NoSources)
    ));
    assert!(matches!(
        Correlator::new(vec!["A".to_string(), "A".to_string()], 1_000),
        Err(ConfigError::DuplicateSource)
    ));
    assert!(matches!(
        Correlator::new(vec!["A".to_string(), "B".to_string()], 0),
        Err(ConfigError::NonPositiveRetention)
    ));
    assert!(matches!(
        Engine::new(vec!["A".to_string()], 1_000, 0, vec![]),
        Err(ConfigError::NonPositiveMaxPlausible)
    ));
}

#[test]
fn single_source_completes_immediately_without_a_race() {
    let mut c = Correlator::new(vec!["Only".to_string()], 1_000).unwrap();
    let result = c.ingest(event(3, "Only", 50, None)).unwrap();
    assert!(result.complete);
    // one filled side is no race: no winner, no margin
    assert_eq!(result.winner_source_id, None);
    assert_eq!(result.margin_ms, None);
}

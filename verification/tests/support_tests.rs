use blockrace::blocks::{
    block_feed_latency_from, block_latency_result_from, realtime_block_data_from,
    WebSocketBlockFeed,
};
use blockrace::text::{format_duration_ms, i64_text, u64_text, ws_endpoint_url};
use blockrace::txmon::{
    calculate_confirmation_stats, tracker_finish, tracker_start, tracker_step,
    transaction_status_from_meta, transaction_update_from, TransactionStatus,
};

#[test]
fn numbers_render_in_decimal() {
    assert_eq!(u64_text(0), "0");
    assert_eq!(u64_text(42), "42");
    assert_eq!(u64_text(u64::MAX), "18446744073709551615");
    assert_eq!(i64_text(-5), "-5");
    assert_eq!(i64_text(i64::MIN), "-9223372036854775808");
    assert_eq!(i64_text(1203), "1203");
}

#[test]
fn durations_render_by_scale() {
    assert_eq!(format_duration_ms(0), "0ms");
    assert_eq!(format_duration_ms(-5), "-5ms");
    assert_eq!(format_duration_ms(999), "999ms");
    assert_eq!(format_duration_ms(1000), "1.0s");
    assert_eq!(format_duration_ms(1500), "1.5s");
    // tenths round half up: 1.45s renders as 1.5s
    assert_eq!(format_duration_ms(1450), "1.5s");
    assert_eq!(format_duration_ms(59_999), "60.0s");
    assert_eq!(format_duration_ms(60_000), "1.0m");
    assert_eq!(format_duration_ms(90_000), "1.5m");
    assert_eq!(format_duration_ms(150_000), "2.5m");
}

#[test]
fn websocket_urls_swap_the_scheme() {
    assert_eq!(
        ws_endpoint_url("https://rpc.example.com/key"),
        "wss://rpc.example.com/key"
    );
    assert_eq!(ws_endpoint_url("http://localhost:8899"), "ws://localhost:8899");
    assert_eq!(ws_endpoint_url("wss://already.ws"), "wss://already.ws");
    assert_eq!(ws_endpoint_url("rpc.example.com"), "rpc.example.com");
    let feed = WebSocketBlockFeed::new(
        "https://rpc.example.com".to_string(),
        "Example".to_string(),
    );
    assert_eq!(feed.rpc_name, "Example");
    assert_eq!(feed.ws_url, "wss://rpc.example.com");
}

#[test]
fn feed_latency_scales_seconds_to_milliseconds() {
    let l = block_feed_latency_from(9, 1_000, 1_002, "P".to_string());
    assert_eq!(l.feed_latency_ms, 2_000);
    assert_eq!(l.slot, 9);
    assert_eq!(l.rpc_provider, "P");
}

#[test]
fn realtime_block_data_falls_back_to_the_receipt_time() {
    let with_time = realtime_block_data_from(5, Some(1_000), 1_000_800, "P".to_string());
    assert_eq!(with_time.block_time, 1_000);
    assert_eq!(with_time.feed_latency_ms, 800);
    let fallback = realtime_block_data_from(5, None, 1_000_800, "P".to_string());
    assert_eq!(fallback.block_time, 1_000);
    assert_eq!(fallback.feed_latency_ms, 800);
}

#[test]
fn block_latency_result_marks_success_by_the_error() {
    let ok = block_latency_result_from(3, Some(1_000), 1_004, 25, "P".to_string(), None);
    assert!(ok.success);
    assert_eq!(ok.propagation_latency_ms, Some(4_000));
    assert_eq!(ok.rpc_call_latency_ms, 25);
    let failed = block_latency_result_from(
        3,
        None,
        1_004,
        0,
        "P".to_string(),
        Some("no block".to_string()),
    );
    assert!(!failed.success);
    assert_eq!(failed.propagation_latency_ms, None);
    assert_eq!(failed.error, Some("no block".to_string()));
}

#[test]
fn transaction_status_classifies_the_reply_shape() {
    assert_eq!(
        transaction_status_from_meta(false, false, false),
        TransactionStatus::Processing
    );
    assert_eq!(
        transaction_status_from_meta(true, false, false),
        TransactionStatus::Confirmed
    );
    assert_eq!(
        transaction_status_from_meta(true, true, true),
        TransactionStatus::Confirmed
    );
    assert_eq!(
        transaction_status_from_meta(true, true, false),
        TransactionStatus::Failed
    );
}

#[test]
fn transaction_update_stamps_confirmations() {
    let confirmed = transaction_update_from(
        "sig".to_string(),
        Some(10),
        TransactionStatus::Confirmed,
        5_000,
        "P".to_string(),
    );
    assert_eq!(confirmed.confirmation_time, Some(5_000));
    assert_eq!(confirmed.first_seen_time, 5_000);
    let processing = transaction_update_from(
        "sig".to_string(),
        None,
        TransactionStatus::Processing,
        5_000,
        "P".to_string(),
    );
    assert_eq!(processing.confirmation_time, None);
}

#[test]
fn tracker_times_processing_and_confirmation() {
    let st = tracker_start(1_000);
    // nothing found yet: state unchanged, keep polling
    let (st, stop) = tracker_step(st, None, 1_100);
    assert!(!stop);
    // first seen processing: the processing time is stamped once
    let (st, stop) = tracker_step(st, Some(TransactionStatus::Processing), 1_250);
    assert!(!stop);
    assert_eq!(st.first_processing_time, Some(1_250));
    let (st, stop) = tracker_step(st, Some(TransactionStatus::Processing), 1_400);
    assert!(!stop);
    assert_eq!(st.first_processing_time, Some(1_250));
    // confirmation stamps and stops
    let (st, stop) = tracker_step(st, Some(TransactionStatus::Confirmed), 2_000);
    assert!(stop);
    assert_eq!(st.confirmation_time, Some(2_000));
    let speed = tracker_finish(st, "sig".to_string(), "P".to_string());
    assert_eq!(speed.submission_to_processing_ms, Some(250));
    assert_eq!(speed.processing_to_confirmed_ms, Some(750));
    assert_eq!(speed.total_confirmation_time_ms, Some(1_000));
}

#[test]
fn tracker_stops_on_failure_without_a_confirmation() {
    let st = tracker_start(0);
    let (st, stop) = tracker_step(st, Some(TransactionStatus::Failed), 300);
    assert!(stop);
    let speed = tracker_finish(st, "sig".to_string(), "P".to_string());
    assert_eq!(speed.total_confirmation_time_ms, None);
    assert_eq!(speed.submission_to_processing_ms, None);
}

#[test]
fn confirmation_stats_cover_only_confirmed_transactions() {
    let speed = |total: Option<i64>| blockrace::txmon::TransactionSpeed {
        signature: "s".to_string(),
        submission_to_processing_ms: None,
        processing_to_confirmed_ms: None,
        total_confirmation_time_ms: total,
        rpc_provider: "P".to_string(),
    };
    let speeds = vec![
        speed(Some(400)),
        speed(None),
        speed(Some(200)),
        speed(Some(900)),
    ];
    let st = calculate_confirmation_stats(&speeds);
    assert_eq!(st.count, 3);
    assert_eq!(st.min_ms, 200);
    assert_eq!(st.max_ms, 900);
    assert_eq!(st.avg_ms, 500);
    assert_eq!(st.p50_ms, 400);
    // p90 index = floor(90 * 2 / 100) = 1 over the sorted three times
    assert_eq!(st.p90_ms, 400);
    let empty = calculate_confirmation_stats(&vec![speed(None)]);
    assert_eq!(empty.count, 0);
    assert_eq!(empty.avg_ms, 0);
}

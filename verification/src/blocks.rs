//! The block-observation data types the feed adapters fill, and the verified
//! computations that derive latencies from raw block timestamps.  The
//! adapters themselves (HTTP polling, websocket subscriptions) live outside
//! the library and hand in plain values.

use vstd::prelude::*;

use crate::event::clip_i64;

verus! {

/// Integer division truncating toward zero, as the machine division does.
pub open spec fn div_trunc_int(a: int, b: int) -> int {
    if a >= 0 {
        a / b
    } else {
        -((-a) / b)
    }
}

/// How late a block-feed delivery was against the validator's production
/// time, both clocks in whole seconds.
pub struct BlockFeedLatency {
    pub slot: u64,
    /// When the validator produced the block (seconds since the epoch).
    pub block_time: i64,
    /// When the polling client received it (seconds since the epoch).
    pub rpc_received_time: i64,
    /// The difference, scaled to milliseconds.
    pub feed_latency_ms: i64,
    pub rpc_provider: String,
}

/// Derives the feed latency of one polled block: the gap between receipt and
/// production in seconds, scaled to milliseconds and pinned to the `i64`
/// range.
pub fn block_feed_latency_from(
    slot: u64,
    block_time: i64,
    rpc_received_time: i64,
    rpc_provider: String,
) -> (r: BlockFeedLatency)
    ensures
        r.slot == slot,
        r.block_time == block_time,
        r.rpc_received_time == rpc_received_time,
        r.rpc_provider == rpc_provider,
        r.feed_latency_ms as int == clip_i64((rpc_received_time - block_time) * 1000),
{
    let feed_latency_ms = crate::event::clip_i128_to_i64(
        (rpc_received_time as i128 - block_time as i128) * 1000,
    );
    BlockFeedLatency { slot, block_time, rpc_received_time, feed_latency_ms, rpc_provider }
}

/// One block observed over a websocket subscription, in milliseconds.
pub struct RealtimeBlockData {
    pub slot: u64,
    /// The block's production time in seconds; when the notification carried
    /// none, the receipt time scaled down to seconds stands in for it.
    pub block_time: i64,
    /// When the notification arrived (milliseconds since the epoch).
    pub received_time: i64,
    /// Receipt time minus production time in milliseconds.
    pub feed_latency_ms: i64,
    pub rpc_provider: String,
}

/// Derives the realtime block record from one websocket block notification.
/// A notification without a production time falls back to the receipt time,
/// which makes the reported feed latency zero up to rounding.
pub fn realtime_block_data_from(
    slot: u64,
    block_time: Option<i64>,
    received_time: i64,
    rpc_provider: String,
) -> (r: RealtimeBlockData)
    requires
        received_time != i64::MIN,
    ensures
        r.slot == slot,
        r.received_time == received_time,
        r.rpc_provider == rpc_provider,
        r.block_time as int == (match block_time {
            Some(bt) => bt as int,
            None => div_trunc_int(received_time as int, 1000),
        }),
        r.feed_latency_ms as int == clip_i64(received_time - r.block_time * 1000),
{
    let bt = match block_time {
        Some(bt) => bt,
        None => received_time / 1000,
    };
    let feed_latency_ms = crate::event::clip_i128_to_i64(
        received_time as i128 - (bt as i128) * 1000,
    );
    RealtimeBlockData {
        slot,
        block_time: bt,
        received_time,
        feed_latency_ms,
        rpc_provider,
    }
}

/// The fields of one polled block that the latency measurements read.
pub struct BlockInfo {
    pub block_time: Option<i64>,
    pub block_height: Option<u64>,
    pub slot: u64,
    pub parent_slot: u64,
}

/// The outcome of one block-latency measurement round.
pub struct BlockLatencyResult {
    pub slot: u64,
    pub block_time_unix: Option<i64>,
    pub rpc_received_time_unix: i64,
    /// Production-to-receipt gap in milliseconds; absent without a block
    /// time or on a failed round.
    pub propagation_latency_ms: Option<i64>,
    /// How long the block query itself took.
    pub rpc_call_latency_ms: u64,
    pub rpc_provider: String,
    pub success: bool,
    pub error: Option<String>,
}

/// Builds one measurement-round record.  A round succeeds exactly when it
/// carries no error; the propagation latency is derived from the block time
/// (clocks in whole seconds, result scaled to milliseconds) only on success.
pub fn block_latency_result_from(
    slot: u64,
    block_time_unix: Option<i64>,
    rpc_received_time_unix: i64,
    rpc_call_latency_ms: u64,
    rpc_provider: String,
    error: Option<String>,
) -> (r: BlockLatencyResult)
    ensures
        r.slot == slot,
        r.block_time_unix == block_time_unix,
        r.rpc_received_time_unix == rpc_received_time_unix,
        r.rpc_call_latency_ms == rpc_call_latency_ms,
        r.rpc_provider == rpc_provider,
        r.success == (error is None),
        (match r.error {
            Some(e) => error matches Some(e0) && e@ == e0@,
            None => error is None,
        }),
        (match r.propagation_latency_ms {
            Some(v) => (error is None) && (block_time_unix matches Some(bt) && v as int == clip_i64(
                (rpc_received_time_unix - bt) * 1000,
            )),
            None => !(error is None) || block_time_unix is None,
        }),
{
    let success = error.is_none();
    let propagation_latency_ms = if success {
        match block_time_unix {
            Some(bt) => Some(
                crate::event::clip_i128_to_i64(
                    (rpc_received_time_unix as i128 - bt as i128) * 1000,
                ),
            ),
            None => None,
        }
    } else {
        None
    };
    BlockLatencyResult {
        slot,
        block_time_unix,
        rpc_received_time_unix,
        propagation_latency_ms,
        rpc_call_latency_ms,
        rpc_provider,
        success,
        error,
    }
}

/// A websocket block feed endpoint: the provider's name and the websocket
/// form of its URL.
pub struct WebSocketBlockFeed {
    pub rpc_name: String,
    pub ws_url: String,
}

impl WebSocketBlockFeed {
    /// Prepares a feed endpoint: the HTTP(S) scheme of the given URL is
    /// swapped for its websocket counterpart.
    pub fn new(rpc_url: String, rpc_name: String) -> (r: WebSocketBlockFeed)
        ensures
            r.rpc_name == rpc_name,
            r.ws_url@ == crate::text::ws_url_of(rpc_url@),
    {
        let ws_url = crate::text::ws_endpoint_url(rpc_url.as_str());
        WebSocketBlockFeed { rpc_name, ws_url }
    }
}

} // verus!

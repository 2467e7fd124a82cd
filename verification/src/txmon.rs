//! Transaction monitoring: the status model of a watched transaction, the
//! decision core of the confirmation-speed tracker, and the statistics over
//! measured confirmation times.  The polling loop that queries the network
//! lives outside the library; each poll's outcome is handed to
//! `tracker_step`, which decides what to record and when to stop.

use vstd::prelude::*;

use crate::aggregator::div_trunc;
use crate::aggregator::rank_index;
use crate::aggregator::sorted_of;
use crate::aggregator::sum_of;
use crate::event::clip_i64;

verus! {

/// Where a watched transaction stands.
#[derive(Clone, Copy, PartialEq, Eq, Structural, Debug)]
pub enum TransactionStatus {
    /// Submitted to the network, not yet in a block.
    Processing,
    /// Confirmed in a block.
    Confirmed,
    /// Finalized beyond rollback.
    Finalized,
    /// The transaction failed.
    Failed,
}

/// One status observation of a watched transaction.
pub struct TransactionUpdate {
    pub signature: String,
    pub slot: Option<u64>,
    pub status: TransactionStatus,
    pub first_seen_time: i64,
    pub confirmation_time: Option<i64>,
    pub time_to_confirm: Option<i64>,
    pub rpc_provider: String,
}

/// The measured confirmation speed of one transaction.
pub struct TransactionSpeed {
    pub signature: String,
    pub submission_to_processing_ms: Option<i64>,
    pub processing_to_confirmed_ms: Option<i64>,
    pub total_confirmation_time_ms: Option<i64>,
    pub rpc_provider: String,
}

/// Classifies a transaction-status reply by what it carried: a reply without
/// metadata is still processing; one whose metadata carries a non-null error
/// failed; any other reply is confirmed.
pub fn transaction_status_from_meta(meta_present: bool, err_present: bool, err_is_null: bool) -> (s:
    TransactionStatus)
    ensures
        s == (if meta_present {
            if err_present && !err_is_null {
                TransactionStatus::Failed
            } else {
                TransactionStatus::Confirmed
            }
        } else {
            TransactionStatus::Processing
        }),
{
    if meta_present {
        if err_present && !err_is_null {
            TransactionStatus::Failed
        } else {
            TransactionStatus::Confirmed
        }
    } else {
        TransactionStatus::Processing
    }
}

/// Builds the status observation a successful status query reports: a
/// confirmed transaction is stamped with the query time as its confirmation
/// time.
pub fn transaction_update_from(
    signature: String,
    slot: Option<u64>,
    status: TransactionStatus,
    now: i64,
    rpc_provider: String,
) -> (u: TransactionUpdate)
    ensures
        u.signature == signature,
        u.slot == slot,
        u.status == status,
        u.first_seen_time == now,
        u.confirmation_time == (if status is Confirmed {
            Some(now)
        } else {
            None::<i64>
        }),
        (u.time_to_confirm is None),
        u.rpc_provider == rpc_provider,
{
    let confirmation_time = match status {
        TransactionStatus::Confirmed => Some(now),
        _ => None,
    };
    TransactionUpdate {
        signature,
        slot,
        status,
        first_seen_time: now,
        confirmation_time,
        time_to_confirm: None,
        rpc_provider,
    }
}

/// The tracker's state while a transaction's confirmation is being timed.
pub struct TrackerState {
    /// When tracking began (milliseconds since the epoch).
    pub started_at: i64,
    /// The status the previous poll reported.
    pub last_status: TransactionStatus,
    /// When the transaction was first seen in the processing state.
    pub first_processing_time: Option<i64>,
    /// When the transaction was first seen confirmed.
    pub confirmation_time: Option<i64>,
}

/// Starts timing a transaction.
pub fn tracker_start(started_at: i64) -> (st: TrackerState)
    ensures
        st.started_at == started_at,
        st.last_status is Processing,
        (st.first_processing_time is None),
        (st.confirmation_time is None),
{
    TrackerState {
        started_at,
        last_status: TransactionStatus::Processing,
        first_processing_time: None,
        confirmation_time: None,
    }
}

/// What one poll outcome does to the tracker: the decision core of the
/// confirmation-speed measurement.  A poll that found nothing changes
/// nothing.  A transaction seen processing while it was already processing
/// stamps the first processing time once; the first confirmation stamps the
/// confirmation time and stops; a failure stops.  Returns the new state and
/// whether polling should stop.
pub fn tracker_step(st: TrackerState, observed: Option<TransactionStatus>, now: i64) -> (r: (
    TrackerState,
    bool,
))
    ensures
        ({
            let (next, stop) = r;
            match observed {
                None => next == st && !stop,
                Some(status) => {
                    &&& next.started_at == st.started_at
                    &&& next.last_status == status
                    &&& (match (st.last_status, status) {
                        (TransactionStatus::Processing, TransactionStatus::Processing) => {
                            &&& next.first_processing_time == (if st.first_processing_time
                                is None {
                                Some(now)
                            } else {
                                st.first_processing_time
                            })
                            &&& next.confirmation_time == st.confirmation_time
                            &&& !stop
                        },
                        (_, TransactionStatus::Confirmed) => {
                            &&& next.confirmation_time == (if st.confirmation_time is None {
                                Some(now)
                            } else {
                                st.confirmation_time
                            })
                            &&& next.first_processing_time == st.first_processing_time
                            &&& stop
                        },
                        (_, TransactionStatus::Failed) => {
                            &&& next.first_processing_time == st.first_processing_time
                            &&& next.confirmation_time == st.confirmation_time
                            &&& stop
                        },
                        _ => {
                            &&& next.first_processing_time == st.first_processing_time
                            &&& next.confirmation_time == st.confirmation_time
                            &&& !stop
                        },
                    })
                },
            }
        }),
{
    match observed {
        None => (st, false),
        Some(status) => {
            let mut next = TrackerState {
                started_at: st.started_at,
                last_status: status,
                first_processing_time: st.first_processing_time,
                confirmation_time: st.confirmation_time,
            };
            let stop: bool;
            match (st.last_status, status) {
                (TransactionStatus::Processing, TransactionStatus::Processing) => {
                    if next.first_processing_time.is_none() {
                        next.first_processing_time = Some(now);
                    }
                    stop = false;
                },
                (_, TransactionStatus::Confirmed) => {
                    if next.confirmation_time.is_none() {
                        next.confirmation_time = Some(now);
                    }
                    stop = true;
                },
                (_, TransactionStatus::Failed) => {
                    stop = true;
                },
                _ => {
                    stop = false;
                },
            }
            (next, stop)
        },
    }
}

/// Reads the measured speed out of a finished tracker: the spans from
/// submission to first processing, from processing to confirmation, and from
/// submission to confirmation, each present only when both endpoints were
/// observed, and each pinned to the `i64` range.
pub fn tracker_finish(st: TrackerState, signature: String, rpc_provider: String) -> (speed:
    TransactionSpeed)
    ensures
        speed.signature == signature,
        speed.rpc_provider == rpc_provider,
        (match speed.submission_to_processing_ms {
            Some(v) => st.first_processing_time matches Some(t) && v as int == clip_i64(
                t - st.started_at,
            ),
            None => st.first_processing_time is None,
        }),
        (match speed.processing_to_confirmed_ms {
            Some(v) => st.first_processing_time matches Some(p) && st.confirmation_time
                matches Some(c) && v as int == clip_i64(c - p),
            None => (st.first_processing_time is None) || (st.confirmation_time is None),
        }),
        (match speed.total_confirmation_time_ms {
            Some(v) => st.confirmation_time matches Some(c) && v as int == clip_i64(
                c - st.started_at,
            ),
            None => st.confirmation_time is None,
        }),
{
    let submission_to_processing_ms = match st.first_processing_time {
        Some(t) => Some(crate::event::clip_i128_to_i64(t as i128 - st.started_at as i128)),
        None => None,
    };
    let processing_to_confirmed_ms = match (st.first_processing_time, st.confirmation_time) {
        (Some(p), Some(c)) => Some(crate::event::clip_i128_to_i64(c as i128 - p as i128)),
        _ => None,
    };
    let total_confirmation_time_ms = match st.confirmation_time {
        Some(c) => Some(crate::event::clip_i128_to_i64(c as i128 - st.started_at as i128)),
        None => None,
    };
    TransactionSpeed {
        signature,
        submission_to_processing_ms,
        processing_to_confirmed_ms,
        total_confirmation_time_ms,
        rpc_provider,
    }
}

/// The measured total confirmation times, in order.
pub open spec fn confirmation_times_of(speeds: Seq<TransactionSpeed>) -> Seq<i64>
    decreases speeds.len(),
{
    if speeds.len() == 0 {
        Seq::empty()
    } else {
        let rest = confirmation_times_of(speeds.drop_last());
        match speeds.last().total_confirmation_time_ms {
            Some(v) => rest.push(v),
            None => rest,
        }
    }
}

/// Confirmation-time statistics over a set of measured transactions.  The
/// mean is the exact sum beside a truncated quotient, and the percentiles
/// are nearest-rank over the sorted times — all zero when no transaction
/// carried a total confirmation time.
pub struct ConfirmationStats {
    pub count: usize,
    pub sum_ms: i128,
    pub avg_ms: i64,
    pub p50_ms: i64,
    pub p90_ms: i64,
    pub p95_ms: i64,
    pub p99_ms: i64,
    pub min_ms: i64,
    pub max_ms: i64,
}

/// Computes confirmation percentiles over the transactions that reached a
/// confirmed state.
pub fn calculate_confirmation_stats(speeds: &Vec<TransactionSpeed>) -> (st: ConfirmationStats)
    ensures
        ({
            let times = confirmation_times_of(speeds@);
            &&& st.count == times.len()
            &&& st.sum_ms == sum_of(times)
            &&& times.len() == 0 ==> st.avg_ms == 0 && st.min_ms == 0 && st.max_ms == 0
                && st.p50_ms == 0 && st.p90_ms == 0 && st.p95_ms == 0 && st.p99_ms == 0
            &&& times.len() > 0 ==> {
                &&& st.avg_ms == div_trunc(sum_of(times), times.len() as int)
                &&& st.min_ms == sorted_of(times)[0]
                &&& st.max_ms == sorted_of(times)[times.len() - 1]
                &&& st.p50_ms == sorted_of(times)[rank_index(50, times.len() as int)]
                &&& st.p90_ms == sorted_of(times)[rank_index(90, times.len() as int)]
                &&& st.p95_ms == sorted_of(times)[rank_index(95, times.len() as int)]
                &&& st.p99_ms == sorted_of(times)[rank_index(99, times.len() as int)]
            }
        }),
{
    let mut times: Vec<i64> = Vec::new();
    let n = speeds.len();
    for i in 0..n
        invariant
            n == speeds@.len(),
            times@ =~= confirmation_times_of(speeds@.take(i as int)),
    {
        proof {
            assert(speeds@.take(i as int + 1).drop_last() =~= speeds@.take(i as int));
            assert(speeds@.take(i as int + 1).last() == speeds@[i as int]);
        }
        match speeds[i].total_confirmation_time_ms {
            Some(v) => times.push(v),
            None => {},
        }
    }
    proof {
        assert(speeds@.take(n as int) =~= speeds@);
    }
    let summary = crate::aggregator::summarize(&times, &Vec::new(), 0);
    ConfirmationStats {
        count: summary.count,
        sum_ms: summary.sum_ms,
        avg_ms: summary.avg_ms,
        p50_ms: summary.p50_ms,
        p90_ms: summary.p90_ms,
        p95_ms: summary.p95_ms,
        p99_ms: summary.p99_ms,
        min_ms: summary.min_ms,
        max_ms: summary.max_ms,
    }
}

} // verus!

//! The race resolver: turns one correlation result into a report naming the
//! winning source, the margin, and a per-side quality classification.
//!
//! Each side is classified on its own propagation latency (observed time
//! minus the claimed production time, when the claim is present), and the
//! pair's overall label is the most favorable of the sides' labels.  This is
//! a deliberate design choice: OR-ing both sides' latencies against shared
//! thresholds would let one fast side mask a slow one, so each side is rated
//! alone and the combination rule is explicit.

use vstd::prelude::*;

use crate::correlator::CorrelationResult;
use crate::event::ArrivalEvent;
use crate::event::clip_i64;

verus! {

/// How favorably a single side's propagation latency rates.
#[derive(Clone, Copy, PartialEq, Eq, Structural, Debug)]
pub enum Quality {
    Excellent,
    Good,
    Fair,
    Slow,
}

/// The classification thresholds: a latency strictly below a bound earns
/// that bound's label.
pub struct QualityThresholds {
    pub excellent_below_ms: i64,
    pub good_below_ms: i64,
    pub fair_below_ms: i64,
}

/// The thresholds the block-race reports use.
pub fn default_thresholds() -> (t: QualityThresholds)
    ensures
        t.excellent_below_ms == 900,
        t.good_below_ms == 1200,
        t.fair_below_ms == 2000,
{
    QualityThresholds { excellent_below_ms: 900, good_below_ms: 1200, fair_below_ms: 2000 }
}

/// The label a latency earns under the given thresholds.
pub open spec fn quality_of(ms: int, t: QualityThresholds) -> Quality {
    if ms < t.excellent_below_ms {
        Quality::Excellent
    } else if ms < t.good_below_ms {
        Quality::Good
    } else if ms < t.fair_below_ms {
        Quality::Fair
    } else {
        Quality::Slow
    }
}

/// Classifies one latency against the thresholds.
pub fn classify_latency(ms: i64, t: &QualityThresholds) -> (q: Quality)
    ensures
        q == quality_of(ms as int, *t),
{
    if ms < t.excellent_below_ms {
        Quality::Excellent
    } else if ms < t.good_below_ms {
        Quality::Good
    } else if ms < t.fair_below_ms {
        Quality::Fair
    } else {
        Quality::Slow
    }
}

/// Lower rank is more favorable.
pub open spec fn quality_rank(q: Quality) -> int {
    match q {
        Quality::Excellent => 0,
        Quality::Good => 1,
        Quality::Fair => 2,
        Quality::Slow => 3,
    }
}

/// The more favorable of two labels.
pub open spec fn better_quality(a: Quality, b: Quality) -> Quality {
    if quality_rank(a) <= quality_rank(b) {
        a
    } else {
        b
    }
}

/// The propagation latency a side witnesses, pinned to the `i64` range;
/// absent without a production-time claim.
pub open spec fn side_latency_of(e: ArrivalEvent) -> Option<i64> {
    match e.claimed_production_time {
        Some(c) => Some(clip_i64(e.observed_time - c) as i64),
        None => None,
    }
}

/// The label a side earns; absent without a production-time claim.
pub open spec fn side_quality_of(e: ArrivalEvent, t: QualityThresholds) -> Option<Quality> {
    match side_latency_of(e) {
        Some(ms) => Some(quality_of(ms as int, t)),
        None => None,
    }
}

/// Model of one side's assessment in a race report.
#[verifier::ext_equal]
pub struct SideModel {
    pub source_id: Seq<char>,
    pub observed_time: i64,
    pub propagation_latency_ms: Option<i64>,
    pub quality: Option<Quality>,
}

/// The assessments of the filled sides, in side order.
pub open spec fn side_models_of(events: Seq<Option<ArrivalEvent>>, t: QualityThresholds) -> Seq<
    SideModel,
>
    decreases events.len(),
{
    if events.len() == 0 {
        Seq::empty()
    } else {
        let rest = side_models_of(events.drop_last(), t);
        match events.last() {
            Some(e) => rest.push(
                SideModel {
                    source_id: e.source_id@,
                    observed_time: e.observed_time,
                    propagation_latency_ms: side_latency_of(e),
                    quality: side_quality_of(e, t),
                },
            ),
            None => rest,
        }
    }
}

/// The most favorable label among the filled sides that carry one; absent
/// when no side carries a label.
pub open spec fn overall_of(events: Seq<Option<ArrivalEvent>>, t: QualityThresholds) -> Option<
    Quality,
>
    decreases events.len(),
{
    if events.len() == 0 {
        None
    } else {
        let rest = overall_of(events.drop_last(), t);
        let last_q = match events.last() {
            Some(e) => side_quality_of(e, t),
            None => None,
        };
        match (rest, last_q) {
            (Some(a), Some(b)) => Some(better_quality(a, b)),
            (Some(a), None) => Some(a),
            (None, Some(b)) => Some(b),
            (None, None) => None,
        }
    }
}

/// One side's line in a race report.
pub struct SideAssessment {
    pub source_id: String,
    pub observed_time: i64,
    /// The side's own propagation latency, when its event carried a claim.
    pub propagation_latency_ms: Option<i64>,
    /// The label that latency earns, when present.
    pub quality: Option<Quality>,
}

impl View for SideAssessment {
    type V = SideModel;

    open spec fn view(&self) -> SideModel {
        SideModel {
            source_id: self.source_id@,
            observed_time: self.observed_time,
            propagation_latency_ms: self.propagation_latency_ms,
            quality: self.quality,
        }
    }
}

/// The resolved outcome of one correlation result.
pub struct RaceReport {
    pub ordering_key: u64,
    /// False marks a result that was evicted before every side reported:
    /// such a report names no winner rather than crediting the present side.
    pub complete: bool,
    /// The source that observed the block strictly first, when one did.
    pub winner_source_id: Option<String>,
    pub margin_ms: Option<i64>,
    /// One assessment per filled side, in configuration order.
    pub sides: Vec<SideAssessment>,
    /// The most favorable side label: the pair rates as well as its best
    /// side, and each side's own label stays visible above.
    pub overall: Option<Quality>,
}

/// Resolves one correlation result into a race report.  The winner and
/// margin are taken over unchanged from the correlation; the per-side
/// classifications and the overall label are computed from each side's own
/// propagation latency.
pub fn resolve(result: &CorrelationResult, t: &QualityThresholds) -> (r: RaceReport)
    ensures
        r.ordering_key == result.ordering_key,
        r.complete == result.complete,
        r.margin_ms == result.margin_ms,
        (match (r.winner_source_id, result.winner_source_id) {
            (Some(a), Some(b)) => a@ == b@,
            (None, None) => true,
            _ => false,
        }),
        r.sides@.map_values(|s: SideAssessment| s@) == side_models_of(result.events@, *t),
        r.overall == overall_of(result.events@, *t),
{
    let winner_source_id = match &result.winner_source_id {
        Some(w) => Some(w.clone()),
        None => None,
    };
    let mut sides: Vec<SideAssessment> = Vec::new();
    let mut overall: Option<Quality> = None;
    let n = result.events.len();
    for i in 0..n
        invariant
            n == result.events@.len(),
            sides@.map_values(|s: SideAssessment| s@) =~= side_models_of(
                result.events@.take(i as int),
                *t,
            ),
            overall == overall_of(result.events@.take(i as int), *t),
    {
        proof {
            assert(result.events@.take(i as int + 1).drop_last() =~= result.events@.take(i as int));
            assert(result.events@.take(i as int + 1).last() == result.events@[i as int]);
        }
        match &result.events[i] {
            Some(e) => {
                let latency = crate::event::propagation_latency_ms(e);
                let quality = match latency {
                    Some(ms) => Some(classify_latency(ms, t)),
                    None => None,
                };
                let assessment = SideAssessment {
                    source_id: e.source_id.clone(),
                    observed_time: e.observed_time,
                    propagation_latency_ms: latency,
                    quality,
                };
                proof {
                    assert(assessment@ == SideModel {
                        source_id: e.source_id@,
                        observed_time: e.observed_time,
                        propagation_latency_ms: side_latency_of(*e),
                        quality: side_quality_of(*e, *t),
                    });
                }
                sides.push(assessment);
                overall = match (overall, quality) {
                    (Some(a), Some(b)) => {
                        let a_rank = quality_rank_exec(a);
                        let b_rank = quality_rank_exec(b);
                        if a_rank <= b_rank {
                            Some(a)
                        } else {
                            Some(b)
                        }
                    },
                    (Some(a), None) => Some(a),
                    (None, Some(b)) => Some(b),
                    (None, None) => None,
                };
            },
            None => {},
        }
    }
    proof {
        assert(result.events@.take(n as int) =~= result.events@);
    }
    RaceReport {
        ordering_key: result.ordering_key,
        complete: result.complete,
        winner_source_id,
        margin_ms: result.margin_ms,
        sides,
        overall,
    }
}

fn quality_rank_exec(q: Quality) -> (r: u8)
    ensures
        r as int == quality_rank(q),
{
    match q {
        Quality::Excellent => 0,
        Quality::Good => 1,
        Quality::Fair => 2,
        Quality::Slow => 3,
    }
}

/// The per-block status line of the racing report: how a single block's
/// propagation latency rates against the block-race thresholds.
pub fn get_latency_status(latency_ms: i64) -> (r: &'static str)
    ensures
        latency_ms < 900 ==> r@ == "🟢 EXCELLENT"@,
        900 <= latency_ms < 1200 ==> r@ == "🟡 GOOD"@,
        1200 <= latency_ms < 2000 ==> r@ == "🟠 FAIR"@,
        2000 <= latency_ms ==> r@ == "🔴 SLOW"@,
{
    if latency_ms < 900 {
        "🟢 EXCELLENT"
    } else if latency_ms < 1200 {
        "🟡 GOOD"
    } else if latency_ms < 2000 {
        "🟠 FAIR"
    } else {
        "🔴 SLOW"
    }
}

} // verus!

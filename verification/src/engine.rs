//! The measurement engine: the narrow boundary that source adapters and the
//! reporting layer talk to.  Adapters submit arrival events and latency
//! samples; the reporting layer drains correlation results and takes
//! statistics snapshots.  All mutation funnels through `&mut self` methods,
//! so a caller that serializes access (a mutex around the engine) gets
//! exactly the transition semantics proved here, whatever order concurrent
//! submitters interleave in.

use vstd::prelude::*;

use crate::aggregator::Aggregator;
use crate::aggregator::SummaryStats;
use crate::aggregator::summary_matches;
use crate::correlator::CorrelationResult;
use crate::correlator::Correlator;
use crate::correlator::ResultModel;
use crate::correlator::source_index_of;
use crate::correlator::spec_ingest;
use crate::correlator::spec_sweep;
use crate::correlator::wf;
use crate::event::ArrivalEvent;
use crate::event::ConfigError;
use crate::event::LatencySample;

verus! {

fn copy_i64_vec(v: &Vec<i64>) -> (r: Vec<i64>)
    ensures
        r@ == v@,
{
    let mut r: Vec<i64> = Vec::new();
    let n = v.len();
    for i in 0..n
        invariant
            n == v@.len(),
            r@ =~= v@.take(i as int),
    {
        r.push(v[i]);
    }
    proof {
        assert(v@.take(n as int) =~= v@);
    }
    r
}

/// The dual-source correlation and latency statistics engine: one correlator
/// over the configured sources, one latency aggregator per source, and a
/// buffer of correlation results not yet drained by the reporting layer.
pub struct Engine {
    pub correlator: Correlator,
    /// One aggregator per source, in configuration order.
    pub aggregators: Vec<Aggregator>,
    /// Completed or evicted results awaiting `poll_latest_correlation_results`.
    pub results: Vec<CorrelationResult>,
}

impl Engine {
    /// The engine invariant: a well-formed correlator and one well-formed
    /// aggregator per configured source.
    pub open spec fn wf(&self) -> bool {
        &&& wf(self.correlator@)
        &&& self.aggregators@.len() == self.correlator@.sources.len()
        &&& forall|i: int|
            0 <= i < self.aggregators@.len() ==> (#[trigger] self.aggregators@[i]).wf()
    }

    /// The buffered results, as models.
    pub open spec fn results_model(&self) -> Seq<ResultModel> {
        self.results@.map_values(|r: CorrelationResult| r@)
    }

    /// Builds an engine over the given sources.  Configuration errors —
    /// no sources, a duplicated source identifier, a non-positive retention
    /// window or plausibility ceiling — are fatal at construction.
    pub fn new(
        sources: Vec<String>,
        retention_ms: i64,
        max_plausible_ms: i64,
        bucket_thresholds: Vec<i64>,
    ) -> (r: Result<Engine, ConfigError>)
        ensures
            (r is Ok <==> (sources@.len() >= 1 && (forall|i: int, j: int|
                0 <= i < j < sources@.len() ==> (#[trigger] sources@[i])@ != (
                #[trigger] sources@[j])@) && retention_ms > 0 && max_plausible_ms > 0)),
            (r matches Ok(e) ==> {
                &&& e.wf()
                &&& e.correlator@.sources == sources@
                &&& e.correlator@.retention_ms == retention_ms
                &&& e.correlator@.pending == Seq::<crate::correlator::SlotModel>::empty()
                &&& e.correlator@.terminal == Seq::<u64>::empty()
                &&& e.results@.len() == 0
                &&& forall|i: int|
                    0 <= i < e.aggregators@.len() ==> {
                        &&& (#[trigger] e.aggregators@[i]).samples@ == Seq::<i64>::empty()
                        &&& e.aggregators@[i].max_plausible_ms == max_plausible_ms
                        &&& e.aggregators@[i].thresholds@ == bucket_thresholds@
                        &&& e.aggregators@[i].filtered_out == 0
                    }
            }),
    {
        let n = sources.len();
        let correlator = match Correlator::new(sources, retention_ms) {
            Ok(c) => c,
            Err(e) => {
                return Err(e);
            },
        };
        if max_plausible_ms <= 0 {
            return Err(ConfigError::NonPositiveMaxPlausible);
        }
        let mut aggregators: Vec<Aggregator> = Vec::new();
        for i in 0..n
            invariant
                n == correlator@.sources.len(),
                aggregators@.len() == i,
                max_plausible_ms > 0,
                forall|a: int|
                    0 <= a < i ==> {
                        &&& (#[trigger] aggregators@[a]).wf()
                        &&& aggregators@[a].samples@ == Seq::<i64>::empty()
                        &&& aggregators@[a].max_plausible_ms == max_plausible_ms
                        &&& aggregators@[a].thresholds@ == bucket_thresholds@
                        &&& aggregators@[a].filtered_out == 0
                    },
        {
            let thresholds = copy_i64_vec(&bucket_thresholds);
            match Aggregator::new(max_plausible_ms, thresholds) {
                Ok(a) => aggregators.push(a),
                Err(e) => {
                    return Err(e);
                },
            }
        }
        Ok(Engine { correlator, aggregators, results: Vec::new() })
    }

    /// Submits one arrival observation: ordering key, source, the wall-clock
    /// time this process learned of it, and the producer's claimed
    /// production time if the feed supplies one.  Exactly the correlator's
    /// ingest step; a completed correlation is buffered for polling.
    /// Returns whether this submission completed a correlation.
    pub fn submit_arrival(
        &mut self,
        ordering_key: u64,
        source_id: String,
        observed_time: i64,
        claimed_production_time: Option<i64>,
    ) -> (completed: bool)
        requires
            old(self).wf(),
        ensures
            final(self).wf(),
            ({
                let e = ArrivalEvent {
                    ordering_key,
                    claimed_production_time,
                    observed_time,
                    source_id,
                };
                let step = spec_ingest(old(self).correlator@, e);
                &&& final(self).correlator@ == step.next
                &&& final(self).aggregators@ == old(self).aggregators@
                &&& (match step.emitted {
                    Some(m) => completed && final(self).results_model() == old(
                        self,
                    ).results_model().push(m),
                    None => !completed && final(self).results@ == old(self).results@,
                })
            }),
    {
        let event = ArrivalEvent {
            ordering_key,
            claimed_production_time,
            observed_time,
            source_id,
        };
        match self.correlator.ingest(event) {
            Some(result) => {
                let ghost r0 = self.results@;
                self.results.push(result);
                proof {
                    assert(self.results@.map_values(|r: CorrelationResult| r@) =~= r0.map_values(
                        |r: CorrelationResult| r@,
                    ).push(self.results@.last()@));
                }
                true
            },
            None => false,
        }
    }

    /// Submits one latency sample, routed to its source's aggregator.  A
    /// sample from an unconfigured source is ignored; an implausible value
    /// is discarded and counted by the aggregator.  Returns whether the
    /// sample was retained.
    pub fn submit_latency_sample(&mut self, sample: LatencySample) -> (retained: bool)
        requires
            old(self).wf(),
        ensures
            final(self).wf(),
            final(self).correlator@ == old(self).correlator@,
            final(self).results@ == old(self).results@,
            (match source_index_of(old(self).correlator@.sources, sample.source_id@) {
                None => !retained && final(self).aggregators@ == old(self).aggregators@,
                Some(si) => {
                    let a0 = old(self).aggregators@[si];
                    let a1 = final(self).aggregators@[si];
                    &&& retained == (0 <= sample.value_ms < a0.max_plausible_ms)
                    &&& final(self).aggregators@ == old(self).aggregators@.update(si, a1)
                    &&& a1.max_plausible_ms == a0.max_plausible_ms
                    &&& a1.thresholds@ == a0.thresholds@
                    &&& (retained ==> a1.samples@ == a0.samples@.push(sample.value_ms)
                        && a1.filtered_out == a0.filtered_out)
                    &&& (!retained ==> a1.samples@ == a0.samples@ && a1.filtered_out
                        == crate::event::bump(a0.filtered_out))
                },
            }),
    {
        let si = match crate::correlator::find_source_index(
            &self.correlator.sources,
            &sample.source_id,
        ) {
            Some(si) => si,
            None => {
                return false;
            },
        };
        let ghost aggs0 = self.aggregators@;
        proof {
            crate::correlator::lemma_source_index_of_spec(
                self.correlator@.sources,
                sample.source_id@,
            );
            assert(aggs0[si as int].wf());
        }
        let agg = &mut self.aggregators[si];
        let retained = agg.record(sample.value_ms);
        proof {
            assert(self.aggregators@ =~= aggs0.update(si as int, self.aggregators@[si as int]));
            assert forall|a: int| 0 <= a < self.aggregators@.len() implies (
            #[trigger] self.aggregators@[a]).wf() by {
                if a != si as int {
                    assert(self.aggregators@[a] == aggs0[a]);
                }
            }
        }
        retained
    }

    /// Evicts every correlation slot older than the retention window at time
    /// `now` and buffers one incomplete result per evicted slot, so pending
    /// data at a deadline is reported, not lost.  Returns how many slots
    /// were evicted.
    pub fn sweep(&mut self, now: i64) -> (evicted: usize)
        requires
            old(self).wf(),
        ensures
            final(self).wf(),
            ({
                let step = spec_sweep(old(self).correlator@, now);
                &&& final(self).correlator@ == step.next
                &&& final(self).aggregators@ == old(self).aggregators@
                &&& final(self).results_model() == old(self).results_model() + step.emitted
                &&& evicted == step.emitted.len()
            }),
    {
        let ghost r0 = self.results@;
        let ghost aggs0 = self.aggregators@;
        let mut emitted = self.correlator.sweep(now);
        let count = emitted.len();
        let ghost em = emitted@;
        let ghost c1 = self.correlator@;
        let n = emitted.len();
        for i in 0..n
            invariant
                n == em.len(),
                emitted@ =~= em.skip(i as int),
                self.results@.map_values(|r: CorrelationResult| r@) =~= r0.map_values(
                    |r: CorrelationResult| r@,
                ) + em.map_values(|r: CorrelationResult| r@).take(i as int),
                self.correlator@ == c1,
                self.aggregators@ == aggs0,
            decreases n - i,
        {
            let ghost w0 = emitted@;
            let ghost res0 = self.results@;
            let r = emitted.remove(0);
            proof {
                assert(r == em[i as int]);
                assert forall|a: int| 0 <= a < emitted@.len() implies #[trigger] emitted@[a]
                    == em.skip(i as int + 1)[a] by {
                    assert(emitted@[a] == w0[a + 1]);
                    assert(w0[a + 1] == em.skip(i as int)[a + 1]);
                }
            }
            self.results.push(r);
            proof {
                assert(emitted@ =~= em.skip(i as int + 1));
                assert(self.results@.map_values(|r: CorrelationResult| r@) =~= res0.map_values(
                    |r: CorrelationResult| r@,
                ).push(em[i as int]@));
                assert(em.map_values(|r: CorrelationResult| r@).take(i as int + 1)
                    =~= em.map_values(|r: CorrelationResult| r@).take(i as int).push(
                    em[i as int]@,
                ));
                assert(self.results@.map_values(|r: CorrelationResult| r@) =~= r0.map_values(
                    |r: CorrelationResult| r@,
                ) + em.map_values(|r: CorrelationResult| r@).take(i as int + 1));
            }
        }
        proof {
            assert(em.map_values(|r: CorrelationResult| r@).take(n as int) =~= em.map_values(
                |r: CorrelationResult| r@,
            ));
            assert(em.map_values(|r: CorrelationResult| r@) == spec_sweep(
                old(self).correlator@,
                now,
            ).emitted);
        }
        count
    }

    /// Drains the correlation results completed or evicted since the last
    /// call, in emission order.
    pub fn poll_latest_correlation_results(&mut self) -> (r: Vec<CorrelationResult>)
        requires
            old(self).wf(),
        ensures
            final(self).wf(),
            r@ == old(self).results@,
            final(self).results@.len() == 0,
            final(self).correlator@ == old(self).correlator@,
            final(self).aggregators@ == old(self).aggregators@,
    {
        let mut drained: Vec<CorrelationResult> = Vec::new();
        core::mem::swap(&mut drained, &mut self.results);
        drained
    }

    /// The statistics snapshot for one source; absent for an unconfigured
    /// source identifier.
    pub fn snapshot_stats(&self, source_id: &String) -> (r: Option<SummaryStats>)
        requires
            self.wf(),
        ensures
            (match source_index_of(self.correlator@.sources, source_id@) {
                Some(si) => r matches Some(st) && summary_matches(
                    st,
                    self.aggregators@[si].samples@,
                    self.aggregators@[si].thresholds@,
                    self.aggregators@[si].filtered_out,
                ),
                None => r is None,
            }),
    {
        match crate::correlator::find_source_index(&self.correlator.sources, source_id) {
            Some(si) => {
                proof {
                    crate::correlator::lemma_source_index_of_spec(
                        self.correlator@.sources,
                        source_id@,
                    );
                    assert(self.aggregators@[si as int].wf());
                }
                Some(self.aggregators[si].snapshot())
            },
            None => None,
        }
    }

    /// The statistics snapshots of every configured source, in configuration
    /// order, each beside its source identifier.
    pub fn snapshot_stats_all(&self) -> (r: Vec<(String, SummaryStats)>)
        requires
            self.wf(),
        ensures
            r@.len() == self.correlator@.sources.len(),
            forall|i: int|
                0 <= i < r@.len() ==> {
                    &&& (#[trigger] r@[i]).0@ == self.correlator@.sources[i]@
                    &&& summary_matches(
                        r@[i].1,
                        self.aggregators@[i].samples@,
                        self.aggregators@[i].thresholds@,
                        self.aggregators@[i].filtered_out,
                    )
                },
    {
        let mut r: Vec<(String, SummaryStats)> = Vec::new();
        let n = self.correlator.sources.len();
        for i in 0..n
            invariant
                self.wf(),
                n == self.correlator@.sources.len(),
                r@.len() == i,
                forall|a: int|
                    0 <= a < i ==> {
                        &&& (#[trigger] r@[a]).0@ == self.correlator@.sources[a]@
                        &&& summary_matches(
                            r@[a].1,
                            self.aggregators@[a].samples@,
                            self.aggregators@[a].thresholds@,
                            self.aggregators@[a].filtered_out,
                        )
                    },
        {
            let name = self.correlator.sources[i].clone();
            let st = self.aggregators[i].snapshot();
            r.push((name, st));
        }
        r
    }
}

} // verus!

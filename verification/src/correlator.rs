//! The correlator: merges arrival events from a fixed set of sources, keyed
//! by ordering key, and emits one correlation result per key — either when
//! every configured side has reported (complete) or when the retention window
//! elapses first (evicted, incomplete).
//!
//! The table is a vector of pending slots scanned linearly: entries leave on
//! completion or eviction, so at the expected throughput (single-digit
//! events per second) the table holds only the handful of blocks in flight.
//!
//! Every mutation is described exactly by the spec-level transition functions
//! `spec_ingest` and `spec_sweep`, so that laws about sequences of calls can
//! be stated and proved over the mathematical model alone.

use vstd::prelude::*;

use crate::event::ArrivalEvent;
use crate::event::ConfigError;
use crate::event::bump;
use crate::event::clip_i64;

verus! {

// ---------------------------------------------------------------------------
// Mathematical model
// ---------------------------------------------------------------------------
/// Model of one pending correlation slot: the per-side arrival events
/// gathered so far for one ordering key.
#[verifier::ext_equal]
pub struct SlotModel {
    pub ordering_key: u64,
    pub created_at: i64,
    pub sides: Seq<Option<ArrivalEvent>>,
}

/// Model of the correlator state.
#[verifier::ext_equal]
pub struct CorrelatorModel {
    /// The configured source identifiers, one side per source.
    pub sources: Seq<String>,
    /// How long a slot may stay pending before it is evicted.
    pub retention_ms: i64,
    /// Slots with at least one side filled and at least one side missing.
    pub pending: Seq<SlotModel>,
    /// Keys whose slot reached a terminal state (completed or evicted);
    /// such a key is never correlated again.
    pub terminal: Seq<u64>,
    /// Diagnostic: events dropped because their side was already filled.
    pub duplicate_count: u64,
    /// Diagnostic: events dropped because their key was already terminal.
    pub late_count: u64,
    /// Diagnostic: events dropped because their source is not configured.
    pub unknown_source_count: u64,
}

/// Model of one emitted correlation result.
#[verifier::ext_equal]
pub struct ResultModel {
    pub ordering_key: u64,
    pub events: Seq<Option<ArrivalEvent>>,
    pub complete: bool,
    pub winner_source_id: Option<Seq<char>>,
    pub margin_ms: Option<i64>,
}

/// The index of the first source whose identifier equals `id`.
pub open spec fn source_index_of(sources: Seq<String>, id: Seq<char>) -> Option<int>
    decreases sources.len(),
{
    if sources.len() == 0 {
        None
    } else if sources[0]@ == id {
        Some(0int)
    } else {
        match source_index_of(sources.drop_first(), id) {
            Some(i) => Some(i + 1),
            None => None,
        }
    }
}

/// The index of the first pending slot whose key equals `key`.
pub open spec fn slot_index_of(pending: Seq<SlotModel>, key: u64) -> Option<int>
    decreases pending.len(),
{
    if pending.len() == 0 {
        None
    } else if pending[0].ordering_key == key {
        Some(0int)
    } else {
        match slot_index_of(pending.drop_first(), key) {
            Some(i) => Some(i + 1),
            None => None,
        }
    }
}

pub proof fn lemma_source_index_of_spec(sources: Seq<String>, id: Seq<char>)
    ensures
        match source_index_of(sources, id) {
            Some(i) => 0 <= i < sources.len() && sources[i]@ == id && (forall|j: int|
                0 <= j < i ==> sources[j]@ != id),
            None => forall|j: int| 0 <= j < sources.len() ==> sources[j]@ != id,
        },
    decreases sources.len(),
{
    if sources.len() > 0 && sources[0]@ != id {
        lemma_source_index_of_spec(sources.drop_first(), id);
        assert(forall|j: int|
            0 < j < sources.len() ==> sources[j] == sources.drop_first()[j - 1]);
    }
}

pub proof fn lemma_slot_index_of_spec(pending: Seq<SlotModel>, key: u64)
    ensures
        match slot_index_of(pending, key) {
            Some(i) => 0 <= i < pending.len() && pending[i].ordering_key == key && (forall|j: int|
                0 <= j < i ==> pending[j].ordering_key != key),
            None => forall|j: int| 0 <= j < pending.len() ==> pending[j].ordering_key != key,
        },
    decreases pending.len(),
{
    if pending.len() > 0 && pending[0].ordering_key != key {
        lemma_slot_index_of_spec(pending.drop_first(), key);
        assert(forall|j: int|
            0 < j < pending.len() ==> pending[j] == pending.drop_first()[j - 1]);
    }
}

/// The observed times of the filled sides, in side order.
pub open spec fn observed_vals(sides: Seq<Option<ArrivalEvent>>) -> Seq<i64>
    decreases sides.len(),
{
    if sides.len() == 0 {
        Seq::empty()
    } else {
        let rest = observed_vals(sides.drop_last());
        match sides.last() {
            Some(e) => rest.push(e.observed_time),
            None => rest,
        }
    }
}

/// Orders a pair so that the smaller value comes first.
pub open spec fn order2(x: i64, y: i64) -> (i64, i64) {
    if x <= y {
        (x, y)
    } else {
        (y, x)
    }
}

/// Folds a further value into a (smallest, second smallest) pair.
pub open spec fn insert2(p: (i64, i64), x: i64) -> (i64, i64) {
    if x < p.0 {
        (x, p.0)
    } else if x < p.1 {
        (p.0, x)
    } else {
        p
    }
}

/// The two smallest values (with multiplicity) of a sequence of length two
/// or more; meaningless below that length.
pub open spec fn two_smallest(vals: Seq<i64>) -> (i64, i64)
    decreases vals.len(),
{
    if vals.len() <= 1 {
        (0i64, 0i64)
    } else if vals.len() == 2 {
        order2(vals[0], vals[1])
    } else {
        insert2(two_smallest(vals.drop_last()), vals.last())
    }
}

/// Side `i` strictly beat every other filled side; requires a race of at
/// least two filled sides.
pub open spec fn is_strict_winner(sides: Seq<Option<ArrivalEvent>>, i: int) -> bool {
    &&& 0 <= i < sides.len()
    &&& sides[i] is Some
    &&& observed_vals(sides).len() >= 2
    &&& forall|j: int|
        0 <= j < sides.len() && j != i && sides[j] is Some
            ==> (#[trigger] sides[j])->Some_0.observed_time > sides[i]->Some_0.observed_time
}

/// The winning side of a filled slot, when one side strictly beat the rest.
pub open spec fn winner_index(sides: Seq<Option<ArrivalEvent>>) -> Option<int> {
    if exists|i: int| is_strict_winner(sides, i) {
        Some(choose|i: int| is_strict_winner(sides, i))
    } else {
        None
    }
}

/// The margin between the two earliest filled sides, pinned to the `i64`
/// range; absent when fewer than two sides are filled.
pub open spec fn margin_spec(sides: Seq<Option<ArrivalEvent>>) -> Option<i64> {
    let vals = observed_vals(sides);
    if vals.len() >= 2 {
        Some(clip_i64(two_smallest(vals).1 - two_smallest(vals).0) as i64)
    } else {
        None
    }
}

/// Two strict winners are the same side.
pub proof fn lemma_strict_winner_unique(sides: Seq<Option<ArrivalEvent>>, i: int, j: int)
    requires
        is_strict_winner(sides, i),
        is_strict_winner(sides, j),
    ensures
        i == j,
{
}

/// The result emitted when a slot completes.
pub open spec fn result_of_complete(slot: SlotModel) -> ResultModel {
    ResultModel {
        ordering_key: slot.ordering_key,
        events: slot.sides,
        complete: true,
        winner_source_id: match winner_index(slot.sides) {
            Some(i) => Some(slot.sides[i]->Some_0.source_id@),
            None => None,
        },
        margin_ms: margin_spec(slot.sides),
    }
}

/// The result emitted when a slot is evicted before completing: explicitly
/// incomplete, with no winner declared and no margin.
pub open spec fn result_of_evicted(slot: SlotModel) -> ResultModel {
    ResultModel {
        ordering_key: slot.ordering_key,
        events: slot.sides,
        complete: false,
        winner_source_id: None,
        margin_ms: None,
    }
}

pub open spec fn all_filled(sides: Seq<Option<ArrivalEvent>>) -> bool {
    forall|i: int| 0 <= i < sides.len() ==> (#[trigger] sides[i]) is Some
}

/// A fresh side row: one empty side per configured source.
pub open spec fn blank_sides(n: int) -> Seq<Option<ArrivalEvent>> {
    Seq::new(n as nat, |i: int| None::<ArrivalEvent>)
}

// ---------------------------------------------------------------------------
// Transition functions
// ---------------------------------------------------------------------------
/// The outcome of one ingest step over the model.
#[verifier::ext_equal]
pub struct IngestStep {
    pub next: CorrelatorModel,
    pub emitted: Option<ResultModel>,
}

/// What ingesting one arrival event does to the correlator: the single
/// source of truth that `Correlator::ingest` is proved against.
pub open spec fn spec_ingest(c: CorrelatorModel, e: ArrivalEvent) -> IngestStep {
    if c.terminal.contains(e.ordering_key) {
        // Stale event after its slot reached a terminal state: discarded.
        IngestStep { next: CorrelatorModel { late_count: bump(c.late_count), ..c }, emitted: None }
    } else {
        match source_index_of(c.sources, e.source_id@) {
            None => IngestStep {
                next: CorrelatorModel {
                    unknown_source_count: bump(c.unknown_source_count),
                    ..c
                },
                emitted: None,
            },
            Some(si) => match slot_index_of(c.pending, e.ordering_key) {
                None => {
                    let slot = SlotModel {
                        ordering_key: e.ordering_key,
                        created_at: e.observed_time,
                        sides: blank_sides(c.sources.len() as int).update(si, Some(e)),
                    };
                    if all_filled(slot.sides) {
                        IngestStep {
                            next: CorrelatorModel {
                                terminal: c.terminal.push(e.ordering_key),
                                ..c
                            },
                            emitted: Some(result_of_complete(slot)),
                        }
                    } else {
                        IngestStep {
                            next: CorrelatorModel { pending: c.pending.push(slot), ..c },
                            emitted: None,
                        }
                    }
                },
                Some(pi) => {
                    let slot = c.pending[pi];
                    if slot.sides[si] is Some {
                        // First arrival wins: the already recorded event stays.
                        IngestStep {
                            next: CorrelatorModel {
                                duplicate_count: bump(c.duplicate_count),
                                ..c
                            },
                            emitted: None,
                        }
                    } else {
                        let filled = SlotModel { sides: slot.sides.update(si, Some(e)), ..slot };
                        if all_filled(filled.sides) {
                            IngestStep {
                                next: CorrelatorModel {
                                    pending: c.pending.remove(pi),
                                    terminal: c.terminal.push(e.ordering_key),
                                    ..c
                                },
                                emitted: Some(result_of_complete(filled)),
                            }
                        } else {
                            IngestStep {
                                next: CorrelatorModel { pending: c.pending.update(pi, filled), ..c },
                                emitted: None,
                            }
                        }
                    }
                },
            },
        }
    }
}

/// A slot has outlived the retention window at time `now`.
pub open spec fn slot_expired(slot: SlotModel, now: i64, retention_ms: i64) -> bool {
    now - slot.created_at >= retention_ms
}

/// The pending slots that survive a sweep at time `now`, in order.
pub open spec fn kept_slots(pending: Seq<SlotModel>, now: i64, retention_ms: i64) -> Seq<
    SlotModel,
>
    decreases pending.len(),
{
    if pending.len() == 0 {
        Seq::empty()
    } else {
        let rest = kept_slots(pending.drop_last(), now, retention_ms);
        if slot_expired(pending.last(), now, retention_ms) {
            rest
        } else {
            rest.push(pending.last())
        }
    }
}

/// The pending slots that a sweep at time `now` evicts, in order.
pub open spec fn evicted_slots(pending: Seq<SlotModel>, now: i64, retention_ms: i64) -> Seq<
    SlotModel,
>
    decreases pending.len(),
{
    if pending.len() == 0 {
        Seq::empty()
    } else {
        let rest = evicted_slots(pending.drop_last(), now, retention_ms);
        if slot_expired(pending.last(), now, retention_ms) {
            rest.push(pending.last())
        } else {
            rest
        }
    }
}

/// The outcome of one sweep over the model.
#[verifier::ext_equal]
pub struct SweepStep {
    pub next: CorrelatorModel,
    pub emitted: Seq<ResultModel>,
}

/// What sweeping at time `now` does to the correlator: every slot older than
/// the retention window is evicted and reported as an incomplete result, so
/// that no gathered data is silently lost.
pub open spec fn spec_sweep(c: CorrelatorModel, now: i64) -> SweepStep {
    let evicted = evicted_slots(c.pending, now, c.retention_ms);
    SweepStep {
        next: CorrelatorModel {
            pending: kept_slots(c.pending, now, c.retention_ms),
            terminal: c.terminal + evicted.map_values(|s: SlotModel| s.ordering_key),
            ..c
        },
        emitted: evicted.map_values(|s: SlotModel| result_of_evicted(s)),
    }
}

// ---------------------------------------------------------------------------
// Well-formedness
// ---------------------------------------------------------------------------
/// A pending slot is consistent with the configuration: one side per source,
/// partially but not fully filled, and every filled side holds an event for
/// this slot's key from that side's source.
pub open spec fn slot_wf(slot: SlotModel, sources: Seq<String>) -> bool {
    &&& slot.sides.len() == sources.len()
    &&& exists|j: int| 0 <= j < slot.sides.len() && (#[trigger] slot.sides[j]) is Some
    &&& !all_filled(slot.sides)
    &&& forall|j: int|
        0 <= j < slot.sides.len() && (#[trigger] slot.sides[j]) is Some ==> {
            &&& slot.sides[j]->Some_0.ordering_key == slot.ordering_key
            &&& slot.sides[j]->Some_0.source_id@ == sources[j]@
        }
}

/// The correlator invariant: valid configuration, consistent slots, one slot
/// per key, and no pending slot for a terminal key.
pub open spec fn wf(c: CorrelatorModel) -> bool {
    &&& 1 <= c.sources.len()
    &&& forall|i: int, j: int|
        0 <= i < j < c.sources.len() ==> (#[trigger] c.sources[i])@ != (#[trigger] c.sources[j])@
    &&& c.retention_ms > 0
    &&& forall|i: int| 0 <= i < c.pending.len() ==> slot_wf(#[trigger] c.pending[i], c.sources)
    &&& forall|i: int, j: int|
        0 <= i < j < c.pending.len() ==> (#[trigger] c.pending[i]).ordering_key != (
        #[trigger] c.pending[j]).ordering_key
    &&& forall|i: int|
        0 <= i < c.pending.len() ==> !c.terminal.contains((#[trigger] c.pending[i]).ordering_key)
}

// ---------------------------------------------------------------------------
// Laws
// ---------------------------------------------------------------------------
/// Ingesting any event preserves the correlator invariant of the model.
pub proof fn lemma_spec_ingest_wf(c: CorrelatorModel, e: ArrivalEvent)
    requires
        wf(c),
    ensures
        wf(spec_ingest(c, e).next),
{
    if !c.terminal.contains(e.ordering_key) {
        lemma_source_index_of_spec(c.sources, e.source_id@);
        match source_index_of(c.sources, e.source_id@) {
            None => {},
            Some(si) => {
                lemma_slot_index_of_spec(c.pending, e.ordering_key);
                match slot_index_of(c.pending, e.ordering_key) {
                    None => {
                        let slot = SlotModel {
                            ordering_key: e.ordering_key,
                            created_at: e.observed_time,
                            sides: blank_sides(c.sources.len() as int).update(si, Some(e)),
                        };
                        if !all_filled(slot.sides) {
                            assert(slot.sides[si] is Some);
                            assert(slot_wf(slot, c.sources));
                        }
                    },
                    Some(pi) => {
                        let slot = c.pending[pi];
                        if !(slot.sides[si] is Some) {
                            let filled = SlotModel {
                                sides: slot.sides.update(si, Some(e)),
                                ..slot
                            };
                            if all_filled(filled.sides) {
                                let next = spec_ingest(c, e).next;
                                assert forall|a: int|
                                    0 <= a < next.pending.len() implies !next.terminal.contains(
                                    (#[trigger] next.pending[a]).ordering_key,
                                ) by {
                                    if a < pi {
                                        assert(next.pending[a] == c.pending[a]);
                                    } else {
                                        assert(next.pending[a] == c.pending[a + 1]);
                                    }
                                }
                            } else {
                                assert(filled.sides[si] is Some);
                                assert(slot_wf(filled, c.sources));
                            }
                        }
                    },
                }
            },
        }
    }
}

/// An event for a key already in a terminal state is discarded: it emits no
/// result and changes nothing but the stale-event counter, so no key yields
/// a second correlation result.
pub proof fn lemma_terminal_absorbs(c: CorrelatorModel, e: ArrivalEvent)
    requires
        c.terminal.contains(e.ordering_key),
    ensures
        (spec_ingest(c, e).emitted is None),
        spec_ingest(c, e).next == (CorrelatorModel { late_count: bump(c.late_count), ..c }),
        spec_ingest(c, e).next.terminal == c.terminal,
        spec_ingest(c, e).next.pending == c.pending,
{
}

/// Correlation completeness: when two arrival events carry the same fresh
/// ordering key from the two distinct configured sources, the first ingest
/// emits nothing (a result never appears before both sides are submitted)
/// and the second ingest emits exactly one complete result for that key,
/// after which the key is terminal and holds no pending slot — so no second
/// result for it can ever be emitted.
pub proof fn lemma_correlation_completeness(c: CorrelatorModel, e1: ArrivalEvent, e2: ArrivalEvent)
    requires
        wf(c),
        c.sources.len() == 2,
        e1.ordering_key == e2.ordering_key,
        source_index_of(c.sources, e1.source_id@) is Some,
        source_index_of(c.sources, e2.source_id@) is Some,
        e1.source_id@ != e2.source_id@,
        !c.terminal.contains(e1.ordering_key),
        slot_index_of(c.pending, e1.ordering_key) is None,
    ensures
        (spec_ingest(c, e1).emitted is None),
        ({
            let c1 = spec_ingest(c, e1).next;
            let step2 = spec_ingest(c1, e2);
            &&& step2.emitted matches Some(m) && m.ordering_key == e1.ordering_key && m.complete
            &&& step2.next.terminal.contains(e1.ordering_key)
            &&& slot_index_of(step2.next.pending, e1.ordering_key) is None
        }),
{
    let key = e1.ordering_key;
    lemma_source_index_of_spec(c.sources, e1.source_id@);
    lemma_source_index_of_spec(c.sources, e2.source_id@);
    lemma_slot_index_of_spec(c.pending, key);
    let si1 = source_index_of(c.sources, e1.source_id@)->Some_0;
    let si2 = source_index_of(c.sources, e2.source_id@)->Some_0;
    assert(si1 != si2);
    let slot = SlotModel {
        ordering_key: key,
        created_at: e1.observed_time,
        sides: blank_sides(2).update(si1, Some(e1)),
    };
    assert(slot.sides[if si1 == 0 {
        1int
    } else {
        0int
    }] is None);
    assert(!all_filled(slot.sides));
    let c1 = spec_ingest(c, e1).next;
    assert(c1.pending == c.pending.push(slot));
    assert(!c1.terminal.contains(key));
    lemma_source_index_of_spec(c1.sources, e2.source_id@);
    lemma_slot_index_of_spec(c1.pending, key);
    let pi = slot_index_of(c1.pending, key)->Some_0;
    assert(c1.pending[c.pending.len() as int] == slot);
    assert(pi == c.pending.len());
    assert(c1.pending[pi].sides[si2] is None);
    let filled = SlotModel { sides: slot.sides.update(si2, Some(e2)), ..slot };
    assert forall|j: int| 0 <= j < filled.sides.len() implies (#[trigger] filled.sides[j])
        is Some by {
        assert(j == si1 || j == si2);
    }
    assert(all_filled(filled.sides));
    let step2 = spec_ingest(c1, e2);
    assert(step2.emitted == Some(result_of_complete(filled)));
    assert(step2.next.terminal == c1.terminal.push(key));
    assert(step2.next.terminal[c1.terminal.len() as int] == key);
    assert(step2.next.terminal.contains(key));
    assert(step2.next.pending =~= c.pending);
    lemma_slot_index_of_spec(step2.next.pending, key);
    if slot_index_of(step2.next.pending, key) is Some {
        let i = slot_index_of(step2.next.pending, key)->Some_0;
        assert(c.pending[i].ordering_key == key);
        assert(false);
    }
}

/// First arrival wins: an event for an already-filled (ordering key, source)
/// pair changes nothing but the duplicate counter — in particular the
/// recorded observed time of that side stays what the first arrival wrote.
pub proof fn lemma_first_arrival_wins(c: CorrelatorModel, e: ArrivalEvent)
    requires
        !c.terminal.contains(e.ordering_key),
        (source_index_of(c.sources, e.source_id@) is Some),
        (slot_index_of(c.pending, e.ordering_key) is Some),
        (c.pending[slot_index_of(c.pending, e.ordering_key)->Some_0].sides[source_index_of(
            c.sources,
            e.source_id@,
        )->Some_0] is Some),
    ensures
        (spec_ingest(c, e).emitted is None),
        spec_ingest(c, e).next == (CorrelatorModel {
            duplicate_count: bump(c.duplicate_count),
            ..c
        }),
        spec_ingest(c, e).next.pending == c.pending,
{
}

/// Every expired pending slot is among the slots a sweep evicts.
pub proof fn lemma_expired_in_evicted(
    pending: Seq<SlotModel>,
    now: i64,
    retention_ms: i64,
    i: int,
)
    requires
        0 <= i < pending.len(),
        slot_expired(pending[i], now, retention_ms),
    ensures
        evicted_slots(pending, now, retention_ms).contains(pending[i]),
    decreases pending.len(),
{
    let ev = evicted_slots(pending, now, retention_ms);
    let rest = evicted_slots(pending.drop_last(), now, retention_ms);
    if i == pending.len() - 1 {
        assert(ev[ev.len() - 1] == pending.last());
    } else {
        lemma_expired_in_evicted(pending.drop_last(), now, retention_ms, i);
        let j = choose|j: int| 0 <= j < rest.len() && rest[j] == pending.drop_last()[i];
        assert(ev[j] == pending[i]);
    }
}

/// The slots a sweep evicts have distinct keys when the pending slots had
/// distinct keys.
pub proof fn lemma_evicted_keys_distinct(pending: Seq<SlotModel>, now: i64, retention_ms: i64)
    requires
        forall|a: int, b: int|
            0 <= a < b < pending.len() ==> (#[trigger] pending[a]).ordering_key != (
            #[trigger] pending[b]).ordering_key,
    ensures
        forall|a: int, b: int|
            0 <= a < b < evicted_slots(pending, now, retention_ms).len() ==> (
            #[trigger] evicted_slots(pending, now, retention_ms)[a]).ordering_key != (
            #[trigger] evicted_slots(pending, now, retention_ms)[b]).ordering_key,
    decreases pending.len(),
{
    if pending.len() > 0 {
        let rest = pending.drop_last();
        assert(forall|a: int, b: int|
            0 <= a < b < rest.len() ==> (#[trigger] rest[a]).ordering_key != (
            #[trigger] rest[b]).ordering_key);
        lemma_evicted_keys_distinct(rest, now, retention_ms);
        lemma_evicted_subset(rest, now, retention_ms);
        let ev = evicted_slots(pending, now, retention_ms);
        let ev_rest = evicted_slots(rest, now, retention_ms);
        if slot_expired(pending.last(), now, retention_ms) {
            assert forall|a: int, b: int|
                0 <= a < b < ev.len() implies (#[trigger] ev[a]).ordering_key != (
            #[trigger] ev[b]).ordering_key by {
                if b == ev.len() - 1 {
                    assert(ev[b] == pending.last());
                    assert(ev_rest.contains(ev[a]));
                    assert(rest.contains(ev[a]));
                    let j = choose|j: int| 0 <= j < rest.len() && rest[j] == ev[a];
                    assert(pending[j] == ev[a]);
                    assert(pending[j].ordering_key != pending.last().ordering_key);
                } else {
                    assert(ev[a] == ev_rest[a] && ev[b] == ev_rest[b]);
                }
            }
        }
    }
}

/// Eviction completeness: a pending slot that has outlived the retention
/// window at time `now` yields exactly one emitted result in the sweep at
/// `now`; that result is explicitly incomplete and declares no winner, and
/// the key is terminal afterwards with no pending slot left.
pub proof fn lemma_eviction_completeness(c: CorrelatorModel, now: i64, pi: int)
    requires
        wf(c),
        0 <= pi < c.pending.len(),
        slot_expired(c.pending[pi], now, c.retention_ms),
    ensures
        ({
            let step = spec_sweep(c, now);
            let k = c.pending[pi].ordering_key;
            &&& exists|j: int|
                {
                    &&& 0 <= j < step.emitted.len()
                    &&& (#[trigger] step.emitted[j]) == result_of_evicted(c.pending[pi])
                    &&& step.emitted[j].ordering_key == k
                    &&& !step.emitted[j].complete
                    &&& step.emitted[j].winner_source_id is None
                    &&& forall|j2: int|
                        0 <= j2 < step.emitted.len() && j2 != j ==> (
                        #[trigger] step.emitted[j2]).ordering_key != k
                }
            &&& step.next.terminal.contains(k)
            &&& slot_index_of(step.next.pending, k) is None
        }),
{
    let step = spec_sweep(c, now);
    let k = c.pending[pi].ordering_key;
    let ev = evicted_slots(c.pending, now, c.retention_ms);
    let kept = kept_slots(c.pending, now, c.retention_ms);
    lemma_expired_in_evicted(c.pending, now, c.retention_ms, pi);
    lemma_evicted_subset(c.pending, now, c.retention_ms);
    lemma_evicted_keys_distinct(c.pending, now, c.retention_ms);
    lemma_kept_subset(c.pending, now, c.retention_ms);
    let j = choose|j: int| 0 <= j < ev.len() && ev[j] == c.pending[pi];
    assert(step.emitted[j] == result_of_evicted(c.pending[pi]));
    assert forall|j2: int|
        0 <= j2 < step.emitted.len() && j2 != j implies (#[trigger] step.emitted[j2]).ordering_key
        != k by {
        assert(step.emitted[j2] == result_of_evicted(ev[j2]));
        if ev[j2].ordering_key == k {
            assert(ev.contains(ev[j2]));
            assert(c.pending.contains(ev[j2]));
            let b = choose|b: int| 0 <= b < c.pending.len() && c.pending[b] == ev[j2];
            assert(b == pi);
            assert(ev[j2] == ev[j]);
            assert(ev[j2].ordering_key != ev[j].ordering_key);
        }
    }
    let evkeys = ev.map_values(|s: SlotModel| s.ordering_key);
    assert(evkeys[j] == k);
    assert(step.next.terminal[c.terminal.len() + j] == k);
    lemma_slot_index_of_spec(step.next.pending, k);
    if slot_index_of(step.next.pending, k) is Some {
        let a = slot_index_of(step.next.pending, k)->Some_0;
        assert(kept.contains(kept[a]));
        assert(c.pending.contains(kept[a]));
        let b = choose|b: int| 0 <= b < c.pending.len() && c.pending[b] == kept[a];
        assert(b == pi);
        assert(!slot_expired(kept[a], now, c.retention_ms));
        assert(false);
    }
}

/// The slot pending for a key, when one is.
pub open spec fn slot_for_key(pending: Seq<SlotModel>, key: u64) -> Option<SlotModel> {
    match slot_index_of(pending, key) {
        Some(i) => Some(pending[i]),
        None => None,
    }
}

/// Appending a slot with another key leaves a key's pending slot unchanged.
pub proof fn lemma_slot_for_key_push(s: Seq<SlotModel>, x: SlotModel, k: u64)
    requires
        x.ordering_key != k,
    ensures
        slot_for_key(s.push(x), k) == slot_for_key(s, k),
{
    lemma_slot_index_of_spec(s, k);
    lemma_slot_index_of_spec(s.push(x), k);
    match slot_index_of(s, k) {
        Some(i) => {
            assert(s.push(x)[i].ordering_key == k);
            match slot_index_of(s.push(x), k) {
                Some(i2) => {
                    if i2 < i {
                        assert(s[i2].ordering_key == k);
                        assert(false);
                    }
                    if i < i2 {
                        assert(s.push(x)[i].ordering_key != k);
                        assert(false);
                    }
                    assert(s.push(x)[i2] == s[i]);
                },
                None => {
                    assert(s.push(x)[i].ordering_key != k);
                    assert(false);
                },
            }
        },
        None => {
            if slot_index_of(s.push(x), k) is Some {
                let i2 = slot_index_of(s.push(x), k)->Some_0;
                if i2 < s.len() {
                    assert(s[i2].ordering_key == k);
                } else {
                    assert(s.push(x)[i2] == x);
                }
                assert(false);
            }
        },
    }
}

/// Removing a slot with another key leaves a key's pending slot unchanged.
pub proof fn lemma_slot_for_key_remove(s: Seq<SlotModel>, pi: int, k: u64)
    requires
        0 <= pi < s.len(),
        s[pi].ordering_key != k,
    ensures
        slot_for_key(s.remove(pi), k) == slot_for_key(s, k),
{
    let r = s.remove(pi);
    lemma_slot_index_of_spec(s, k);
    lemma_slot_index_of_spec(r, k);
    assert(forall|a: int| 0 <= a < pi ==> r[a] == s[a]);
    assert(forall|a: int| pi <= a < r.len() ==> r[a] == s[a + 1]);
    match slot_index_of(s, k) {
        Some(i) => {
            let ir: int = if i < pi {
                i
            } else {
                i - 1
            };
            assert(r[ir] == s[i]);
            match slot_index_of(r, k) {
                Some(i2) => {
                    if i2 < ir {
                        let orig: int = if i2 < pi {
                            i2
                        } else {
                            i2 + 1
                        };
                        assert(s[orig].ordering_key == k);
                        assert(false);
                    }
                    if ir < i2 {
                        assert(r[ir].ordering_key != k);
                        assert(false);
                    }
                    assert(r[i2] == s[i]);
                },
                None => {
                    assert(r[ir].ordering_key != k);
                    assert(false);
                },
            }
        },
        None => {
            if slot_index_of(r, k) is Some {
                let i2 = slot_index_of(r, k)->Some_0;
                let orig: int = if i2 < pi {
                    i2
                } else {
                    i2 + 1
                };
                assert(s[orig].ordering_key == k);
                assert(false);
            }
        },
    }
}

/// Replacing a slot of another key leaves a key's pending slot unchanged.
pub proof fn lemma_slot_for_key_update(s: Seq<SlotModel>, pi: int, x: SlotModel, k: u64)
    requires
        0 <= pi < s.len(),
        s[pi].ordering_key != k,
        x.ordering_key != k,
    ensures
        slot_for_key(s.update(pi, x), k) == slot_for_key(s, k),
{
    let u = s.update(pi, x);
    lemma_slot_index_of_spec(s, k);
    lemma_slot_index_of_spec(u, k);
    match slot_index_of(s, k) {
        Some(i) => {
            assert(u[i].ordering_key == k);
            match slot_index_of(u, k) {
                Some(i2) => {
                    if i2 < i {
                        assert(s[i2].ordering_key == k);
                        assert(false);
                    }
                    if i < i2 {
                        assert(u[i].ordering_key != k);
                        assert(false);
                    }
                    assert(u[i2] == s[i]);
                },
                None => {
                    assert(u[i].ordering_key != k);
                    assert(false);
                },
            }
        },
        None => {
            if slot_index_of(u, k) is Some {
                let i2 = slot_index_of(u, k)->Some_0;
                assert(u[i2].ordering_key == k);
                if i2 != pi {
                    assert(s[i2].ordering_key == k);
                }
                assert(false);
            }
        },
    }
}

/// Appending a key keeps every previously terminal key terminal, and makes
/// no other key terminal but the appended one.
pub proof fn lemma_terminal_push_contains(t: Seq<u64>, x: u64, k: u64)
    ensures
        t.push(x).contains(k) == (t.contains(k) || k == x),
{
    if t.contains(k) {
        let a = choose|a: int| 0 <= a < t.len() && t[a] == k;
        assert(t.push(x)[a] == k);
    }
    if k == x {
        assert(t.push(x)[t.len() as int] == k);
    }
    if t.push(x).contains(k) && k != x {
        let a = choose|a: int| 0 <= a < t.push(x).len() && t.push(x)[a] == k;
        assert(t[a] == k);
    }
}

/// No interference between keys: ingesting an event leaves the pending slot,
/// the terminal status, and hence the whole correlation state of every other
/// key untouched, whatever order concurrent submitters interleave in.
pub proof fn lemma_no_interference(c: CorrelatorModel, e: ArrivalEvent, k: u64)
    requires
        wf(c),
        e.ordering_key != k,
    ensures
        slot_for_key(spec_ingest(c, e).next.pending, k) == slot_for_key(c.pending, k),
        spec_ingest(c, e).next.terminal.contains(k) == c.terminal.contains(k),
        (spec_ingest(c, e).emitted matches Some(m) ==> m.ordering_key == e.ordering_key),
    decreases 0int,
{
    let key = e.ordering_key;
    if !c.terminal.contains(key) {
        lemma_source_index_of_spec(c.sources, e.source_id@);
        match source_index_of(c.sources, e.source_id@) {
            None => {},
            Some(si) => {
                lemma_slot_index_of_spec(c.pending, key);
                match slot_index_of(c.pending, key) {
                    None => {
                        let slot = SlotModel {
                            ordering_key: key,
                            created_at: e.observed_time,
                            sides: blank_sides(c.sources.len() as int).update(si, Some(e)),
                        };
                        if all_filled(slot.sides) {
                            lemma_terminal_push_contains(c.terminal, key, k);
                        } else {
                            lemma_slot_for_key_push(c.pending, slot, k);
                        }
                    },
                    Some(pi) => {
                        let slot = c.pending[pi];
                        if !(slot.sides[si] is Some) {
                            let filled = SlotModel {
                                sides: slot.sides.update(si, Some(e)),
                                ..slot
                            };
                            if all_filled(filled.sides) {
                                lemma_slot_for_key_remove(c.pending, pi, k);
                                lemma_terminal_push_contains(c.terminal, key, k);
                            } else {
                                lemma_slot_for_key_update(c.pending, pi, filled, k);
                            }
                        }
                    },
                }
            },
        }
    }
}

/// The correlation state an event leaves its own key in: either the key is
/// terminal, or its pending slot has the event's side filled.
pub open spec fn key_side_state(c: CorrelatorModel, k: u64, si: int) -> bool {
    ||| c.terminal.contains(k)
    ||| (slot_for_key(c.pending, k) matches Some(sl) && 0 <= si < sl.sides.len() && sl.sides[si]
        is Some)
}

/// Progress: after an event is ingested, its key is terminal or its side of
/// the slot is filled — an event for a configured source is never lost.
pub proof fn lemma_key_progress(c: CorrelatorModel, e: ArrivalEvent)
    requires
        wf(c),
        (source_index_of(c.sources, e.source_id@) is Some),
    ensures
        key_side_state(
            spec_ingest(c, e).next,
            e.ordering_key,
            source_index_of(c.sources, e.source_id@)->Some_0,
        ),
{
    let key = e.ordering_key;
    let si = source_index_of(c.sources, e.source_id@)->Some_0;
    lemma_source_index_of_spec(c.sources, e.source_id@);
    let next = spec_ingest(c, e).next;
    if c.terminal.contains(key) {
    } else {
        lemma_slot_index_of_spec(c.pending, key);
        match slot_index_of(c.pending, key) {
            None => {
                let slot = SlotModel {
                    ordering_key: key,
                    created_at: e.observed_time,
                    sides: blank_sides(c.sources.len() as int).update(si, Some(e)),
                };
                if all_filled(slot.sides) {
                    lemma_terminal_push_contains(c.terminal, key, key);
                } else {
                    lemma_slot_index_of_spec(next.pending, key);
                    match slot_index_of(next.pending, key) {
                        Some(i2) => {
                            if i2 < c.pending.len() {
                                assert(c.pending[i2].ordering_key == key);
                                assert(false);
                            }
                            assert(next.pending[i2] == slot);
                        },
                        None => {
                            assert(next.pending[c.pending.len() as int].ordering_key == key);
                            assert(false);
                        },
                    }
                }
            },
            Some(pi) => {
                let slot = c.pending[pi];
                assert(slot_wf(slot, c.sources));
                if slot.sides[si] is Some {
                    assert(slot_for_key(c.pending, key) == Some(slot));
                } else {
                    let filled = SlotModel { sides: slot.sides.update(si, Some(e)), ..slot };
                    if all_filled(filled.sides) {
                        lemma_terminal_push_contains(c.terminal, key, key);
                    } else {
                        lemma_slot_index_of_spec(next.pending, key);
                        match slot_index_of(next.pending, key) {
                            Some(i2) => {
                                if i2 < pi {
                                    assert(c.pending[i2].ordering_key == key);
                                    assert(false);
                                }
                                if pi < i2 {
                                    assert(next.pending[pi].ordering_key != key);
                                    assert(false);
                                }
                                assert(next.pending[i2] == filled);
                            },
                            None => {
                                assert(next.pending[pi].ordering_key == key);
                                assert(false);
                            },
                        }
                    }
                }
            },
        }
    }
}

/// Stability: once a key is terminal or one side of its slot is filled,
/// ingesting any further event keeps it so — first arrivals are never
/// overwritten and terminal keys never reopen.
pub proof fn lemma_side_stability(c: CorrelatorModel, e: ArrivalEvent, k: u64, si: int)
    requires
        wf(c),
        key_side_state(c, k, si),
    ensures
        key_side_state(spec_ingest(c, e).next, k, si),
{
    let key = e.ordering_key;
    let next = spec_ingest(c, e).next;
    if key != k {
        lemma_no_interference(c, e, k);
    } else {
        if c.terminal.contains(k) {
        } else {
            let sl = slot_for_key(c.pending, k)->Some_0;
            lemma_slot_index_of_spec(c.pending, k);
            let pi = slot_index_of(c.pending, k)->Some_0;
            assert(c.pending[pi] == sl);
            lemma_source_index_of_spec(c.sources, e.source_id@);
            match source_index_of(c.sources, e.source_id@) {
                None => {},
                Some(si2) => {
                    if sl.sides[si2] is Some {
                        // duplicate: nothing changes
                    } else {
                        let filled = SlotModel { sides: sl.sides.update(si2, Some(e)), ..sl };
                        assert(filled.sides[si] is Some);
                        if all_filled(filled.sides) {
                            lemma_terminal_push_contains(c.terminal, key, k);
                        } else {
                            lemma_slot_index_of_spec(next.pending, k);
                            match slot_index_of(next.pending, k) {
                                Some(i2) => {
                                    if i2 < pi {
                                        assert(c.pending[i2].ordering_key == k);
                                        assert(false);
                                    }
                                    if pi < i2 {
                                        assert(next.pending[pi].ordering_key != k);
                                        assert(false);
                                    }
                                    assert(next.pending[i2] == filled);
                                },
                                None => {
                                    assert(next.pending[pi].ordering_key == k);
                                    assert(false);
                                },
                            }
                        }
                    }
                },
            }
        }
    }
}

/// The correlator state after a whole sequence of arrival events, in order.
pub open spec fn run_ingest(c: CorrelatorModel, events: Seq<ArrivalEvent>) -> CorrelatorModel
    decreases events.len(),
{
    if events.len() == 0 {
        c
    } else {
        run_ingest(spec_ingest(c, events[0]).next, events.drop_first())
    }
}

/// A whole run of ingests preserves the correlator invariant.
pub proof fn lemma_run_ingest_wf(c: CorrelatorModel, events: Seq<ArrivalEvent>)
    requires
        wf(c),
    ensures
        wf(run_ingest(c, events)),
    decreases events.len(),
{
    if events.len() > 0 {
        lemma_spec_ingest_wf(c, events[0]);
        lemma_run_ingest_wf(spec_ingest(c, events[0]).next, events.drop_first());
    }
}

/// A whole run of ingests keeps every already terminal key terminal.
pub proof fn lemma_run_terminal_monotone(c: CorrelatorModel, events: Seq<ArrivalEvent>, k: u64)
    requires
        c.terminal.contains(k),
    ensures
        run_ingest(c, events).terminal.contains(k),
    decreases events.len(),
{
    if events.len() > 0 {
        let e = events[0];
        let next = spec_ingest(c, e).next;
        if !next.terminal.contains(k) {
            lemma_terminal_push_contains(c.terminal, e.ordering_key, k);
        }
        lemma_run_terminal_monotone(next, events.drop_first(), k);
    }
}

/// A whole run of ingests preserves the configured sources.
pub proof fn lemma_run_sources_unchanged(c: CorrelatorModel, events: Seq<ArrivalEvent>)
    ensures
        run_ingest(c, events).sources == c.sources,
    decreases events.len(),
{
    if events.len() > 0 {
        lemma_run_sources_unchanged(spec_ingest(c, events[0]).next, events.drop_first());
    }
}

/// Once one side of a key's slot is filled, a run that contains an event for
/// the same key from the other of the two configured sources drives the key
/// to a terminal state.
pub proof fn lemma_coverage_one_side(
    c: CorrelatorModel,
    events: Seq<ArrivalEvent>,
    j: int,
    k: u64,
    si: int,
)
    requires
        wf(c),
        c.sources.len() == 2,
        key_side_state(c, k, si),
        0 <= si < 2,
        0 <= j < events.len(),
        events[j].ordering_key == k,
        (source_index_of(c.sources, events[j].source_id@) is Some),
        source_index_of(c.sources, events[j].source_id@)->Some_0 != si,
    ensures
        run_ingest(c, events).terminal.contains(k),
    decreases events.len(),
{
    let e = events[0];
    let next = spec_ingest(c, e).next;
    lemma_spec_ingest_wf(c, e);
    if j == 0 {
        let sj = source_index_of(c.sources, e.source_id@)->Some_0;
        lemma_source_index_of_spec(c.sources, e.source_id@);
        if c.terminal.contains(k) {
            lemma_terminal_push_contains(c.terminal, k, k);
            lemma_run_terminal_monotone(next, events.drop_first(), k);
        } else {
            let sl = slot_for_key(c.pending, k)->Some_0;
            lemma_slot_index_of_spec(c.pending, k);
            let pi = slot_index_of(c.pending, k)->Some_0;
            assert(c.pending[pi] == sl);
            assert(slot_wf(sl, c.sources));
            if sl.sides[sj] is Some {
                // both sides would be filled while the slot is still pending,
                // contradicting the invariant that pending slots are partial
                assert forall|a: int| 0 <= a < sl.sides.len() implies (#[trigger] sl.sides[a])
                    is Some by {
                    assert(a == si || a == sj);
                }
                assert(false);
            }
            let filled = SlotModel { sides: sl.sides.update(sj, Some(e)), ..sl };
            assert forall|a: int| 0 <= a < filled.sides.len() implies (#[trigger] filled.sides[a])
                is Some by {
                assert(a == si || a == sj);
            }
            assert(all_filled(filled.sides));
            lemma_terminal_push_contains(c.terminal, k, k);
            assert(next.terminal.contains(k));
            lemma_run_terminal_monotone(next, events.drop_first(), k);
        }
    } else {
        lemma_side_stability(c, e, k, si);
        assert(events.drop_first()[j - 1] == events[j]);
        lemma_coverage_one_side(next, events.drop_first(), j - 1, k, si);
    }
}

/// Concurrency safety: however two submitting tasks interleave, a run of
/// ingests that contains arrival events for the same key from both of the
/// two configured sources leaves that key terminal — its result has been
/// emitted — with no orphaned partial slot in the correlation table.
pub proof fn lemma_concurrent_coverage(
    c: CorrelatorModel,
    events: Seq<ArrivalEvent>,
    i: int,
    j: int,
)
    requires
        wf(c),
        c.sources.len() == 2,
        0 <= i < events.len(),
        0 <= j < events.len(),
        i != j,
        events[i].ordering_key == events[j].ordering_key,
        (source_index_of(c.sources, events[i].source_id@) is Some),
        (source_index_of(c.sources, events[j].source_id@) is Some),
        events[i].source_id@ != events[j].source_id@,
    ensures
        wf(run_ingest(c, events)),
        run_ingest(c, events).terminal.contains(events[i].ordering_key),
        (slot_index_of(run_ingest(c, events).pending, events[i].ordering_key) is None),
    decreases events.len(),
{
    let k = events[i].ordering_key;
    lemma_run_ingest_wf(c, events);
    lemma_source_index_of_spec(c.sources, events[i].source_id@);
    lemma_source_index_of_spec(c.sources, events[j].source_id@);
    let si = source_index_of(c.sources, events[i].source_id@)->Some_0;
    let sj = source_index_of(c.sources, events[j].source_id@)->Some_0;
    assert(si != sj);
    let e = events[0];
    let next = spec_ingest(c, e).next;
    lemma_spec_ingest_wf(c, e);
    if i == 0 {
        lemma_key_progress(c, e);
        assert(events.drop_first()[j - 1] == events[j]);
        lemma_coverage_one_side(next, events.drop_first(), j - 1, k, si);
    } else if j == 0 {
        lemma_key_progress(c, e);
        assert(events.drop_first()[i - 1] == events[i]);
        lemma_coverage_one_side(next, events.drop_first(), i - 1, k, sj);
    } else {
        assert(events.drop_first()[i - 1] == events[i]);
        assert(events.drop_first()[j - 1] == events[j]);
        lemma_concurrent_coverage(next, events.drop_first(), i - 1, j - 1);
    }
    let fin = run_ingest(c, events);
    lemma_slot_index_of_spec(fin.pending, k);
    if slot_index_of(fin.pending, k) is Some {
        let a = slot_index_of(fin.pending, k)->Some_0;
        assert(!fin.terminal.contains(fin.pending[a].ordering_key));
        assert(false);
    }
}

/// Winner tie-break: two sides that observed the block at the identical
/// time yield no winner and a margin of zero.
pub proof fn lemma_winner_tie(sides: Seq<Option<ArrivalEvent>>)
    requires
        sides.len() == 2,
        sides[0] is Some,
        sides[1] is Some,
        sides[0]->Some_0.observed_time == sides[1]->Some_0.observed_time,
    ensures
        winner_index(sides) is None,
        margin_spec(sides) == Some(0i64),
{
    let t = sides[0]->Some_0.observed_time;
    let empty: Seq<Option<ArrivalEvent>> = Seq::empty();
    assert(observed_vals(empty) =~= Seq::<i64>::empty());
    assert(sides.drop_last().drop_last() =~= empty);
    assert(sides.drop_last().last() == sides[0]);
    assert(observed_vals(sides.drop_last()) =~= seq![t]);
    assert(observed_vals(sides) =~= seq![t, t]);
    assert(two_smallest(observed_vals(sides)) == (t, t));
    assert(margin_spec(sides) == Some(0i64));
    if exists|i: int| is_strict_winner(sides, i) {
        let w = choose|i: int| is_strict_winner(sides, i);
        let other: int = if w == 0 {
            1
        } else {
            0
        };
        assert(sides[other]->Some_0.observed_time > sides[w]->Some_0.observed_time);
        assert(false);
    }
}

// ---------------------------------------------------------------------------
// Executable state
// ---------------------------------------------------------------------------
/// The per-key accumulator holding each source's arrival event until all
/// sides are present or the key is evicted.
pub struct CorrelationSlot {
    pub ordering_key: u64,
    /// The observed time of the first event, from which the retention window
    /// is measured.
    pub created_at: i64,
    /// One entry per configured source, in configuration order.
    pub sides: Vec<Option<ArrivalEvent>>,
}

impl View for CorrelationSlot {
    type V = SlotModel;

    open spec fn view(&self) -> SlotModel {
        SlotModel {
            ordering_key: self.ordering_key,
            created_at: self.created_at,
            sides: self.sides@,
        }
    }
}

/// The record emitted exactly once per ordering key: either a completed
/// correlation of all sides, or the partial data of an evicted slot.
pub struct CorrelationResult {
    pub ordering_key: u64,
    /// One entry per configured source, in configuration order.
    pub events: Vec<Option<ArrivalEvent>>,
    /// True when every side reported before the retention window elapsed.
    pub complete: bool,
    /// The source that observed the block strictly first; absent on a tie,
    /// on an incomplete result, and when fewer than two sides raced.
    pub winner_source_id: Option<String>,
    /// Distance in observed time between the two earliest sides; absent on
    /// an incomplete result.
    pub margin_ms: Option<i64>,
}

impl View for CorrelationResult {
    type V = ResultModel;

    open spec fn view(&self) -> ResultModel {
        ResultModel {
            ordering_key: self.ordering_key,
            events: self.events@,
            complete: self.complete,
            winner_source_id: match self.winner_source_id {
                Some(s) => Some(s@),
                None => None,
            },
            margin_ms: self.margin_ms,
        }
    }
}

/// The correlation table and its configuration.
pub struct Correlator {
    pub sources: Vec<String>,
    pub retention_ms: i64,
    pub pending: Vec<CorrelationSlot>,
    pub terminal: Vec<u64>,
    pub duplicate_count: u64,
    pub late_count: u64,
    pub unknown_source_count: u64,
}

impl View for Correlator {
    type V = CorrelatorModel;

    open spec fn view(&self) -> CorrelatorModel {
        CorrelatorModel {
            sources: self.sources@,
            retention_ms: self.retention_ms,
            pending: self.pending@.map_values(|s: CorrelationSlot| s@),
            terminal: self.terminal@,
            duplicate_count: self.duplicate_count,
            late_count: self.late_count,
            unknown_source_count: self.unknown_source_count,
        }
    }
}

/// Finds the configured side for a source identifier.
pub fn find_source_index(sources: &Vec<String>, id: &String) -> (r: Option<usize>)
    ensures
        match r {
            Some(i) => source_index_of(sources@, id@) == Some(i as int),
            None => source_index_of(sources@, id@) is None,
        },
{
    proof {
        lemma_source_index_of_spec(sources@, id@);
    }
    let n = sources.len();
    for i in 0..n
        invariant
            n == sources@.len(),
            forall|j: int| 0 <= j < i ==> (#[trigger] sources@[j])@ != id@,
    {
        if sources[i].eq(id) {
            proof {
                lemma_source_index_of_spec(sources@, id@);
            }
            return Some(i);
        }
    }
    None
}

fn find_slot_index(pending: &Vec<CorrelationSlot>, key: u64) -> (r: Option<usize>)
    ensures
        match r {
            Some(i) => slot_index_of(pending@.map_values(|s: CorrelationSlot| s@), key) == Some(
                i as int,
            ),
            None => slot_index_of(pending@.map_values(|s: CorrelationSlot| s@), key) is None,
        },
{
    proof {
        lemma_slot_index_of_spec(pending@.map_values(|s: CorrelationSlot| s@), key);
    }
    let n = pending.len();
    for i in 0..n
        invariant
            n == pending@.len(),
            forall|j: int| 0 <= j < i ==> (#[trigger] pending@[j]).ordering_key != key,
    {
        if pending[i].ordering_key == key {
            proof {
                lemma_slot_index_of_spec(pending@.map_values(|s: CorrelationSlot| s@), key);
                assert(pending@.map_values(|s: CorrelationSlot| s@)[i as int].ordering_key == key);
            }
            return Some(i);
        }
    }
    None
}

fn terminal_contains(terminal: &Vec<u64>, key: u64) -> (r: bool)
    ensures
        r == terminal@.contains(key),
{
    let n = terminal.len();
    for i in 0..n
        invariant
            n == terminal@.len(),
            forall|j: int| 0 <= j < i ==> terminal@[j] != key,
    {
        if terminal[i] == key {
            return true;
        }
    }
    false
}

impl Correlator {
    /// Builds a correlator for the given source identifiers and retention
    /// window.  Zero sources, a repeated source identifier, or a
    /// non-positive retention window are configuration errors, fatal at
    /// construction.
    pub fn new(sources: Vec<String>, retention_ms: i64) -> (r: Result<Correlator, ConfigError>)
        ensures
            match r {
                Ok(c) => {
                    &&& sources@.len() >= 1
                    &&& forall|i: int, j: int|
                        0 <= i < j < sources@.len() ==> (#[trigger] sources@[i])@ != (
                        #[trigger] sources@[j])@
                    &&& retention_ms > 0
                    &&& c@ == CorrelatorModel {
                        sources: sources@,
                        retention_ms,
                        pending: Seq::empty(),
                        terminal: Seq::empty(),
                        duplicate_count: 0u64,
                        late_count: 0u64,
                        unknown_source_count: 0u64,
                    }
                    &&& wf(c@)
                },
                Err(ConfigError::NoSources) => sources@.len() == 0,
                Err(ConfigError::DuplicateSource) => sources@.len() >= 1 && exists|i: int, j: int|
                    0 <= i < j < sources@.len() && (#[trigger] sources@[i])@ == (
                    #[trigger] sources@[j])@,
                Err(ConfigError::NonPositiveRetention) => sources@.len() >= 1 && (forall|
                    i: int,
                    j: int,
                |
                    0 <= i < j < sources@.len() ==> (#[trigger] sources@[i])@ != (
                    #[trigger] sources@[j])@) && retention_ms <= 0,
                Err(ConfigError::NonPositiveMaxPlausible) => false,
            },
    {
        let n = sources.len();
        if n == 0 {
            return Err(ConfigError::NoSources);
        }
        for i in 0..n
            invariant
                n == sources@.len(),
                forall|a: int, b: int|
                    0 <= a < b < sources@.len() && a < i ==> (#[trigger] sources@[a])@ != (
                    #[trigger] sources@[b])@,
        {
            for j in (i + 1)..n
                invariant
                    n == sources@.len(),
                    i < n,
                    forall|a: int, b: int|
                        0 <= a < b < sources@.len() && a < i ==> (#[trigger] sources@[a])@ != (
                        #[trigger] sources@[b])@,
                    forall|b: int|
                        i < b < j ==> (#[trigger] sources@[b])@ != sources@[i as int]@,
            {
                if sources[i].eq(&sources[j]) {
                    return Err(ConfigError::DuplicateSource);
                }
            }
        }
        if retention_ms <= 0 {
            return Err(ConfigError::NonPositiveRetention);
        }
        let c = Correlator {
            sources,
            retention_ms,
            pending: Vec::new(),
            terminal: Vec::new(),
            duplicate_count: 0,
            late_count: 0,
            unknown_source_count: 0,
        };
        proof {
            assert(c@.pending =~= Seq::<SlotModel>::empty());
            assert(c@.terminal =~= Seq::<u64>::empty());
        }
        Ok(c)
    }

    /// Ingests one arrival event: looks up or creates the slot for the
    /// event's ordering key and fills the side for its source.  Returns the
    /// correlation result exactly when this fill completes every side.  A
    /// duplicate for an already-filled side keeps the first arrival; an
    /// event for a terminal key and an event from an unconfigured source are
    /// discarded; all three are counted as diagnostics.  The whole step is
    /// pinned by `spec_ingest` over the model.
    pub fn ingest(&mut self, event: ArrivalEvent) -> (r: Option<CorrelationResult>)
        requires
            wf(old(self)@),
        ensures
            wf(final(self)@),
            final(self)@ == spec_ingest(old(self)@, event).next,
            match (r, spec_ingest(old(self)@, event).emitted) {
                (Some(res), Some(m)) => res@ == m,
                (None, None) => true,
                _ => false,
            },
    {
        let ghost c0 = self@;
        let key = event.ordering_key;
        let created_at = event.observed_time;
        if terminal_contains(&self.terminal, key) {
            if self.late_count < u64::MAX {
                self.late_count = self.late_count + 1;
            }
            proof {
                assert(self@ =~= spec_ingest(c0, event).next);
            }
            return None;
        }
        let si = match find_source_index(&self.sources, &event.source_id) {
            None => {
                if self.unknown_source_count < u64::MAX {
                    self.unknown_source_count = self.unknown_source_count + 1;
                }
                proof {
                    assert(self@ =~= spec_ingest(c0, event).next);
                }
                return None;
            },
            Some(si) => si,
        };
        proof {
            lemma_source_index_of_spec(c0.sources, event.source_id@);
        }
        match find_slot_index(&self.pending, key) {
            None => {
                proof {
                    lemma_slot_index_of_spec(c0.pending, key);
                }
                let n = self.sources.len();
                let mut sides: Vec<Option<ArrivalEvent>> = Vec::new();
                for k in 0..n
                    invariant
                        sides@ =~= blank_sides(k as int),
                {
                    sides.push(None);
                }
                sides[si] = Some(event);
                let ghost slot_m = SlotModel {
                    ordering_key: key,
                    created_at,
                    sides: blank_sides(c0.sources.len() as int).update(si as int, Some(event)),
                };
                proof {
                    assert(sides@ =~= slot_m.sides);
                }
                if n == 1 {
                    self.terminal.push(key);
                    let (widx, margin) = decide(&sides);
                    let winner_source_id = match widx {
                        Some(w) => match &sides[w] {
                            Some(e) => Some(e.source_id.clone()),
                            None => None,
                        },
                        None => None,
                    };
                    let res = CorrelationResult {
                        ordering_key: key,
                        events: sides,
                        complete: true,
                        winner_source_id,
                        margin_ms: margin,
                    };
                    proof {
                        assert(all_filled(slot_m.sides));
                        assert(self@ =~= spec_ingest(c0, event).next);
                        assert(res@ =~= result_of_complete(slot_m));
                    }
                    Some(res)
                } else {
                    self.pending.push(
                        CorrelationSlot { ordering_key: key, created_at, sides },
                    );
                    proof {
                        let j_empty: int = if si == 0 {
                            1
                        } else {
                            0
                        };
                        assert(slot_m.sides[j_empty] is None);
                        assert(!all_filled(slot_m.sides));
                        assert(slot_m.sides[si as int] is Some);
                        assert(self@.pending =~= c0.pending.push(slot_m));
                        assert(self@ =~= spec_ingest(c0, event).next);
                    }
                    None
                }
            },
            Some(pi) => {
                proof {
                    lemma_slot_index_of_spec(c0.pending, key);
                    assert(c0.pending[pi as int] == self.pending@[pi as int]@);
                    assert(slot_wf(c0.pending[pi as int], c0.sources));
                }
                if self.pending[pi].sides[si].is_some() {
                    if self.duplicate_count < u64::MAX {
                        self.duplicate_count = self.duplicate_count + 1;
                    }
                    proof {
                        assert(self@ =~= spec_ingest(c0, event).next);
                    }
                    None
                } else {
                    let mut slot = self.pending.remove(pi);
                    slot.sides[si] = Some(event);
                    let ghost filled_m = SlotModel {
                        ordering_key: c0.pending[pi as int].ordering_key,
                        created_at: c0.pending[pi as int].created_at,
                        sides: c0.pending[pi as int].sides.update(si as int, Some(event)),
                    };
                    proof {
                        assert(slot@ =~= filled_m);
                    }
                    if all_sides_filled(&slot.sides) {
                        self.terminal.push(key);
                        let (widx, margin) = decide(&slot.sides);
                        let winner_source_id = match widx {
                            Some(w) => match &slot.sides[w] {
                                Some(e) => Some(e.source_id.clone()),
                                None => None,
                            },
                            None => None,
                        };
                        let res = CorrelationResult {
                            ordering_key: slot.ordering_key,
                            events: slot.sides,
                            complete: true,
                            winner_source_id,
                            margin_ms: margin,
                        };
                        proof {
                            assert(self@.pending =~= c0.pending.remove(pi as int));
                            assert(self@ =~= spec_ingest(c0, event).next);
                            assert(res@ =~= result_of_complete(filled_m));
                        }
                        Some(res)
                    } else {
                        self.pending.insert(pi, slot);
                        proof {
                            assert(self@.pending =~= c0.pending.update(pi as int, filled_m));
                            assert(self@ =~= spec_ingest(c0, event).next);
                        }
                        None
                    }
                }
            },
        }
    }

    /// Evicts every pending slot older than the retention window at time
    /// `now`, returning one explicitly incomplete result per evicted slot —
    /// with no winner declared — so that one-sided data is reported rather
    /// than silently dropped.  The whole step is pinned by `spec_sweep` over
    /// the model.
    pub fn sweep(&mut self, now: i64) -> (r: Vec<CorrelationResult>)
        requires
            wf(old(self)@),
        ensures
            wf(final(self)@),
            final(self)@ == spec_sweep(old(self)@, now).next,
            r@.map_values(|res: CorrelationResult| res@) == spec_sweep(old(self)@, now).emitted,
    {
        let ghost c0 = self@;
        let retention_ms = self.retention_ms;
        let mut work: Vec<CorrelationSlot> = Vec::new();
        core::mem::swap(&mut work, &mut self.pending);
        let mut kept: Vec<CorrelationSlot> = Vec::new();
        let mut out: Vec<CorrelationResult> = Vec::new();
        let ghost mut processed: int = 0;
        while work.len() > 0
            invariant
                0 <= processed <= c0.pending.len(),
                work@.map_values(|s: CorrelationSlot| s@) =~= c0.pending.skip(processed),
                kept@.map_values(|s: CorrelationSlot| s@) =~= kept_slots(
                    c0.pending.take(processed),
                    now,
                    retention_ms,
                ),
                out@.map_values(|res: CorrelationResult| res@) =~= evicted_slots(
                    c0.pending.take(processed),
                    now,
                    retention_ms,
                ).map_values(|s: SlotModel| result_of_evicted(s)),
                self.terminal@ =~= c0.terminal + evicted_slots(
                    c0.pending.take(processed),
                    now,
                    retention_ms,
                ).map_values(|s: SlotModel| s.ordering_key),
                retention_ms == c0.retention_ms,
                self.sources@ == c0.sources,
                self.retention_ms == c0.retention_ms,
                self.pending@.len() == 0,
                self.duplicate_count == c0.duplicate_count,
                self.late_count == c0.late_count,
                self.unknown_source_count == c0.unknown_source_count,
            decreases work@.len(),
        {
            proof {
                assert(work@.map_values(|s: CorrelationSlot| s@).len() == c0.pending.skip(
                    processed,
                ).len());
                assert(processed < c0.pending.len());
                assert(c0.pending.take(processed + 1).drop_last() =~= c0.pending.take(processed));
                assert(c0.pending.take(processed + 1).last() == c0.pending[processed]);
            }
            let ghost w0 = work@;
            let slot = work.remove(0);
            proof {
                assert(w0.map_values(|s: CorrelationSlot| s@)[0] == w0[0]@);
                assert(slot@ == c0.pending[processed]);
                assert forall|i: int| 0 <= i < work@.len() implies #[trigger] work@[i]@
                    == c0.pending.skip(processed + 1)[i] by {
                    assert(work@[i] == w0[i + 1]);
                    assert(w0.map_values(|s: CorrelationSlot| s@)[i + 1] == w0[i + 1]@);
                    assert(c0.pending.skip(processed)[i + 1] == c0.pending.skip(processed + 1)[i]);
                }
            }
            let ghost out0 = out@;
            let ghost kept0 = kept@;
            let expired = (now as i128) - (slot.created_at as i128) >= (retention_ms as i128);
            proof {
                assert(expired == slot_expired(c0.pending[processed], now, retention_ms));
            }
            if expired {
                self.terminal.push(slot.ordering_key);
                out.push(
                    CorrelationResult {
                        ordering_key: slot.ordering_key,
                        events: slot.sides,
                        complete: false,
                        winner_source_id: None,
                        margin_ms: None,
                    },
                );
            } else {
                kept.push(slot);
            }
            proof {
                if expired {
                    assert(out@ == out0.push(out@.last()));
                    assert(out@.last()@ == result_of_evicted(c0.pending[processed]));
                } else {
                    assert(kept@ == kept0.push(kept@.last()));
                    assert(kept@.last()@ == c0.pending[processed]);
                }
                processed = processed + 1;
                assert(evicted_slots(c0.pending.take(processed), now, retention_ms)
                    == if expired {
                    evicted_slots(
                        c0.pending.take(processed - 1),
                        now,
                        retention_ms,
                    ).push(c0.pending[processed - 1])
                } else {
                    evicted_slots(c0.pending.take(processed - 1), now, retention_ms)
                });
                assert(kept_slots(c0.pending.take(processed), now, retention_ms)
                    == if expired {
                    kept_slots(c0.pending.take(processed - 1), now, retention_ms)
                } else {
                    kept_slots(
                        c0.pending.take(processed - 1),
                        now,
                        retention_ms,
                    ).push(c0.pending[processed - 1])
                });
                assert(work@.map_values(|s: CorrelationSlot| s@) =~= c0.pending.skip(processed));
                assert(kept@.map_values(|s: CorrelationSlot| s@) =~= kept_slots(
                    c0.pending.take(processed),
                    now,
                    retention_ms,
                ));
                let f_res = |res: CorrelationResult| res@;
                let g_ev = |s: SlotModel| result_of_evicted(s);
                let ev_now = evicted_slots(c0.pending.take(processed), now, retention_ms);
                let ev_prev = evicted_slots(c0.pending.take(processed - 1), now, retention_ms);
                assert(out0.map_values(f_res).len() == ev_prev.map_values(g_ev).len());
                assert(out0.len() == ev_prev.len());
                if expired {
                    assert(ev_now.len() == ev_prev.len() + 1);
                    assert(out@.len() == out0.len() + 1);
                } else {
                    assert(ev_now == ev_prev);
                    assert(out@.len() == out0.len());
                }
                assert forall|i: int| 0 <= i < out@.len() implies out@.map_values(f_res)[i]
                    == ev_now.map_values(g_ev)[i] by {
                    assert(out@.map_values(f_res)[i] == out@[i]@);
                    assert(ev_now.map_values(g_ev)[i] == result_of_evicted(ev_now[i]));
                    if i < out0.len() {
                        assert(out@[i] == out0[i]);
                        assert(out0.map_values(f_res)[i] == out0[i]@);
                        assert(ev_prev.map_values(g_ev)[i] == result_of_evicted(ev_prev[i]));
                        assert(out0[i]@ == result_of_evicted(ev_prev[i]));
                        if expired {
                            assert(ev_now[i] == ev_prev[i]);
                        } else {
                            assert(ev_now == ev_prev);
                        }
                    }
                }
                assert(out@.map_values(f_res).len() == ev_now.map_values(g_ev).len());
                assert(out@.map_values(|res: CorrelationResult| res@) =~= evicted_slots(
                    c0.pending.take(processed),
                    now,
                    retention_ms,
                ).map_values(|s: SlotModel| result_of_evicted(s)));
                assert(self.terminal@ =~= c0.terminal + evicted_slots(
                    c0.pending.take(processed),
                    now,
                    retention_ms,
                ).map_values(|s: SlotModel| s.ordering_key));
            }
        }
        self.pending = kept;
        proof {
            assert(c0.pending.take(processed) =~= c0.pending);
            let next = spec_sweep(c0, now).next;
            assert(self@ =~= next);
            lemma_kept_subset(c0.pending, now, retention_ms);
            lemma_evicted_subset(c0.pending, now, retention_ms);
            lemma_kept_keys_distinct(c0.pending, now, retention_ms);
            let keptm = kept_slots(c0.pending, now, retention_ms);
            let ev = evicted_slots(c0.pending, now, retention_ms);
            let evkeys = ev.map_values(|s: SlotModel| s.ordering_key);
            assert forall|i: int| 0 <= i < keptm.len() implies slot_wf(
                #[trigger] keptm[i],
                c0.sources,
            ) by {
                assert(keptm.contains(keptm[i]));
                assert(c0.pending.contains(keptm[i]));
                let j = choose|j: int| 0 <= j < c0.pending.len() && c0.pending[j] == keptm[i];
                assert(slot_wf(c0.pending[j], c0.sources));
            }
            assert forall|i: int| 0 <= i < keptm.len() implies !self@.terminal.contains(
                (#[trigger] keptm[i]).ordering_key,
            ) by {
                assert(keptm.contains(keptm[i]));
                assert(c0.pending.contains(keptm[i]));
                let j = choose|j: int| 0 <= j < c0.pending.len() && c0.pending[j] == keptm[i];
                assert(!c0.terminal.contains(keptm[i].ordering_key));
                if evkeys.contains(keptm[i].ordering_key) {
                    let a = choose|a: int| 0 <= a < evkeys.len() && evkeys[a]
                        == keptm[i].ordering_key;
                    assert(ev.contains(ev[a]));
                    assert(c0.pending.contains(ev[a]));
                    let b = choose|b: int| 0 <= b < c0.pending.len() && c0.pending[b] == ev[a];
                    assert(c0.pending[b].ordering_key == c0.pending[j].ordering_key);
                    assert(b == j);
                    assert(slot_expired(keptm[i], now, retention_ms));
                    assert(false);
                }
                assert(!(c0.terminal + evkeys).contains(keptm[i].ordering_key));
            }
        }
        out
    }
}

/// A sweep keeps slots with distinct keys when the pending slots had
/// distinct keys.
pub proof fn lemma_kept_keys_distinct(pending: Seq<SlotModel>, now: i64, retention_ms: i64)
    requires
        forall|a: int, b: int|
            0 <= a < b < pending.len() ==> (#[trigger] pending[a]).ordering_key != (
            #[trigger] pending[b]).ordering_key,
    ensures
        forall|a: int, b: int|
            0 <= a < b < kept_slots(pending, now, retention_ms).len() ==> (#[trigger] kept_slots(
                pending,
                now,
                retention_ms,
            )[a]).ordering_key != (#[trigger] kept_slots(pending, now, retention_ms)[b]).ordering_key,
    decreases pending.len(),
{
    if pending.len() > 0 {
        let rest = pending.drop_last();
        assert(forall|a: int, b: int|
            0 <= a < b < rest.len() ==> (#[trigger] rest[a]).ordering_key != (
            #[trigger] rest[b]).ordering_key);
        lemma_kept_keys_distinct(rest, now, retention_ms);
        lemma_kept_subset(rest, now, retention_ms);
        let kept = kept_slots(pending, now, retention_ms);
        let kept_rest = kept_slots(rest, now, retention_ms);
        if !slot_expired(pending.last(), now, retention_ms) {
            assert forall|a: int, b: int|
                0 <= a < b < kept.len() implies (#[trigger] kept[a]).ordering_key != (
            #[trigger] kept[b]).ordering_key by {
                if b == kept.len() - 1 {
                    assert(kept[b] == pending.last());
                    assert(kept_rest.contains(kept[a]));
                    assert(rest.contains(kept[a]));
                    let j = choose|j: int| 0 <= j < rest.len() && rest[j] == kept[a];
                    assert(pending[j] == kept[a]);
                    assert(pending[j].ordering_key != pending.last().ordering_key);
                } else {
                    assert(kept[a] == kept_rest[a] && kept[b] == kept_rest[b]);
                }
            }
        }
    }
}

/// Every slot a sweep keeps was already pending.
pub proof fn lemma_kept_subset(pending: Seq<SlotModel>, now: i64, retention_ms: i64)
    ensures
        forall|x: SlotModel|
            #[trigger] kept_slots(pending, now, retention_ms).contains(x) ==> pending.contains(x)
                && !slot_expired(x, now, retention_ms),
    decreases pending.len(),
{
    if pending.len() > 0 {
        lemma_kept_subset(pending.drop_last(), now, retention_ms);
        assert forall|x: SlotModel|
            #[trigger] kept_slots(pending, now, retention_ms).contains(x) implies pending.contains(
            x,
        ) && !slot_expired(x, now, retention_ms) by {
            let kept = kept_slots(pending, now, retention_ms);
            let rest = kept_slots(pending.drop_last(), now, retention_ms);
            if slot_expired(pending.last(), now, retention_ms) {
                assert(rest.contains(x));
            } else {
                let j = choose|j: int| 0 <= j < kept.len() && kept[j] == x;
                if j < rest.len() {
                    assert(rest.contains(x));
                } else {
                    assert(x == pending.last());
                }
            }
            if pending.drop_last().contains(x) {
                let j = choose|j: int| 0 <= j < pending.drop_last().len() && pending.drop_last()[j]
                    == x;
                assert(pending[j] == x);
            }
        }
    }
}

/// Every slot a sweep evicts was already pending.
pub proof fn lemma_evicted_subset(pending: Seq<SlotModel>, now: i64, retention_ms: i64)
    ensures
        forall|x: SlotModel|
            #[trigger] evicted_slots(pending, now, retention_ms).contains(x) ==> pending.contains(
                x,
            ) && slot_expired(x, now, retention_ms),
    decreases pending.len(),
{
    if pending.len() > 0 {
        lemma_evicted_subset(pending.drop_last(), now, retention_ms);
        assert forall|x: SlotModel|
            #[trigger] evicted_slots(pending, now, retention_ms).contains(x) implies pending
            .contains(x) && slot_expired(x, now, retention_ms) by {
            let ev = evicted_slots(pending, now, retention_ms);
            let rest = evicted_slots(pending.drop_last(), now, retention_ms);
            if !slot_expired(pending.last(), now, retention_ms) {
                assert(rest.contains(x));
            } else {
                let j = choose|j: int| 0 <= j < ev.len() && ev[j] == x;
                if j < rest.len() {
                    assert(rest.contains(x));
                } else {
                    assert(x == pending.last());
                }
            }
            if pending.drop_last().contains(x) {
                let j = choose|j: int| 0 <= j < pending.drop_last().len() && pending.drop_last()[j]
                    == x;
                assert(pending[j] == x);
            }
        }
    }
}

fn all_sides_filled(sides: &Vec<Option<ArrivalEvent>>) -> (r: bool)
    ensures
        r == all_filled(sides@),
{
    let n = sides.len();
    for i in 0..n
        invariant
            n == sides@.len(),
            forall|j: int| 0 <= j < i ==> (#[trigger] sides@[j]) is Some,
    {
        if sides[i].is_none() {
            return false;
        }
    }
    true
}

/// Scans the sides of a slot for the earliest and second-earliest observed
/// times, returning the winning side's index (when one side strictly beat
/// every other) and the margin between the two earliest sides.
fn decide(sides: &Vec<Option<ArrivalEvent>>) -> (r: (Option<usize>, Option<i64>))
    ensures
        match r.0 {
            Some(i) => winner_index(sides@) == Some(i as int),
            None => winner_index(sides@) is None,
        },
        r.1 == margin_spec(sides@),
{
    let n = sides.len();
    let mut fc: usize = 0;
    let mut best: i64 = 0;
    let mut best_idx: usize = 0;
    let mut second: i64 = 0;
    let mut second_idx: usize = 0;
    for i in 0..n
        invariant
            n == sides@.len(),
            fc == observed_vals(sides@.take(i as int)).len(),
            fc <= i,
            fc == 0 ==> forall|j: int| 0 <= j < i ==> (#[trigger] sides@[j]) is None,
            fc == 1 ==> forall|j: int|
                0 <= j < i && j != best_idx ==> (#[trigger] sides@[j]) is None,
            fc >= 1 ==> {
                &&& best_idx < i
                &&& sides@[best_idx as int] is Some
                &&& sides@[best_idx as int]->Some_0.observed_time == best
                &&& forall|j: int|
                    0 <= j < i && (#[trigger] sides@[j]) is Some
                        ==> sides@[j]->Some_0.observed_time >= best
            },
            fc == 1 ==> observed_vals(sides@.take(i as int)) =~= seq![best],
            fc >= 2 ==> {
                &&& (best, second) == two_smallest(observed_vals(sides@.take(i as int)))
                &&& best <= second
                &&& second_idx < i
                &&& second_idx != best_idx
                &&& sides@[second_idx as int] is Some
                &&& sides@[second_idx as int]->Some_0.observed_time == second
                &&& forall|j: int|
                    0 <= j < i && j != best_idx && (#[trigger] sides@[j]) is Some
                        ==> sides@[j]->Some_0.observed_time >= second
            },
    {
        proof {
            assert(sides@.take(i as int + 1).drop_last() =~= sides@.take(i as int));
            assert(sides@.take(i as int + 1).last() == sides@[i as int]);
        }
        match &sides[i] {
            Some(e) => {
                let x = e.observed_time;
                proof {
                    let vals = observed_vals(sides@.take(i as int));
                    assert(observed_vals(sides@.take(i as int + 1)) =~= vals.push(x));
                    if fc >= 2 {
                        assert(vals.push(x).drop_last() =~= vals);
                    }
                }
                if fc == 0 {
                    best = x;
                    best_idx = i;
                    fc = 1;
                } else if fc == 1 {
                    if x < best {
                        second = best;
                        second_idx = best_idx;
                        best = x;
                        best_idx = i;
                    } else {
                        second = x;
                        second_idx = i;
                    }
                    fc = 2;
                } else {
                    if x < best {
                        second = best;
                        second_idx = best_idx;
                        best = x;
                        best_idx = i;
                    } else if x < second {
                        second = x;
                        second_idx = i;
                    }
                    fc = fc + 1;
                }
            },
            None => {},
        }
    }
    proof {
        assert(sides@.take(n as int) =~= sides@);
    }
    let margin: Option<i64> = if fc >= 2 {
        Some(crate::event::clip_i128_to_i64(second as i128 - best as i128))
    } else {
        None
    };
    let widx: Option<usize> = if fc >= 2 && best < second {
        proof {
            assert(is_strict_winner(sides@, best_idx as int));
            let k = choose|i: int| is_strict_winner(sides@, i);
            lemma_strict_winner_unique(sides@, k, best_idx as int);
        }
        Some(best_idx)
    } else {
        proof {
            if exists|i: int| is_strict_winner(sides@, i) {
                let k = choose|i: int| is_strict_winner(sides@, i);
                assert(is_strict_winner(sides@, k));
                if k == best_idx as int {
                    assert(sides@[second_idx as int]->Some_0.observed_time
                        > sides@[k]->Some_0.observed_time);
                    assert(false);
                } else {
                    assert(sides@[best_idx as int]->Some_0.observed_time
                        > sides@[k]->Some_0.observed_time);
                    assert(sides@[k]->Some_0.observed_time >= best);
                    assert(false);
                }
            }
        }
        None
    };
    (widx, margin)
}

} // verus!

//! The latency statistics aggregator: retains plausible latency samples in
//! arrival order and computes summary statistics — minimum, maximum, mean
//! and nearest-rank percentiles over the sorted retained set — on demand.
//!
//! Implausible samples (negative, or at or above the configured ceiling) are
//! discarded and counted, never clamped.  Percentile `p` of `n` samples is
//! `sorted[p * (n - 1) / 100]` with integer division: a clamped nearest-rank
//! definition that cannot index out of bounds.  Every statistic is a fixed
//! function of the retained sample sequence, so two runs fed the identical
//! ordered samples produce identical summaries.

use vstd::arithmetic::div_mod::lemma_div_is_ordered;
use vstd::arithmetic::div_mod::lemma_div_multiples_vanish;
use vstd::arithmetic::mul::lemma_mul_upper_bound;
use vstd::prelude::*;
use vstd::relations::sorted_by;
use vstd::relations::total_ordering;
use vstd::seq_lib::lemma_sorted_unique;
use vstd::seq_lib::to_multiset_insert;

use crate::event::ConfigError;

verus! {

// ---------------------------------------------------------------------------
// Mathematical model
// ---------------------------------------------------------------------------
/// The ordering the aggregator sorts samples by.
pub open spec fn leq64() -> spec_fn(i64, i64) -> bool {
    |x: i64, y: i64| x <= y
}

/// The retained samples in ascending order.
pub open spec fn sorted_of(s: Seq<i64>) -> Seq<i64> {
    s.sort_by(leq64())
}

/// The sum of a sample sequence.
pub open spec fn sum_of(s: Seq<i64>) -> int
    decreases s.len(),
{
    if s.len() == 0 {
        0
    } else {
        sum_of(s.drop_last()) + s.last()
    }
}

/// How many samples lie strictly below a threshold.
pub open spec fn count_below(s: Seq<i64>, t: i64) -> int
    decreases s.len(),
{
    if s.len() == 0 {
        0
    } else {
        count_below(s.drop_last(), t) + if s.last() < t {
            1int
        } else {
            0int
        }
    }
}

/// The index of the nearest-rank percentile `p` in a sorted sequence of
/// length `n`: `p * (n - 1) / 100`, which never reaches `n`.
pub open spec fn rank_index(p: int, n: int) -> int {
    p * (n - 1) / 100
}

/// Integer division that truncates toward zero, as the machine division of
/// signed values does.
pub open spec fn div_trunc(a: int, b: int) -> int {
    if a >= 0 {
        a / b
    } else {
        -((-a) / b)
    }
}

/// A sample sum is bounded by the length times the sample bounds.
pub proof fn lemma_sum_of_i64_bounds(s: Seq<i64>)
    ensures
        (s.len() as int) * (i64::MIN as int) <= sum_of(s) <= (s.len() as int) * (i64::MAX as int),
    decreases s.len(),
{
    if s.len() == 0 {
    } else {
        lemma_sum_of_i64_bounds(s.drop_last());
        assert((s.len() - 1) * (i64::MIN as int) + (i64::MIN as int) == (s.len() as int) * (
        i64::MIN as int)) by (nonlinear_arith);
        assert((s.len() - 1) * (i64::MAX as int) + (i64::MAX as int) == (s.len() as int) * (
        i64::MAX as int)) by (nonlinear_arith);
    }
}

/// A sample sum stays far inside the `i128` range.
pub proof fn lemma_sum_of_i128_range(s: Seq<i64>)
    requires
        s.len() <= usize::MAX,
    ensures
        (usize::MAX as int) * (i64::MIN as int) <= sum_of(s) <= (usize::MAX as int) * (
        i64::MAX as int),
{
    lemma_sum_of_i64_bounds(s);
    let n = s.len() as int;
    lemma_mul_upper_bound(n, usize::MAX as int, i64::MAX as int, i64::MAX as int);
    assert(n * (i64::MIN as int) >= (usize::MAX as int) * (i64::MIN as int)) by (nonlinear_arith)
        requires
            0 <= n <= usize::MAX as int,
    ;
}

/// The truncated mean of `i64` samples lies within the `i64` range.
pub proof fn lemma_avg_in_range(s: Seq<i64>)
    requires
        s.len() >= 1,
    ensures
        i64::MIN as int <= div_trunc(sum_of(s), s.len() as int) <= i64::MAX as int,
{
    let n = s.len() as int;
    let lo = i64::MIN as int;
    let hi = i64::MAX as int;
    let sum = sum_of(s);
    lemma_sum_of_i64_bounds(s);
    if sum >= 0 {
        lemma_div_is_ordered(sum, n * hi, n);
        lemma_div_multiples_vanish(hi, n);
        assert(n * hi == hi * n) by (nonlinear_arith);
        lemma_div_is_ordered(0, sum, n);
        assert(0int / n == 0) by (nonlinear_arith)
            requires
                n >= 1,
        ;
    } else {
        assert(-sum <= n * (-lo)) by (nonlinear_arith)
            requires
                sum >= n * lo,
        ;
        lemma_div_is_ordered(-sum, n * (-lo), n);
        lemma_div_multiples_vanish(-lo, n);
        assert(n * (-lo) == (-lo) * n) by (nonlinear_arith);
        lemma_div_is_ordered(0, -sum, n);
        assert(0int / n == 0) by (nonlinear_arith)
            requires
                n >= 1,
        ;
    }
}

pub proof fn lemma_count_below_bounds(s: Seq<i64>, t: i64)
    ensures
        0 <= count_below(s, t) <= s.len(),
    decreases s.len(),
{
    if s.len() > 0 {
        lemma_count_below_bounds(s.drop_last(), t);
    }
}

// ---------------------------------------------------------------------------
// Sorting
// ---------------------------------------------------------------------------
/// Copies the samples into ascending order by insertion sort.
fn sorted_copy(v: &Vec<i64>) -> (r: Vec<i64>)
    ensures
        r@ == sorted_of(v@),
        r@.len() == v@.len(),
{
    broadcast use vstd::seq_lib::group_to_multiset_ensures;

    let mut r: Vec<i64> = Vec::new();
    let n = v.len();
    proof {
        assert(Seq::<i64>::empty().to_multiset() =~= v@.take(0).to_multiset());
    }
    for i in 0..n
        invariant
            n == v@.len(),
            sorted_by(r@, leq64()),
            r@.to_multiset() == v@.take(i as int).to_multiset(),
            r@.len() == i,
    {
        let x = v[i];
        let mut pos: usize = 0;
        while pos < r.len() && r[pos] <= x
            invariant
                0 <= pos <= r@.len(),
                forall|a: int| 0 <= a < pos ==> #[trigger] r@[a] <= x,
            decreases r@.len() - pos,
        {
            pos = pos + 1;
        }
        let ghost r0 = r@;
        r.insert(pos, x);
        proof {
            assert(v@.take(i as int + 1).drop_last() =~= v@.take(i as int));
            to_multiset_insert(v@.take(i as int), v@.take(i as int).len() as int, x);
            assert(v@.take(i as int).insert(v@.take(i as int).len() as int, x) =~= v@.take(
                i as int + 1,
            ));
            to_multiset_insert(r0, pos as int, x);
            assert forall|a: int, b: int| 0 <= a < b < r@.len() implies leq64()(r@[a], r@[b]) by {
                if b < pos {
                    assert(r@[a] == r0[a] && r@[b] == r0[b]);
                } else if a > pos {
                    assert(r@[a] == r0[a - 1] && r@[b] == r0[b - 1]);
                } else if a == pos {
                    assert(r@[a] == x && r@[b] == r0[b - 1]);
                    assert(pos < r0.len() && !(r0[pos as int] <= x));
                    assert(leq64()(r0[pos as int], r0[b - 1]) || pos as int == b - 1);
                } else if b == pos {
                    assert(r@[a] == r0[a] && r@[b] == x);
                } else {
                    assert(a < pos && b > pos);
                    assert(r@[a] == r0[a] && r@[b] == r0[b - 1]);
                    if pos < r0.len() {
                        assert(leq64()(r0[a], r0[b - 1]) || a == b - 1);
                    }
                }
            }
        }
    }
    proof {
        assert(v@.take(n as int) =~= v@);
        v@.lemma_sort_by_ensures(leq64());
        assert(total_ordering(leq64()));
        lemma_sorted_unique(r@, sorted_of(v@), leq64());
    }
    r
}

// ---------------------------------------------------------------------------
// Statistics
// ---------------------------------------------------------------------------
/// A deterministic statistical summary of one retained sample set.  The mean
/// is reported as the exact sum together with a truncated integer quotient,
/// so no statistic depends on floating-point evaluation.
pub struct SummaryStats {
    /// How many samples the statistics cover.
    pub count: usize,
    /// The exact sum of the covered samples.
    pub sum_ms: i128,
    /// The mean, truncated toward zero; zero when no samples are covered.
    pub avg_ms: i64,
    /// The smallest sample; zero when no samples are covered.
    pub min_ms: i64,
    /// The largest sample; zero when no samples are covered.
    pub max_ms: i64,
    /// Nearest-rank percentiles of the sorted samples; zero when no samples
    /// are covered.
    pub p50_ms: i64,
    pub p90_ms: i64,
    pub p95_ms: i64,
    pub p99_ms: i64,
    /// For each configured threshold, how many covered samples lie strictly
    /// below it.
    pub bucket_counts: Vec<usize>,
    /// How many submitted samples were discarded as implausible.
    pub filtered_out: u64,
}

/// What a summary must say about a sample sequence.
pub open spec fn summary_matches(
    st: SummaryStats,
    s: Seq<i64>,
    thresholds: Seq<i64>,
    filtered_out: u64,
) -> bool {
    &&& st.count == s.len()
    &&& st.sum_ms == sum_of(s)
    &&& st.filtered_out == filtered_out
    &&& st.bucket_counts@.len() == thresholds.len()
    &&& forall|i: int|
        0 <= i < thresholds.len() ==> #[trigger] st.bucket_counts@[i] == count_below(
            s,
            thresholds[i],
        )
    &&& s.len() == 0 ==> st.avg_ms == 0 && st.min_ms == 0 && st.max_ms == 0 && st.p50_ms == 0
        && st.p90_ms == 0 && st.p95_ms == 0 && st.p99_ms == 0
    &&& s.len() > 0 ==> {
        &&& st.avg_ms == div_trunc(sum_of(s), s.len() as int)
        &&& st.min_ms == sorted_of(s)[0]
        &&& st.max_ms == sorted_of(s)[s.len() - 1]
        &&& st.p50_ms == sorted_of(s)[rank_index(50, s.len() as int)]
        &&& st.p90_ms == sorted_of(s)[rank_index(90, s.len() as int)]
        &&& st.p95_ms == sorted_of(s)[rank_index(95, s.len() as int)]
        &&& st.p99_ms == sorted_of(s)[rank_index(99, s.len() as int)]
    }
}

/// Determinism: `summary_matches` pins every field of a summary, so two
/// summaries of the same retained samples, thresholds and filtered count —
/// for example from two runs fed the identical ordered sample sequence —
/// agree in every statistic.
pub proof fn lemma_summary_deterministic(
    st1: SummaryStats,
    st2: SummaryStats,
    s: Seq<i64>,
    thresholds: Seq<i64>,
    filtered_out: u64,
)
    requires
        summary_matches(st1, s, thresholds, filtered_out),
        summary_matches(st2, s, thresholds, filtered_out),
    ensures
        st1.count == st2.count,
        st1.sum_ms == st2.sum_ms,
        st1.avg_ms == st2.avg_ms,
        st1.min_ms == st2.min_ms,
        st1.max_ms == st2.max_ms,
        st1.p50_ms == st2.p50_ms,
        st1.p90_ms == st2.p90_ms,
        st1.p95_ms == st2.p95_ms,
        st1.p99_ms == st2.p99_ms,
        st1.bucket_counts@ == st2.bucket_counts@,
        st1.filtered_out == st2.filtered_out,
{
    assert(st1.bucket_counts@ =~= st2.bucket_counts@);
}

/// Reads the nearest-rank percentile `p` out of a sorted sample sequence.
fn percentile(sorted: &Vec<i64>, p: u64) -> (r: i64)
    requires
        sorted@.len() >= 1,
        p <= 100,
    ensures
        r == sorted@[rank_index(p as int, sorted@.len() as int)],
{
    let n = sorted.len();
    proof {
        lemma_mul_upper_bound(p as int, 100, (n - 1) as int, (n - 1) as int);
        assert(rank_index(p as int, n as int) <= 100 * (n - 1) / 100);
        assert(100 * (n - 1) / 100 == n - 1) by (nonlinear_arith);
        assert(rank_index(p as int, n as int) >= 0) by (nonlinear_arith)
            requires
                p >= 0,
                n >= 1,
        ;
    }
    let idx = ((p as u128) * ((n - 1) as u128) / 100) as usize;
    sorted[idx]
}

fn count_below_exec(v: &Vec<i64>, t: i64) -> (r: usize)
    ensures
        r == count_below(v@, t),
{
    proof {
        lemma_count_below_bounds(v@, t);
    }
    let n = v.len();
    let mut c: usize = 0;
    for i in 0..n
        invariant
            n == v@.len(),
            c == count_below(v@.take(i as int), t),
            c <= i,
    {
        proof {
            assert(v@.take(i as int + 1).drop_last() =~= v@.take(i as int));
        }
        if v[i] < t {
            c = c + 1;
        }
    }
    proof {
        assert(v@.take(n as int) =~= v@);
    }
    c
}

/// Computes the deterministic summary of a sample set: the same values in
/// the same order always give the same summary.
pub fn summarize(values: &Vec<i64>, thresholds: &Vec<i64>, filtered_out: u64) -> (st: SummaryStats)
    ensures
        summary_matches(st, values@, thresholds@, filtered_out),
{
    let n = values.len();
    let mut sum: i128 = 0;
    for i in 0..n
        invariant
            n == values@.len(),
            sum == sum_of(values@.take(i as int)),
    {
        proof {
            assert(values@.take(i as int + 1).drop_last() =~= values@.take(i as int));
            lemma_sum_of_i128_range(values@.take(i as int));
        }
        sum = sum + values[i] as i128;
    }
    proof {
        assert(values@.take(n as int) =~= values@);
    }
    let mut bucket_counts: Vec<usize> = Vec::new();
    let tn = thresholds.len();
    for i in 0..tn
        invariant
            tn == thresholds@.len(),
            bucket_counts@.len() == i,
            forall|a: int|
                0 <= a < i ==> #[trigger] bucket_counts@[a] == count_below(
                    values@,
                    thresholds@[a],
                ),
    {
        let c = count_below_exec(values, thresholds[i]);
        bucket_counts.push(c);
    }
    if n == 0 {
        return SummaryStats {
            count: 0,
            sum_ms: sum,
            avg_ms: 0,
            min_ms: 0,
            max_ms: 0,
            p50_ms: 0,
            p90_ms: 0,
            p95_ms: 0,
            p99_ms: 0,
            bucket_counts,
            filtered_out,
        };
    }
    let sorted = sorted_copy(values);
    proof {
        lemma_avg_in_range(values@);
    }
    let avg = (sum / (n as i128)) as i64;
    SummaryStats {
        count: n,
        sum_ms: sum,
        avg_ms: avg,
        min_ms: sorted[0],
        max_ms: sorted[n - 1],
        p50_ms: percentile(&sorted, 50),
        p90_ms: percentile(&sorted, 90),
        p95_ms: percentile(&sorted, 95),
        p99_ms: percentile(&sorted, 99),
        bucket_counts,
        filtered_out,
    }
}

// ---------------------------------------------------------------------------
// The aggregator
// ---------------------------------------------------------------------------
/// Accepts a stream of latency samples and produces summary snapshots.  The
/// running sum and count support a cheap running average between snapshots;
/// sorting happens only inside `snapshot`.
pub struct Aggregator {
    /// Samples at or above this ceiling (or below zero) are implausible.
    pub max_plausible_ms: i64,
    /// Bucket thresholds the snapshot counts samples under.
    pub thresholds: Vec<i64>,
    /// The retained plausible samples, in arrival order.
    pub samples: Vec<i64>,
    /// Running sum of the retained samples.
    pub sum: i128,
    /// How many samples were discarded as implausible.
    pub filtered_out: u64,
}

impl Aggregator {
    /// The aggregator invariant: a positive plausibility ceiling, every
    /// retained sample plausible, and the running sum exact.
    pub open spec fn wf(&self) -> bool {
        &&& self.max_plausible_ms > 0
        &&& self.sum == sum_of(self.samples@)
        &&& forall|i: int|
            0 <= i < self.samples@.len() ==> 0 <= #[trigger] self.samples@[i]
                < self.max_plausible_ms
    }

    /// Builds an aggregator.  A non-positive plausibility ceiling is a
    /// configuration error, fatal at construction.
    pub fn new(max_plausible_ms: i64, thresholds: Vec<i64>) -> (r: Result<Aggregator, ConfigError>)
        ensures
            match r {
                Ok(a) => {
                    &&& max_plausible_ms > 0
                    &&& a.wf()
                    &&& a.max_plausible_ms == max_plausible_ms
                    &&& a.thresholds@ == thresholds@
                    &&& a.samples@ == Seq::<i64>::empty()
                    &&& a.filtered_out == 0
                },
                Err(e) => e is NonPositiveMaxPlausible && max_plausible_ms <= 0,
            },
    {
        if max_plausible_ms <= 0 {
            return Err(ConfigError::NonPositiveMaxPlausible);
        }
        Ok(
            Aggregator {
                max_plausible_ms,
                thresholds,
                samples: Vec::new(),
                sum: 0,
                filtered_out: 0,
            },
        )
    }

    /// Records one sample value.  A plausible value (at least zero and below
    /// the ceiling) is appended to the retained set; an implausible one is
    /// discarded and counted, never clamped.  Returns whether the sample was
    /// accepted.
    pub fn record(&mut self, value_ms: i64) -> (accepted: bool)
        requires
            old(self).wf(),
        ensures
            final(self).wf(),
            accepted == (0 <= value_ms < old(self).max_plausible_ms),
            final(self).max_plausible_ms == old(self).max_plausible_ms,
            final(self).thresholds@ == old(self).thresholds@,
            accepted ==> final(self).samples@ == old(self).samples@.push(value_ms)
                && final(self).filtered_out == old(self).filtered_out,
            !accepted ==> final(self).samples@ == old(self).samples@ && final(self).filtered_out
                == crate::event::bump(old(self).filtered_out),
    {
        if 0 <= value_ms && value_ms < self.max_plausible_ms {
            let len = self.samples.len();
            proof {
                assert(self.samples@.len() == len);
                lemma_sum_of_i128_range(self.samples@);
                assert(self.samples@.push(value_ms).drop_last() =~= self.samples@);
            }
            self.sum = self.sum + value_ms as i128;
            self.samples.push(value_ms);
            true
        } else {
            if self.filtered_out < u64::MAX {
                self.filtered_out = self.filtered_out + 1;
            }
            false
        }
    }

    /// The running average of the retained samples, without sorting; absent
    /// while no sample is retained.
    pub fn running_avg_ms(&self) -> (r: Option<i64>)
        requires
            self.wf(),
        ensures
            match r {
                Some(a) => self.samples@.len() > 0 && a == div_trunc(
                    sum_of(self.samples@),
                    self.samples@.len() as int,
                ),
                None => self.samples@.len() == 0,
            },
    {
        let n = self.samples.len();
        if n == 0 {
            return None;
        }
        proof {
            lemma_sum_of_i128_range(self.samples@);
            lemma_avg_in_range(self.samples@);
        }
        Some((self.sum / (n as i128)) as i64)
    }

    /// Produces the statistical summary of the retained samples.  Every
    /// field is a fixed function of the retained sequence, the thresholds
    /// and the filtered count, so identical inputs give identical summaries.
    pub fn snapshot(&self) -> (st: SummaryStats)
        requires
            self.wf(),
        ensures
            summary_matches(st, self.samples@, self.thresholds@, self.filtered_out),
    {
        summarize(&self.samples, &self.thresholds, self.filtered_out)
    }
}

/// The per-sample status line of the latency measurement reports: how a
/// single block's propagation latency rates.
pub fn get_latency_status(latency_ms: i64) -> (r: &'static str)
    ensures
        latency_ms < 500 ==> r@ == "🟢 EXCELLENT"@,
        500 <= latency_ms < 1000 ==> r@ == "🟡 GOOD"@,
        1000 <= latency_ms < 2000 ==> r@ == "🟠 FAIR"@,
        2000 <= latency_ms ==> r@ == "🔴 SLOW"@,
{
    if latency_ms < 500 {
        "🟢 EXCELLENT"
    } else if latency_ms < 1000 {
        "🟡 GOOD"
    } else if latency_ms < 2000 {
        "🟠 FAIR"
    } else {
        "🔴 SLOW"
    }
}

} // verus!

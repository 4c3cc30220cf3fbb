//! Percentile statistics over picosecond samples.
//!
//! Samples are sorted and percentiles are obtained by linear interpolation.

pub mod exact;
pub mod hdr;
pub mod sample;
pub mod sort;
pub mod wide;

use vstd::prelude::*;

use crate::stats::exact::{
    is_isqrt, lemma_percentile_monotone, percentile_set_of, seq_sum, sq_dev_sum, ExactPercentiles,
};
use crate::stats::sort::{is_sorted, lemma_sorted_seq, sort_u128, sorted_seq};
use crate::text::{dec_digits, push_decimal, push_str};
use crate::time::FineDuration;

verus! {

broadcast use vstd::seq_lib::group_to_multiset_ensures;

/// The five standard percentile breakpoints.
#[derive(Clone, Copy, Debug, PartialEq, Eq, Structural)]
pub struct PercentileSet {
    /// 50th percentile (median).
    pub p50: FineDuration,
    /// 95th percentile.
    pub p95: FineDuration,
    /// 99th percentile.
    pub p99: FineDuration,
    /// 99.9th percentile.
    pub p99_9: FineDuration,
    /// 99.99th percentile.
    pub p99_99: FineDuration,
}

/// Complete percentile statistics for a benchmark run.
#[derive(Clone, Copy, Debug, PartialEq, Eq, Structural)]
pub struct PercentileStats {
    /// Number of samples collected.
    pub sample_count: u32,
    /// Total iterations across all samples.
    pub iter_count: u64,
    /// Minimum observed duration.
    pub min: FineDuration,
    /// Maximum observed duration.
    pub max: FineDuration,
    /// Arithmetic mean duration.
    pub mean: FineDuration,
    /// Population standard deviation.
    pub std_dev: FineDuration,
    /// Percentile breakpoints.
    pub percentiles: PercentileSet,
}

/// Sample count from which a run's samples go into a bounded-memory
/// [`hdr::HdrRecorder`] instead (its quantiles and moments are read on
/// floating point, outside this crate); [`PercentileStats::compute`] is
/// always exact.
pub const HDR_THRESHOLD: usize = 100_000;

/// The first element of the ascending arrangement of `s` is an element of
/// `s` and no larger than any; the last is an element and no smaller.
pub proof fn lemma_sorted_extremes(s: Seq<u128>)
    requires
        s.len() >= 1,
    ensures
        s.contains(sorted_seq(s)[0]),
        s.contains(sorted_seq(s)[s.len() - 1]),
        forall|i: int| 0 <= i < s.len() ==> sorted_seq(s)[0] <= #[trigger] s[i],
        forall|i: int| 0 <= i < s.len() ==> #[trigger] s[i] <= sorted_seq(s)[s.len() - 1],
{
    let t = sorted_seq(s);
    lemma_sorted_seq(s, t);
    assert(t.contains(t[0]));
    assert(t.contains(t[s.len() - 1]));
    assert(t.to_multiset().count(t[0]) > 0);
    assert(t.to_multiset().count(t[s.len() - 1]) > 0);
    assert forall|i: int| 0 <= i < s.len() implies t[0] <= #[trigger] s[i] && s[i] <= t[s.len() - 1] by {
        assert(s.contains(s[i]));
        assert(s.to_multiset().count(s[i]) > 0);
        assert(t.contains(s[i]));
        let k = choose|k: int| 0 <= k < t.len() && t[k] == s[i];
        assert(t[0] <= t[k]);
        assert(t[k] <= t[s.len() - 1]);
    }
}

/// The standard percentiles of any samples come in order and lie
/// between the smallest and the largest sample.
pub proof fn lemma_percentiles_ordered(samples: Seq<u128>)
    requires
        samples.len() >= 1,
    ensures
        ({
            let t = sorted_seq(samples);
            let p = percentile_set_of(t);
            &&& t[0] <= p.p50.picos
            &&& p.p50.picos <= p.p95.picos
            &&& p.p95.picos <= p.p99.picos
            &&& p.p99.picos <= p.p99_9.picos
            &&& p.p99_9.picos <= p.p99_99.picos
            &&& p.p99_99.picos <= t[samples.len() - 1]
        }),
{
    let t = sorted_seq(samples);
    lemma_sorted_seq(samples, t);
    lemma_percentile_monotone(t, 5000, 9500, 10000);
    lemma_percentile_monotone(t, 9500, 9900, 10000);
    lemma_percentile_monotone(t, 9900, 9990, 10000);
    lemma_percentile_monotone(t, 9990, 9999, 10000);
    lemma_percentile_monotone(t, 9999, 10000, 10000);
}

impl PercentileStats {
    /// Whether `sample_count` samples are summarised from a histogram
    /// rather than exactly: from [`HDR_THRESHOLD`] samples on.
    pub fn uses_histogram(sample_count: usize) -> (r: bool)
        ensures
            r == (sample_count >= HDR_THRESHOLD),
    {
        sample_count >= HDR_THRESHOLD
    }

    /// Statistics of per-iteration samples taken `sample_size` iterations
    /// at a time: count, total iterations, extremes, mean, population
    /// standard deviation and the five standard percentiles of the samples
    /// in ascending order. The order of `samples` does not matter.
    pub fn compute(samples: &[u128], sample_size: u32) -> (r: PercentileStats)
        requires
            samples@.len() >= 1,
            samples@.len() <= u32::MAX,
            sample_size >= 1,
            seq_sum(samples@) <= u128::MAX,
        ensures
            r.sample_count == samples@.len(),
            r.iter_count == samples@.len() * sample_size,
            r.min.picos == sorted_seq(samples@)[0],
            r.max.picos == sorted_seq(samples@)[samples@.len() - 1],
            samples@.contains(r.min.picos),
            samples@.contains(r.max.picos),
            forall|i: int| 0 <= i < samples@.len() ==> r.min.picos <= #[trigger] samples@[i] <= r.max.picos,
            r.mean.picos == seq_sum(samples@) / samples@.len(),
            is_isqrt(
                sq_dev_sum(samples@, seq_sum(samples@) / samples@.len()) / samples@.len(),
                r.std_dev.picos as nat,
            ),
            r.percentiles == percentile_set_of(sorted_seq(samples@)),
    {
        let n: usize = samples.len();
        let sorted: Vec<u128> = sort_u128(samples);
        proof {
            lemma_sorted_seq(samples@, sorted@);
            lemma_sorted_extremes(samples@);
        }
        let min: u128 = sorted[0];
        let max: u128 = sorted[n - 1];
        let mean: u128 = ExactPercentiles::compute_mean(samples);
        let std_dev: u128 = ExactPercentiles::compute_std_dev(samples);
        let percentiles: PercentileSet = ExactPercentiles::compute_percentile_set(sorted.as_slice());
        proof {
            assert((n as nat) * (sample_size as nat) <= u64::MAX) by (nonlinear_arith)
                requires
                    n <= u32::MAX,
                    sample_size <= u32::MAX,
            ;
        }
        PercentileStats {
            sample_count: n as u32,
            iter_count: (n as u64) * (sample_size as u64),
            min: FineDuration { picos: min },
            max: FineDuration { picos: max },
            mean: FineDuration { picos: mean },
            std_dev: FineDuration { picos: std_dev },
            percentiles,
        }
    }

    /// Warnings for percentiles that `collected` samples are too few to
    /// estimate, one per percentile in ascending order. A percentile at
    /// quantile `q` needs at least `1 / (1 - q)` samples. When fewer samples
    /// were collected than `requested`, the warning blames `max_time`;
    /// otherwise it advises a larger `sample_count`.
    pub fn check_sample_sufficiency(collected: u32, requested: u32) -> (r: Vec<String>)
        ensures
            r@.len() == sufficiency_warnings(collected as nat, requested as nat, 5).len(),
            forall|k: int|
                0 <= k < r@.len() ==> #[trigger] r@[k]@ == sufficiency_warnings(
                    collected as nat,
                    requested as nat,
                    5,
                )[k],
    {
        let mut r: Vec<String> = Vec::new();
        let mut i: usize = 0;
        while i < 5
            invariant
                i <= 5,
                r@.len() == sufficiency_warnings(collected as nat, requested as nat, i as nat).len(),
                forall|k: int|
                    0 <= k < r@.len() ==> #[trigger] r@[k]@ == sufficiency_warnings(
                        collected as nat,
                        requested as nat,
                        i as nat,
                    )[k],
            decreases 5 - i,
        {
            let needed: u32 = min_samples_for(i);
            if collected < needed {
                let msg: String = warning_message(i, collected, requested);
                r.push(msg);
            }
            i = i + 1;
        }
        r
    }
}

/// Label of the `i`-th standard percentile.
pub open spec fn percentile_label(i: nat) -> Seq<char> {
    if i == 0 {
        "p50"@
    } else if i == 1 {
        "p95"@
    } else if i == 2 {
        "p99"@
    } else if i == 3 {
        "p99.9"@
    } else {
        "p99.99"@
    }
}

/// Fewest samples that give the `i`-th standard percentile a sample of
/// its own: `1 / (1 - q)`.
pub open spec fn min_samples(i: nat) -> nat {
    if i == 0 {
        2
    } else if i == 1 {
        20
    } else if i == 2 {
        100
    } else if i == 3 {
        1000
    } else {
        10000
    }
}

/// Text of the warning for the `i`-th standard percentile.
pub open spec fn warning_text(i: nat, collected: nat, requested: nat) -> Seq<char> {
    if collected < requested {
        percentile_label(i) + ": only "@ + dec_digits(collected) + " of "@ + dec_digits(requested)
            + " requested samples were collected before max_time; at least "@ + dec_digits(
            min_samples(i),
        ) + " are needed (increase max_time)"@
    } else {
        percentile_label(i) + ": "@ + dec_digits(collected) + " samples are fewer than the "@
            + dec_digits(min_samples(i)) + " needed (increase sample_count)"@
    }
}

/// The warnings for the first `k` standard percentiles, in order.
pub open spec fn sufficiency_warnings(collected: nat, requested: nat, k: nat) -> Seq<Seq<char>>
    decreases k,
{
    if k == 0 {
        seq![]
    } else {
        let prev = sufficiency_warnings(collected, requested, (k - 1) as nat);
        if collected < min_samples((k - 1) as nat) {
            prev.push(warning_text((k - 1) as nat, collected, requested))
        } else {
            prev
        }
    }
}

/// Fewest samples for the `i`-th standard percentile.
fn min_samples_for(i: usize) -> (r: u32)
    requires
        i < 5,
    ensures
        r == min_samples(i as nat),
{
    if i == 0 {
        2
    } else if i == 1 {
        20
    } else if i == 2 {
        100
    } else if i == 3 {
        1000
    } else {
        10000
    }
}

/// Label of the `i`-th standard percentile.
fn label_for(i: usize) -> (r: &'static str)
    requires
        i < 5,
    ensures
        r@ == percentile_label(i as nat),
{
    if i == 0 {
        "p50"
    } else if i == 1 {
        "p95"
    } else if i == 2 {
        "p99"
    } else if i == 3 {
        "p99.9"
    } else {
        "p99.99"
    }
}

/// Builds the warning for the `i`-th standard percentile.
fn warning_message(i: usize, collected: u32, requested: u32) -> (r: String)
    requires
        i < 5,
    ensures
        r@ == warning_text(i as nat, collected as nat, requested as nat),
{
    let mut s: String = String::new();
    let needed: u32 = min_samples_for(i);
    push_str(&mut s, label_for(i));
    if collected < requested {
        push_str(&mut s, ": only ");
        push_decimal(&mut s, collected as u128);
        push_str(&mut s, " of ");
        push_decimal(&mut s, requested as u128);
        push_str(&mut s, " requested samples were collected before max_time; at least ");
        push_decimal(&mut s, needed as u128);
        push_str(&mut s, " are needed (increase max_time)");
    } else {
        push_str(&mut s, ": ");
        push_decimal(&mut s, collected as u128);
        push_str(&mut s, " samples are fewer than the ");
        push_decimal(&mut s, needed as u128);
        push_str(&mut s, " needed (increase sample_count)");
    }
    proof {
        assert(s@ =~= warning_text(i as nat, collected as nat, requested as nat));
    }
    s
}

} // verus!

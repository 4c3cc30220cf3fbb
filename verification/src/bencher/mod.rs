//! Decisions of the two-phase sampling loop: adaptive tuning of the
//! sample size, per-iteration durations, stop conditions of the
//! collection phase and the split of samples over threads.
//!
//! The caller runs the timed benchmark body and reads the clocks; each
//! function here turns what was measured into the next step.

use vstd::prelude::*;

use crate::stats::sample::{RawSample, SampleCollection};
use crate::time::FineDuration;

verus! {

/// A sample must last at least this many timer precisions.
pub const PRECISION_MULTIPLIER: u128 = 100;

/// Tuning stops doubling once the sample size reaches this value.
pub const MAX_TUNED_SAMPLE_SIZE: u32 = 1_000_000;

/// What tuning does after one timed sample.
#[derive(Clone, Copy, Debug, PartialEq, Eq, Structural)]
pub enum TuneStep {
    /// Tuning is over; use this sample size.
    Done(u32),
    /// Time another sample of this size.
    Again(u32),
}

/// `a * b`, capped at `u128::MAX`.
pub open spec fn saturating_mul_u128(a: u128, b: u128) -> u128 {
    if a * b > u128::MAX {
        u128::MAX
    } else {
        (a * b) as u128
    }
}

/// The tuning step after a sample of `sample_size` iterations took
/// `elapsed`, with `tune_elapsed` of wall-clock time spent tuning so far.
pub open spec fn tune_step_of(
    sample_size: u32,
    elapsed: u128,
    threshold: u128,
    tune_elapsed: u128,
    max_tune_time: u128,
) -> TuneStep {
    if elapsed >= threshold {
        TuneStep::Done(sample_size)
    } else {
        let doubled: u32 = if sample_size * 2 > u32::MAX {
            u32::MAX
        } else {
            (sample_size * 2) as u32
        };
        let next: u32 = if doubled < 1 { 1 } else { doubled };
        if next >= MAX_TUNED_SAMPLE_SIZE || tune_elapsed >= max_tune_time {
            TuneStep::Done(next)
        } else {
            TuneStep::Again(next)
        }
    }
}

/// The per-iteration duration of a sample: its raw duration divided by
/// the iteration count, less the per-iteration loop overhead, and zero
/// when the overhead is larger.
pub open spec fn per_iteration_of(raw: u128, sample_size: u32, overhead: u128) -> u128 {
    let d = raw / (sample_size as u128);
    if overhead <= d {
        (d - overhead) as u128
    } else {
        0
    }
}

/// The sample recorded for a raw duration.
pub open spec fn sample_of(raw: FineDuration, sample_size: u32, overhead: FineDuration) -> RawSample {
    RawSample {
        duration: FineDuration { picos: per_iteration_of(raw.picos, sample_size, overhead.picos) },
        sample_size,
    }
}

/// The largest of the durations (zero for none).
pub open spec fn slowest_of(rs: Seq<FineDuration>) -> u128
    decreases rs.len(),
{
    if rs.len() == 0 {
        0
    } else {
        let rest = slowest_of(rs.drop_last());
        if rs.last().picos > rest {
            rs.last().picos
        } else {
            rest
        }
    }
}

/// The slowest of a round's durations is at least each of them and is
/// one of them (zero for an empty round).
pub proof fn lemma_slowest_is_max(rs: Seq<FineDuration>)
    ensures
        forall|i: int| 0 <= i < rs.len() ==> (#[trigger] rs[i]).picos <= slowest_of(rs),
        rs.len() > 0 ==> exists|i: int| 0 <= i < rs.len() && (#[trigger] rs[i]).picos == slowest_of(rs),
        rs.len() == 0 ==> slowest_of(rs) == 0,
    decreases rs.len(),
{
    if rs.len() > 0 {
        let init = rs.drop_last();
        lemma_slowest_is_max(init);
        assert forall|i: int| 0 <= i < rs.len() implies (#[trigger] rs[i]).picos <= slowest_of(rs) by {
            if i < rs.len() - 1 {
                assert(rs[i] == init[i]);
            }
        }
        if rs.last().picos > slowest_of(init) || init.len() == 0 {
            assert(rs[rs.len() - 1].picos == slowest_of(rs));
        } else {
            let j = choose|j: int| 0 <= j < init.len() && (#[trigger] init[j]).picos == slowest_of(init);
            assert(rs[j] == init[j]);
        }
    }
}

/// Helpers of the sampling loop.
pub struct SamplingLoop;

impl SamplingLoop {
    /// The sample duration that ends tuning: the timer precision times
    /// [`PRECISION_MULTIPLIER`], saturating.
    pub fn tuning_threshold(precision: FineDuration) -> (r: u128)
        ensures
            r == saturating_mul_u128(precision.picos, PRECISION_MULTIPLIER),
    {
        if precision.picos > u128::MAX / PRECISION_MULTIPLIER {
            u128::MAX
        } else {
            precision.picos * PRECISION_MULTIPLIER
        }
    }

    /// One step of adaptive tuning: stop once a sample lasts the
    /// threshold; otherwise double the sample size (saturating, at least
    /// one) and stop when that reaches [`MAX_TUNED_SAMPLE_SIZE`] or tuning
    /// has used up its wall-clock budget.
    pub fn tune_step(
        sample_size: u32,
        elapsed: FineDuration,
        threshold: u128,
        tune_elapsed: FineDuration,
        max_tune_time: FineDuration,
    ) -> (r: TuneStep)
        ensures
            r == tune_step_of(
                sample_size,
                elapsed.picos,
                threshold,
                tune_elapsed.picos,
                max_tune_time.picos,
            ),
    {
        if elapsed.picos >= threshold {
            return TuneStep::Done(sample_size);
        }
        let doubled: u32 = if sample_size > u32::MAX / 2 {
            u32::MAX
        } else {
            sample_size * 2
        };
        let next: u32 = if doubled < 1 { 1 } else { doubled };
        if next >= MAX_TUNED_SAMPLE_SIZE || tune_elapsed.picos >= max_tune_time.picos {
            TuneStep::Done(next)
        } else {
            TuneStep::Again(next)
        }
    }

    /// The sample size given by the options, raised to at least one; with
    /// none given, tuning decides.
    pub fn fixed_sample_size(configured: Option<u32>) -> (r: Option<u32>)
        ensures
            match configured {
                Some(n) => r == Some(if n < 1 { 1u32 } else { n }),
                None => r is None,
            },
    {
        match configured {
            Some(n) => Some(if n < 1 { 1 } else { n }),
            None => None,
        }
    }

    /// The per-iteration duration of a sample of `sample_size` iterations.
    pub fn per_iteration(raw: FineDuration, sample_size: u32, overhead: FineDuration) -> (r:
        FineDuration)
        requires
            sample_size > 0,
        ensures
            r.picos == per_iteration_of(raw.picos, sample_size, overhead.picos),
    {
        let d: FineDuration = raw.div_u64(sample_size as u64);
        match d.checked_sub(overhead) {
            Some(x) => x,
            None => FineDuration::zero(),
        }
    }

    /// Number of rounds in which `thread_count` threads take at least
    /// `sample_count` samples together: the quotient rounded up.
    pub fn round_count(sample_count: u32, thread_count: u32) -> (r: u32)
        requires
            thread_count > 0,
        ensures
            r * thread_count >= sample_count,
            r == 0 || (r - 1) * thread_count < sample_count,
            r == (sample_count + thread_count - 1) / (thread_count as int),
    {
        let q: u32 = sample_count / thread_count;
        let r: u32 = if sample_count % thread_count == 0 {
            q
        } else {
            assert(q < u32::MAX) by (nonlinear_arith)
                requires
                    thread_count > 0,
                    q == sample_count / thread_count,
                    sample_count % thread_count != 0,
                    sample_count <= u32::MAX,
            ;
            q + 1
        };
        assert(r * thread_count >= sample_count && (r == 0 || (r - 1) * thread_count < sample_count)
            && r == (sample_count + thread_count - 1) / (thread_count as int)) by (nonlinear_arith)
            requires
                thread_count > 0,
                q == sample_count / thread_count,
                r == if sample_count % thread_count == 0 { q as int } else { q + 1 },
        ;
        r
    }

    /// Records one round of per-thread results: each raw duration becomes
    /// a sample, and the elapsed total grows by the slowest thread's
    /// duration when external time is skipped, by the round's wall-clock
    /// time otherwise.
    pub fn push_results_and_track_elapsed(
        results: &[FineDuration],
        samples: &mut SampleCollection,
        sample_size: u32,
        overhead_per_iter: FineDuration,
        wall_elapsed: FineDuration,
        skip_ext_time: bool,
        elapsed_total: &mut FineDuration,
    )
        requires
            sample_size > 0,
            old(elapsed_total).picos + (if skip_ext_time {
                slowest_of(results@)
            } else {
                wall_elapsed.picos
            }) <= u128::MAX,
        ensures
            final(samples)@ == old(samples)@ + results@.map_values(
                |r: FineDuration| sample_of(r, sample_size, overhead_per_iter),
            ),
            final(elapsed_total).picos == old(elapsed_total).picos + (if skip_ext_time {
                slowest_of(results@)
            } else {
                wall_elapsed.picos
            }),
    {
        let ghost start = samples@;
        let mut slowest: FineDuration = FineDuration::zero();
        let mut i: usize = 0;
        while i < results.len()
            invariant
                sample_size > 0,
                i <= results@.len(),
                samples@ == start + results@.take(i as int).map_values(
                    |r: FineDuration| sample_of(r, sample_size, overhead_per_iter),
                ),
                slowest.picos == slowest_of(results@.take(i as int)),
            decreases results@.len() - i,
        {
            let raw: FineDuration = results[i];
            let per_iter: FineDuration = Self::per_iteration(raw, sample_size, overhead_per_iter);
            samples.push(RawSample { duration: per_iter, sample_size });
            if raw.picos > slowest.picos {
                slowest = raw;
            }
            proof {
                let t = results@.take(i + 1);
                assert(t.drop_last() =~= results@.take(i as int));
                assert(t.last() == raw);
                assert(t.map_values(|r: FineDuration| sample_of(r, sample_size, overhead_per_iter))
                    =~= results@.take(i as int).map_values(
                    |r: FineDuration| sample_of(r, sample_size, overhead_per_iter),
                ).push(sample_of(raw, sample_size, overhead_per_iter)));
            }
            i = i + 1;
        }
        assert(results@.take(results@.len() as int) =~= results@);
        if skip_ext_time {
            elapsed_total.add_assign(slowest);
        } else {
            elapsed_total.add_assign(wall_elapsed);
        }
    }
}

/// The state of the collection phase.
pub struct CollectState {
    /// Samples collected so far.
    pub samples: SampleCollection,
    /// Time counted against the limits so far.
    pub elapsed_total: FineDuration,
    /// Samples (or rounds) still wanted.
    pub remaining: u32,
}

/// Whether the collection phase goes on: never once `elapsed` reaches
/// `max_time`; otherwise while samples are still wanted or `elapsed` is
/// below `min_time`.
pub open spec fn keeps_collecting(elapsed: u128, remaining: u32, min_time: u128, max_time: u128) -> bool {
    !(elapsed >= max_time) && !(remaining == 0 && elapsed >= min_time)
}

impl CollectState {
    /// The state before the first sample.
    pub fn new(wanted: u32) -> (r: Self)
        ensures
            r.samples@ == Seq::<RawSample>::empty(),
            r.elapsed_total.picos == 0,
            r.remaining == wanted,
    {
        CollectState {
            samples: SampleCollection::new(),
            elapsed_total: FineDuration::zero(),
            remaining: wanted,
        }
    }

    /// Whether another sample (or round) is taken.
    pub fn should_continue(&self, min_time: FineDuration, max_time: FineDuration) -> (r: bool)
        ensures
            r == keeps_collecting(
                self.elapsed_total.picos,
                self.remaining,
                min_time.picos,
                max_time.picos,
            ),
    {
        if self.elapsed_total.picos >= max_time.picos {
            return false;
        }
        !(self.remaining == 0 && self.elapsed_total.picos >= min_time.picos)
    }

    /// Records one single-threaded sample: its per-iteration duration is
    /// kept, one fewer sample is wanted, and the elapsed total grows by
    /// the raw duration when external time is skipped, by the wall-clock
    /// time otherwise.
    pub fn record_sample(
        &mut self,
        raw: FineDuration,
        wall_elapsed: FineDuration,
        sample_size: u32,
        overhead_per_iter: FineDuration,
        skip_ext_time: bool,
    )
        requires
            sample_size > 0,
            old(self).elapsed_total.picos + (if skip_ext_time {
                raw.picos
            } else {
                wall_elapsed.picos
            }) <= u128::MAX,
        ensures
            final(self).samples@ == old(self).samples@.push(
                sample_of(raw, sample_size, overhead_per_iter),
            ),
            final(self).remaining == if old(self).remaining == 0 {
                0
            } else {
                (old(self).remaining - 1) as u32
            },
            final(self).elapsed_total.picos == old(self).elapsed_total.picos + (if skip_ext_time {
                raw.picos
            } else {
                wall_elapsed.picos
            }),
    {
        let per_iter: FineDuration = SamplingLoop::per_iteration(raw, sample_size, overhead_per_iter);
        self.samples.push(RawSample { duration: per_iter, sample_size });
        self.remaining = if self.remaining == 0 { 0 } else { self.remaining - 1 };
        if skip_ext_time {
            self.elapsed_total.add_assign(raw);
        } else {
            self.elapsed_total.add_assign(wall_elapsed);
        }
    }

    /// Records one round of per-thread results (see
    /// [`SamplingLoop::push_results_and_track_elapsed`]); one fewer round
    /// is wanted.
    pub fn record_round(
        &mut self,
        results: &[FineDuration],
        wall_elapsed: FineDuration,
        sample_size: u32,
        overhead_per_iter: FineDuration,
        skip_ext_time: bool,
    )
        requires
            sample_size > 0,
            old(self).elapsed_total.picos + (if skip_ext_time {
                slowest_of(results@)
            } else {
                wall_elapsed.picos
            }) <= u128::MAX,
        ensures
            final(self).samples@ == old(self).samples@ + results@.map_values(
                |r: FineDuration| sample_of(r, sample_size, overhead_per_iter),
            ),
            final(self).remaining == if old(self).remaining == 0 {
                0
            } else {
                (old(self).remaining - 1) as u32
            },
            final(self).elapsed_total.picos == old(self).elapsed_total.picos + (if skip_ext_time {
                slowest_of(results@)
            } else {
                wall_elapsed.picos
            }),
            skip_ext_time ==> forall|i: int|
                0 <= i < results@.len() ==> old(self).elapsed_total.picos + (#[trigger] results@[i]).picos
                    <= final(self).elapsed_total.picos,
            skip_ext_time && results@.len() > 0 ==> exists|i: int|
                0 <= i < results@.len() && old(self).elapsed_total.picos + (#[trigger] results@[i]).picos
                    == final(self).elapsed_total.picos,
    {
        proof {
            lemma_slowest_is_max(results@);
        }
        SamplingLoop::push_results_and_track_elapsed(
            results,
            &mut self.samples,
            sample_size,
            overhead_per_iter,
            wall_elapsed,
            skip_ext_time,
            &mut self.elapsed_total,
        );
        self.remaining = if self.remaining == 0 { 0 } else { self.remaining - 1 };
    }
}

/// Once no sample is wanted any more and the elapsed time has reached
/// the minimum, collection stops; and it always stops at the maximum.
pub proof fn lemma_collection_stops(elapsed: u128, remaining: u32, min_time: u128, max_time: u128)
    ensures
        elapsed >= max_time ==> !keeps_collecting(elapsed, remaining, min_time, max_time),
        remaining == 0 && elapsed >= min_time ==> !keeps_collecting(
            elapsed,
            remaining,
            min_time,
            max_time,
        ),
        remaining > 0 && elapsed < max_time ==> keeps_collecting(
            elapsed,
            remaining,
            min_time,
            max_time,
        ),
{
}

} // verus!

//! Timer arithmetic and the decisions of timer calibration: converting
//! counter ticks to picoseconds, searching for the timer precision, and
//! keeping the smallest per-iteration loop overhead.

use vstd::prelude::*;

use crate::text::push_str;
use crate::time::FineDuration;

verus! {

/// Picoseconds in one second.
pub const PICOS_PER_SEC: u128 = 1_000_000_000_000;

/// Back-to-back measurements per batch of the precision search.
pub const PRECISION_BATCH: u32 = 100;

/// How often the smallest sample must be seen again before it is taken.
pub const PRECISION_REPEATS: u32 = 100;

/// Largest artificial delay, in loop iterations, before a larger sample
/// ends the precision search.
pub const PRECISION_MAX_DELAY: usize = 100;

/// Why the timestamp counter cannot be used.
#[derive(Clone, Copy, Debug, PartialEq, Eq, Structural)]
pub enum TscUnavailable {
    /// The CPU lacks the RDTSC/RDTSCP instructions.
    MissingInstructions,
    /// The counter frequency varies with the CPU frequency.
    VariableFrequency,
    /// The measured frequency is zero.
    ZeroFrequency,
    /// Frequency calibration gave no usable result.
    CalibrationFailed,
}

impl TscUnavailable {
    /// The reason, in words.
    pub fn message(&self) -> (r: String)
        ensures
            r@ == match *self {
                TscUnavailable::MissingInstructions => "missing RDTSC/RDTSCP instructions"@,
                TscUnavailable::VariableFrequency => "variable TSC frequency"@,
                TscUnavailable::ZeroFrequency => "zero TSC frequency"@,
                TscUnavailable::CalibrationFailed => "TSC calibration failed"@,
            },
    {
        let mut r: String = String::new();
        match self {
            TscUnavailable::MissingInstructions => push_str(
                &mut r,
                "missing RDTSC/RDTSCP instructions",
            ),
            TscUnavailable::VariableFrequency => push_str(&mut r, "variable TSC frequency"),
            TscUnavailable::ZeroFrequency => push_str(&mut r, "zero TSC frequency"),
            TscUnavailable::CalibrationFailed => push_str(&mut r, "TSC calibration failed"),
        }
        r
    }
}

/// A timer reading the CPU timestamp counter, which ticks `frequency`
/// times per second.
#[derive(Clone, Copy, Debug)]
pub struct TscTimer {
    frequency: u64,
}

/// Picoseconds between counter readings `start` and `end` at `frequency`
/// ticks per second (zero when `end` is before `start`).
pub open spec fn tsc_picos(start: u64, end: u64, frequency: u64) -> u128 {
    let diff: int = if end >= start { end - start } else { 0 };
    ((diff * PICOS_PER_SEC) / (frequency as int)) as u128
}

impl TscTimer {
    /// Ticks per second.
    pub closed spec fn freq(&self) -> u64 {
        self.frequency
    }

    /// A timer for a counter of the given frequency, refused when it is
    /// zero.
    pub fn with_frequency(frequency: u64) -> (r: Result<Self, TscUnavailable>)
        ensures
            frequency == 0 ==> r == Err::<Self, TscUnavailable>(TscUnavailable::ZeroFrequency),
            frequency > 0 ==> (r matches Ok(t) && t.freq() == frequency),
    {
        if frequency == 0 {
            Err(TscUnavailable::ZeroFrequency)
        } else {
            Ok(TscTimer { frequency })
        }
    }

    /// Ticks per second.
    pub fn frequency(&self) -> (r: u64)
        ensures
            r == self.freq(),
    {
        self.frequency
    }

    /// The duration between two counter readings.
    pub fn elapsed(&self, start: u64, end: u64) -> (r: FineDuration)
        requires
            self.freq() > 0,
        ensures
            r.picos == tsc_picos(start, end, self.freq()),
    {
        let diff: u64 = if end >= start { end - start } else { 0 };
        assert(diff * PICOS_PER_SEC <= u128::MAX) by (nonlinear_arith)
            requires
                diff <= u64::MAX,
        ;
        let picos: u128 = (diff as u128 * PICOS_PER_SEC) / (self.frequency as u128);
        FineDuration { picos }
    }
}

/// Overhead measured per timed iteration of the sampling loop.
#[derive(Clone, Copy, Debug, PartialEq, Eq, Structural)]
pub struct TimedOverhead {
    /// Per-iteration cost of the sample loop itself.
    pub sample_loop: FineDuration,
}

impl TimedOverhead {
    /// No overhead.
    pub fn zero() -> (r: Self)
        ensures
            r.sample_loop.picos == 0,
    {
        TimedOverhead { sample_loop: FineDuration::zero() }
    }
}

/// State of the search for the smallest non-zero duration a timer can
/// resolve.
///
/// Back-to-back readings come in batches; after each batch without a
/// result the artificial delay between the two readings grows by one.
/// The search ends once the smallest sample has been seen again
/// [`PRECISION_REPEATS`] times, or once a larger sample comes while the
/// delay exceeds [`PRECISION_MAX_DELAY`].
#[derive(Clone, Copy, Debug)]
pub struct PrecisionSearch {
    /// Smallest non-zero sample so far (`u128::MAX` picoseconds before
    /// the first).
    pub min_sample: FineDuration,
    /// How often the smallest sample has been seen again.
    pub seen_count: u32,
    /// Iterations of artificial delay between the two readings.
    pub delay_len: usize,
}

/// What the precision search does after one sample.
#[derive(Clone, Copy, Debug, PartialEq, Eq, Structural)]
pub enum PrecisionStep {
    /// The search is over: this is the precision.
    Done(FineDuration),
    /// Take the next sample.
    Continue,
}

impl PrecisionSearch {
    /// The search before any sample.
    pub fn new() -> (r: Self)
        ensures
            r.min_sample.picos == u128::MAX,
            r.seen_count == 0,
            r.delay_len == 0,
    {
        PrecisionSearch { min_sample: FineDuration::max_value(), seen_count: 0, delay_len: 0 }
    }

    /// Takes one sample into account: zero samples are ignored; a smaller
    /// sample becomes the minimum; the minimum seen again counts towards
    /// the end; a larger one ends the search once the delay is long.
    pub fn observe(&mut self, sample: FineDuration) -> (r: PrecisionStep)
        ensures
            final(self).delay_len == old(self).delay_len,
            sample.picos == 0 ==> r == PrecisionStep::Continue && *final(self) == *old(self),
            sample.picos != 0 && sample.picos < old(self).min_sample.picos ==> r
                == PrecisionStep::Continue && final(self).min_sample == sample
                && final(self).seen_count == 0,
            sample.picos != 0 && sample.picos > old(self).min_sample.picos ==> *final(self) == *old(
                self,
            ) && r == (if old(self).delay_len > PRECISION_MAX_DELAY {
                PrecisionStep::Done(old(self).min_sample)
            } else {
                PrecisionStep::Continue
            }),
            sample.picos != 0 && sample.picos == old(self).min_sample.picos ==> final(self).min_sample
                == old(self).min_sample && final(self).seen_count == (if old(self).seen_count
                == u32::MAX {
                u32::MAX as int
            } else {
                old(self).seen_count + 1
            }) && r == (if final(self).seen_count >= PRECISION_REPEATS {
                PrecisionStep::Done(old(self).min_sample)
            } else {
                PrecisionStep::Continue
            }),
    {
        if sample.picos == 0 {
            return PrecisionStep::Continue;
        }
        if sample.picos > self.min_sample.picos {
            if self.delay_len > PRECISION_MAX_DELAY {
                return PrecisionStep::Done(self.min_sample);
            }
            PrecisionStep::Continue
        } else if sample.picos == self.min_sample.picos {
            self.seen_count = if self.seen_count == u32::MAX { u32::MAX } else { self.seen_count + 1 };
            if self.seen_count >= PRECISION_REPEATS {
                return PrecisionStep::Done(self.min_sample);
            }
            PrecisionStep::Continue
        } else {
            self.min_sample = sample;
            self.seen_count = 0;
            PrecisionStep::Continue
        }
    }

    /// Ends a batch without a result: the delay grows by one (saturating).
    pub fn next_batch(&mut self)
        ensures
            final(self).min_sample == old(self).min_sample,
            final(self).seen_count == old(self).seen_count,
            final(self).delay_len == if old(self).delay_len == usize::MAX {
                usize::MAX as int
            } else {
                old(self).delay_len + 1
            },
    {
        self.delay_len = if self.delay_len == usize::MAX { usize::MAX } else { self.delay_len + 1 };
    }
}

/// The smallest non-zero per-iteration loop overhead among samples.
#[derive(Clone, Copy, Debug)]
pub struct OverheadSearch {
    /// Smallest non-zero per-iteration duration so far (`u128::MAX`
    /// picoseconds before the first).
    pub min_sample: FineDuration,
}

impl OverheadSearch {
    /// The search before any sample.
    pub fn new() -> (r: Self)
        ensures
            r.min_sample.picos == u128::MAX,
    {
        OverheadSearch { min_sample: FineDuration::max_value() }
    }

    /// Takes the per-iteration duration of one sample (of `sample_size`
    /// iterations lasting `total`) into account.
    pub fn observe(&mut self, total: FineDuration, sample_size: u64)
        requires
            sample_size > 0,
        ensures
            ({
                let per_iter = total.picos / (sample_size as u128);
                final(self).min_sample.picos == if per_iter != 0 && per_iter
                    < old(self).min_sample.picos {
                    per_iter
                } else {
                    old(self).min_sample.picos
                }
            }),
    {
        let per_iter: FineDuration = total.div_u64(sample_size);
        if !per_iter.is_zero() && per_iter.picos < self.min_sample.picos {
            self.min_sample = per_iter;
        }
    }

    /// The overhead found: zero when no sample was non-zero.
    pub fn result(&self) -> (r: FineDuration)
        ensures
            r.picos == if self.min_sample.picos == u128::MAX {
                0
            } else {
                self.min_sample.picos
            },
    {
        if self.min_sample.picos == u128::MAX {
            FineDuration::zero()
        } else {
            self.min_sample
        }
    }
}

} // verus!

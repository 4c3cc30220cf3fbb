//! Timing samples and their aggregation.

use vstd::prelude::*;

use crate::stats::exact::{lemma_prefix_sum_le, seq_sum};
use crate::stats::sort::{sort_u128, sorted_seq};
use crate::time::FineDuration;

verus! {

/// A single timing sample with metadata.
#[derive(Clone, Copy, Debug, PartialEq, Eq, Structural)]
pub struct RawSample {
    /// Measured per-iteration duration.
    pub duration: FineDuration,
    /// Number of iterations in this sample batch.
    pub sample_size: u32,
}

/// Aggregated collection of timing samples.
#[derive(Clone, Debug)]
pub struct SampleCollection {
    /// The collected samples, in collection order.
    samples: Vec<RawSample>,
}

/// Per-iteration picosecond durations of `s`, in order.
pub open spec fn picos_of(s: Seq<RawSample>) -> Seq<u128> {
    s.map_values(|r: RawSample| r.duration.picos)
}

/// Sum of the iteration counts of `s`.
pub open spec fn iterations_of(s: Seq<RawSample>) -> nat
    decreases s.len(),
{
    if s.len() == 0 {
        0
    } else {
        iterations_of(s.drop_last()) + s.last().sample_size as nat
    }
}

impl View for SampleCollection {
    type V = Seq<RawSample>;

    closed spec fn view(&self) -> Seq<RawSample> {
        self.samples@
    }
}

/// A prefix never has more iterations than the whole.
proof fn lemma_prefix_iterations_le(s: Seq<RawSample>, i: int)
    requires
        0 <= i <= s.len(),
    ensures
        iterations_of(s.subrange(0, i)) <= iterations_of(s),
    decreases s.len() - i,
{
    if i < s.len() {
        lemma_prefix_iterations_le(s, i + 1);
        assert(s.subrange(0, i + 1).drop_last() =~= s.subrange(0, i));
    } else {
        assert(s.subrange(0, i) =~= s);
    }
}

impl SampleCollection {
    /// An empty collection.
    pub fn new() -> (r: Self)
        ensures
            r@ == Seq::<RawSample>::empty(),
    {
        SampleCollection { samples: Vec::new() }
    }

    /// An empty collection with room for `n` samples.
    pub fn with_capacity(n: usize) -> (r: Self)
        ensures
            r@ == Seq::<RawSample>::empty(),
    {
        SampleCollection { samples: Vec::with_capacity(n) }
    }

    /// Appends a sample.
    pub fn push(&mut self, sample: RawSample)
        ensures
            final(self)@ == old(self)@.push(sample),
    {
        self.samples.push(sample);
    }

    /// Number of samples.
    pub fn len(&self) -> (r: usize)
        ensures
            r == self@.len(),
    {
        self.samples.len()
    }

    /// Whether the collection is empty.
    pub fn is_empty(&self) -> (r: bool)
        ensures
            r == (self@.len() == 0),
    {
        self.samples.len() == 0
    }

    /// Per-iteration picosecond durations in collection order.
    pub fn raw_picos(&self) -> (r: Vec<u128>)
        ensures
            r@ == picos_of(self@),
    {
        let mut r: Vec<u128> = Vec::with_capacity(self.samples.len());
        let mut i: usize = 0;
        while i < self.samples.len()
            invariant
                i <= self.samples@.len(),
                r@ == picos_of(self.samples@.subrange(0, i as int)),
            decreases self.samples.len() - i,
        {
            r.push(self.samples[i].duration.picos);
            proof {
                assert(picos_of(self.samples@.subrange(0, i + 1)) =~= picos_of(
                    self.samples@.subrange(0, i as int),
                ).push(self.samples@[i as int].duration.picos));
            }
            i = i + 1;
        }
        proof {
            assert(self.samples@.subrange(0, self.samples@.len() as int) =~= self.samples@);
        }
        r
    }

    /// Per-iteration picosecond durations in ascending order.
    pub fn sorted_picos(&self) -> (r: Vec<u128>)
        ensures
            r@ == sorted_seq(picos_of(self@)),
    {
        let raw: Vec<u128> = self.raw_picos();
        sort_u128(raw.as_slice())
    }

    /// Sum of all sample durations.
    pub fn total_duration(&self) -> (r: FineDuration)
        requires
            seq_sum(picos_of(self@)) <= u128::MAX,
        ensures
            r.picos == seq_sum(picos_of(self@)),
    {
        let ghost p = picos_of(self.samples@);
        let mut total: u128 = 0;
        let mut i: usize = 0;
        while i < self.samples.len()
            invariant
                i <= self.samples@.len(),
                p == picos_of(self.samples@),
                total == seq_sum(p.subrange(0, i as int)),
                seq_sum(p) <= u128::MAX,
            decreases self.samples.len() - i,
        {
            proof {
                assert(p.subrange(0, i + 1).drop_last() =~= p.subrange(0, i as int));
                lemma_prefix_sum_le(p, i + 1);
            }
            total = total + self.samples[i].duration.picos;
            i = i + 1;
        }
        proof {
            assert(p.subrange(0, p.len() as int) =~= p);
        }
        FineDuration { picos: total }
    }

    /// Total number of iterations across all samples.
    pub fn total_iterations(&self) -> (r: u64)
        requires
            iterations_of(self@) <= u64::MAX,
        ensures
            r == iterations_of(self@),
    {
        let mut total: u64 = 0;
        let mut i: usize = 0;
        while i < self.samples.len()
            invariant
                i <= self.samples@.len(),
                total == iterations_of(self.samples@.subrange(0, i as int)),
                iterations_of(self.samples@) <= u64::MAX,
            decreases self.samples.len() - i,
        {
            proof {
                assert(self.samples@.subrange(0, i + 1).drop_last() =~= self.samples@.subrange(0, i as int));
                lemma_prefix_iterations_le(self.samples@, i + 1);
            }
            total = total + self.samples[i].sample_size as u64;
            i = i + 1;
        }
        proof {
            assert(self.samples@.subrange(0, self.samples@.len() as int) =~= self.samples@);
        }
        total
    }
}

} // verus!

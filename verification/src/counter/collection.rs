//! Aggregation of per-iteration counter values across samples.

use vstd::prelude::*;

use crate::counter::CounterKind;

verus! {

/// Per-iteration counter values of one counter kind, one per sample.
#[derive(Clone, Debug)]
pub struct CounterCollection {
    /// The kind of counter being aggregated.
    kind: CounterKind,
    /// Per-sample counts, in collection order.
    counts: Vec<u64>,
}

/// Sum of the elements of `s`.
pub open spec fn count_sum(s: Seq<u64>) -> nat
    decreases s.len(),
{
    if s.len() == 0 {
        0
    } else {
        count_sum(s.drop_last()) + s.last() as nat
    }
}

impl View for CounterCollection {
    type V = (CounterKind, Seq<u64>);

    closed spec fn view(&self) -> (CounterKind, Seq<u64>) {
        (self.kind, self.counts@)
    }
}

impl CounterCollection {
    /// An empty collection for `kind`.
    pub fn new(kind: CounterKind) -> (r: Self)
        ensures
            r@ == (kind, Seq::<u64>::empty()),
    {
        CounterCollection { kind, counts: Vec::new() }
    }

    /// An empty collection for `kind` with room for `capacity` samples.
    pub fn with_capacity(kind: CounterKind, capacity: usize) -> (r: Self)
        ensures
            r@ == (kind, Seq::<u64>::empty()),
    {
        CounterCollection { kind, counts: Vec::with_capacity(capacity) }
    }

    /// A collection of `sample_count` samples that all count `count` per
    /// iteration.
    pub fn uniform(kind: CounterKind, count: u64, sample_count: usize) -> (r: Self)
        ensures
            r@.0 == kind,
            r@.1.len() == sample_count,
            forall|i: int| 0 <= i < sample_count ==> r@.1[i] == count,
    {
        let mut counts: Vec<u64> = Vec::with_capacity(sample_count);
        let mut i: usize = 0;
        while i < sample_count
            invariant
                i <= sample_count,
                counts@.len() == i,
                forall|k: int| 0 <= k < i ==> counts@[k] == count,
            decreases sample_count - i,
        {
            counts.push(count);
            i = i + 1;
        }
        CounterCollection { kind, counts }
    }

    /// Appends one sample's per-iteration count.
    pub fn push(&mut self, count: u64)
        ensures
            final(self)@ == (old(self)@.0, old(self)@.1.push(count)),
    {
        self.counts.push(count);
    }

    /// The kind of counter being aggregated.
    pub fn kind(&self) -> (r: CounterKind)
        ensures
            r == self@.0,
    {
        self.kind
    }

    /// Number of samples recorded.
    pub fn len(&self) -> (r: usize)
        ensures
            r == self@.1.len(),
    {
        self.counts.len()
    }

    /// Whether no sample has been recorded.
    pub fn is_empty(&self) -> (r: bool)
        ensures
            r == (self@.1.len() == 0),
    {
        self.counts.len() == 0
    }

    /// The per-sample counts, in collection order.
    pub fn counts(&self) -> (r: &[u64])
        ensures
            r@ == self@.1,
    {
        self.counts.as_slice()
    }

    /// The parts of the mean per-iteration count: the sum of all counts
    /// and the number of samples, or `None` when there are no samples.
    pub fn mean_count_parts(&self) -> (r: Option<(u128, usize)>)
        ensures
            self@.1.len() == 0 ==> r is None,
            self@.1.len() > 0 ==> r == Some((count_sum(self@.1) as u128, self@.1.len() as usize)),
    {
        if self.counts.len() == 0 {
            return None;
        }
        let mut sum: u128 = 0;
        let mut i: usize = 0;
        while i < self.counts.len()
            invariant
                i <= self.counts@.len(),
                sum == count_sum(self.counts@.subrange(0, i as int)),
                sum <= (i as nat) * 0xffff_ffff_ffff_ffff,
            decreases self.counts.len() - i,
        {
            proof {
                assert(self.counts@.subrange(0, i + 1).drop_last() =~= self.counts@.subrange(0, i as int));
                assert(i + 1 <= 0xffff_ffff_ffff_ffff);
                assert((i as nat) * 0xffff_ffff_ffff_ffff + 0xffff_ffff_ffff_ffff <= u128::MAX) by (nonlinear_arith)
                    requires
                        i + 1 <= 0xffff_ffff_ffff_ffff,
                ;
            }
            sum = sum + self.counts[i] as u128;
            i = i + 1;
            proof {
                assert(sum <= (i as nat) * 0xffff_ffff_ffff_ffff) by (nonlinear_arith)
                    requires
                        sum <= ((i - 1) as nat) * 0xffff_ffff_ffff_ffff + 0xffff_ffff_ffff_ffff,
                        i >= 1,
                ;
            }
        }
        proof {
            assert(self.counts@.subrange(0, self.counts@.len() as int) =~= self.counts@);
        }
        Some((sum, self.counts.len()))
    }
}

} // verus!

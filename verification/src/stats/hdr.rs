//! A bounded-memory record of picosecond samples, kept in an HDR
//! histogram of the `hdrhistogram` crate.
//!
//! The histogram stores counts per value range, not the samples
//! themselves; its contents are described here by the multiset of the
//! values recorded into it. Its percentiles, mean and standard deviation
//! are computed by the crate on floating point and are read elsewhere.

use hdrhistogram::{CreationError, Histogram, RecordError};
use vstd::multiset::Multiset;
use vstd::prelude::*;

use crate::time::fine_duration::pow10;

verus! {

/// An HDR histogram of `u64` values, held as is: the crate's type is
/// generic over a counter trait that cannot be declared here, so the
/// histogram is opaque and described by [`histogram_samples`] alone.
#[verifier::external_body]
pub struct SampleHistogram {
    /// The crate's histogram, read directly for the statistics that are
    /// computed on floating point.
    pub inner: Histogram<u64>,
}

#[verifier::external_type_specification]
#[verifier::external_body]
pub struct ExCreationError(CreationError);

#[verifier::external_type_specification]
#[verifier::external_body]
pub struct ExRecordError(RecordError);

/// The values recorded into a histogram.
pub uninterp spec fn histogram_samples(h: SampleHistogram) -> Multiset<u64>;

/// The number of significant decimal digits a histogram was made to
/// keep: values are told apart down to a `10^-digits` fraction of their
/// size.
pub uninterp spec fn histogram_precision(h: SampleHistogram) -> u8;

/// Whether a histogram grows to hold values beyond its highest trackable
/// value (auto-resizing).
pub uninterp spec fn histogram_auto_resize(h: SampleHistogram) -> bool;

/// Whether `v` is held in `m` and no element of `m` is smaller.
pub open spec fn is_least(m: Multiset<u64>, v: u64) -> bool {
    m.contains(v) && forall|w: u64| m.contains(w) ==> v <= w
}

/// Whether `v` is held in `m` and no element of `m` is larger.
pub open spec fn is_greatest(m: Multiset<u64>, v: u64) -> bool {
    m.contains(v) && forall|w: u64| m.contains(w) ==> w <= v
}

/// Whether `r` lies within `v`'s resolution at `digits` significant
/// decimal digits: they differ by no more than `v / 10^digits`.
pub open spec fn within_resolution(r: u64, v: u64, digits: u8) -> bool {
    let d: int = if r <= v { v - r } else { r - v };
    d <= v as nat / pow10(digits as nat)
}

/// Highest value the histogram is first sized for: one hour in
/// picoseconds. It grows past this as larger values are recorded.
pub const INITIAL_MAX: u64 = 3_600_000_000_000_000;

/// Whether `r` is the smallest element of `m` at `digits` significant
/// digits: no larger than it and within its resolution.
pub open spec fn least_level(m: Multiset<u64>, digits: u8, r: u64) -> bool {
    exists|v: u64| #[trigger] is_least(m, v) && r <= v && within_resolution(r, v, digits)
}

/// Whether `r` is the largest element of `m` at `digits` significant
/// digits: no smaller than it and within its resolution.
pub open spec fn greatest_level(m: Multiset<u64>, digits: u8, r: u64) -> bool {
    exists|v: u64| #[trigger] is_greatest(m, v) && v <= r && within_resolution(r, v, digits)
}

/// `Histogram::new_with_max(high, sigfig)`: an empty histogram tracking
/// values from 1 to `high` with `sigfig` significant decimal digits, not
/// auto-resizing. It is refused exactly when `sigfig` exceeds five or
/// `high` is below two (with a lowest value of one, the other refusals
/// of the crate cannot occur, and the counts length it computes is a
/// `u32`, which every `usize` here holds).
#[verifier::external_body]
fn new_histogram(high: u64, sigfig: u8) -> (r: Result<SampleHistogram, CreationError>)
    ensures
        sigfig <= 5 && high >= 2 ==> r is Ok,
        sigfig > 5 ==> r is Err,
        high < 2 ==> r is Err,
        r matches Ok(h) ==> histogram_samples(h) =~= Multiset::empty(),
        r matches Ok(h) ==> histogram_precision(h) == sigfig,
        r matches Ok(h) ==> !histogram_auto_resize(h),
{
    match Histogram::new_with_max(high, sigfig) {
        Ok(inner) => Ok(SampleHistogram { inner }),
        Err(e) => Err(e),
    }
}

/// `Histogram::auto(enabled)`: lets the histogram grow to values beyond
/// its highest trackable value (or not); what it holds is unchanged.
#[verifier::external_body]
fn set_auto_resize(h: &mut SampleHistogram, enabled: bool)
    ensures
        histogram_samples(*final(h)) == histogram_samples(*old(h)),
        histogram_precision(*final(h)) == histogram_precision(*old(h)),
        histogram_auto_resize(*final(h)) == enabled,
{
    h.inner.auto(enabled);
}

/// `Histogram::record(value)`: on success the histogram holds `value`
/// once more. It fails only when `value` is out of range and growing is
/// off (growing fails only where a `usize` cannot hold the `u32` counts
/// length, which no machine here has), so with auto-resizing on it
/// succeeds; what the histogram holds after a failure is not stated.
/// Its precision and auto-resizing never change.
#[verifier::external_body]
fn record_value(h: &mut SampleHistogram, value: u64) -> (r: Result<(), RecordError>)
    ensures
        histogram_auto_resize(*old(h)) ==> r is Ok,
        r is Ok ==> histogram_samples(*final(h)) == histogram_samples(*old(h)).insert(value),
        histogram_precision(*final(h)) == histogram_precision(*old(h)),
        histogram_auto_resize(*final(h)) == histogram_auto_resize(*old(h)),
{
    h.inner.record(value)
}

/// `Histogram::len`: the number of values recorded (the count saturates
/// at `u64::MAX`).
#[verifier::external_body]
fn histogram_len(h: &SampleHistogram) -> (r: u64)
    ensures
        histogram_samples(*h).len() <= u64::MAX ==> r == histogram_samples(*h).len(),
{
    h.inner.len()
}

/// `Histogram::is_empty`: whether no value was recorded.
#[verifier::external_body]
fn histogram_is_empty(h: &SampleHistogram) -> (r: bool)
    ensures
        r == (histogram_samples(*h).len() == 0),
{
    h.inner.is_empty()
}

/// `Histogram::min`: the lowest recorded value level: zero when nothing
/// (or a zero) was recorded, otherwise the lowest value equivalent to the
/// smallest recorded value, which is no larger than it and lies within
/// its resolution (the crate keeps unit resolution below
/// `2 * 10^digits` and a resolution of at most a `10^-digits` fraction
/// of the value above).
#[verifier::external_body]
fn histogram_min(h: &SampleHistogram) -> (r: u64)
    ensures
        histogram_samples(*h).len() == 0 ==> r == 0,
        histogram_samples(*h).len() > 0 ==> least_level(histogram_samples(*h), histogram_precision(*h), r),
{
    h.inner.min()
}

/// `Histogram::max`: the highest recorded value level: the highest value
/// equivalent to the largest recorded value, which is no smaller than it
/// and lies within its resolution. The crate leaves it undefined when
/// nothing was recorded, and no contract states it then.
#[verifier::external_body]
fn histogram_max(h: &SampleHistogram) -> (r: u64)
    ensures
        histogram_samples(*h).len() > 0 ==> greatest_level(histogram_samples(*h), histogram_precision(*h), r),
{
    h.inner.max()
}

/// Why a recorder could not be made.
#[derive(Clone, Copy, Debug, PartialEq, Eq, Structural)]
pub enum HdrError {
    /// The histogram could not be created with the given precision.
    Creation,
}

/// The picosecond count `picos` as recorded: clamped to `u64::MAX`.
pub open spec fn clamped(picos: u128) -> u64 {
    if picos <= u64::MAX {
        picos as u64
    } else {
        u64::MAX
    }
}

/// An HDR histogram of picosecond samples, growing as larger values are
/// recorded.
pub struct HdrRecorder {
    histogram: SampleHistogram,
}

impl HdrRecorder {
    /// The samples recorded, each clamped to `u64`.
    pub closed spec fn samples(&self) -> Multiset<u64> {
        histogram_samples(self.histogram)
    }

    /// The significant decimal digits the recorder keeps.
    pub closed spec fn precision(&self) -> u8 {
        histogram_precision(self.histogram)
    }

    /// Well-formedness: the recorder's histogram auto-resizes.
    pub closed spec fn wf(&self) -> bool {
        histogram_auto_resize(self.histogram)
    }

    /// An empty recorder keeping `sigfig` significant decimal digits
    /// (from zero to five).
    pub fn new(sigfig: u8) -> (r: Result<Self, HdrError>)
        ensures
            r is Ok <==> sigfig <= 5,
            r is Err ==> r == Err::<Self, HdrError>(HdrError::Creation),
            r matches Ok(rec) ==> rec.samples() =~= Multiset::empty(),
            r matches Ok(rec) ==> rec.precision() == sigfig,
            r matches Ok(rec) ==> rec.wf(),
    {
        match new_histogram(INITIAL_MAX, sigfig) {
            Ok(h) => {
                let mut histogram: SampleHistogram = h;
                set_auto_resize(&mut histogram, true);
                Ok(HdrRecorder { histogram })
            },
            Err(_) => Err(HdrError::Creation),
        }
    }

    /// Records one sample, clamped to `u64::MAX`: the recorder holds it
    /// once more (the histogram grows as needed).
    pub fn record(&mut self, picos: u128)
        requires
            old(self).wf(),
        ensures
            final(self).wf(),
            final(self).samples() == old(self).samples().insert(clamped(picos)),
            final(self).precision() == old(self).precision(),
    {
        let value: u64 = if picos <= u64::MAX as u128 {
            picos as u64
        } else {
            u64::MAX
        };
        let r: Result<(), RecordError> = record_value(&mut self.histogram, value);
        assert(r is Ok);
    }

    /// The smallest sample, at the recorder's resolution: no larger than
    /// it and within a `10^-precision` fraction of it; zero when nothing
    /// was recorded.
    pub fn min(&self) -> (r: u128)
        ensures
            self.samples().len() == 0 ==> r == 0,
            self.samples().len() > 0 ==> least_level(self.samples(), self.precision(), r as u64),
            r <= u64::MAX,
    {
        histogram_min(&self.histogram) as u128
    }

    /// The largest sample, at the recorder's resolution: no smaller than
    /// it and within a `10^-precision` fraction of it.
    pub fn max(&self) -> (r: u128)
        ensures
            self.samples().len() > 0 ==> greatest_level(self.samples(), self.precision(), r as u64),
            r <= u64::MAX,
    {
        histogram_max(&self.histogram) as u128
    }

    /// Number of samples recorded.
    pub fn len(&self) -> (r: u64)
        ensures
            self.samples().len() <= u64::MAX ==> r == self.samples().len(),
    {
        histogram_len(&self.histogram)
    }

    /// Whether no sample was recorded.
    pub fn is_empty(&self) -> (r: bool)
        ensures
            r == (self.samples().len() == 0),
    {
        histogram_is_empty(&self.histogram)
    }

    /// The histogram itself, for the statistics computed on it.
    pub fn histogram(&self) -> (r: &SampleHistogram)
        ensures
            histogram_samples(*r) == self.samples(),
    {
        &self.histogram
    }
}

} // verus!

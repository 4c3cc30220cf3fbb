//! The standard library's `Duration`, seen through its nanosecond count.

use std::time::Duration;
use vstd::prelude::*;

verus! {

/// Nanoseconds in the longest `Duration`: `u64::MAX` seconds and
/// 999,999,999 nanoseconds.
pub const MAX_DURATION_NANOS: u128 = 18_446_744_073_709_551_615_999_999_999;

/// The total number of nanoseconds that a `Duration` spans
/// (what `Duration::as_nanos` returns).
pub uninterp spec fn duration_as_nanos(d: Duration) -> u128;

/// `Duration::as_nanos`: the whole duration in nanoseconds, which no
/// `Duration` makes larger than `Duration::MAX` does.
#[verifier::external_body]
pub(crate) fn nanos_of(d: Duration) -> (n: u128)
    ensures
        n == duration_as_nanos(d),
        n <= MAX_DURATION_NANOS,
{
    d.as_nanos()
}

/// `Duration::from_secs`: a duration of `secs` whole seconds.
#[verifier::external_body]
pub(crate) fn from_secs(secs: u64) -> (d: Duration)
    ensures
        duration_as_nanos(d) == secs * 1_000_000_000,
{
    Duration::from_secs(secs)
}

/// `Duration::from_millis`: a duration of `millis` milliseconds.
#[verifier::external_body]
pub(crate) fn from_millis(millis: u64) -> (d: Duration)
    ensures
        duration_as_nanos(d) == millis * 1_000_000,
{
    Duration::from_millis(millis)
}

/// `Duration::from_micros`: a duration of `micros` microseconds.
#[verifier::external_body]
pub(crate) fn from_micros(micros: u64) -> (d: Duration)
    ensures
        duration_as_nanos(d) == micros * 1_000,
{
    Duration::from_micros(micros)
}

/// `Duration::from_nanos`: a duration of `nanos` nanoseconds.
#[verifier::external_body]
pub(crate) fn from_nanos(nanos: u64) -> (d: Duration)
    ensures
        duration_as_nanos(d) == nanos,
{
    Duration::from_nanos(nanos)
}

} // verus!

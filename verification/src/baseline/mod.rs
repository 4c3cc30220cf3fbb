//! Baselines: the stored form of benchmark statistics and the schema
//! versions a stored baseline may have.

use vstd::prelude::*;

use crate::cli::values::text_eq;
use crate::stats::{PercentileSet, PercentileStats};
use crate::text::char_vec;
use crate::time::FineDuration;

verus! {

/// Schema version written into new baseline files.
pub const SCHEMA_VERSION: u32 = 2;

/// Oldest schema version still read (its entries carry no thread count,
/// which then defaults to one).
pub const OLDEST_SCHEMA_VERSION: u32 = 1;

/// Statistics as stored in a baseline file: durations as `u64`
/// picoseconds.
#[derive(Clone, Copy, Debug, PartialEq, Eq, Structural)]
pub struct SerializableStats {
    pub sample_count: u32,
    pub iter_count: u64,
    pub min_picos: u64,
    pub max_picos: u64,
    pub mean_picos: u64,
    pub std_dev_picos: u64,
    pub p50_picos: u64,
    pub p95_picos: u64,
    pub p99_picos: u64,
    pub p99_9_picos: u64,
    pub p99_99_picos: u64,
}

/// One stored benchmark result.
#[derive(Clone, Debug)]
pub struct BaselineEntry {
    /// Fully qualified benchmark name.
    pub name: String,
    /// Thread count the benchmark ran with.
    pub thread_count: u32,
    /// Its statistics.
    pub stats: SerializableStats,
}

/// A baseline file written under a schema this version cannot read.
#[derive(Clone, Copy, Debug, PartialEq, Eq, Structural)]
pub struct IncompatibleVersion {
    /// Version found in the file.
    pub found: u32,
    /// Version this code writes.
    pub expected: u32,
}

/// `p` truncated to its low 64 bits.
pub open spec fn low_u64(p: u128) -> u64 {
    (p % 0x1_0000_0000_0000_0000) as u64
}

/// The low 64 bits of a picosecond count.
fn truncate_picos(p: u128) -> (r: u64)
    ensures
        r == low_u64(p),
{
    (p % 0x1_0000_0000_0000_0000) as u64
}

/// Whether every duration of `s` fits in `u64` picoseconds.
pub open spec fn fits_u64(s: PercentileStats) -> bool {
    &&& s.min.picos <= u64::MAX
    &&& s.max.picos <= u64::MAX
    &&& s.mean.picos <= u64::MAX
    &&& s.std_dev.picos <= u64::MAX
    &&& s.percentiles.p50.picos <= u64::MAX
    &&& s.percentiles.p95.picos <= u64::MAX
    &&& s.percentiles.p99.picos <= u64::MAX
    &&& s.percentiles.p99_9.picos <= u64::MAX
    &&& s.percentiles.p99_99.picos <= u64::MAX
}

/// The stored form of `s`, durations truncated to 64 bits.
pub open spec fn stored(s: PercentileStats) -> SerializableStats {
    SerializableStats {
        sample_count: s.sample_count,
        iter_count: s.iter_count,
        min_picos: low_u64(s.min.picos),
        max_picos: low_u64(s.max.picos),
        mean_picos: low_u64(s.mean.picos),
        std_dev_picos: low_u64(s.std_dev.picos),
        p50_picos: low_u64(s.percentiles.p50.picos),
        p95_picos: low_u64(s.percentiles.p95.picos),
        p99_picos: low_u64(s.percentiles.p99.picos),
        p99_9_picos: low_u64(s.percentiles.p99_9.picos),
        p99_99_picos: low_u64(s.percentiles.p99_99.picos),
    }
}

/// The statistics a stored form stands for.
pub open spec fn restored(s: SerializableStats) -> PercentileStats {
    PercentileStats {
        sample_count: s.sample_count,
        iter_count: s.iter_count,
        min: FineDuration { picos: s.min_picos as u128 },
        max: FineDuration { picos: s.max_picos as u128 },
        mean: FineDuration { picos: s.mean_picos as u128 },
        std_dev: FineDuration { picos: s.std_dev_picos as u128 },
        percentiles: PercentileSet {
            p50: FineDuration { picos: s.p50_picos as u128 },
            p95: FineDuration { picos: s.p95_picos as u128 },
            p99: FineDuration { picos: s.p99_picos as u128 },
            p99_9: FineDuration { picos: s.p99_9_picos as u128 },
            p99_99: FineDuration { picos: s.p99_99_picos as u128 },
        },
    }
}

impl SerializableStats {
    /// The stored form of `stats` (durations beyond `u64` keep their low
    /// 64 bits).
    pub fn from_percentile_stats(stats: &PercentileStats) -> (r: Self)
        ensures
            r == stored(*stats),
    {
        SerializableStats {
            sample_count: stats.sample_count,
            iter_count: stats.iter_count,
            min_picos: truncate_picos(stats.min.picos),
            max_picos: truncate_picos(stats.max.picos),
            mean_picos: truncate_picos(stats.mean.picos),
            std_dev_picos: truncate_picos(stats.std_dev.picos),
            p50_picos: truncate_picos(stats.percentiles.p50.picos),
            p95_picos: truncate_picos(stats.percentiles.p95.picos),
            p99_picos: truncate_picos(stats.percentiles.p99.picos),
            p99_9_picos: truncate_picos(stats.percentiles.p99_9.picos),
            p99_99_picos: truncate_picos(stats.percentiles.p99_99.picos),
        }
    }

    /// The statistics this stored form stands for.
    pub fn to_percentile_stats(&self) -> (r: PercentileStats)
        ensures
            r == restored(*self),
    {
        PercentileStats {
            sample_count: self.sample_count,
            iter_count: self.iter_count,
            min: FineDuration { picos: self.min_picos as u128 },
            max: FineDuration { picos: self.max_picos as u128 },
            mean: FineDuration { picos: self.mean_picos as u128 },
            std_dev: FineDuration { picos: self.std_dev_picos as u128 },
            percentiles: PercentileSet {
                p50: FineDuration { picos: self.p50_picos as u128 },
                p95: FineDuration { picos: self.p95_picos as u128 },
                p99: FineDuration { picos: self.p99_picos as u128 },
                p99_9: FineDuration { picos: self.p99_9_picos as u128 },
                p99_99: FineDuration { picos: self.p99_99_picos as u128 },
            },
        }
    }
}

/// Statistics whose durations fit in `u64` come back unchanged from
/// their stored form.
pub proof fn lemma_stats_roundtrip(s: PercentileStats)
    requires
        fits_u64(s),
    ensures
        restored(stored(s)) == s,
{
}

/// A stored form comes back unchanged from the statistics it stands for.
pub proof fn lemma_stored_roundtrip(s: SerializableStats)
    ensures
        stored(restored(s)) == s,
{
}

/// Each field of the stored form holds the like-named statistic, to its
/// low 64 bits, and each statistic read back from a stored form is the
/// like-named field.
pub proof fn lemma_stored_fields(s: PercentileStats, t: SerializableStats)
    ensures
        stored(s).sample_count == s.sample_count,
        stored(s).iter_count == s.iter_count,
        stored(s).min_picos == s.min.picos % 0x1_0000_0000_0000_0000,
        stored(s).max_picos == s.max.picos % 0x1_0000_0000_0000_0000,
        stored(s).mean_picos == s.mean.picos % 0x1_0000_0000_0000_0000,
        stored(s).std_dev_picos == s.std_dev.picos % 0x1_0000_0000_0000_0000,
        stored(s).p50_picos == s.percentiles.p50.picos % 0x1_0000_0000_0000_0000,
        stored(s).p95_picos == s.percentiles.p95.picos % 0x1_0000_0000_0000_0000,
        stored(s).p99_picos == s.percentiles.p99.picos % 0x1_0000_0000_0000_0000,
        stored(s).p99_9_picos == s.percentiles.p99_9.picos % 0x1_0000_0000_0000_0000,
        stored(s).p99_99_picos == s.percentiles.p99_99.picos % 0x1_0000_0000_0000_0000,
        restored(t).sample_count == t.sample_count,
        restored(t).iter_count == t.iter_count,
        restored(t).min.picos == t.min_picos,
        restored(t).max.picos == t.max_picos,
        restored(t).mean.picos == t.mean_picos,
        restored(t).std_dev.picos == t.std_dev_picos,
        restored(t).percentiles.p50.picos == t.p50_picos,
        restored(t).percentiles.p95.picos == t.p95_picos,
        restored(t).percentiles.p99.picos == t.p99_picos,
        restored(t).percentiles.p99_9.picos == t.p99_9_picos,
        restored(t).percentiles.p99_99.picos == t.p99_99_picos,
{
}

/// Checks the schema version of a baseline file: versions from
/// [`OLDEST_SCHEMA_VERSION`] to [`SCHEMA_VERSION`] are read, any other is
/// refused.
pub fn check_schema_version(found: u32) -> (r: Result<(), IncompatibleVersion>)
    ensures
        r is Ok <==> OLDEST_SCHEMA_VERSION <= found <= SCHEMA_VERSION,
        r matches Err(e) ==> e == (IncompatibleVersion { found, expected: SCHEMA_VERSION }),
{
    if OLDEST_SCHEMA_VERSION <= found && found <= SCHEMA_VERSION {
        Ok(())
    } else {
        Err(IncompatibleVersion { found, expected: SCHEMA_VERSION })
    }
}

/// Whether a stored entry is the result of benchmark `name` at
/// `thread_count` threads.
pub open spec fn entry_matches(e: BaselineEntry, name: Seq<char>, thread_count: u32) -> bool {
    e.name@ == name && e.thread_count == thread_count
}

/// Index of the first stored entry for benchmark `name` at
/// `thread_count` threads, if any: a run is compared with the baseline
/// entry of the same name and thread count.
pub fn find_entry(entries: &[BaselineEntry], name: &str, thread_count: u32) -> (r: Option<usize>)
    ensures
        match r {
            Some(i) => i < entries@.len() && entry_matches(entries@[i as int], name@, thread_count)
                && forall|j: int|
                0 <= j < i ==> !entry_matches(#[trigger] entries@[j], name@, thread_count),
            None => forall|j: int|
                0 <= j < entries@.len() ==> !entry_matches(#[trigger] entries@[j], name@, thread_count),
        },
{
    let mut i: usize = 0;
    while i < entries.len()
        invariant
            i <= entries@.len(),
            forall|j: int| 0 <= j < i ==> !entry_matches(#[trigger] entries@[j], name@, thread_count),
        decreases entries@.len() - i,
    {
        let e: &BaselineEntry = &entries[i];
        if e.thread_count == thread_count && text_eq(&char_vec(name), e.name.as_str()) {
            return Some(i);
        }
        i = i + 1;
    }
    None
}

} // verus!

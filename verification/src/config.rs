//! Benchmark configuration with two-layer resolution.
//!
//! [`BenchOptions`] is the partial configuration in which every field is
//! optional (`None` means "inherit or use the default");
//! [`ResolvedBenchOptions`] is the fully resolved form.

use std::time::Duration;
use vstd::prelude::*;

use crate::stats::sort::{sort_dedup_u32, strictly_increasing};
use crate::time::duration::{duration_as_nanos, from_millis, from_secs};

verus! {

/// Partial benchmark configuration; `None` fields inherit.
#[derive(Clone, Debug, Default)]
pub struct BenchOptions {
    /// Number of samples. `None` = inherit.
    pub sample_count: Option<u32>,
    /// Iterations per sample. `None` = adaptive tuning.
    pub sample_size: Option<u32>,
    /// Minimum benchmarking time. `None` = inherit.
    pub min_time: Option<Duration>,
    /// Maximum benchmarking time. `None` = inherit.
    pub max_time: Option<Duration>,
    /// Skip time external to the benchmarked code when accounting for
    /// `min_time` / `max_time`. `None` = inherit.
    pub skip_ext_time: Option<bool>,
    /// Whether the benchmark is ignored. `None` = inherit.
    pub ignore: Option<bool>,
    /// Thread counts to run with; `0` stands for all available
    /// parallelism. `None` = inherit.
    pub threads: Option<Vec<u32>>,
}

/// `a` if it is set, else `b`.
pub open spec fn or_else<T>(a: Option<T>, b: Option<T>) -> Option<T> {
    if a is Some {
        a
    } else {
        b
    }
}

/// Layering options is associative, an unset child leaves the parent's
/// value, and an unset parent leaves the child's.
pub proof fn lemma_layering<T>(a: Option<T>, b: Option<T>, c: Option<T>)
    ensures
        or_else(a, or_else(b, c)) == or_else(or_else(a, b), c),
        or_else(None::<T>, b) == b,
        or_else(a, None::<T>) == a,
{
}

/// `a` if it is set, else `b` (the thread lists by their contents).
pub open spec fn threads_or(a: Option<Vec<u32>>, b: Option<Vec<u32>>) -> Option<Seq<u32>> {
    if a is Some {
        Some(a.unwrap()@)
    } else if b is Some {
        Some(b.unwrap()@)
    } else {
        None
    }
}

/// The thread-list contents of an option.
pub open spec fn threads_view(a: Option<Vec<u32>>) -> Option<Seq<u32>> {
    if a is Some {
        Some(a.unwrap()@)
    } else {
        None
    }
}

/// Copy of a thread list.
pub(crate) fn copy_threads(v: &Vec<u32>) -> (r: Vec<u32>)
    ensures
        r@ == v@,
{
    let mut r: Vec<u32> = Vec::with_capacity(v.len());
    let mut i: usize = 0;
    while i < v.len()
        invariant
            i <= v.len(),
            r@ == v@.subrange(0, i as int),
        decreases v.len() - i,
    {
        r.push(v[i]);
        i = i + 1;
        proof {
            assert(r@ =~= v@.subrange(0, i as int));
        }
    }
    proof {
        assert(v@.subrange(0, v.len() as int) =~= v@);
    }
    r
}

impl BenchOptions {
    /// Layers `self` (the child) over `other` (the parent): each field
    /// takes the child's value when it is set and the parent's otherwise.
    pub fn overwrite(&self, other: &Self) -> (r: Self)
        ensures
            r.sample_count == or_else(self.sample_count, other.sample_count),
            r.sample_size == or_else(self.sample_size, other.sample_size),
            r.min_time == or_else(self.min_time, other.min_time),
            r.max_time == or_else(self.max_time, other.max_time),
            r.skip_ext_time == or_else(self.skip_ext_time, other.skip_ext_time),
            r.ignore == or_else(self.ignore, other.ignore),
            threads_view(r.threads) == threads_or(self.threads, other.threads),
    {
        let threads: Option<Vec<u32>> = match &self.threads {
            Some(t) => Some(copy_threads(t)),
            None => match &other.threads {
                Some(t) => Some(copy_threads(t)),
                None => None,
            },
        };
        BenchOptions {
            sample_count: if self.sample_count.is_some() { self.sample_count } else { other.sample_count },
            sample_size: if self.sample_size.is_some() { self.sample_size } else { other.sample_size },
            min_time: if self.min_time.is_some() { self.min_time } else { other.min_time },
            max_time: if self.max_time.is_some() { self.max_time } else { other.max_time },
            skip_ext_time: if self.skip_ext_time.is_some() { self.skip_ext_time } else { other.skip_ext_time },
            ignore: if self.ignore.is_some() { self.ignore } else { other.ignore },
            threads,
        }
    }
}

/// Default number of samples.
pub const DEFAULT_SAMPLE_COUNT: u32 = 1_000;

/// Default minimum benchmarking time, in milliseconds.
pub const DEFAULT_MIN_TIME_MILLIS: u64 = 1;

/// Default maximum benchmarking time, in seconds.
pub const DEFAULT_MAX_TIME_SECS: u64 = 5;

/// Fully resolved benchmark configuration.
#[derive(Debug)]
pub struct ResolvedBenchOptions {
    /// Number of samples.
    pub sample_count: u32,
    /// Iterations per sample; `None` = adaptive tuning.
    pub sample_size: Option<u32>,
    /// Minimum benchmarking time.
    pub min_time: Duration,
    /// Maximum benchmarking time.
    pub max_time: Duration,
    /// Skip external time when accounting for min/max time.
    pub skip_ext_time: bool,
    /// Whether the benchmark is ignored.
    pub ignore: bool,
    /// Thread counts: never empty, ascending, without repeats, with `0`
    /// replaced by the available parallelism.
    pub threads: Vec<u32>,
}

/// The thread count that `t` stands for.
pub open spec fn expand_thread(t: u32, available: u32) -> u32 {
    if t == 0 {
        available
    } else {
        t
    }
}

/// Whether `r` is the resolved form of the requested thread counts
/// `requested` (`[1]` when unset): ascending, without repeats, holding
/// exactly the requested counts with `0` replaced by `available`, and
/// `[1]` when nothing was requested.
pub open spec fn resolves_threads(requested: Option<Seq<u32>>, available: u32, r: Seq<u32>) -> bool {
    let req = requested_or_one(requested);
    &&& strictly_increasing(r)
    &&& req.len() == 0 ==> r == seq![1u32]
    &&& req.len() > 0 ==> forall|y: u32|
        r.contains(y) <==> exists|i: int| 0 <= i < req.len() && #[trigger] expand_thread(req[i], available) == y
}

/// The requested thread counts, `[1]` when unset.
pub open spec fn requested_or_one(requested: Option<Seq<u32>>) -> Seq<u32> {
    if requested is Some {
        requested.unwrap()
    } else {
        seq![1u32]
    }
}

/// Two strictly increasing sequences holding the same values are equal.
proof fn lemma_increasing_unique(s: Seq<u32>, t: Seq<u32>)
    requires
        strictly_increasing(s),
        strictly_increasing(t),
        forall|y: u32| s.contains(y) <==> t.contains(y),
    ensures
        s == t,
    decreases s.len(),
{
    if s.len() == 0 {
        if t.len() > 0 {
            assert(t.contains(t[0]));
        }
        assert(s =~= t);
    } else {
        assert(s.contains(s[0]));
        assert(t.len() > 0);
        assert(t.contains(t[0]));
        let i = choose|i: int| 0 <= i < s.len() && s[i] == t[0];
        let j = choose|j: int| 0 <= j < t.len() && t[j] == s[0];
        assert(s[0] <= s[i]);
        assert(t[0] <= t[j]);
        assert(s[0] == t[0]);
        let s1 = s.drop_first();
        let t1 = t.drop_first();
        assert forall|y: u32| s1.contains(y) <==> t1.contains(y) by {
            if s1.contains(y) {
                let k = choose|k: int| 0 <= k < s1.len() && s1[k] == y;
                assert(s[k + 1] == y);
                assert(s.contains(y));
                assert(y != t[0]);
                let m = choose|m: int| 0 <= m < t.len() && t[m] == y;
                assert(m != 0);
                assert(t1[m - 1] == y);
            }
            if t1.contains(y) {
                let k = choose|k: int| 0 <= k < t1.len() && t1[k] == y;
                assert(t[k + 1] == y);
                assert(t.contains(y));
                assert(y != s[0]);
                let m = choose|m: int| 0 <= m < s.len() && s[m] == y;
                assert(m != 0);
                assert(s1[m - 1] == y);
            }
        }
        lemma_increasing_unique(s1, t1);
        assert(s =~= seq![s[0]] + s1);
        assert(t =~= seq![t[0]] + t1);
    }
}

/// Resolution is idempotent: resolving an already resolved thread list
/// (with the same available parallelism) gives it back unchanged.
pub proof fn lemma_resolution_idempotent(
    requested: Option<Seq<u32>>,
    available: u32,
    once: Seq<u32>,
    twice: Seq<u32>,
)
    requires
        resolves_threads(requested, available, once),
        resolves_threads(Some(once), available, twice),
    ensures
        twice == once,
{
    let req = requested_or_one(requested);
    assert(once.len() > 0) by {
        if req.len() > 0 {
            assert(expand_thread(req[0], available) == expand_thread(req[0], available));
            assert(once.contains(expand_thread(req[0], available)));
        }
    }
    assert(requested_or_one(Some(once)) == once);
    assert forall|y: u32| twice.contains(y) <==> once.contains(y) by {
        if twice.contains(y) {
            let i = choose|i: int| 0 <= i < once.len() && #[trigger] expand_thread(once[i], available) == y;
            assert(once.contains(once[i]));
            if once[i] == 0 {
                if req.len() > 0 {
                    let k = choose|k: int| 0 <= k < req.len() && #[trigger] expand_thread(req[k], available) == once[i];
                    assert(available == 0);
                }
            }
        }
        if once.contains(y) {
            let i = choose|i: int| 0 <= i < once.len() && once[i] == y;
            if y == 0 {
                if req.len() > 0 {
                    let k = choose|k: int| 0 <= k < req.len() && #[trigger] expand_thread(req[k], available) == y;
                    assert(available == 0);
                }
            }
            assert(expand_thread(once[i], available) == y);
        }
    }
    lemma_increasing_unique(twice, once);
}

impl ResolvedBenchOptions {
    /// Resolves `options`, applying the defaults: 1000 samples, adaptive
    /// sample size, 1 ms minimum and 5 s maximum time, external time
    /// counted, not ignored, a single thread. A requested thread count of
    /// `0` stands for `available_parallelism`.
    pub fn from_options(options: &BenchOptions, available_parallelism: u32) -> (r: Self)
        ensures
            r.sample_count == (if options.sample_count is Some {
                options.sample_count.unwrap()
            } else {
                DEFAULT_SAMPLE_COUNT
            }),
            r.sample_size == options.sample_size,
            options.min_time is Some ==> r.min_time == options.min_time.unwrap(),
            options.min_time is None ==> duration_as_nanos(r.min_time) == 1_000_000,
            options.max_time is Some ==> r.max_time == options.max_time.unwrap(),
            options.max_time is None ==> duration_as_nanos(r.max_time) == 5_000_000_000,
            r.skip_ext_time == (options.skip_ext_time is Some && options.skip_ext_time.unwrap()),
            r.ignore == (options.ignore is Some && options.ignore.unwrap()),
            resolves_threads(threads_view(options.threads), available_parallelism, r.threads@),
    {
        let threads: Vec<u32> = Self::resolve_threads(&options.threads, available_parallelism);
        let min_time: Duration = match options.min_time {
            Some(d) => d,
            None => from_millis(DEFAULT_MIN_TIME_MILLIS),
        };
        let max_time: Duration = match options.max_time {
            Some(d) => d,
            None => from_secs(DEFAULT_MAX_TIME_SECS),
        };
        ResolvedBenchOptions {
            sample_count: match options.sample_count {
                Some(n) => n,
                None => DEFAULT_SAMPLE_COUNT,
            },
            sample_size: options.sample_size,
            min_time,
            max_time,
            skip_ext_time: match options.skip_ext_time {
                Some(b) => b,
                None => false,
            },
            ignore: match options.ignore {
                Some(b) => b,
                None => false,
            },
            threads,
        }
    }

    /// Sorted, deduplicated, non-empty thread counts with `0` expanded.
    fn resolve_threads(threads: &Option<Vec<u32>>, available: u32) -> (r: Vec<u32>)
        ensures
            resolves_threads(threads_view(*threads), available, r@),
    {
        let mut requested: Vec<u32> = match threads {
            Some(t) => copy_threads(t),
            None => {
                let mut one: Vec<u32> = Vec::new();
                one.push(1);
                one
            },
        };
        let ghost req = requested@;
        let mut i: usize = 0;
        while i < requested.len()
            invariant
                i <= requested.len(),
                requested@.len() == req.len(),
                forall|k: int| 0 <= k < i ==> requested@[k] == expand_thread(req[k], available),
                forall|k: int| i <= k < requested@.len() ==> requested@[k] == req[k],
            decreases requested.len() - i,
        {
            if requested[i] == 0 {
                requested.set(i, available);
            }
            i = i + 1;
        }
        let mut result: Vec<u32> = sort_dedup_u32(requested.as_slice());
        if result.len() == 0 {
            result.push(1);
            proof {
                assert(result@ =~= seq![1u32]);
                assert(req.len() == 0) by {
                    if req.len() > 0 {
                        assert(requested@.contains(requested@[0]));
                    }
                }
            }
        } else {
            proof {
                assert(req.len() > 0);
                assert forall|y: u32| result@.contains(y) <==> exists|k: int| 0 <= k < req.len() && #[trigger] expand_thread(req[k], available) == y by {
                    if result@.contains(y) {
                        assert(requested@.contains(y));
                        let k = choose|k: int| 0 <= k < requested@.len() && requested@[k] == y;
                        assert(expand_thread(req[k], available) == y);
                    }
                    if exists|k: int| 0 <= k < req.len() && #[trigger] expand_thread(req[k], available) == y {
                        let k = choose|k: int| 0 <= k < req.len() && #[trigger] expand_thread(req[k], available) == y;
                        assert(requested@[k] == y);
                        assert(requested@.contains(y));
                    }
                }
            }
        }
        proof {
            assert(req =~= requested_or_one(threads_view(*threads)));
        }
        result
    }
}

} // verus!

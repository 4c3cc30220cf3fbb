//! Throughput counters attached to benchmarks.
//!
//! A counter reports how many units of work one iteration processes:
//! bytes, Unicode characters, CPU cycles or generic items.

pub mod collection;

pub use collection::CounterCollection;

use vstd::prelude::*;
use vstd::string::StrSliceExecFns;
use vstd::string::StringSliceAdditionalSpecFns;

verus! {

/// Classification of a counter for display formatting.
#[derive(Clone, Copy, Debug, PartialEq, Eq, Structural, Hash)]
pub enum CounterKind {
    /// Byte throughput (B/s, KB/s, ...).
    Bytes,
    /// Unicode character throughput (char/s, Kchar/s, ...).
    Chars,
    /// CPU cycle throughput, displayed as a frequency (Hz, KHz, ...).
    Cycles,
    /// Generic item throughput (item/s, Kitem/s, ...).
    Items,
}

/// A throughput counter: units processed per iteration, and their kind.
pub trait Counter {
    /// The count that `count` reports.
    spec fn spec_count(&self) -> u64;

    /// The kind that `kind` reports.
    spec fn spec_kind(&self) -> CounterKind;

    /// The number of units processed per iteration.
    fn count(&self) -> (r: u64)
        ensures
            r == self.spec_count(),
    ;

    /// The kind of counter, used for display formatting.
    fn kind(&self) -> (r: CounterKind)
        ensures
            r == self.spec_kind(),
    ;
}

/// Counts bytes processed per iteration.
#[derive(Clone, Copy, Debug, PartialEq, Eq, Structural)]
pub struct BytesCount(u64);

/// Counts Unicode characters processed per iteration.
#[derive(Clone, Copy, Debug, PartialEq, Eq, Structural)]
pub struct CharsCount(u64);

/// Counts CPU cycles per iteration.
#[derive(Clone, Copy, Debug, PartialEq, Eq, Structural)]
pub struct CyclesCount(u64);

/// Counts generic items processed per iteration.
#[derive(Clone, Copy, Debug, PartialEq, Eq, Structural)]
pub struct ItemsCount(u64);

impl BytesCount {
    /// A byte counter with an explicit count.
    pub fn new(count: u64) -> (r: Self)
        ensures
            r.spec_count() == count,
    {
        BytesCount(count)
    }

    /// The byte size of a slice: its length times the size of an element.
    pub fn of_slice<T>(slice: &[T]) -> (r: Self)
        requires
            slice@.len() * vstd::layout::size_of::<T>() <= u64::MAX,
        ensures
            r.spec_count() == slice@.len() * vstd::layout::size_of::<T>(),
    {
        let n: usize = slice.len();
        let size: usize = core::mem::size_of::<T>();
        BytesCount((n as u64) * (size as u64))
    }

    /// The UTF-8 byte length of a string slice.
    pub fn of_str(s: &str) -> (r: Self)
        requires
            s.spec_bytes().len() <= usize::MAX,
        ensures
            r.spec_count() == s.spec_bytes().len(),
    {
        BytesCount(s.len() as u64)
    }
}

impl Counter for BytesCount {
    closed spec fn spec_count(&self) -> u64 {
        self.0
    }

    open spec fn spec_kind(&self) -> CounterKind {
        CounterKind::Bytes
    }

    fn count(&self) -> (r: u64) {
        self.0
    }

    fn kind(&self) -> (r: CounterKind) {
        CounterKind::Bytes
    }
}

impl CharsCount {
    /// A character counter with an explicit count.
    pub fn new(count: u64) -> (r: Self)
        ensures
            r.spec_count() == count,
    {
        CharsCount(count)
    }

    /// The number of Unicode scalar values in a string slice.
    pub fn of_str(s: &str) -> (r: Self)
        ensures
            r.spec_count() == s@.len(),
    {
        CharsCount(s.unicode_len() as u64)
    }
}

impl Counter for CharsCount {
    closed spec fn spec_count(&self) -> u64 {
        self.0
    }

    open spec fn spec_kind(&self) -> CounterKind {
        CounterKind::Chars
    }

    fn count(&self) -> (r: u64) {
        self.0
    }

    fn kind(&self) -> (r: CounterKind) {
        CounterKind::Chars
    }
}

impl CyclesCount {
    /// A cycle counter with an explicit count.
    pub fn new(count: u64) -> (r: Self)
        ensures
            r.spec_count() == count,
    {
        CyclesCount(count)
    }
}

impl Counter for CyclesCount {
    closed spec fn spec_count(&self) -> u64 {
        self.0
    }

    open spec fn spec_kind(&self) -> CounterKind {
        CounterKind::Cycles
    }

    fn count(&self) -> (r: u64) {
        self.0
    }

    fn kind(&self) -> (r: CounterKind) {
        CounterKind::Cycles
    }
}

impl ItemsCount {
    /// An item counter with an explicit count.
    pub fn new(count: u64) -> (r: Self)
        ensures
            r.spec_count() == count,
    {
        ItemsCount(count)
    }
}

impl Counter for ItemsCount {
    closed spec fn spec_count(&self) -> u64 {
        self.0
    }

    open spec fn spec_kind(&self) -> CounterKind {
        CounterKind::Items
    }

    fn count(&self) -> (r: u64) {
        self.0
    }

    fn kind(&self) -> (r: CounterKind) {
        CounterKind::Items
    }
}

} // verus!

//! Thread signalling primitives.

use std::sync::atomic::{AtomicBool, Ordering};

use vstd::prelude::*;

verus! {

/// A boolean shared between threads, read and written with relaxed
/// ordering. What a read returns depends on the other threads, so no
/// contract states it.
pub struct AtomicFlag {
    flag: AtomicBool,
}

impl AtomicFlag {
    /// A flag holding `value`.
    pub fn new(value: bool) -> (r: Self) {
        AtomicFlag { flag: AtomicBool::new(value) }
    }

    /// The current value.
    pub fn get(&self) -> (r: bool) {
        self.flag.load(Ordering::Relaxed)
    }

    /// Stores `value`.
    pub fn set(&self, value: bool) {
        self.flag.store(value, Ordering::Relaxed);
    }
}

} // verus!

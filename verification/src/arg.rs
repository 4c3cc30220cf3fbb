//! Handing a benchmark's argument to its function in the form the
//! function takes it.

use vstd::prelude::*;

verus! {

/// Conversion of a benchmark argument to the parameter type of the
/// benchmark function: the value itself, a copy through one or two
/// references, or the text of a `String`.
pub trait Arg<T>: Sized {
    /// Whether `r` is the argument as the function takes it.
    spec fn gives(self, r: T) -> bool;

    /// The argument as the function takes it.
    fn get(self) -> (r: T)
        ensures
            self.gives(r),
    ;
}

impl<T> Arg<T> for T {
    open spec fn gives(self, r: T) -> bool {
        r == self
    }

    fn get(self) -> (r: T) {
        self
    }
}

impl<T: Copy> Arg<T> for &T {
    open spec fn gives(self, r: T) -> bool {
        r == *self
    }

    fn get(self) -> (r: T) {
        *self
    }
}

impl<T: Copy> Arg<T> for &&T {
    open spec fn gives(self, r: T) -> bool {
        r == **self
    }

    fn get(self) -> (r: T) {
        **self
    }
}

impl<'a> Arg<&'a str> for &'a String {
    open spec fn gives(self, r: &'a str) -> bool {
        r@ == self@
    }

    fn get(self) -> (r: &'a str) {
        self.as_str()
    }
}

} // verus!

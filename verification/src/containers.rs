//! A wrapper that hands out only shared access to its contents.
use vstd::prelude::*;

verus! {

/// A value that can be read but not replaced once wrapped.
#[derive(Debug, Clone, PartialEq)]
pub struct Readonly<T>(T);

impl<T> Readonly<T> {
    /// The wrapped value.
    pub closed spec fn spec_item(self) -> T {
        self.0
    }

    /// Wraps a value.
    pub fn new(t: T) -> (r: Self)
        ensures
            r.spec_item() == t,
    {
        Readonly(t)
    }

    /// A shared reference to the wrapped value.
    pub fn item(&self) -> (r: &T)
        ensures
            *r == self.spec_item(),
    {
        &self.0
    }
}

} // verus!

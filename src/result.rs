//! A fallible value as handlers and middleware steps exchange it.
use vstd::prelude::*;
use crate::error::Error;

verus! {

/// A value of type `T`, or the error that took its place.
pub struct Result<T>(pub core::result::Result<T, Error>);

impl<T> Result<T> {
    /// The wrapped outcome.
    pub open spec fn spec_inner(&self) -> core::result::Result<T, Error> {
        self.0
    }

    /// Wraps an outcome.
    pub fn new(value: core::result::Result<T, Error>) -> (r: Self)
        ensures
            r.spec_inner() == value,
    {
        Result(value)
    }

    /// Consumes the wrapper, returning the outcome.
    pub fn into_inner(self) -> (r: core::result::Result<T, Error>)
        ensures
            r == self.spec_inner(),
    {
        self.0
    }
}

impl<T> From<core::result::Result<T, Error>> for Result<T> {
    fn from(value: core::result::Result<T, Error>) -> (r: Self) {
        Result(value)
    }
}

impl<T> vstd::std_specs::convert::FromSpecImpl<core::result::Result<T, Error>> for Result<T> {
    open spec fn obeys_from_spec() -> bool {
        true
    }

    open spec fn from_spec(v: core::result::Result<T, Error>) -> Self {
        Result(v)
    }
}

} // verus!

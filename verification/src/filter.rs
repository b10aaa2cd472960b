//! Errors of the entry-filter compiler surface.

use vstd::prelude::*;

verus! {

/// Kind of filter-compiler error.
#[derive(Clone, Copy, Debug, PartialEq, Eq, Structural)]
pub enum FilterCompilerErrorKind {
    BackendError,
    NoCommandlineCall,
}

/// A short description of a filter-compiler error kind.
pub fn fce_error_type_as_str(e: &FilterCompilerErrorKind) -> (r: &'static str)
{
    match e {
        FilterCompilerErrorKind::BackendError => "Backend Error",
        FilterCompilerErrorKind::NoCommandlineCall => "No commandline call",
    }
}

/// Filter-compiler error type, optionally with a cause.
#[derive(Debug)]
pub struct FilterCompilerError {
    err_type: FilterCompilerErrorKind,
    cause: Option<Box<FilterCompilerError>>,
}

impl FilterCompilerError {
    /// Build a new `FilterCompilerError` from a kind, optionally with cause.
    pub fn new(errtype: FilterCompilerErrorKind, cause: Option<Box<FilterCompilerError>>) -> (r:
        FilterCompilerError)
        ensures
            r.spec_kind() == errtype,
    {
        FilterCompilerError { err_type: errtype, cause: cause }
    }

    /// The kind of this error.
    pub closed spec fn spec_kind(&self) -> FilterCompilerErrorKind {
        self.err_type
    }

    /// Get the error kind of this `FilterCompilerError`.
    pub fn err_type(&self) -> (r: FilterCompilerErrorKind)
        ensures
            r == self.spec_kind(),
    {
        self.err_type
    }
}

} // verus!

use vstd::prelude::*;

verus! {

/// `std::io::Error` is carried through the library as an opaque payload of
/// [`Error::IO`]: nothing here inspects it.
#[verifier::external_type_specification]
#[verifier::external_body]
pub struct ExIoError(std::io::Error);

/// The failures a cache can report.
pub enum Error {
    /// A failure reported by the underlying source while seeking or reading.
    IO(std::io::Error),
    /// The cache's interior state was left unusable by an aborted traversal.
    Poison(String),
    /// A cache was configured with no memory: a zero page size, a zero frame
    /// count, or a zero memory budget.
    ZeroCache(&'static str),
}

impl Error {
    /// Wraps an error of the source.
    pub fn from_io(e: std::io::Error) -> (r: Error)
        ensures
            r is IO,
    {
        Error::IO(e)
    }

    /// A configuration error with the given explanation.
    pub fn new_zero_cache(msg: &'static str) -> (r: Error)
        ensures
            r is ZeroCache,
            r->ZeroCache_0 == msg,
    {
        Error::ZeroCache(msg)
    }

    /// A poisoned-state error with the given explanation.
    pub fn from_poison(msg: String) -> (r: Error)
        ensures
            r is Poison,
            r->Poison_0@ == msg@,
    {
        Error::Poison(msg)
    }

    /// True exactly for an I/O error.
    pub fn is_io_error(&self) -> (r: bool)
        ensures
            r == (*self is IO),
    {
        match self {
            Error::IO(_) => true,
            _ => false,
        }
    }

    /// True exactly for a poisoned-state error.
    pub fn is_poison_error(&self) -> (r: bool)
        ensures
            r == (*self is Poison),
    {
        match self {
            Error::Poison(_) => true,
            _ => false,
        }
    }

    /// True exactly for a zero-memory configuration error.
    pub fn is_zero_cache_error(&self) -> (r: bool)
        ensures
            r == (*self is ZeroCache),
    {
        match self {
            Error::ZeroCache(_) => true,
            _ => false,
        }
    }
}

} // verus!

//! The error taxonomy of the indexing engine.

use vstd::prelude::*;

verus! {

/// Everything that can go wrong around a build or a query. Build-time
/// errors abort only the build in progress and never touch a previously
/// published index; query-time errors are reported to the caller alone.
#[derive(Clone, Copy, Debug, PartialEq, Eq, Structural)]
pub enum IndexError {
    /// The record source could not be read; fatal to the build attempt.
    SourceReadError,
    /// One record could not be decoded; holds the ordinal of the offending
    /// record. The whole build is aborted so that no partial index is ever
    /// published.
    RecordDecodeError { record: usize },
    /// The query cannot be evaluated: its score floor has a zero
    /// denominator. A term that is simply not indexed is no error.
    QueryError,
    /// A rebuild was requested while another was already running.
    ConcurrentRebuildRejected,
}

} // verus!

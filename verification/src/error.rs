//! The kinds of failure that every operation of this crate reports.

use vstd::prelude::*;

verus! {

/// Why an operation failed. No failure is turned into a default value:
/// each path returns one of these.
#[derive(Clone, Copy, Debug, PartialEq, Eq, Structural)]
pub enum Error {
    /// A malformed object id, a malformed reference name, an empty list of
    /// commits for an octopus merge base, or two edits of one name in a
    /// transaction. Detected before anything is changed or walked.
    InvalidInput,
    /// A reference that was looked up does not exist.
    NotFound,
    /// The expected previous value of an edit did not match the store.
    /// The whole transaction was dropped and the store is as it was.
    PreconditionFailed,
    /// A commit that a walk had to read is not in the graph and is not part
    /// of the shallow boundary.
    ObjectNotFound,
    /// A chain of symbolic references is longer than the allowed depth,
    /// as every cycle is.
    GraphInconsistency,
    /// Durable storage failed while a transaction was written.
    IoFailure,
    /// The commits share no history.
    NoCommonAncestor,
    /// A walk needed more steps than its caller allowed.
    TimedOut,
}

} // verus!

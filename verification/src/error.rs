use vstd::prelude::*;

verus! {

/// The failure modes of the storage engine.
#[derive(Clone, Copy, Debug, PartialEq, Eq, Structural)]
pub enum DeltaError {
    /// A commit lost the optimistic race and exhausted its retries.
    ConcurrentModification,
    /// A candidate commit is no longer valid against the latest snapshot,
    /// for example a file it removes has already been removed.
    Conflict,
    /// A log entry failed structural validation on replay.
    Corruption,
    /// A referenced file or version is absent.
    NotFound,
    /// The underlying storage failed; raised only by unverified callers that
    /// drive this engine against a real file system.
    IoFailure,
}

} // verus!

use vstd::prelude::*;
use crate::record::ValidationError;

verus! {

/// Why a repository operation did not take effect.
#[derive(Clone, Copy, Debug, PartialEq, Eq, Structural)]
pub enum RepoError {
    /// The record's fields were refused.
    Invalid(ValidationError),
    /// The operation names an identity the repository does not hold.
    NotFound,
    /// A requested sequence key lies outside `1..=N+1`.
    InvalidKey,
    /// The identity of a new record is already held.
    DuplicateId,
    /// The lock guarding the repository was left unusable.
    LockUnavailable,
    /// No fresh identity is left to assign.
    Exhausted,
    /// A snapshot could not be written.
    SnapshotWriteFailed,
    /// A snapshot's contents could not be decoded into a valid collection.
    SnapshotDecodeFailed,
}

} // verus!

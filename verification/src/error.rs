//! What can go wrong in the snapshot engine.

use vstd::prelude::*;

verus! {

/// The ways in which an operation of the snapshot engine fails. Failures of the disk
/// itself are not among them: the engine never touches it.
#[derive(Clone, Copy, Debug, PartialEq, Eq, Structural)]
pub enum SnapshotError {
    /// No snapshot of the directory matches the identifier.
    NotFound,
    /// More than one snapshot of the directory matches the identifier.
    AmbiguousMatch,
    /// The bytes do not begin with a well-formed payload.
    Decode,
}

impl SnapshotError {
    /// A short description for messages.
    pub fn message(&self) -> (r: &'static str)
        ensures
            r@ == match *self {
                SnapshotError::NotFound => "snapshot not found"@,
                SnapshotError::AmbiguousMatch => "identifier matches more than one snapshot"@,
                SnapshotError::Decode => "snapshot payload is malformed"@,
            },
    {
        match self {
            SnapshotError::NotFound => "snapshot not found",
            SnapshotError::AmbiguousMatch => "identifier matches more than one snapshot",
            SnapshotError::Decode => "snapshot payload is malformed",
        }
    }
}

} // verus!

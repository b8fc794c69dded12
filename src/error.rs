//! Errors of the engine.
use vstd::prelude::*;

verus! {

/// What can go wrong when opening the store or serving a request.
#[derive(Debug, Clone, Copy, PartialEq, Eq, Structural)]
pub enum DatastoreError {
    /// The target directory does not exist.
    NonExistentDatastore,
    /// The target path exists but is not a directory.
    NonDirectoryDatastore,
    /// The name chosen for the new active file is already taken.
    ActiveFileCollision,
    /// A record's checksum does not match, or its bytes are incomplete.
    CorruptRecord,
    /// A key or value longer than the header's 32-bit size fields can carry,
    /// or an active file that would grow past a 64-bit offset.
    RecordTooLarge,
    /// The underlying storage failed.
    IoError,
}

} // verus!

//! Error kinds of the snapshot core. Each variant carries the path or
//! snapshot identifier that triggered it, so a caller can render an
//! actionable message.

use vstd::prelude::*;

verus! {

/// Why a core operation failed.
#[derive(Debug, Clone, PartialEq, Eq)]
pub enum Error {
    /// The scan root could not be resolved.
    PathError { path: Vec<u8> },
    /// Metadata of one entry could not be read during the walk.
    ScanError { path: Vec<u8> },
    /// A file could not be opened or fully read, or a record not written.
    IoError { path: Vec<u8> },
    /// No persisted snapshot has the requested identifier.
    NotFoundError { id: u64 },
    /// A stored snapshot record cannot be deserialized.
    CorruptionError { id: u64 },
}

impl Error {
    /// Renders the error kind as a short human-readable string.
    pub fn describe(&self) -> String {
        match self {
            Error::PathError { .. } => "cannot resolve root path".to_owned(),
            Error::ScanError { .. } => "cannot read entry metadata".to_owned(),
            Error::IoError { .. } => "cannot read or write file".to_owned(),
            Error::NotFoundError { .. } => "snapshot not found".to_owned(),
            Error::CorruptionError { .. } => "stored snapshot is corrupt".to_owned(),
        }
    }
}

} // verus!

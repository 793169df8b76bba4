use vstd::prelude::*;

verus! {

/// The error taxonomy of the library.
///
/// - `DecodeError`: image bytes were unreadable or unsupported.
/// - `EmptyIndexError`: an index build yielded zero usable entries.
/// - `PersistenceError`: a persisted index artifact was corrupt or truncated.
/// - `IOError`: filesystem access failed.
/// - `WorkerFailure`: a composition worker could not deliver its quadrant.
#[derive(PartialEq, Eq, Structural, Clone, Copy, Debug)]
pub enum MosaicError {
    DecodeError,
    EmptyIndexError,
    PersistenceError,
    IOError,
    WorkerFailure,
}

impl MosaicError {
    /// A short human-readable description of the error.
    pub fn describe(&self) -> &'static str {
        match self {
            MosaicError::DecodeError => "image could not be decoded",
            MosaicError::EmptyIndexError => "index build yielded no entries",
            MosaicError::PersistenceError => "persisted index artifact is corrupt",
            MosaicError::IOError => "filesystem access failed",
            MosaicError::WorkerFailure => "a composition worker failed",
        }
    }
}

} // verus!

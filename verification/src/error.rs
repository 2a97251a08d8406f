//! Error taxonomy of the history store.

use vstd::prelude::*;

verus! {

/// Everything that can go wrong around the history store.
///
/// The first six variants are environment and I/O failures raised while
/// resolving the configuration directory, reading or writing the history
/// file; they are constructed by the caller that performs the actual I/O.
/// `NotFound` carries the key that a lookup or swap did not find and is a
/// normal, expected outcome the caller can branch on.
#[derive(Debug, Clone, Copy, PartialEq, Eq, Structural)]
pub enum HistoryError {
    ConfigDirUnavailable,
    DirectoryCreateFailed,
    FileOpenFailed,
    DeserializeFailed,
    SerializeFailed,
    WriteFailed,
    NotFound(u32),
}

} // verus!

//! Errors module.

use vstd::prelude::*;

verus! {

/// Errors of the record codec.
#[derive(Debug)]
pub enum FormatError {
    /// A header slice of the wrong length was handed to the decoder.
    DeserializeError,
}

/// Errors of the storage engine.
#[derive(Debug)]
pub enum StorageError {
    /// An underlying filesystem error, carried as a message.
    IoError(String),
    /// Another handle holds the data directory's lock.
    AlreadyLocked,
    /// A keydir entry referenced a segment id absent from the segment set.
    UnknownLogFile(u32),
}

} // verus!

//! An embedded persistent key-value store in the Bitcask style: an
//! append-only log of records plus an in-memory index (the keydir) that maps
//! each live key to the position of its most recent value.
//!
//! The storage engine here works over in-memory segment buffers; a thin
//! file-backed shell supplies the bytes of each log file at open time and
//! mirrors appended bytes back to disk.

use vstd::prelude::*;

pub mod errors;
pub mod format;
pub mod keydir;
pub mod laws;
pub mod names;
pub mod replay;
pub mod storage;

verus! {

/// Database options.
#[derive(Debug, Clone, Copy)]
pub struct DbOptions {
    /// Maximum log file size in bytes.
    pub max_log_file_size: usize,
}

impl Default for DbOptions {
    fn default() -> (r: Self)
        ensures
            r.max_log_file_size == 104857600,
    {
        Self { max_log_file_size: 104857600 }
    }
}

impl DbOptions {
    /// Sets the rotation threshold for the active log segment.
    pub fn max_log_file_size(self, value: usize) -> (r: Self)
        ensures
            r.max_log_file_size == value,
    {
        Self { max_log_file_size: value }
    }
}

pub type RumDb = storage::DiskStorage<keydir::HashmapKeydir>;

} // verus!

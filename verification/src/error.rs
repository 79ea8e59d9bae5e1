//! The ways in which a command can fail, and the exit status of each.

use vstd::prelude::*;

verus! {

/// Why a command could not be carried out.
#[derive(Debug, Clone, Copy, PartialEq, Eq, Structural)]
pub enum StoreError {
    /// The per-user configuration directory could not be determined.
    NoConfigDir,
    /// The store file exists but could not be read or understood.
    Unreadable,
    /// The store file could not be written.
    SaveFailed,
    /// A bookmark with the given key already exists.
    DuplicateKey,
    /// No bookmark has the given key.
    NotFound,
}

impl StoreError {
    /// The status with which the process ends: 2 for a key that was not
    /// found, 1 for every other failure.
    pub open spec fn status(self) -> int {
        if self == StoreError::NotFound {
            2
        } else {
            1
        }
    }

    /// The exit status for this failure.
    pub fn exit_code(&self) -> (code: i32)
        ensures
            code == self.status(),
    {
        match self {
            StoreError::NotFound => 2,
            _ => 1,
        }
    }
}

} // verus!

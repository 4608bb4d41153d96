//! Error kinds of the library. Magic-header failures are fatal at open;
//! invariant violations mean the MANIFEST is logically corrupt; capacity
//! exhaustion tells the memtable layer to rotate to a fresh arena.

use vstd::prelude::*;

verus! {

/// Everything that the manifest and skiplist subsystems can report.
#[derive(Clone, Copy, Debug, PartialEq, Eq, Structural)]
pub enum Error {
    /// The MANIFEST file does not begin with the expected magic bytes.
    BadMagic,
    /// The MANIFEST file's magic version is not the supported one.
    BadVersion,
    /// A CREATE names a table id that is already live.
    TableExists(u64),
    /// A DELETE names a table id that is not live.
    TableAbsent(u64),
    /// A DELETE asserts a level other than the one the table is live at.
    LevelMismatch(u64),
    /// A CREATE carries a level too large for the on-disk level byte.
    LevelTooLarge(u64),
    /// The arena has no room left for the requested allocation.
    CapacityExhausted,
}

impl Error {
    /// A short human-readable description of the error.
    pub fn describe(&self) -> String {
        match self {
            Error::BadMagic => "manifest has bad magic".to_string(),
            Error::BadVersion => "manifest has unsupported version".to_string(),
            Error::TableExists(_) => "manifest invalid: table already exists".to_string(),
            Error::TableAbsent(_) => "manifest removes non-existing table".to_string(),
            Error::LevelMismatch(_) => "manifest removes table at wrong level".to_string(),
            Error::LevelTooLarge(_) => "manifest level out of range".to_string(),
            Error::CapacityExhausted => "arena capacity exhausted".to_string(),
        }
    }
}

} // verus!

//! Errors of the storage engine.
use vstd::prelude::*;

verus! {

/// What can go wrong while the engine reads or writes its files.
#[derive(Debug)]
pub enum StorageEngineError {
    /// A table has nothing to write its events with.
    InvalidSSTableWriter(Vec<u8>),
    /// A table file's name holds no epoch.
    InvalidSSTableFilePath(Vec<u8>),
    /// A log file's name holds no epoch.
    InvalidWalFilePath(Vec<u8>),
    /// The database directory cannot be used.
    InvalidDbDir(Vec<u8>),
    /// A table could not be built for this epoch.
    FailedSSTableCreation(u128),
    /// No memtable to seal.
    InvalidMemTable,
    /// The clock stood before the Unix epoch.
    TimeError,
    /// An epoch in a file name is no number.
    EpochParseError(Vec<u8>),
    /// A file could not be read or written.
    IOError(String),
    /// Bytes could not be read as records.
    SerializationError,
}

} // verus!

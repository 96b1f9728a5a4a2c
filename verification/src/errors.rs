use vstd::prelude::*;

verus! {

/// Every failure the storage engine can report.
#[derive(Clone, Copy, Debug, PartialEq, Eq, Structural)]
pub enum Errors {
    /// A positional read on a data file failed.
    FailedToReadFromDataFile,
    /// An append to a data file failed.
    FailedWriteToDataFile,
    /// Forcing durability of a data file failed.
    FailedSyncDataFile,
    /// A data file could not be opened or created.
    FailedToOpenDataFile,
    /// `put`, `get` and `delete` reject the empty key.
    KeyIsEmpty,
    /// The in-memory index refused a mutation; reserved for index
    /// variants that can fail, the ordered-map index never raises it.
    IndexUpdateFailed,
    /// `get` found no live record for the key.
    KeyNotFound,
    /// The index points at a file id that neither the active file nor
    /// any sealed file carries; the engine state is corrupt.
    DataFileNotFound,
    /// The configured directory path is empty.
    DirPathIsEmpty,
    /// The configured data file size threshold is zero.
    DataFileSizeTooSmall,
    /// The database directory could not be created.
    FailedToCreateDatabaseDir,
    /// The database directory could not be enumerated.
    FailedToReadDatabaseDir,
    /// A `.data` file name does not carry a numeric stem, or two names
    /// carry the same file id.
    DataDirectoryCorrupted,
    /// Clean end of a data file at a record boundary; an internal
    /// sentinel that never surfaces from the public engine calls.
    ReadDataFileEOF,
    /// A record failed its integrity check: bad tag, truncated body or
    /// checksum mismatch.
    CorruptRecord,
}

impl Errors {
    /// A short human-readable description of the error.
    pub fn message(&self) -> (r: &'static str) {
        match self {
            Errors::FailedToReadFromDataFile => "failed to read from data file",
            Errors::FailedWriteToDataFile => "failed to write to data file",
            Errors::FailedSyncDataFile => "failed to sync data file",
            Errors::FailedToOpenDataFile => "failed to open data file",
            Errors::KeyIsEmpty => "the key is empty",
            Errors::IndexUpdateFailed => "memory index failed to update",
            Errors::KeyNotFound => "key is not found in database",
            Errors::DataFileNotFound => "data file is not found in database",
            Errors::DirPathIsEmpty => "database directory path is empty",
            Errors::DataFileSizeTooSmall => "data file size must be greater than zero",
            Errors::FailedToCreateDatabaseDir => "failed to create database directory",
            Errors::FailedToReadDatabaseDir => "failed to read database directory",
            Errors::DataDirectoryCorrupted => "the database directory may be corrupted",
            Errors::ReadDataFileEOF => "read to the end of data file",
            Errors::CorruptRecord => "the record is corrupted",
        }
    }
}

} // verus!

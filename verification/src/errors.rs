use vstd::prelude::*;

verus! {

/// Every failure the engine reports to a caller.
#[derive(Clone, Copy, Debug, PartialEq, Eq, Structural)]
pub enum Errors {
    FailedToReadFromDataFile,
    FailedToWriteToDataFile,
    FailedSyncDataFile,
    FailedToOpenDataFile,
    KeyIsEmpty,
    IndexUpdateFailed,
    KeyNotFound,
    DataFileNotFound,
    DirPathIsEmpty,
    DataFileSizeTooSmall,
    FailedToCreateDatabaseDir,
    FailedToReadDatabaseDir,
    DataDirectoryCorrupted,
    ReadDataFileEOF,
    InvalidLogRecordCrc,
    ExceedMaxBatchNum,
}

} // verus!

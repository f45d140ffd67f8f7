//! The ways in which a run can fail.

use vstd::prelude::*;

verus! {

/// Why a run was abandoned. An empty input is no failure: it gives no chunk
/// and an empty output.
#[derive(Debug, Clone, Copy, PartialEq, Eq)]
pub enum ShuffleError {
    /// The input could not be opened or read.
    InputUnavailable,
    /// The temporary directory, a chunk file or the output file could not be
    /// created or written.
    StorageUnavailable,
    /// A chunk file that was being merged could not be read further.
    ReadCorruption,
}

/// The operation on the outside world during which a failure was met.
#[derive(Debug, Clone, Copy, PartialEq, Eq)]
pub enum Stage {
    OpenInput,
    ReadInput,
    CreateStorage,
    CreateChunk,
    WriteChunk,
    ReadChunk,
    CreateOutput,
    WriteOutput,
}

/// The kind of failure that a failed operation amounts to.
pub open spec fn failure_kind(stage: Stage) -> ShuffleError {
    match stage {
        Stage::OpenInput | Stage::ReadInput => ShuffleError::InputUnavailable,
        Stage::ReadChunk => ShuffleError::ReadCorruption,
        Stage::CreateStorage
        | Stage::CreateChunk
        | Stage::WriteChunk
        | Stage::CreateOutput
        | Stage::WriteOutput => ShuffleError::StorageUnavailable,
    }
}

impl ShuffleError {
    /// The failure to report when the operation `stage` did not succeed.
    pub fn during(stage: Stage) -> (e: ShuffleError)
        ensures
            e == failure_kind(stage),
    {
        match stage {
            Stage::OpenInput => ShuffleError::InputUnavailable,
            Stage::ReadInput => ShuffleError::InputUnavailable,
            Stage::ReadChunk => ShuffleError::ReadCorruption,
            Stage::CreateStorage => ShuffleError::StorageUnavailable,
            Stage::CreateChunk => ShuffleError::StorageUnavailable,
            Stage::WriteChunk => ShuffleError::StorageUnavailable,
            Stage::CreateOutput => ShuffleError::StorageUnavailable,
            Stage::WriteOutput => ShuffleError::StorageUnavailable,
        }
    }
}

} // verus!

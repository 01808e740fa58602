use vstd::prelude::*;

verus! {

/// The error taxonomy of the storage engine.
///
/// `IoFailure` stands for an underlying filesystem error reported by the
/// unverified shell that persists the log; the verified core never produces
/// it itself. `CorruptLog` is fatal at `open`: replay met a frame whose
/// declared length exceeds the remaining bytes. `CorruptIndex` marks an
/// internal invariant violation (an indexed pointer resolving to a non-Set
/// record); the engine's invariant proves it unreachable. `KeyNotFound` is
/// the expected, recoverable error of removing an absent key.
/// `MalformedRecord` is a decode-time bounds violation on a single frame.
#[derive(Debug, Clone, Copy, PartialEq, Eq, Structural)]
pub enum KVError {
    IoFailure,
    CorruptLog,
    CorruptIndex,
    KeyNotFound,
    MalformedRecord,
}

pub type KVResult<T> = Result<T, KVError>;

} // verus!

use vstd::prelude::*;

verus! {

/// A lightweight locator identifying exactly one encoded record on disk:
/// the generation that holds it, the byte offset of its first byte within
/// that generation's file, and its length in bytes.
#[derive(Debug, Clone, Copy, PartialEq, Eq, Structural)]
pub struct LogPointer {
    pub gen: u64,
    pub pos: u64,
    pub len: u64,
}

impl LogPointer {
    pub fn new(gen: u64, pos: u64, len: u64) -> (p: LogPointer)
        ensures
            p == (LogPointer { gen, pos, len }),
    {
        LogPointer { gen, pos, len }
    }
}

} // verus!

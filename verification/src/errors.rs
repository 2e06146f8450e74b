//! Why a pack or unpack run fails. Every error is terminal for the run: a
//! caller discards whatever partial output it holds.

use vstd::prelude::*;

verus! {

/// The failure cases of the archive transform.
#[derive(Debug)]
pub enum PakError {
    /// The stored section count is zero or exceeds `MAX_SECTION_COUNT`.
    BadSectionCount,
    /// The raw payload handed to packing exceeds `MAX_FILE_SIZE`.
    FileTooLarge,
    /// The packed stream is too short for its header and section table, or
    /// its section table does not carve the stream into sections of positive
    /// size.
    TruncatedInput,
    /// The decompressor rejected the bytes of section `section`; `message`
    /// is its diagnostic.
    DecodeError { section: usize, message: String },
}

} // verus!

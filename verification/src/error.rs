//! The ways in which a stream can be found to be malformed.

use vstd::prelude::*;

verus! {

/// Why decompression stopped. Each value is final: a stream that has reported
/// one reports it again on every later call.
#[derive(Clone, Copy, Debug, PartialEq, Eq, Structural)]
pub enum InflateError {
    /// The zlib header names a compression method other than 8.
    UnknownMethod(u8),
    /// The zlib header asks for a window of more than 32 KiB.
    InvalidWindowInfo(u8),
    /// The two header bytes, read as one number, are no multiple of 31.
    InvalidChecksum(u8, u8),
    /// The zlib header asks for a preset dictionary.
    PresetDictionary,
    /// A block header follows the block that was marked as the last one.
    DataAfterFinalBlock,
    /// A block of the reserved type 3.
    UnimplementedBlockType(u8),
    /// A stored block, of the given length; stored blocks are not decoded.
    StoredBlock(u16),
    /// Code lengths that no prefix code can have.
    BadCodeLengths,
    /// The code length alphabet repeats a length beyond the number of lengths
    /// that the block has.
    LengthsOverrun,
    /// The code length alphabet asks to repeat a length before any was given.
    NoPreviousLength,
    /// Bits that are the code of no symbol.
    BadCode,
    /// A literal/length symbol above 285.
    BadLengthCode(u16),
    /// A distance symbol above 29.
    BadDistanceCode(u16),
    /// A distance that reaches back further than the output produced so far,
    /// or than the window.
    DistanceTooFar(u16),
}

} // verus!

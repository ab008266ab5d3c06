//! Error taxonomy of the extractor core.

use vstd::prelude::*;

verus! {

/// Code of the [`StreamError`] the library itself raises when a seek
/// target lies before the start or past the end of an extent stream.
pub const SEEK_OUT_OF_RANGE: u64 = u64::MAX;

/// Code of the [`StreamError`] the library itself raises when a write
/// makes no progress before the requested bytes are exhausted.
pub const WRITE_STALLED: u64 = u64::MAX - 1;

/// Code of the [`StreamError`] the library itself raises when a
/// decompressor rejects an operation's payload data.
pub const DECODE_FAILED: u64 = u64::MAX - 2;

/// A failure reported by an underlying byte stream.
///
/// The code is chosen by the stream implementation and carried through the
/// library unchanged, so a caller can recognize its own failure again.
#[derive(Clone, Copy, PartialEq, Eq, Debug, Structural)]
pub struct StreamError {
    pub code: u64,
}

/// Every failure the extractor core can surface.
#[derive(PartialEq, Eq, Debug)]
pub enum ExtractError {
    /// An underlying read, write or seek failed; carries the cause.
    Io(StreamError),
    /// A raw extent was missing a field, marked a sparse hole, the block
    /// size was zero, or the byte ranges were unusable.
    InvalidExtent,
    /// An operation carried no destination extents.
    MissingDstExtents,
    /// A source-requiring operation had no source image available.
    MissingSource,
    /// A data-requiring operation had no data window in the payload.
    MissingData,
    /// The numeric operation code is outside the known enumeration.
    InvalidOperationType(i32),
    /// The operation type is recognized but not implemented.
    UnsupportedOperation(i32),
    /// A digest differed from the expected one; both are base64-encoded.
    HashMismatch { expected: String, actual: String },
    /// The binary patch engine found corrupt patch input.
    PatchMalformed,
    /// The payload file version is not the supported one.
    UnsupportedVersion(u64),
    /// The payload header magic or structure is invalid.
    HeaderMalformed,
}

} // verus!

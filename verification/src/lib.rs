//! Verified core of an Android OTA update payload extractor.
//!
//! The library interprets a parsed update manifest against a seekable
//! payload blob and materializes partition images.  Scattered byte
//! ranges (extents) are presented as contiguous streams, operation
//! payloads are decoded, hashes are verified, and binary patches are
//! applied, all with machine-checked contracts.

use vstd::prelude::*;

pub mod bspatch;
pub mod cli;
pub mod codecs;
pub mod digest;
pub mod errors;
pub mod extent;
pub mod extent_stream;
pub mod extract;
pub mod manifest;
pub mod payload;
pub mod stream;

verus! {

/// Computes `pos + offset` for a relative seek, guarding against a
/// result that would lie before `start`.
///
/// Returns the absolute position on success; on failure the signed
/// out-of-range value is handed back for diagnostics.
pub fn calculate_rel(start: u64, pos: u64, offset: i64) -> (r: Result<u64, i64>)
    requires
        pos <= i64::MAX,
        pos + offset <= i64::MAX,
    ensures
        pos + offset >= start ==> r == Ok::<u64, i64>((pos + offset) as u64),
        pos + offset < start ==> r == Err::<u64, i64>((pos + offset) as i64),
{
    let spos: i64 = pos as i64;
    let abs_pos: i64 = spos + offset;
    if abs_pos >= 0 && abs_pos as u64 >= start {
        Ok(abs_pos as u64)
    } else {
        Err(abs_pos)
    }
}

} // verus!

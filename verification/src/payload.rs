//! The fixed payload file header.
//!
//! A payload opens with a magic, a format version, the manifest size
//! and the metadata signature size, all big-endian; the data blob
//! begins after the header, the manifest and the signature.

use vstd::prelude::*;

use crate::errors::ExtractError;

verus! {

/// The number of bytes of the fixed header.
pub const PAYLOAD_HEADER_LEN: usize = 24;

/// A big-endian 64-bit integer read from 8 bytes.
pub open spec fn be64_at(b: Seq<u8>, i: int) -> int {
    ((((((b[i] * 256 + b[i + 1]) * 256 + b[i + 2]) * 256 + b[i + 3]) * 256 + b[i + 4]) * 256 + b[i
        + 5]) * 256 + b[i + 6]) * 256 + b[i + 7]
}

/// A big-endian 32-bit integer read from 4 bytes.
pub open spec fn be32_at(b: Seq<u8>, i: int) -> int {
    ((b[i] * 256 + b[i + 1]) * 256 + b[i + 2]) * 256 + b[i + 3]
}

/// Whether the header bytes open with the payload magic `CrAU`.
pub open spec fn magic_ok(b: Seq<u8>) -> bool {
    b.len() >= 4 && b[0] == 0x43u8 && b[1] == 0x72u8 && b[2] == 0x41u8 && b[3] == 0x55u8
}

/// The fixed fields of a payload file header.
#[derive(Clone, Copy, PartialEq, Eq, Structural, Debug)]
pub struct PayloadHeader {
    pub file_format_version: u64,
    pub manifest_size: u64,
    pub metadata_signature_size: u32,
}

impl PayloadHeader {
    /// Where the data blob starts: after the header, the manifest and
    /// the metadata signature.  `None` when the sizes do not fit.
    pub fn data_offset(&self) -> (r: Option<u64>)
        ensures
            match r {
                Some(v) => v == PAYLOAD_HEADER_LEN + self.manifest_size
                    + self.metadata_signature_size,
                None => PAYLOAD_HEADER_LEN + self.manifest_size + self.metadata_signature_size
                    > u64::MAX,
            },
    {
        match (PAYLOAD_HEADER_LEN as u64).checked_add(self.manifest_size) {
            Some(s) => s.checked_add(self.metadata_signature_size as u64),
            None => None,
        }
    }
}

/// Reads a big-endian 64-bit integer at `i`.
fn read_be64(b: &[u8], i: usize) -> (r: u64)
    requires
        i + 8 <= b@.len(),
    ensures
        r == be64_at(b@, i as int),
{
    let mut v: u64 = b[i] as u64;
    v = v * 256 + b[i + 1] as u64;
    v = v * 256 + b[i + 2] as u64;
    v = v * 256 + b[i + 3] as u64;
    v = v * 256 + b[i + 4] as u64;
    v = v * 256 + b[i + 5] as u64;
    v = v * 256 + b[i + 6] as u64;
    v = v * 256 + b[i + 7] as u64;
    v
}

/// Reads a big-endian 32-bit integer at `i`.
fn read_be32(b: &[u8], i: usize) -> (r: u32)
    requires
        i + 4 <= b@.len(),
    ensures
        r == be32_at(b@, i as int),
{
    let mut v: u32 = b[i] as u32;
    v = v * 256 + b[i + 1] as u32;
    v = v * 256 + b[i + 2] as u32;
    v = v * 256 + b[i + 3] as u32;
    v
}

/// Parses the fixed payload header: the `CrAU` magic, the format
/// version (which must be exactly 2), the manifest size and the
/// metadata signature size.
pub fn parse_payload_header(h: &[u8]) -> (r: Result<PayloadHeader, ExtractError>)
    ensures
        match r {
            Ok(ph) => {
                &&& h@.len() >= PAYLOAD_HEADER_LEN
                &&& magic_ok(h@)
                &&& ph.file_format_version == 2
                &&& be64_at(h@, 4) == 2
                &&& ph.manifest_size == be64_at(h@, 12)
                &&& ph.metadata_signature_size == be32_at(h@, 20)
            },
            Err(e) => match e {
                ExtractError::HeaderMalformed => h@.len() < PAYLOAD_HEADER_LEN || !magic_ok(h@),
                ExtractError::UnsupportedVersion(v) => {
                    &&& h@.len() >= PAYLOAD_HEADER_LEN
                    &&& magic_ok(h@)
                    &&& v == be64_at(h@, 4)
                    &&& v != 2
                },
                _ => false,
            },
        },
{
    if h.len() < PAYLOAD_HEADER_LEN {
        return Err(ExtractError::HeaderMalformed);
    }
    if !(h[0] == 0x43 && h[1] == 0x72 && h[2] == 0x41 && h[3] == 0x55) {
        return Err(ExtractError::HeaderMalformed);
    }
    let version = read_be64(h, 4);
    if version != 2 {
        return Err(ExtractError::UnsupportedVersion(version));
    }
    let manifest_size = read_be64(h, 12);
    let metadata_signature_size = read_be32(h, 20);
    Ok(
        PayloadHeader {
            file_format_version: version,
            manifest_size,
            metadata_signature_size,
        },
    )
}

} // verus!

//! Decompressors, treated as black-box byte transformers.
//!
//! Whether a codec accepts an input, and what it yields when it does,
//! are both functions of the input bytes alone; the library names both
//! and never restates the compression formats themselves.

use vstd::prelude::*;

verus! {

/// Whether bzip2 decompression accepts an input as a complete stream.
pub uninterp spec fn bz2_accepts(b: Seq<u8>) -> bool;

/// What bzip2 decompression yields on an input it accepts.
pub uninterp spec fn bz2_inflate(b: Seq<u8>) -> Seq<u8>;

/// Whether xz decompression accepts an input as a complete stream.
pub uninterp spec fn xz_accepts(b: Seq<u8>) -> bool;

/// What xz decompression yields on an input it accepts.
pub uninterp spec fn xz_inflate(b: Seq<u8>) -> Seq<u8>;

/// Whether brotli decompression accepts an input as a complete stream.
pub uninterp spec fn brotli_accepts(b: Seq<u8>) -> bool;

/// What brotli decompression yields on an input it accepts.
pub uninterp spec fn brotli_inflate(b: Seq<u8>) -> Seq<u8>;

/// Relies on bzip2::read::BzDecoder: it accepts or rejects an input,
/// and decompresses an accepted one, depending on the input alone.
#[verifier::external_body]
pub(crate) fn bz2_decompress(data: &[u8]) -> (r: Option<Vec<u8>>)
    ensures
        r is Some <==> bz2_accepts(data@),
        r is Some ==> r->0@ == bz2_inflate(data@),
{
    let mut out = Vec::new();
    let mut dec = bzip2::read::BzDecoder::new(data);
    match std::io::Read::read_to_end(&mut dec, &mut out) {
        Ok(_) => Some(out),
        Err(_) => None,
    }
}

/// Relies on xz2::read::XzDecoder: it accepts or rejects an input,
/// and decompresses an accepted one, depending on the input alone.
#[verifier::external_body]
pub(crate) fn xz_decompress(data: &[u8]) -> (r: Option<Vec<u8>>)
    ensures
        r is Some <==> xz_accepts(data@),
        r is Some ==> r->0@ == xz_inflate(data@),
{
    let mut out = Vec::new();
    let mut dec = xz2::read::XzDecoder::new(data);
    match std::io::Read::read_to_end(&mut dec, &mut out) {
        Ok(_) => Some(out),
        Err(_) => None,
    }
}

/// Relies on brotli::Decompressor: it accepts or rejects an input,
/// and decompresses an accepted one, depending on the input alone.
#[verifier::external_body]
pub(crate) fn brotli_decompress(data: &[u8]) -> (r: Option<Vec<u8>>)
    ensures
        r is Some <==> brotli_accepts(data@),
        r is Some ==> r->0@ == brotli_inflate(data@),
{
    let mut out = Vec::new();
    let mut dec = brotli::Decompressor::new(data, 4096);
    match std::io::Read::read_to_end(&mut dec, &mut out) {
        Ok(_) => Some(out),
        Err(_) => None,
    }
}

} // verus!

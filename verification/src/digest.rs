//! Hash verification over a stream range.

use vstd::prelude::*;

use crate::errors::ExtractError;
use crate::extent_stream::{ExtentStream, SeekFrom};
use crate::stream::ReadStream;

verus! {

/// The SHA-256 digest of a byte sequence: computed by the outside hash
/// implementation, a function of the bytes alone.
pub uninterp spec fn sha256_of(b: Seq<u8>) -> Seq<u8>;

/// The standard base64 encoding of a byte sequence.
pub uninterp spec fn base64_of(b: Seq<u8>) -> Seq<char>;

/// Relies on sha2::Sha256 through Digest::digest: the SHA-256 digest of
/// the input, 32 bytes, depending on the input alone.
#[verifier::external_body]
fn sha256(data: &[u8]) -> (r: Vec<u8>)
    ensures
        r@ == sha256_of(data@),
        r@.len() == 32,
{
    <sha2::Sha256 as sha2::Digest>::digest(data).to_vec()
}

/// Relies on base64's standard engine: the standard base64 encoding of
/// the input, depending on the input alone.
#[verifier::external_body]
fn base64_encode(data: &[u8]) -> (r: String)
    ensures
        r@ == base64_of(data@),
{
    base64::Engine::encode(&base64::engine::general_purpose::STANDARD, data)
}

/// Whether two byte slices hold the same bytes.
fn bytes_equal(a: &[u8], b: &[u8]) -> (r: bool)
    ensures
        r == (a@ == b@),
{
    if a.len() != b.len() {
        return false;
    }
    let n = a.len();
    let mut i: usize = 0;
    while i < n
        invariant
            i <= n,
            n == a@.len() == b@.len(),
            forall|j: int| 0 <= j < i ==> a@[j] == b@[j],
        decreases n - i,
    {
        if a[i] != b[i] {
            return false;
        }
        i += 1;
    }
    proof {
        assert(a@ =~= b@);
    }
    true
}

/// Compares the SHA-256 digest of an in-memory byte window against the
/// expected one.
pub fn check_hash_bytes(bytes: &[u8], expected_hash: &[u8]) -> (r: Result<(), ExtractError>)
    ensures
        match r {
            Ok(_) => sha256_of(bytes@) == expected_hash@,
            Err(e) => match e {
                ExtractError::HashMismatch { expected, actual } => {
                    &&& sha256_of(bytes@) != expected_hash@
                    &&& expected@ == base64_of(expected_hash@)
                    &&& actual@ == base64_of(sha256_of(bytes@))
                },
                _ => false,
            },
        },
{
    let hash = sha256(bytes);
    if bytes_equal(hash.as_slice(), expected_hash) {
        Ok(())
    } else {
        Err(
            ExtractError::HashMismatch {
                expected: base64_encode(expected_hash),
                actual: base64_encode(hash.as_slice()),
            },
        )
    }
}

/// The bytes `check_hash` digests: the stream's projection from the
/// current position to its effective end.
pub open spec fn hashed_range<T: ReadStream>(stream: &ExtentStream<T>) -> Seq<u8> {
    if stream.pos() <= stream.projected().len() {
        stream.projected().skip(stream.pos())
    } else {
        Seq::empty()
    }
}

/// Reads the stream from its current position to the end into a SHA-256
/// digest, compares it against the expected one, and restores the
/// position.  The position is restored on a mismatch as well, because
/// the same stream is read again for the actual operation.
pub fn check_hash<T: ReadStream>(stream: &mut ExtentStream<T>, expected_hash: &[u8]) -> (r: Result<
    (),
    ExtractError,
>)
    requires
        old(stream).wf(),
    ensures
        final(stream).exts() == old(stream).exts(),
        final(stream).inner_bytes() == old(stream).inner_bytes(),
        final(stream).inner_cap() == old(stream).inner_cap(),
        final(stream).inner_ok() == old(stream).inner_ok(),
        match r {
            Ok(_) => {
                &&& final(stream).wf()
                &&& final(stream).pos() == old(stream).pos()
                &&& sha256_of(hashed_range(old(stream))) == expected_hash@
            },
            Err(e) => match e {
                ExtractError::HashMismatch { expected, actual } => {
                    &&& final(stream).wf()
                    &&& final(stream).pos() == old(stream).pos()
                    &&& sha256_of(hashed_range(old(stream))) != expected_hash@
                    &&& expected@ == base64_of(expected_hash@)
                    &&& actual@ == base64_of(sha256_of(hashed_range(old(stream))))
                },
                ExtractError::Io(_) => !old(stream).inner_ok(),
                _ => false,
            },
        },
{
    proof {
        stream.lemma_pos_in_range();
    }
    let pos = stream.stream_position();
    let bytes = match stream.read_to_end() {
        Ok(v) => v,
        Err(e) => {
            return Err(ExtractError::Io(e));
        },
    };
    let hash = sha256(bytes.as_slice());
    match stream.seek(SeekFrom::Start(pos)) {
        Ok(_) => {},
        Err(e) => {
            return Err(ExtractError::Io(e));
        },
    }
    if bytes_equal(hash.as_slice(), expected_hash) {
        Ok(())
    } else {
        Err(
            ExtractError::HashMismatch {
                expected: base64_encode(expected_hash),
                actual: base64_encode(hash.as_slice()),
            },
        )
    }
}

} // verus!

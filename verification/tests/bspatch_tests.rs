use std::io::Read;

use ota_payload::bspatch::bspatch;
use ota_payload::errors::{ExtractError, StreamError};
use ota_payload::stream::{MemoryStream, StreamBase, WriteStream};

fn bz2(data: &[u8]) -> Vec<u8> {
    let mut out = Vec::new();
    bzip2::read::BzEncoder::new(data, bzip2::Compression::new(6))
        .read_to_end(&mut out)
        .unwrap();
    out
}

fn brotli_pack(data: &[u8]) -> Vec<u8> {
    let mut out = Vec::new();
    brotli::CompressorReader::new(data, 4096, 5, 22)
        .read_to_end(&mut out)
        .unwrap();
    out
}

fn off_bytes(v: i64) -> [u8; 8] {
    let mag = v.unsigned_abs();
    let mut b = [0u8; 8];
    for (i, slot) in b.iter_mut().enumerate() {
        *slot = ((mag >> (8 * i)) & 0xff) as u8;
    }
    if v < 0 {
        b[7] |= 0x80;
    }
    b
}

/// Control stream of two triples, with the diff and extra streams and
/// the expected output for the fixture source below.
fn fixture() -> (Vec<u8>, Vec<u8>, Vec<u8>, Vec<u8>, Vec<u8>) {
    let old = vec![1u8, 2, 3, 4, 5, 6, 7, 8, 9, 10];
    let mut ctrl = Vec::new();
    // x = 4, y = 2, z = 1
    ctrl.extend_from_slice(&off_bytes(4));
    ctrl.extend_from_slice(&off_bytes(2));
    ctrl.extend_from_slice(&off_bytes(1));
    // x = 3, y = 0, z = 0
    ctrl.extend_from_slice(&off_bytes(3));
    ctrl.extend_from_slice(&off_bytes(0));
    ctrl.extend_from_slice(&off_bytes(0));
    let diff = vec![1u8, 1, 1, 1, 2, 2, 2];
    let extra = vec![100u8, 101];
    // new[0..4] = old[0..4] + 1, then the extra bytes, then
    // old[5..8] + 2 (the z = 1 skip moves the source position to 5).
    let expected = vec![2u8, 3, 4, 5, 100, 101, 8, 9, 10];
    (old, ctrl, diff, extra, expected)
}

fn build_patch(magic: &[u8], comp: Option<[u8; 3]>, ctrl: &[u8], diff: &[u8], extra: &[u8], new_len: i64) -> Vec<u8> {
    let mut p = Vec::new();
    p.extend_from_slice(magic);
    if let Some(c) = comp {
        p.extend_from_slice(&c);
    }
    p.extend_from_slice(&off_bytes(ctrl.len() as i64));
    p.extend_from_slice(&off_bytes(diff.len() as i64));
    p.extend_from_slice(&off_bytes(new_len));
    p.extend_from_slice(ctrl);
    p.extend_from_slice(diff);
    p.extend_from_slice(extra);
    p
}

#[test]
fn bspatch_roundtrip_bz2_test() {
    let (old, ctrl, diff, extra, expected) = fixture();
    let patch = build_patch(
        b"BSDF2",
        Some([1, 1, 1]),
        &bz2(&ctrl),
        &bz2(&diff),
        &bz2(&extra),
        expected.len() as i64,
    );
    let mut src = MemoryStream::new_fixed(old);
    let mut dst = MemoryStream::new_growable(Vec::new());
    bspatch(&mut src, &mut dst, &patch).unwrap();
    assert!(dst.into_inner() == expected);
}

#[test]
fn bspatch_roundtrip_brotli_test() {
    let (old, ctrl, diff, extra, expected) = fixture();
    let patch = build_patch(
        b"BSDF2",
        Some([1, 2, 1]),
        &bz2(&ctrl),
        &brotli_pack(&diff),
        &bz2(&extra),
        expected.len() as i64,
    );
    let mut src = MemoryStream::new_fixed(old);
    let mut dst = MemoryStream::new_growable(Vec::new());
    bspatch(&mut src, &mut dst, &patch).unwrap();
    assert!(dst.into_inner() == expected);
}

#[test]
fn bspatch_legacy_magic_test() {
    let (old, ctrl, diff, extra, expected) = fixture();
    let patch = build_patch(
        b"BSDIFF40",
        None,
        &bz2(&ctrl),
        &bz2(&diff),
        &bz2(&extra),
        expected.len() as i64,
    );
    let mut src = MemoryStream::new_fixed(old);
    let mut dst = MemoryStream::new_growable(Vec::new());
    bspatch(&mut src, &mut dst, &patch).unwrap();
    assert!(dst.into_inner() == expected);
}

#[test]
fn bspatch_malformed_test() {
    let (old, ctrl, diff, extra, expected) = fixture();
    // Wrong magic.
    let patch = build_patch(
        b"BSDXX",
        Some([1, 1, 1]),
        &bz2(&ctrl),
        &bz2(&diff),
        &bz2(&extra),
        expected.len() as i64,
    );
    let mut src = MemoryStream::new_fixed(old.clone());
    let mut dst = MemoryStream::new_growable(Vec::new());
    assert_eq!(
        bspatch(&mut src, &mut dst, &patch),
        Err(ExtractError::PatchMalformed)
    );

    // Control stream cut short: claims more output than it describes.
    let patch = build_patch(
        b"BSDF2",
        Some([1, 1, 1]),
        &bz2(&ctrl[..24]),
        &bz2(&diff),
        &bz2(&extra),
        expected.len() as i64,
    );
    let mut src = MemoryStream::new_fixed(old.clone());
    let mut dst = MemoryStream::new_growable(Vec::new());
    assert_eq!(
        bspatch(&mut src, &mut dst, &patch),
        Err(ExtractError::PatchMalformed)
    );

    // Corrupt compressed bytes.
    let mut bad = bz2(&ctrl);
    let last = bad.len() - 1;
    bad[last] ^= 0xff;
    bad.truncate(bad.len() - 2);
    let patch = build_patch(
        b"BSDF2",
        Some([1, 1, 1]),
        &bad,
        &bz2(&diff),
        &bz2(&extra),
        expected.len() as i64,
    );
    let mut src = MemoryStream::new_fixed(old);
    let mut dst = MemoryStream::new_growable(Vec::new());
    assert_eq!(
        bspatch(&mut src, &mut dst, &patch),
        Err(ExtractError::PatchMalformed)
    );
}

/// A destination that starts failing with a fixed error once more than
/// `limit` bytes have been taken.
struct BadWriter {
    inner: MemoryStream,
    limit: usize,
    count: usize,
}

impl StreamBase for BadWriter {
    fn contents(&self) -> vstd::prelude::Seq<u8> {
        unreachable!()
    }

    fn pos(&self) -> vstd::prelude::int {
        unreachable!()
    }

    fn capacity(&self) -> vstd::prelude::int {
        unreachable!()
    }

    fn infallible(&self) -> bool {
        unreachable!()
    }

    fn lemma_stream_bounds(&self) {}

    fn cur_pos(&self) -> usize {
        self.inner.cur_pos()
    }

    fn seek_start(&mut self, p: usize) -> Result<(), StreamError> {
        self.inner.seek_start(p)
    }

    fn stream_end(&mut self) -> Result<usize, StreamError> {
        self.inner.stream_end()
    }

    fn flush_stream(&mut self) -> Result<(), StreamError> {
        self.inner.flush_stream()
    }
}

impl WriteStream for BadWriter {
    fn write_chunk(&mut self, buf: &[u8]) -> Result<usize, StreamError> {
        if self.count > self.limit {
            Err(StreamError { code: 13 })
        } else {
            let n = self.inner.write_chunk(buf)?;
            self.count += n;
            Ok(n)
        }
    }
}

#[test]
fn bspatch_io_err_propagation_test() {
    let (old, ctrl, diff, extra, expected) = fixture();
    let patch = build_patch(
        b"BSDF2",
        Some([1, 1, 1]),
        &bz2(&ctrl),
        &bz2(&diff),
        &bz2(&extra),
        expected.len() as i64,
    );
    let mut src = MemoryStream::new_fixed(old);
    let mut dst = BadWriter {
        inner: MemoryStream::new_growable(Vec::new()),
        limit: expected.len() / 2,
        count: 0,
    };
    let err = bspatch(&mut src, &mut dst, &patch);
    assert_eq!(err, Err(ExtractError::Io(StreamError { code: 13 })));
}

#[test]
fn bspatch_reads_whole_source_test() {
    // A patch that copies the source unchanged; fails if the source
    // stream were not really consulted.
    let old = vec![9u8, 8, 7, 6];
    let mut ctrl = Vec::new();
    ctrl.extend_from_slice(&off_bytes(4));
    ctrl.extend_from_slice(&off_bytes(0));
    ctrl.extend_from_slice(&off_bytes(0));
    let diff = vec![0u8; 4];
    let extra = Vec::new();
    let patch = build_patch(b"BSDF2", Some([1, 1, 1]), &bz2(&ctrl), &bz2(&diff), &bz2(&extra), 4);
    let mut src = MemoryStream::new_fixed(old.clone());
    let mut dst = MemoryStream::new_growable(Vec::new());
    bspatch(&mut src, &mut dst, &patch).unwrap();
    assert_eq!(dst.into_inner(), old);
}

use std::io::Read;

use ota_payload::errors::ExtractError;
use ota_payload::extent_stream::ExtentStream;
use ota_payload::extract::process_part;
use ota_payload::manifest::{
    DeltaArchiveManifest, InstallOperation, PartitionUpdate, RawExtent,
};
use ota_payload::stream::MemoryStream;

fn raw(start_block: u64, num_blocks: u64) -> RawExtent {
    RawExtent {
        start_block: Some(start_block),
        num_blocks: Some(num_blocks),
    }
}

fn op(op_type: i32) -> InstallOperation {
    InstallOperation {
        op_type,
        data_offset: None,
        data_length: None,
        src_sha256_hash: None,
        data_sha256_hash: None,
        src_extents: Vec::new(),
        dst_extents: Vec::new(),
    }
}

fn manifest(block_size: u32, ops: Vec<InstallOperation>) -> (DeltaArchiveManifest, PartitionUpdate) {
    let part = PartitionUpdate {
        partition_name: "system".to_string(),
        operations: ops,
        run_postinstall: None,
        postinstall_path: None,
    };
    let m = DeltaArchiveManifest {
        block_size: Some(block_size),
        minor_version: None,
        security_patch_level: None,
        partitions: vec![part.clone()],
    };
    (m, part)
}

fn run(
    m: &DeltaArchiveManifest,
    part: &PartitionUpdate,
    blob: Vec<u8>,
    src: Option<Vec<u8>>,
    skip_hash: bool,
) -> Result<Vec<u8>, ExtractError> {
    let mut data = ExtentStream::new_suffix(MemoryStream::new_fixed(blob), 0).unwrap();
    let dst = MemoryStream::new_growable(Vec::new());
    let src_stream = src.map(MemoryStream::new_fixed);
    process_part(m, part, &mut data, src_stream, dst, skip_hash).map(MemoryStream::into_inner)
}

#[test]
fn replace_pads_to_destination_length_test() {
    // One destination block of 4 bytes, data shorter: zero-padded.
    let mut o = op(0);
    o.dst_extents = vec![raw(0, 1)];
    o.data_offset = Some(0);
    o.data_length = Some(3);
    let (m, part) = manifest(4, vec![o]);
    let out = run(&m, &part, vec![7, 8, 9, 99], None, true).unwrap();
    assert_eq!(out, vec![7, 8, 9, 0]);
}

#[test]
fn replace_scattered_extents_test() {
    // Two destination blocks with a gap; the first never written stays
    // zero only where the file already reached.
    let mut o = op(0);
    o.dst_extents = vec![raw(0, 1), raw(2, 1)];
    o.data_offset = Some(1);
    o.data_length = Some(4);
    let (m, part) = manifest(2, vec![o]);
    let out = run(&m, &part, vec![50, 51, 52, 53, 54], None, true).unwrap();
    assert_eq!(out, vec![51, 52, 0, 0, 53, 54]);
}

#[test]
fn replace_bz_test() {
    let plain = vec![5u8, 6, 7];
    let mut packed = Vec::new();
    bzip2::read::BzEncoder::new(plain.as_slice(), bzip2::Compression::new(6))
        .read_to_end(&mut packed)
        .unwrap();
    let len = packed.len() as u64;
    let mut o = op(1);
    o.dst_extents = vec![raw(0, 1)];
    o.data_offset = Some(0);
    o.data_length = Some(len);
    let (m, part) = manifest(4, vec![o]);
    let out = run(&m, &part, packed, None, true).unwrap();
    assert_eq!(out, vec![5, 6, 7, 0]);
}

#[test]
fn replace_xz_test() {
    let plain = vec![11u8, 12, 13, 14, 15];
    let mut packed = Vec::new();
    xz2::read::XzEncoder::new(plain.as_slice(), 6)
        .read_to_end(&mut packed)
        .unwrap();
    let len = packed.len() as u64;
    let mut o = op(8);
    o.dst_extents = vec![raw(0, 1)];
    o.data_offset = Some(0);
    o.data_length = Some(len);
    let (m, part) = manifest(6, vec![o]);
    let out = run(&m, &part, packed, None, true).unwrap();
    assert_eq!(out, vec![11, 12, 13, 14, 15, 0]);
}

#[test]
fn zero_operation_test() {
    let mut o = op(6);
    o.dst_extents = vec![raw(1, 1)];
    let (m, part) = manifest(3, vec![o]);
    let out = run(&m, &part, Vec::new(), None, true).unwrap();
    assert_eq!(out, vec![0, 0, 0, 0, 0, 0]);
}

#[test]
fn source_copy_test() {
    let mut o = op(4);
    o.src_extents = vec![raw(1, 1)];
    o.dst_extents = vec![raw(0, 2)];
    let (m, part) = manifest(2, vec![o]);
    let out = run(&m, &part, Vec::new(), Some(vec![1, 2, 3, 4]), true).unwrap();
    assert_eq!(out, vec![3, 4, 0, 0]);
}

#[test]
fn hash_checked_source_copy_test() {
    let src = vec![1u8, 2, 3, 4];
    let digest: Vec<u8> = <sha2::Sha256 as sha2::Digest>::digest(&src[2..4]).to_vec();
    let mut o = op(4);
    o.src_extents = vec![raw(1, 1)];
    o.dst_extents = vec![raw(0, 2)];
    o.src_sha256_hash = Some(digest);
    let (m, part) = manifest(2, vec![o]);
    let out = run(&m, &part, Vec::new(), Some(src), false).unwrap();
    assert_eq!(out, vec![3, 4, 0, 0]);
}

#[test]
fn hash_mismatch_test() {
    let mut o = op(0);
    o.dst_extents = vec![raw(0, 1)];
    o.data_offset = Some(0);
    o.data_length = Some(2);
    // The "digest" is the raw window itself, which is never its own
    // SHA-256 digest.
    o.data_sha256_hash = Some(vec![9, 9]);
    let (m, part) = manifest(2, vec![o]);
    let err = run(&m, &part, vec![9, 9], None, false).unwrap_err();
    match err {
        ExtractError::HashMismatch { expected, actual } => {
            let window = [9u8, 9];
            let digest: Vec<u8> = <sha2::Sha256 as sha2::Digest>::digest(window).to_vec();
            assert_eq!(
                expected,
                base64::Engine::encode(&base64::engine::general_purpose::STANDARD, [9u8, 9])
            );
            assert_eq!(
                actual,
                base64::Engine::encode(&base64::engine::general_purpose::STANDARD, digest)
            );
        },
        other => panic!("unexpected error {:?}", other),
    }
}

#[test]
fn skip_hash_ignores_digests_test() {
    let mut o = op(0);
    o.dst_extents = vec![raw(0, 1)];
    o.data_offset = Some(0);
    o.data_length = Some(2);
    o.data_sha256_hash = Some(vec![9, 9]);
    let (m, part) = manifest(2, vec![o]);
    let out = run(&m, &part, vec![9, 9], None, true).unwrap();
    assert_eq!(out, vec![9, 9]);
}

#[test]
fn invalid_operation_type_test() {
    let mut o = op(99);
    o.dst_extents = vec![raw(0, 1)];
    let (m, part) = manifest(2, vec![o]);
    assert_eq!(
        run(&m, &part, Vec::new(), None, true),
        Err(ExtractError::InvalidOperationType(99))
    );
}

#[test]
fn unsupported_operation_test() {
    // Discard is recognized but rejected.
    let mut o = op(7);
    o.dst_extents = vec![raw(0, 1)];
    let (m, part) = manifest(2, vec![o]);
    assert_eq!(
        run(&m, &part, Vec::new(), None, true),
        Err(ExtractError::UnsupportedOperation(7))
    );
}

#[test]
fn missing_dst_extents_test() {
    let o = op(0);
    let (m, part) = manifest(2, vec![o]);
    assert_eq!(
        run(&m, &part, Vec::new(), None, true),
        Err(ExtractError::MissingDstExtents)
    );
}

#[test]
fn missing_data_test() {
    let mut o = op(0);
    o.dst_extents = vec![raw(0, 1)];
    let (m, part) = manifest(2, vec![o]);
    assert_eq!(
        run(&m, &part, Vec::new(), None, true),
        Err(ExtractError::MissingData)
    );
}

#[test]
fn missing_source_test() {
    let mut o = op(4);
    o.src_extents = vec![raw(0, 1)];
    o.dst_extents = vec![raw(0, 1)];
    let (m, part) = manifest(2, vec![o]);
    assert_eq!(
        run(&m, &part, Vec::new(), None, true),
        Err(ExtractError::MissingSource)
    );
}

#[test]
fn invalid_extent_test() {
    // A sparse hole is rejected.
    let mut o = op(0);
    o.dst_extents = vec![RawExtent { start_block: Some(u64::MAX), num_blocks: Some(1) }];
    o.data_offset = Some(0);
    o.data_length = Some(1);
    let (m, part) = manifest(2, vec![o]);
    assert_eq!(
        run(&m, &part, vec![1], None, true),
        Err(ExtractError::InvalidExtent)
    );
}

#[test]
fn later_operation_reads_earlier_writes_test() {
    // Two operations in order: the second overwrites part of the first.
    let mut o1 = op(0);
    o1.dst_extents = vec![raw(0, 2)];
    o1.data_offset = Some(0);
    o1.data_length = Some(4);
    let mut o2 = op(0);
    o2.dst_extents = vec![raw(1, 1)];
    o2.data_offset = Some(4);
    o2.data_length = Some(2);
    let (m, part) = manifest(2, vec![o1, o2]);
    let out = run(&m, &part, vec![1, 2, 3, 4, 8, 9], None, true).unwrap();
    assert_eq!(out, vec![1, 2, 8, 9]);
}

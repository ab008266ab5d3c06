use ota_payload::calculate_rel;
use ota_payload::extract::partition_selected;
use ota_payload::cli::parse_parts;
use ota_payload::digest::check_hash;
use ota_payload::errors::ExtractError;
use ota_payload::extent::Extent;
use ota_payload::extent_stream::ExtentStream;
use ota_payload::manifest::{
    DeltaArchiveManifest, HasUpdateType, InstallOperation, OperationType, PartitionUpdate,
    UpdateType,
};
use ota_payload::payload::{parse_payload_header, PAYLOAD_HEADER_LEN};
use ota_payload::stream::MemoryStream;

#[test]
fn calculate_rel_test() {
    assert_eq!(calculate_rel(0, 10, 5), Ok(15));
    assert_eq!(calculate_rel(0, 10, -10), Ok(0));
    assert_eq!(calculate_rel(0, 10, -11), Err(-1));
    assert_eq!(calculate_rel(4, 10, -7), Err(3));
}

#[test]
fn payload_header_test() {
    let mut h = Vec::new();
    h.extend_from_slice(b"CrAU");
    h.extend_from_slice(&2u64.to_be_bytes());
    h.extend_from_slice(&300u64.to_be_bytes());
    h.extend_from_slice(&17u32.to_be_bytes());
    assert_eq!(h.len(), PAYLOAD_HEADER_LEN);
    let ph = parse_payload_header(&h).unwrap();
    assert_eq!(ph.file_format_version, 2);
    assert_eq!(ph.manifest_size, 300);
    assert_eq!(ph.metadata_signature_size, 17);
    assert_eq!(ph.data_offset(), Some(24 + 300 + 17));
}

#[test]
fn payload_header_bad_magic_test() {
    let mut h = Vec::new();
    h.extend_from_slice(b"XXXX");
    h.extend_from_slice(&2u64.to_be_bytes());
    h.extend_from_slice(&300u64.to_be_bytes());
    h.extend_from_slice(&17u32.to_be_bytes());
    assert_eq!(parse_payload_header(&h), Err(ExtractError::HeaderMalformed));
    assert_eq!(
        parse_payload_header(&[0x43]),
        Err(ExtractError::HeaderMalformed)
    );
}

#[test]
fn payload_header_bad_version_test() {
    let mut h = Vec::new();
    h.extend_from_slice(b"CrAU");
    h.extend_from_slice(&3u64.to_be_bytes());
    h.extend_from_slice(&300u64.to_be_bytes());
    h.extend_from_slice(&17u32.to_be_bytes());
    assert_eq!(
        parse_payload_header(&h),
        Err(ExtractError::UnsupportedVersion(3))
    );
}

#[test]
fn parse_parts_test() {
    assert_eq!(parse_parts(&None), None);
    assert_eq!(parse_parts(&Some(None)), Some(Vec::new()));
    let got = parse_parts(&Some(Some("system, vendor ,\tboot".to_string()))).unwrap();
    assert_eq!(got, vec!["system", "vendor", "boot"]);
    let got = parse_parts(&Some(Some("one".to_string()))).unwrap();
    assert_eq!(got, vec!["one"]);
    let got = parse_parts(&Some(Some("a,,b,".to_string()))).unwrap();
    assert_eq!(got, vec!["a", "", "b", ""]);
    // Non-ASCII whitespace is trimmed too, as str::trim trims it.
    let got = parse_parts(&Some(Some("\u{00A0}system\u{2009}, boot".to_string()))).unwrap();
    assert_eq!(got, vec!["system", "boot"]);
}

fn op_of(code: i32) -> InstallOperation {
    InstallOperation {
        op_type: code,
        data_offset: None,
        data_length: None,
        src_sha256_hash: None,
        data_sha256_hash: None,
        src_extents: Vec::new(),
        dst_extents: Vec::new(),
    }
}

#[test]
fn update_type_test() {
    assert_eq!(
        OperationType::Replace.get_update_type(),
        UpdateType::Full
    );
    assert_eq!(
        OperationType::SourceBsdiff.get_update_type(),
        UpdateType::Incremental
    );
    assert_eq!(op_of(0).get_update_type(), UpdateType::Full);
    assert_eq!(op_of(4).get_update_type(), UpdateType::Incremental);
    assert_eq!(op_of(99).get_update_type(), UpdateType::Unknown);

    let full_part = PartitionUpdate {
        partition_name: "a".to_string(),
        operations: vec![op_of(0), op_of(6)],
        run_postinstall: None,
        postinstall_path: None,
    };
    assert_eq!(full_part.get_update_type(), UpdateType::Full);

    let incr_part = PartitionUpdate {
        partition_name: "b".to_string(),
        operations: vec![op_of(0), op_of(4)],
        run_postinstall: None,
        postinstall_path: None,
    };
    assert_eq!(incr_part.get_update_type(), UpdateType::Incremental);

    let empty_part = PartitionUpdate {
        partition_name: "c".to_string(),
        operations: Vec::new(),
        run_postinstall: None,
        postinstall_path: None,
    };
    assert_eq!(empty_part.get_update_type(), UpdateType::Full);

    let m = DeltaArchiveManifest {
        block_size: None,
        minor_version: None,
        security_patch_level: None,
        partitions: vec![full_part, incr_part],
    };
    assert_eq!(m.get_update_type(), UpdateType::Incremental);

    let empty_m = DeltaArchiveManifest {
        block_size: None,
        minor_version: None,
        security_patch_level: None,
        partitions: Vec::new(),
    };
    assert_eq!(empty_m.get_update_type(), UpdateType::Full);
}

#[test]
fn check_hash_restores_position_test() {
    let bytes = vec![1u8, 2, 3, 4, 5, 6, 7, 8];
    let digest: Vec<u8> = <sha2::Sha256 as sha2::Digest>::digest(&bytes[2..8]).to_vec();
    let mut stream = ExtentStream::new(
        MemoryStream::new_fixed(bytes.clone()),
        vec![Extent { start: 2, len: 6 }],
    )
    .unwrap()
    .unwrap();
    // Success leaves the position where it was.
    check_hash(&mut stream, &digest).unwrap();
    assert_eq!(stream.read_to_end().unwrap(), bytes[2..8]);
    // A mismatch leaves it unchanged too.
    assert_eq!(
        stream.seek(ota_payload::extent_stream::SeekFrom::Start(1)).unwrap(),
        1
    );
    let wrong = vec![0u8; 32];
    assert!(matches!(
        check_hash(&mut stream, &wrong),
        Err(ExtractError::HashMismatch { .. })
    ));
    assert_eq!(stream.read_to_end().unwrap(), bytes[3..8]);
}

#[test]
fn check_hash_is_a_real_digest_test() {
    // Handing the raw bytes back as the "digest" must not pass: the
    // verifier computes an actual SHA-256.
    let bytes = vec![0u8; 32];
    let mut stream = ExtentStream::new(
        MemoryStream::new_fixed(bytes.clone()),
        vec![Extent { start: 0, len: 32 }],
    )
    .unwrap()
    .unwrap();
    assert!(check_hash(&mut stream, &bytes).is_err());
}

#[test]
fn partition_selected_test() {
    let name = "system".to_string();
    assert!(partition_selected(&None, &name));
    assert!(partition_selected(
        &Some(vec!["vendor".to_string(), "system".to_string()]),
        &name
    ));
    assert!(!partition_selected(&Some(vec!["vendor".to_string()]), &name));
    assert!(!partition_selected(&Some(Vec::new()), &name));
}

#[test]
fn suffix_and_range_stream_test() {
    // A suffix stream exposes everything from its start; a range
    // stream exposes exactly its window.
    let bytes: Vec<u8> = (0..10u8).collect();
    let mut s = ExtentStream::new_suffix(MemoryStream::new_fixed(bytes.clone()), 6).unwrap();
    assert_eq!(s.read_to_end().unwrap(), vec![6, 7, 8, 9]);
    let mut r = ExtentStream::new_range(MemoryStream::new_fixed(bytes), 2, 3).unwrap();
    assert_eq!(r.len(), 3);
    assert_eq!(r.read_to_end().unwrap(), vec![2, 3, 4]);
}

#[test]
fn action_get_file_test() {
    let a = ota_payload::cli::Action::Extract(ota_payload::cli::ExtractArgs {
        file: "payload.bin".to_string(),
        src: None,
        dst: "out".to_string(),
        parts: None,
        skip_hash: false,
    });
    assert_eq!(a.get_file(), "payload.bin");
    let b = ota_payload::cli::Action::Inspect(ota_payload::cli::InspectArgs {
        file: "other.bin".to_string(),
        dump_ops: None,
    });
    assert_eq!(b.get_file(), "other.bin");
}

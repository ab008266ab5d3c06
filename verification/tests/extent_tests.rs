use ota_payload::extent::{convert_extents, Extent};
use ota_payload::extent_stream::{ExtentStream, SeekFrom};
use ota_payload::manifest::RawExtent;
use ota_payload::stream::MemoryStream;

fn raw_extents() -> Vec<RawExtent> {
    vec![(0, 4), (6, 5), (20, 13), (80, 100)]
        .into_iter()
        .map(|(start_block, num_blocks)| RawExtent {
            start_block: Some(start_block),
            num_blocks: Some(num_blocks),
        })
        .collect()
}

const BLOCK_SIZE: usize = 3;

fn extents() -> Vec<Extent> {
    vec![(0, 3), (5, 2), (7, 3), (20, 5)]
        .into_iter()
        .map(|(start, len)| Extent { start, len })
        .collect()
}

fn extents_inner_len() -> usize {
    let e = extents();
    let last = e.last().unwrap();
    last.start + last.len
}

#[test]
fn extent_converter_test() {
    let extents = convert_extents(raw_extents().as_slice(), BLOCK_SIZE).unwrap();
    assert_eq!(
        extents,
        vec![(0, 12), (18, 15), (60, 39), (240, 300)]
            .into_iter()
            .map(|(start, len)| Extent { start, len })
            .collect::<Vec<_>>()
    )
}

#[test]
fn extent_converter_fail_test() {
    let mut raw = raw_extents();
    raw[2].start_block = None;
    assert!(convert_extents(raw.as_slice(), BLOCK_SIZE).is_err());

    let mut raw = raw_extents();
    raw[2].num_blocks = None;
    assert!(convert_extents(raw.as_slice(), BLOCK_SIZE).is_err());

    assert!(convert_extents(raw_extents().as_slice(), 0).is_err());
}

#[test]
fn extent_stream_read_test() {
    let src = (0..extents_inner_len() as u32 + 10)
        .map(|i| (2 * i + 1) as u8)
        .collect::<Vec<_>>();
    let mut stream = ExtentStream::new(MemoryStream::new_fixed(src), extents())
        .unwrap()
        .unwrap();
    let dst = stream.read_to_end().unwrap();
    assert_eq!(dst.len(), 13);
    assert_eq!(dst, [1, 3, 5, 11, 13, 15, 17, 19, 41, 43, 45, 47, 49]);
    assert_eq!(stream.read_to_end().unwrap().len(), 0);
}

#[test]
fn extent_stream_write_test() {
    let src = (0..13u32).map(|i| (2 * i + 1) as u8).collect::<Vec<_>>();
    let dst = vec![0u8; extents_inner_len()];
    let mut stream = ExtentStream::new(MemoryStream::new_fixed(dst), extents())
        .unwrap()
        .unwrap();
    stream.write_all(&src).unwrap();
    assert_eq!(stream.write(&src).unwrap(), 0);

    let dst = stream.into_inner().into_inner();
    assert_eq!(
        dst,
        [1, 3, 5, 0, 0, 7, 9, 11, 13, 15, 0, 0, 0, 0, 0, 0, 0, 0, 0, 0, 17, 19, 21, 23, 25]
    );
}

#[test]
fn extent_stream_seek_rw_test() {
    let data = vec![0u8; extents_inner_len()];
    let mut stream = ExtentStream::new(MemoryStream::new_fixed(data), extents())
        .unwrap()
        .unwrap();

    // write
    assert_eq!(stream.seek(SeekFrom::Start(7)).unwrap(), 7);
    stream.write_all(&[10, 11]).unwrap();
    stream.write_all(&[13, 14]).unwrap();
    assert_eq!(stream.seek(SeekFrom::Current(-7)).unwrap(), 4);
    stream.write_all(&[16, 17]).unwrap();
    assert_eq!(stream.seek(SeekFrom::End(-2)).unwrap(), 11);
    stream.write_all(&[19, 20]).unwrap();
    assert_eq!(stream.write(&[21]).unwrap(), 0);

    // read
    assert_eq!(stream.seek(SeekFrom::Start(5)).unwrap(), 5);
    let dst = stream.read_to_end().unwrap();
    assert_eq!(dst.len(), 8);
    assert_eq!(dst, [17, 0, 10, 11, 13, 14, 19, 20]);

    // write
    assert_eq!(stream.seek(SeekFrom::End(-7)).unwrap(), 6);
    stream.write_all(&[22, 23]).unwrap();

    // read
    assert_eq!(stream.seek(SeekFrom::Start(5)).unwrap(), 5);
    let dst = stream.read_to_end().unwrap();
    assert_eq!(dst.len(), 8);
    assert_eq!(dst, [17, 22, 23, 11, 13, 14, 19, 20]);

    let data = stream.into_inner().into_inner();
    let mut target = vec![0u8; 25];
    let changes = vec![
        (9, 10),
        (20, 11),
        (21, 13),
        (22, 14),
        (6, 16),
        (7, 17),
        (23, 19),
        (24, 20),
        (8, 22),
        (9, 23),
    ];
    for (i, v) in changes {
        target[i] = v;
    }
    assert_eq!(data, target);
}

#[test]
fn extent_stream_too_short_read_test() {
    let src = (0..21u32).map(|i| (2 * i + 1) as u8).collect::<Vec<_>>();
    let mut stream = ExtentStream::new(MemoryStream::new_fixed(src), extents())
        .unwrap()
        .unwrap();
    let dst = stream.read_to_end().unwrap();
    assert_eq!(dst.len(), 9);
    assert_eq!(dst, [1, 3, 5, 11, 13, 15, 17, 19, 41]);
    assert_eq!(stream.read_to_end().unwrap().len(), 0);
}

#[test]
fn extent_stream_too_short_write_test() {
    let src = (0..13u32).map(|i| (2 * i + 1) as u8).collect::<Vec<_>>();
    let dst = vec![0u8; 9];
    let mut stream = ExtentStream::new(MemoryStream::new_fixed(dst), extents())
        .unwrap()
        .unwrap();
    assert_eq!(stream.write(&src).unwrap(), 7);
    assert_eq!(stream.write(&src).unwrap(), 0);

    let dst = stream.into_inner().into_inner();
    assert_eq!(dst, [1, 3, 5, 0, 0, 7, 9, 11, 13]);
}

#[test]
fn extent_stream_too_short_seek_test() {
    let data = vec![0u8; 27];
    let mut stream = ExtentStream::new(
        MemoryStream::new_fixed(data),
        vec![Extent { start: 10, len: 20 }],
    )
    .unwrap()
    .unwrap();
    assert_eq!(stream.seek(SeekFrom::End(0)).unwrap(), 17);
}

#[test]
fn extent_stream_seek_fail_test() {
    let data = vec![0u8; extents_inner_len()];
    let mut stream = ExtentStream::new(MemoryStream::new_fixed(data), extents())
        .unwrap()
        .unwrap();

    // start
    assert!(stream.seek(SeekFrom::Start(0)).is_ok());
    assert!(stream.seek(SeekFrom::Start(5)).is_ok());
    assert!(stream.seek(SeekFrom::Start(13)).is_ok());
    assert!(stream.seek(SeekFrom::Start(14)).is_err());
    assert!(stream.seek(SeekFrom::Start(20)).is_err());

    // end
    assert!(stream.seek(SeekFrom::End(-15)).is_err());
    assert!(stream.seek(SeekFrom::End(-14)).is_err());
    assert!(stream.seek(SeekFrom::End(-13)).is_ok());
    assert!(stream.seek(SeekFrom::End(-5)).is_ok());
    assert!(stream.seek(SeekFrom::End(0)).is_ok());
    assert!(stream.seek(SeekFrom::End(1)).is_err());

    // current
    assert!(stream.seek(SeekFrom::Start(5)).is_ok());
    assert!(stream.seek(SeekFrom::Current(-7)).is_err());
    assert!(stream.seek(SeekFrom::Current(-6)).is_err());
    assert!(stream.seek(SeekFrom::Current(-5)).is_ok());

    assert!(stream.seek(SeekFrom::Start(5)).is_ok());
    assert!(stream.seek(SeekFrom::Current(-3)).is_ok());

    assert!(stream.seek(SeekFrom::Start(5)).is_ok());
    assert!(stream.seek(SeekFrom::Current(8)).is_ok());

    assert!(stream.seek(SeekFrom::Start(5)).is_ok());
    assert!(stream.seek(SeekFrom::Current(9)).is_err());
}

#[test]
fn extent_stream_read_after_seek_test() {
    // Reading after a seek hands back the projection bytes starting at
    // exactly the seek target.
    let src = (0..40u32).map(|i| (2 * i + 1) as u8).collect::<Vec<_>>();
    let mut stream = ExtentStream::new(MemoryStream::new_fixed(src.clone()), extents())
        .unwrap()
        .unwrap();
    let all = stream.read_to_end().unwrap();
    for p in 0..=all.len() {
        assert_eq!(stream.seek(SeekFrom::Start(p as u64)).unwrap(), p as u64);
        let rest = stream.read_to_end().unwrap();
        assert_eq!(rest, all[p..]);
    }
}

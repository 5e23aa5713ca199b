use floppytool::container::{decode, encode, SidecarMetadata, TrackIds};
use floppytool::convert::convert_to_raw;
use floppytool::errors::FloppyError;
use floppytool::geometry::DiskFormat;

fn fmt(cylinders: u8, heads: u8, spt: u8, sector_size: u16, mode: u8) -> DiskFormat {
    DiskFormat { cylinders, heads, sectors_per_track: spt, sector_size, mode, name: "Custom" }
}

const DEFAULT_HEADER: &[u8] = b"IMD 1.18 - floppytool\n\x1a";

#[test]
fn round_trip_mixed_sectors() {
    // one track, two 128-byte sectors: one uniform, one not
    let mut raw = vec![0xffu8; 128];
    let mut second = vec![7u8; 128];
    second[100] = 9;
    raw.extend_from_slice(&second);
    let f = fmt(1, 1, 2, 128, 5);
    let encoded = encode(&raw, &f, None).unwrap();
    let (back, meta, stats) = decode(&encoded).unwrap();
    assert_eq!(back, raw);
    assert_eq!(meta.header, DEFAULT_HEADER.to_vec());
    assert_eq!(stats.total_sectors, 2);
    assert_eq!(stats.compressed_sectors, 1);
}

#[test]
fn round_trip_multi_track() {
    // 2 cylinders x 2 heads x 3 sectors x 128 bytes, varied contents
    let total = 2 * 2 * 3 * 128;
    let raw: Vec<u8> = (0..total).map(|i| (i % 251) as u8).collect();
    let f = fmt(2, 2, 3, 128, 4);
    let encoded = encode(&raw, &f, None).unwrap();
    let (back, _, stats) = decode(&encoded).unwrap();
    assert_eq!(back, raw);
    assert_eq!(stats.total_sectors, 12);
}

#[test]
fn sector_id_ordering_round_trips() {
    // non-ascending physical sector ids 3,1,4,2 drive placement
    let mut raw = Vec::new();
    for s in 0..4u8 {
        raw.extend_from_slice(&vec![s + 10; 128]);
    }
    let f = fmt(1, 1, 4, 128, 5);
    let meta = SidecarMetadata {
        header: b"hdr\x1a".to_vec(),
        track_sector_ids: vec![TrackIds { cylinder: 0, head: 0, ids: vec![3, 1, 4, 2] }],
    };
    let encoded = encode(&raw, &f, Some(&meta)).unwrap();
    // after the 4 header bytes and 5 track-header bytes, the id list verbatim
    assert_eq!(&encoded[9..13], &[3, 1, 4, 2]);
    // slot payloads follow id-list order: sector 3's fill byte first
    assert_eq!(&encoded[13..15], &[2, 12]); // compressed, fill 10+2
    let (back, meta2, _) = decode(&encoded).unwrap();
    assert_eq!(back, raw);
    assert_eq!(meta2.header, b"hdr\x1a".to_vec());
    assert_eq!(meta2.track_sector_ids[0].ids, vec![3, 1, 4, 2]);
}

#[test]
fn invalid_meta_ids_fall_back_to_ascending() {
    let raw = vec![1u8; 2 * 128];
    let f = fmt(1, 1, 2, 128, 5);
    let meta = SidecarMetadata {
        header: b"h\x1a".to_vec(),
        track_sector_ids: vec![TrackIds { cylinder: 0, head: 0, ids: vec![2, 2] }],
    };
    let encoded = encode(&raw, &f, Some(&meta)).unwrap();
    assert_eq!(&encoded[7..9], &[1, 2]); // ascending fallback, not [2, 2]
    let (back, _, _) = decode(&encoded).unwrap();
    assert_eq!(back, raw);
}

#[test]
fn geometry_mismatch_rejected() {
    let raw = vec![0u8; 255];
    let f = fmt(1, 1, 2, 128, 5);
    let err = encode(&raw, &f, None).unwrap_err();
    assert_eq!(err, FloppyError::GeometryMismatch { actual: 255, expected: 256 });
    // a 512-byte-short 1.44 MiB buffer
    let raw2 = vec![0u8; 1_474_560 - 512];
    let f2 = fmt(80, 2, 18, 512, 5);
    let err2 = encode(&raw2, &f2, None).unwrap_err();
    assert_eq!(err2, FloppyError::GeometryMismatch { actual: 1_474_048, expected: 1_474_560 });
}

#[test]
fn unsupported_sector_size_rejected() {
    let raw = vec![0u8; 300];
    let f = fmt(1, 1, 1, 300, 5);
    let err = encode(&raw, &f, None).unwrap_err();
    assert_eq!(err, FloppyError::InvalidSectorSize { sector_size: 300 });
}

#[test]
fn unsupported_sector_type_rejected() {
    // header, then a one-sector track whose type byte is 3
    let mut data = b"x\x1a".to_vec();
    data.extend_from_slice(&[5, 0, 0, 1, 0]); // mode, cyl, head, count, size code 0 (128)
    data.push(1); // sector id
    data.push(3); // unsupported type
    data.extend_from_slice(&[0u8; 128]);
    let err = decode(&data).unwrap_err();
    assert_eq!(err, FloppyError::UnsupportedSectorType { type_byte: 3, cylinder: 0, head: 0 });
}

#[test]
fn invalid_size_code_rejected() {
    let mut data = b"x\x1a".to_vec();
    data.extend_from_slice(&[5, 0, 0, 1, 6]); // size code 6 is out of range
    data.push(1);
    data.push(2);
    data.push(0xaa);
    let err = decode(&data).unwrap_err();
    assert_eq!(err, FloppyError::InvalidSectorSizeCode { code: 6 });
}

#[test]
fn missing_terminator_rejected() {
    let err = decode(b"hello").unwrap_err();
    assert_eq!(err, FloppyError::MalformedContainer { offset: 5 });
}

#[test]
fn truncated_track_rejected() {
    let mut data = b"x\x1a".to_vec();
    data.extend_from_slice(&[5, 0, 0, 1]); // header cut short
    let err = decode(&data).unwrap_err();
    assert_eq!(err, FloppyError::MalformedContainer { offset: 2 });
}

#[test]
fn zero_sector_id_rejected() {
    let mut data = b"x\x1a".to_vec();
    data.extend_from_slice(&[5, 0, 0, 1, 0]);
    data.push(0); // sector id 0 is not 1-based
    data.push(2);
    data.push(0xaa);
    let err = decode(&data).unwrap_err();
    assert_eq!(err, FloppyError::MalformedContainer { offset: 7 });
}

#[test]
fn compression_two_bytes_for_uniform() {
    let raw = vec![0xffu8; 512];
    let f = fmt(1, 1, 1, 512, 5);
    let encoded = encode(&raw, &f, None).unwrap();
    // default header (23) + track header (5) + id list (1) + type + fill
    assert_eq!(encoded.len(), 23 + 5 + 1 + 2);
    assert_eq!(&encoded[29..31], &[2, 0xff]);
    let (back, _, stats) = decode(&encoded).unwrap();
    assert_eq!(back, raw);
    assert_eq!(stats.compressed_sectors, 1);
}

#[test]
fn compression_verbatim_for_one_differing_byte() {
    let mut raw = vec![0xffu8; 512];
    raw[17] = 0;
    let f = fmt(1, 1, 1, 512, 5);
    let encoded = encode(&raw, &f, None).unwrap();
    assert_eq!(encoded.len(), 23 + 5 + 1 + 513);
    assert_eq!(encoded[29], 1);
    let (back, _, stats) = decode(&encoded).unwrap();
    assert_eq!(back, raw);
    assert_eq!(stats.compressed_sectors, 0);
}

#[test]
fn skip_regions_are_consumed() {
    // head byte 0x80 | 0x40 signals both per-track maps; they are skipped
    let mut data = b"x\x1a".to_vec();
    data.extend_from_slice(&[5, 0, 0xc0, 1, 0]);
    data.push(1); // id
    data.extend_from_slice(&[9, 9]); // cylinder map + head map (1 byte each)
    data.push(2);
    data.push(0x55);
    let (raw, meta, _) = decode(&data).unwrap();
    assert_eq!(raw, vec![0x55u8; 128]);
    assert_eq!(meta.track_sector_ids[0].head, 0xc0);
}

#[test]
fn convert_to_raw_structured_and_raw() {
    let raw = vec![3u8; 256];
    let f = fmt(1, 1, 2, 128, 5);
    let encoded = encode(&raw, &f, None).unwrap();
    let out = convert_to_raw(&encoded, &f, false, true).unwrap();
    assert_eq!(out, raw);
    let copied = convert_to_raw(&raw, &f, false, false).unwrap();
    assert_eq!(copied, raw);
    let err = convert_to_raw(&raw[1..], &f, false, false).unwrap_err();
    assert_eq!(err, FloppyError::GeometryMismatch { actual: 255, expected: 256 });
}

#[test]
fn sidecar_bytes_round_trip() {
    let meta = SidecarMetadata {
        header: b"IMD hi\x1a".to_vec(),
        track_sector_ids: vec![
            TrackIds { cylinder: 0, head: 0, ids: vec![2, 1] },
            TrackIds { cylinder: 1, head: 0, ids: vec![1, 2] },
        ],
    };
    let bytes = meta.to_bytes();
    let mut expected = b"IMD hi\x1a".to_vec();
    expected.extend_from_slice(&[0, 0, 2, 2, 1]);
    expected.extend_from_slice(&[1, 0, 2, 1, 2]);
    assert_eq!(bytes, expected);
    let back = SidecarMetadata::from_bytes(&bytes).unwrap();
    assert_eq!(back, meta);
}

#[test]
fn sidecar_truncated_rejected() {
    let err = SidecarMetadata::from_bytes(b"h\x1a\x00\x00").unwrap_err();
    assert_eq!(err, FloppyError::MalformedContainer { offset: 2 });
    let err2 = SidecarMetadata::from_bytes(b"h\x1a\x00\x00\x05\x01").unwrap_err();
    assert_eq!(err2, FloppyError::MalformedContainer { offset: 5 });
}

use floppytool::errors::FloppyError;
use floppytool::geometry::{infer_format, DiskFormat, Geometry};
use floppytool::imd::IMDHandler;
use floppytool::img::IMGHandler;
use floppytool::report::display;

#[test]
fn infer_table_entries() {
    let f360 = infer_format(368_640).unwrap();
    assert_eq!(
        (f360.cylinders, f360.heads, f360.sectors_per_track, f360.sector_size, f360.mode),
        (40, 2, 9, 512, 4)
    );
    assert_eq!(f360.name, "360K 5.25\" DD");
    let f12 = infer_format(1_228_800).unwrap();
    assert_eq!(
        (f12.cylinders, f12.heads, f12.sectors_per_track, f12.sector_size, f12.mode),
        (80, 2, 15, 512, 3)
    );
    let f144 = infer_format(1_474_560).unwrap();
    assert_eq!(
        (f144.cylinders, f144.heads, f144.sectors_per_track, f144.sector_size, f144.mode),
        (80, 2, 18, 512, 5)
    );
}

#[test]
fn infer_720k_prefers_table_over_search() {
    // 737280 also factors as 40 cylinders x 1 head x 36 sectors, which the
    // divisor search would find first; the table entry must win.
    let f = infer_format(737_280).unwrap();
    assert_eq!(
        (f.cylinders, f.heads, f.sectors_per_track, f.sector_size, f.mode),
        (80, 2, 9, 512, 4)
    );
    assert_eq!(f.name, "720K 3.5\" DD");
}

#[test]
fn infer_divisor_search_is_deterministic() {
    // untabulated, 512-aligned: 614400 = 40 * 1 * 30 * 512
    let a = infer_format(614_400).unwrap();
    let b = infer_format(614_400).unwrap();
    assert_eq!(a, b);
    assert_eq!(
        (a.cylinders, a.heads, a.sectors_per_track, a.sector_size, a.mode),
        (40, 1, 30, 512, 5)
    );
    assert_eq!(a.name, "Custom");
}

#[test]
fn infer_rejects_unmatched_sizes() {
    assert!(infer_format(1000).is_none()); // not 512-aligned
    assert!(infer_format(7919 * 512).is_none()); // prime sector count
    let h = IMGHandler::new(vec![0u8; 1000]);
    assert_eq!(h.infer_geometry().unwrap_err(), FloppyError::AmbiguousGeometry { size: 1000 });
}

#[test]
fn total_size_matches_product() {
    let f = DiskFormat {
        cylinders: 80,
        heads: 2,
        sectors_per_track: 18,
        sector_size: 512,
        mode: 5,
        name: "1.44M 3.5\" HD",
    };
    assert_eq!(f.total_size(), 1_474_560);
}

#[test]
fn display_summary_line() {
    let f = DiskFormat {
        cylinders: 1,
        heads: 1,
        sectors_per_track: 2,
        sector_size: 128,
        mode: 5,
        name: "Custom",
    };
    let data = vec![0u8; 256];
    let s = display(&data, &f, false).unwrap();
    assert_eq!(
        s,
        "Raw IMG: 256 bytes\nDetected Format: Custom\nGeometry: 1 cylinders, 1 heads, \
         2 sectors/track, 128 bytes/sector, mode 5"
    );
}

#[test]
fn display_ascii_lines() {
    let f = DiskFormat {
        cylinders: 1,
        heads: 1,
        sectors_per_track: 2,
        sector_size: 128,
        mode: 5,
        name: "Custom",
    };
    let mut data = vec![0u8; 256];
    data[0] = b'A';
    data[1] = b'B';
    let s = display(&data, &f, true).unwrap();
    let expected = format!(
        "Raw IMG: 256 bytes\nCyl 0, Head 0, Sector 1, Size 128 bytes, Mode 5: AB{}\n\
         Cyl 0, Head 0, Sector 2, Size 128 bytes, Mode 5: {}",
        ".".repeat(30),
        ".".repeat(32)
    );
    assert_eq!(s, expected);
}

fn one_track_container(header: &[u8], mode: u8, cyl: u8, head: u8, fill: u8) -> Vec<u8> {
    let mut data = header.to_vec();
    data.extend_from_slice(&[mode, cyl, head, 1, 0]);
    data.push(1); // sector id
    data.push(2); // compressed
    data.push(fill);
    data
}

#[test]
fn imd_analyze_geometry() {
    let mut data = one_track_container(b"IMD test\x1a", 5, 0, 0, 0x41);
    // a second track on cylinder 1, head 1
    data.extend_from_slice(&[5, 1, 1, 1, 0, 1, 2, 0x42]);
    let h = IMDHandler::new(data);
    let f = h.analyze_geometry().unwrap();
    assert_eq!(
        (f.cylinders, f.heads, f.sectors_per_track, f.sector_size, f.mode),
        (2, 2, 1, 128, 5)
    );
    assert_eq!(f.name, "IMD Custom");
}

#[test]
fn imd_display_summary() {
    let data = one_track_container(b"IMD test\x1a", 5, 0, 0, 0x41);
    let h = IMDHandler::new(data);
    let s = h.display(false).unwrap();
    assert_eq!(
        s,
        "Header: IMD test\nRaw Size: 128 bytes\nDetected Geometry: 1 cylinders, 1 heads, \
         1 sectors/track, 128 bytes/sector, mode 5"
    );
}

#[test]
fn imd_display_ascii() {
    let data = one_track_container(b"IMD test\x1a", 5, 0, 0, 0x41);
    let h = IMDHandler::new(data);
    let s = h.display(true).unwrap();
    let expected = format!(
        "Header: IMD test\nCyl 0, Head 0, Sector 1, Size 128 bytes, Mode 5: {}",
        "A".repeat(32)
    );
    assert_eq!(s, expected);
}

#[test]
fn imd_to_raw_and_geometry() {
    let data = one_track_container(b"x\x1a", 5, 0, 0, 0x41);
    let h = IMDHandler::new(data);
    let (raw, meta, stats) = h.to_raw().unwrap();
    assert_eq!(raw, vec![0x41u8; 128]);
    assert_eq!(meta.header, b"x\x1a".to_vec());
    assert_eq!(stats.total_sectors, 1);
    assert_eq!(stats.compressed_sectors, 1);
    assert_eq!(
        h.geometry().unwrap(),
        Some(Geometry::Manual {
            cylinders: 1,
            heads: 1,
            sectors_per_track: 1,
            sector_size: 128,
            mode: 5
        })
    );
}

#[test]
fn img_to_imd_and_back() {
    let img = IMGHandler::new(vec![0x5au8; 368_640]);
    let encoded = img.to_imd(&Geometry::Auto, None).unwrap();
    let h = IMDHandler::new(encoded);
    let (raw, _, stats) = h.to_raw().unwrap();
    assert_eq!(raw, vec![0x5au8; 368_640]);
    assert_eq!(stats.total_sectors, 40 * 2 * 9);
    assert_eq!(stats.compressed_sectors, 40 * 2 * 9);
}

#[test]
fn img_to_imd_manual_geometry() {
    let img = IMGHandler::new(vec![1u8; 256]);
    let g = Geometry::Manual { cylinders: 1, heads: 1, sectors_per_track: 2, sector_size: 128, mode: 4 };
    let encoded = img.to_imd(&g, None).unwrap();
    assert_eq!(encoded[23], 4); // the mode byte of the first track
    let g_bad = Geometry::Manual { cylinders: 1, heads: 1, sectors_per_track: 3, sector_size: 128, mode: 4 };
    let err = img.to_imd(&g_bad, None).unwrap_err();
    assert_eq!(err, FloppyError::GeometryMismatch { actual: 256, expected: 384 });
}

#[test]
fn img_display_uses_inferred_geometry() {
    let img = IMGHandler::new(vec![0u8; 368_640]);
    let s = img.display(false).unwrap();
    assert_eq!(
        s,
        "Raw IMG: 368640 bytes\nDetected Format: 360K 5.25\" DD\nGeometry: 40 cylinders, \
         2 heads, 9 sectors/track, 512 bytes/sector, mode 4"
    );
}

#[test]
fn full_cycle_with_sidecar_preserves_framing() {
    // a container with non-ascending sector ids and a custom header
    let mut data = b"IMD 1.20 custom\x1a".to_vec();
    data.extend_from_slice(&[5, 0, 0, 2, 0]); // mode, cyl, head, 2 sectors, 128 bytes
    data.extend_from_slice(&[2, 1]); // physical ids in reverse order
    data.push(2); // sector 2: compressed
    data.push(0xbb);
    data.push(2); // sector 1: compressed
    data.push(0xaa);
    let h = IMDHandler::new(data.clone());
    let (raw, meta, _) = h.to_raw().unwrap();
    // physical order: sector 1 (0xaa) before sector 2 (0xbb)
    assert_eq!(&raw[..128], &vec![0xaau8; 128][..]);
    assert_eq!(&raw[128..], &vec![0xbbu8; 128][..]);
    // the sidecar survives its byte form
    let meta2 = floppytool::container::SidecarMetadata::from_bytes(&meta.to_bytes()).unwrap();
    assert_eq!(meta2, meta);
    // re-encoding with the captured metadata reproduces the container exactly
    let img = IMGHandler::new(raw);
    let g = Geometry::Manual { cylinders: 1, heads: 1, sectors_per_track: 2, sector_size: 128, mode: 5 };
    let encoded = img.to_imd(&g, Some(&meta2)).unwrap();
    assert_eq!(encoded, data);
}

use floppytool::errors::FloppyError;
use floppytool::geometry::Geometry;
use floppytool::scp::SCPHandler;

fn header_bytes(disk_type: u8, revolutions: u8, start: u8, end: u8) -> Vec<u8> {
    let mut v = b"SCP".to_vec();
    v.push(0x21); // version 2.1
    v.push(disk_type);
    v.push(revolutions);
    v.push(start);
    v.push(end);
    v.push(0x03); // flags
    v.push(0); // bit cell width
    v.push(0); // heads: both
    v.push(0); // resolution
    v.extend_from_slice(&[0x78, 0x56, 0x34, 0x12]); // checksum, little endian
    v
}

#[test]
fn scp_header_fields() {
    let h = SCPHandler::new(header_bytes(0x33, 3, 0, 1));
    let hdr = h.parse_header().unwrap();
    assert_eq!(hdr.version, 0x21);
    assert_eq!(hdr.disk_type, 0x33);
    assert_eq!(hdr.revolutions, 3);
    assert_eq!(hdr.start_track, 0);
    assert_eq!(hdr.end_track, 1);
    assert_eq!(hdr.flags, 0x03);
    assert_eq!(hdr.heads, 0);
    assert_eq!(hdr.checksum, 0x12345678);
}

#[test]
fn scp_header_errors() {
    let h = SCPHandler::new(b"SCP".to_vec());
    assert_eq!(h.parse_header().unwrap_err(), FloppyError::ScpTooShort { len: 3, needed: 16 });

    let mut bad = header_bytes(0x33, 3, 0, 1);
    bad[0] = b'X';
    let h2 = SCPHandler::new(bad);
    assert_eq!(h2.parse_header().unwrap_err(), FloppyError::ScpBadMagic);

    let h3 = SCPHandler::new(header_bytes(0x33, 0, 0, 1));
    assert_eq!(
        h3.parse_header().unwrap_err(),
        FloppyError::ScpInvalidRevolutions { revolutions: 0 }
    );

    let h4 = SCPHandler::new(header_bytes(0x33, 1, 5, 2));
    assert_eq!(
        h4.parse_header().unwrap_err(),
        FloppyError::ScpInvalidTrackRange { start_track: 5, end_track: 2 }
    );

    let h5 = SCPHandler::new(header_bytes(0x33, 1, 0, 200));
    assert_eq!(
        h5.parse_header().unwrap_err(),
        FloppyError::ScpInvalidTrackRange { start_track: 0, end_track: 200 }
    );
}

#[test]
fn scp_track_headers() {
    // two tracks: the first absent (offset 0), the second at offset 24
    let mut v = header_bytes(0x33, 1, 0, 1);
    v.extend_from_slice(&[0, 0, 0, 0]); // track 0: absent
    v.extend_from_slice(&[24, 0, 0, 0]); // track 1 at offset 24
    v.extend_from_slice(b"TRK");
    v.push(1); // track number
    v.extend_from_slice(&[0, 0, 1, 0]); // duration, big endian: 256
    v.extend_from_slice(&[0, 0, 4]); // length, 3 bytes big endian: 4
    v.push(0); // flux start byte
    v.extend_from_slice(&[9, 9, 9, 9]); // flux data
    let h = SCPHandler::new(v);
    let tracks = h.parse_track_headers().unwrap();
    assert_eq!(tracks.len(), 1);
    assert_eq!(tracks[0].track_number, 1);
    assert_eq!(tracks[0].duration_total, 256);
    assert_eq!(tracks[0].length, 4);
    assert_eq!(tracks[0].offset, 24);
}

#[test]
fn scp_track_length_capped_at_file_end() {
    let mut v = header_bytes(0x33, 1, 0, 0);
    v.extend_from_slice(&[20, 0, 0, 0]); // track 0 at offset 20
    v.extend_from_slice(b"TRK");
    v.push(0);
    v.extend_from_slice(&[0, 0, 0, 1]); // duration 1
    v.extend_from_slice(&[0, 255, 0]); // claimed length 65280
    v.push(0);
    let len = v.len();
    let h = SCPHandler::new(v);
    let tracks = h.parse_track_headers().unwrap();
    assert_eq!(tracks[0].length, (len - 20) as u32);
}

#[test]
fn scp_track_header_errors() {
    let mut v = header_bytes(0x33, 1, 0, 0);
    v.extend_from_slice(&[200, 0, 0, 0]); // offset past the end
    let h = SCPHandler::new(v);
    assert_eq!(
        h.parse_track_headers().unwrap_err(),
        FloppyError::ScpTrackOffsetTooLarge { track_offset: 200, len: 20 }
    );

    let mut v2 = header_bytes(0x33, 1, 0, 0);
    v2.extend_from_slice(&[20, 0, 0, 0]);
    v2.extend_from_slice(b"XRK");
    v2.extend_from_slice(&[0u8; 9]);
    let h2 = SCPHandler::new(v2);
    assert_eq!(
        h2.parse_track_headers().unwrap_err(),
        FloppyError::ScpBadTrackMagic { track_offset: 20 }
    );

    let h3 = SCPHandler::new(header_bytes(0x33, 1, 0, 1)); // table missing
    assert_eq!(
        h3.parse_track_headers().unwrap_err(),
        FloppyError::ScpTooShort { len: 16, needed: 24 }
    );
}

#[test]
fn scp_disk_type_names() {
    let h = SCPHandler::new(Vec::new());
    assert_eq!(h.disk_type_to_string(0x33), "PC 1.44M");
    assert_eq!(h.disk_type_to_string(0x35), "PC 1.44M");
    assert_eq!(h.disk_type_to_string(0x80), "PC 1.44M (Non-standard)");
    assert_eq!(h.disk_type_to_string(0x02), "CBM, subclass 2");
    assert_eq!(h.disk_type_to_string(0x14), "Atari, subclass 4");
    assert_eq!(h.disk_type_to_string(0x27), "Apple, subclass 7");
    assert_eq!(h.disk_type_to_string(0x31), "PC, subclass 1");
    assert_eq!(h.disk_type_to_string(0x85), "Unknown manufacturer 8, subclass 5");
    assert_eq!(h.disk_type_to_string(0xf2), "Unknown manufacturer 15, subclass 2");
}

#[test]
fn scp_geometry_for_pc_types() {
    let h = SCPHandler::new(header_bytes(0x33, 1, 0, 1));
    assert_eq!(
        h.geometry().unwrap(),
        Some(Geometry::Manual {
            cylinders: 80,
            heads: 2,
            sectors_per_track: 18,
            sector_size: 512,
            mode: 5
        })
    );
    let h2 = SCPHandler::new(header_bytes(0x02, 1, 0, 1));
    assert_eq!(h2.geometry().unwrap(), None);
}

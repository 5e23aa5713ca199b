//! The error taxonomy.  Every variant carries the numeric context needed to
//! locate the fault: a byte offset, the offending byte value, or the two
//! sizes that disagree.

use vstd::prelude::*;

verus! {

/// Everything that can go wrong while decoding or encoding a disk image.
#[derive(Debug, Clone, Copy, PartialEq, Eq, Structural)]
pub enum FloppyError {
    /// The structured container is malformed: no header terminator, a
    /// truncated track record, a sector id outside `1..=sector_count`, or
    /// the buffer exhausted mid-track.  `offset` is the byte position at
    /// which the fault was detected.
    MalformedContainer { offset: usize },
    /// A sector type byte outside the supported set {1, 2}, with the
    /// coordinates of the track it was found in.
    UnsupportedSectorType { type_byte: u8, cylinder: u8, head: u8 },
    /// A sector-size code byte outside 0..=5.
    InvalidSectorSizeCode { code: u8 },
    /// A sector size that no size code stands for (encoding direction).
    InvalidSectorSize { sector_size: u16 },
    /// The raw buffer length does not equal the geometry's total size.
    GeometryMismatch { actual: usize, expected: u64 },
    /// No table entry and no divisor solution for this raw-image size.
    AmbiguousGeometry { size: usize },
    /// A flux-capture image shorter than a structure it must contain.
    ScpTooShort { len: usize, needed: usize },
    /// A flux-capture image whose magic bytes are wrong.
    ScpBadMagic,
    /// A revolution count outside 1..=5.
    ScpInvalidRevolutions { revolutions: u8 },
    /// A track range that is inverted or ends past the last track number.
    ScpInvalidTrackRange { start_track: u8, end_track: u8 },
    /// A track data header without the expected magic, at `track_offset`.
    ScpBadTrackMagic { track_offset: u32 },
    /// A track offset pointing outside the file.
    ScpTrackOffsetTooLarge { track_offset: u32, len: usize },
}

} // verus!

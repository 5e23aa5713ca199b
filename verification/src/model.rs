//! The mathematical model of the structured container format.
//!
//! A container is `<header bytes><0x1A><track records...>`.  A track record
//! is `mode(1) cylinder(1) head(1) sector_count(1) size_code(1)
//! sector_ids(sector_count) [cylinder_map] [head_map]` followed by one
//! `type(1) payload` group per sector, where type 1 carries `sector_size`
//! verbatim bytes and type 2 carries a single fill byte standing for a whole
//! sector of that byte.  The spec functions here parse and print that format
//! over `Seq<u8>`; the executable codec is specified exactly against them.

use vstd::prelude::*;

use crate::errors::FloppyError;
use crate::geometry::DiskFormat;

verus! {

pub const HEADER_TERMINATOR: u8 = 0x1a;

/// One decoded sector slot: either a verbatim payload or a fill byte that
/// stands for a whole sector of identical bytes.
pub ghost struct SlotV {
    pub compressed: bool,
    pub fill: u8,
    pub bytes: Seq<u8>,
}

/// One parsed track record.  `ids[i]` is the 1-based physical sector number
/// of the i-th slot in on-disk encounter order.
pub ghost struct TrackV {
    pub mode: u8,
    pub cylinder: u8,
    pub head: u8,
    pub size_code: u8,
    pub ids: Seq<u8>,
    pub slots: Seq<SlotV>,
}

/// The sector-id ordering of one track, as captured for re-encoding.
pub ghost struct TrackIdsV {
    pub cylinder: u8,
    pub head: u8,
    pub ids: Seq<u8>,
}

/// Sidecar metadata: the original header (terminator included) and the
/// per-track physical sector-id orderings.
pub ghost struct MetaV {
    pub header: Seq<u8>,
    pub tracks: Seq<TrackIdsV>,
}

/// Everything a container decode yields: the raw buffer, the sidecar
/// metadata, and the aggregate sector counters.
pub ghost struct DecodedV {
    pub raw: Seq<u8>,
    pub meta: MetaV,
    pub total_sectors: nat,
    pub compressed_sectors: nat,
}

/// The sector size a size-code byte stands for; 0 for codes outside 0..=5.
pub open spec fn spec_size_of_code(code: u8) -> nat {
    if code == 0 {
        128
    } else if code == 1 {
        256
    } else if code == 2 {
        512
    } else if code == 3 {
        1024
    } else if code == 4 {
        2048
    } else if code == 5 {
        4096
    } else {
        0
    }
}

/// The size-code byte for a sector size, if one exists.
pub open spec fn spec_code_of_size(size: u16) -> Option<u8> {
    if size == 128 {
        Some(0u8)
    } else if size == 256 {
        Some(1u8)
    } else if size == 512 {
        Some(2u8)
    } else if size == 1024 {
        Some(3u8)
    } else if size == 2048 {
        Some(4u8)
    } else if size == 4096 {
        Some(5u8)
    } else {
        None
    }
}

/// Every sector id must name a physical slot: 1-based, at most `count`.
pub open spec fn valid_sector_ids(ids: Seq<u8>, count: u8) -> bool {
    forall|i: int| 0 <= i < ids.len() ==> 1 <= #[trigger] ids[i] <= count
}

/// A slot is well-formed when a verbatim payload has exactly `size` bytes
/// and a compressed slot carries none.
pub open spec fn wf_slot(s: SlotV, size: nat) -> bool {
    if s.compressed {
        s.bytes.len() == 0
    } else {
        s.bytes.len() == size
    }
}

/// A well-formed track: a known size code, one id per slot, ids that name
/// physical slots, and well-formed slots.
pub open spec fn wf_track(t: TrackV) -> bool {
    &&& t.size_code <= 5
    &&& t.ids.len() <= 255
    &&& t.slots.len() == t.ids.len()
    &&& valid_sector_ids(t.ids, t.ids.len() as u8)
    &&& forall|i: int|
        0 <= i < t.slots.len() ==> wf_slot(#[trigger] t.slots[i], spec_size_of_code(t.size_code))
}

/// The bytes a slot stands for: the payload itself, or `fill` repeated
/// `size` times.
pub open spec fn slot_content(s: SlotV, size: nat) -> Seq<u8> {
    if s.compressed {
        Seq::new(size, |i: int| s.fill)
    } else {
        s.bytes
    }
}

/// How many bytes of optional skip regions (cylinder map, head map) follow
/// the sector-id list, as signaled by the two high bits of the head byte.
pub open spec fn skip_len(head: u8, count: nat) -> nat {
    (if head & 0x80 != 0 {
        count
    } else {
        0
    }) + (if head & 0x40 != 0 {
        count
    } else {
        0
    })
}

/// Parses `n` sector slots of `size` bytes each, starting at `p`.  Returns
/// the slots and the position after them, or the error the walk runs into:
/// a buffer exhausted mid-track, or a type byte outside {1, 2}.
pub open spec fn parse_slots(data: Seq<u8>, p: int, n: nat, size: nat, cyl: u8, head: u8) -> Result<
    (Seq<SlotV>, int),
    FloppyError,
>
    decreases n,
{
    if n == 0 {
        Ok((Seq::empty(), p))
    } else if p >= data.len() {
        Err(FloppyError::MalformedContainer { offset: p as usize })
    } else {
        let t = data[p];
        if t == 1 {
            if p + 1 + size <= data.len() {
                let slot = SlotV { compressed: false, fill: 0, bytes: data.subrange(p + 1, p + 1 + size) };
                match parse_slots(data, p + 1 + size, (n - 1) as nat, size, cyl, head) {
                    Ok((rest, q)) => Ok((seq![slot] + rest, q)),
                    Err(e) => Err(e),
                }
            } else {
                Err(FloppyError::MalformedContainer { offset: p as usize })
            }
        } else if t == 2 {
            if p + 2 <= data.len() {
                let slot = SlotV { compressed: true, fill: data[p + 1], bytes: Seq::empty() };
                match parse_slots(data, p + 2, (n - 1) as nat, size, cyl, head) {
                    Ok((rest, q)) => Ok((seq![slot] + rest, q)),
                    Err(e) => Err(e),
                }
            } else {
                Err(FloppyError::MalformedContainer { offset: p as usize })
            }
        } else {
            Err(FloppyError::UnsupportedSectorType { type_byte: t, cylinder: cyl, head })
        }
    }
}

/// Parses exactly one track record starting at `p`: the five header bytes,
/// the sector-id list (validated against the sector count), the optional
/// skip regions, and the sector slots.  Returns the track and the position
/// after it.
pub open spec fn parse_track(data: Seq<u8>, p: int) -> Result<(TrackV, int), FloppyError> {
    if p + 5 > data.len() {
        Err(FloppyError::MalformedContainer { offset: p as usize })
    } else {
        let mode = data[p];
        let cylinder = data[p + 1];
        let head = data[p + 2];
        let count = data[p + 3];
        let code = data[p + 4];
        if code > 5 {
            Err(FloppyError::InvalidSectorSizeCode { code })
        } else if p + 5 + count > data.len() {
            Err(FloppyError::MalformedContainer { offset: (p + 5) as usize })
        } else {
            let ids = data.subrange(p + 5, p + 5 + count);
            if !valid_sector_ids(ids, count) {
                Err(FloppyError::MalformedContainer { offset: (p + 5) as usize })
            } else {
                let q = p + 5 + count + skip_len(head, count as nat);
                if q > data.len() {
                    Err(FloppyError::MalformedContainer { offset: (p + 5 + count) as usize })
                } else {
                    match parse_slots(data, q, count as nat, spec_size_of_code(code), cylinder, head) {
                        Ok((slots, end)) => Ok(
                            (TrackV { mode, cylinder, head, size_code: code, ids, slots }, end),
                        ),
                        Err(e) => Err(e),
                    }
                }
            }
        }
    }
}

/// A successful slot parse stays within the buffer, consumes at least two
/// bytes per slot, and yields one well-formed slot per sector.
pub proof fn lemma_parse_slots_advances(data: Seq<u8>, p: int, n: nat, size: nat, cyl: u8, head: u8)
    requires
        0 <= p <= data.len(),
        1 <= size,
    ensures
        match parse_slots(data, p, n, size, cyl, head) {
            Ok((slots, q)) => {
                &&& p <= q <= data.len()
                &&& q >= p + 2 * n
                &&& slots.len() == n
                &&& forall|i: int| 0 <= i < n ==> wf_slot(#[trigger] slots[i], size)
            },
            Err(_) => true,
        },
    decreases n,
{
    if n > 0 && p < data.len() {
        let t = data[p];
        if t == 1 && p + 1 + size <= data.len() {
            lemma_parse_slots_advances(data, p + 1 + size, (n - 1) as nat, size, cyl, head);
            let slot = SlotV { compressed: false, fill: 0, bytes: data.subrange(p + 1, p + 1 + size) };
            if let Ok((rest, q)) = parse_slots(data, p + 1 + size, (n - 1) as nat, size, cyl, head) {
                let combined = seq![slot] + rest;
                assert forall|i: int| 0 <= i < n implies wf_slot(#[trigger] combined[i], size) by {
                    if i == 0 {
                        assert(combined[0] == slot);
                    } else {
                        assert(combined[i] == rest[i - 1]);
                    }
                }
            }
        } else if t == 2 && p + 2 <= data.len() {
            lemma_parse_slots_advances(data, p + 2, (n - 1) as nat, size, cyl, head);
            let slot = SlotV { compressed: true, fill: data[p + 1], bytes: Seq::empty() };
            if let Ok((rest, q)) = parse_slots(data, p + 2, (n - 1) as nat, size, cyl, head) {
                let combined = seq![slot] + rest;
                assert forall|i: int| 0 <= i < n implies wf_slot(#[trigger] combined[i], size) by {
                    if i == 0 {
                        assert(combined[0] == slot);
                    } else {
                        assert(combined[i] == rest[i - 1]);
                    }
                }
            }
        }
    }
}

/// A successful track parse stays within the buffer, consumes at least the
/// five header bytes, and yields a well-formed track.
pub proof fn lemma_parse_track_advances(data: Seq<u8>, p: int)
    requires
        0 <= p,
    ensures
        match parse_track(data, p) {
            Ok((t, q)) => p + 5 + 3 * t.ids.len() <= q <= data.len() && wf_track(t),
            Err(_) => true,
        },
{
    if p + 5 <= data.len() {
        let head = data[p + 2];
        let count = data[p + 3];
        let code = data[p + 4];
        if code <= 5 && p + 5 + count <= data.len() {
            let ids = data.subrange(p + 5, p + 5 + count);
            if valid_sector_ids(ids, count) {
                let q = p + 5 + count + skip_len(head, count as nat);
                if q <= data.len() {
                    lemma_parse_slots_advances(
                        data,
                        q,
                        count as nat,
                        spec_size_of_code(code),
                        data[p + 1],
                        head,
                    );
                }
            }
        }
    }
}

/// Parses track records from `p` to the end of the buffer.
pub open spec fn parse_tracks(data: Seq<u8>, p: int) -> Result<Seq<TrackV>, FloppyError>
    decreases data.len() - p,
{
    if p < 0 || p > data.len() {
        Err(FloppyError::MalformedContainer { offset: 0 })
    } else if p == data.len() {
        Ok(Seq::empty())
    } else {
        match parse_track(data, p) {
            Err(e) => Err(e),
            Ok((t, q)) => {
                proof {
                    lemma_parse_track_advances(data, p);
                }
                match parse_tracks(data, q) {
                    Err(e) => Err(e),
                    Ok(rest) => Ok(seq![t] + rest),
                }
            },
        }
    }
}

/// The position of the first header-terminator byte at or after `i`.
pub open spec fn spec_find_terminator(data: Seq<u8>, i: int) -> Option<int>
    decreases data.len() - i,
{
    if i < 0 || i >= data.len() {
        None
    } else if data[i] == HEADER_TERMINATOR {
        Some(i)
    } else {
        spec_find_terminator(data, i + 1)
    }
}

/// A sequence of `n` zero bytes.
pub open spec fn zero_bytes(n: nat) -> Seq<u8> {
    Seq::new(n, |i: int| 0u8)
}

/// `s` with the bytes at `off..off + payload.len()` replaced by `payload`.
pub open spec fn splice(s: Seq<u8>, off: int, payload: Seq<u8>) -> Seq<u8> {
    s.subrange(0, off) + payload + s.subrange(off + payload.len(), s.len() as int)
}

/// The first `k` slots placed into a zeroed track buffer, each at the
/// position named by its physical sector id (1-based), later slots
/// overwriting earlier ones.
pub open spec fn place_slots(ids: Seq<u8>, slots: Seq<SlotV>, k: nat, count: nat, size: nat) -> Seq<
    u8,
>
    decreases k,
{
    if k == 0 {
        zero_bytes(count * size)
    } else {
        let prev = place_slots(ids, slots, (k - 1) as nat, count, size);
        splice(prev, (ids[k - 1] - 1) * size, slot_content(slots[k - 1], size))
    }
}

/// The raw bytes of one track: its slots placed in physical sector order.
pub open spec fn track_raw(t: TrackV) -> Seq<u8> {
    place_slots(t.ids, t.slots, t.ids.len(), t.ids.len(), spec_size_of_code(t.size_code))
}

/// The raw bytes of the tracks from index `i` on, concatenated.
pub open spec fn concat_raw_from(tracks: Seq<TrackV>, i: nat) -> Seq<u8>
    decreases tracks.len() - i,
{
    if i >= tracks.len() {
        Seq::empty()
    } else {
        track_raw(tracks[i as int]) + concat_raw_from(tracks, i + 1)
    }
}

/// The number of sectors in the tracks from index `i` on.
pub open spec fn total_sectors_from(tracks: Seq<TrackV>, i: nat) -> nat
    decreases tracks.len() - i,
{
    if i >= tracks.len() {
        0
    } else {
        tracks[i as int].slots.len() + total_sectors_from(tracks, i + 1)
    }
}

/// The number of compressed slots in `slots` from index `j` on.
pub open spec fn compressed_in_slots(slots: Seq<SlotV>, j: nat) -> nat
    decreases slots.len() - j,
{
    if j >= slots.len() {
        0
    } else {
        (if slots[j as int].compressed {
            1nat
        } else {
            0nat
        }) + compressed_in_slots(slots, j + 1)
    }
}

/// The number of compressed sectors in the tracks from index `i` on.
pub open spec fn compressed_from(tracks: Seq<TrackV>, i: nat) -> nat
    decreases tracks.len() - i,
{
    if i >= tracks.len() {
        0
    } else {
        compressed_in_slots(tracks[i as int].slots, 0) + compressed_from(tracks, i + 1)
    }
}

/// The sector-id records of a parsed track sequence.
pub open spec fn tracks_ids(tracks: Seq<TrackV>) -> Seq<TrackIdsV> {
    tracks.map_values(|t: TrackV| TrackIdsV { cylinder: t.cylinder, head: t.head, ids: t.ids })
}

/// What decoding a whole container yields: the header up to and including
/// the terminator becomes the sidecar header, the track records are parsed
/// to the end of the buffer, and each track's sectors are appended to the
/// raw buffer in physical sector-id order.
pub open spec fn spec_container_decode(data: Seq<u8>) -> Result<DecodedV, FloppyError> {
    match spec_find_terminator(data, 0) {
        None => Err(FloppyError::MalformedContainer { offset: data.len() as usize }),
        Some(h) => match parse_tracks(data, h + 1) {
            Err(e) => Err(e),
            Ok(tracks) => Ok(
                DecodedV {
                    raw: concat_raw_from(tracks, 0),
                    meta: MetaV { header: data.subrange(0, h + 1), tracks: tracks_ids(tracks) },
                    total_sectors: total_sectors_from(tracks, 0),
                    compressed_sectors: compressed_from(tracks, 0),
                },
            ),
        },
    }
}

// ---------------------------------------------------------------------------
// Encoding
// ---------------------------------------------------------------------------

/// All bytes of a (non-empty) sector equal its first byte.
pub open spec fn spec_uniform(chunk: Seq<u8>) -> bool {
    forall|i: int| 0 <= i < chunk.len() ==> #[trigger] chunk[i] == chunk[0]
}

/// One sector's encoding: two bytes (type 2 and the fill byte) when the
/// sector is uniform, else a type-1 byte followed by the verbatim sector.
pub open spec fn enc_sector(chunk: Seq<u8>) -> Seq<u8> {
    if chunk.len() > 0 && spec_uniform(chunk) {
        seq![2u8, chunk[0]]
    } else {
        seq![1u8] + chunk
    }
}

/// The slot that decoding `enc_sector(chunk)` yields.
pub open spec fn enc_slot_of(chunk: Seq<u8>) -> SlotV {
    if chunk.len() > 0 && spec_uniform(chunk) {
        SlotV { compressed: true, fill: chunk[0], bytes: Seq::empty() }
    } else {
        SlotV { compressed: false, fill: 0, bytes: chunk }
    }
}

/// The encodings of the sectors of one track from slot `i` on, each slot
/// drawing its payload from the physical sector its id names.
pub open spec fn enc_slots_from(chunk: Seq<u8>, ids: Seq<u8>, i: nat, size: nat) -> Seq<u8>
    decreases ids.len() - i,
{
    if i >= ids.len() {
        Seq::empty()
    } else {
        enc_sector(chunk.subrange((ids[i as int] - 1) * size, ids[i as int] * size))
            + enc_slots_from(chunk, ids, i + 1, size)
    }
}

/// One track's encoding: the five header bytes, the sector-id list, and the
/// per-sector encodings in id-list order.  `chunk` is the track's raw bytes
/// in physical sector order.
pub open spec fn enc_track(
    mode: u8,
    cylinder: u8,
    head: u8,
    code: u8,
    ids: Seq<u8>,
    chunk: Seq<u8>,
) -> Seq<u8> {
    seq![mode, cylinder, head, ids.len() as u8, code] + ids + enc_slots_from(
        chunk,
        ids,
        0,
        spec_size_of_code(code),
    )
}

/// The canonical ascending sector-id ordering `1..=count`.
pub open spec fn ascending_ids(count: u8) -> Seq<u8> {
    Seq::new(count as nat, |i: int| (i + 1) as u8)
}

/// A usable sector-id ordering for a track of `count` sectors: one id per
/// slot, every id in `1..=count`, and no id twice.
pub open spec fn valid_id_permutation(ids: Seq<u8>, count: u8) -> bool {
    &&& ids.len() == count
    &&& valid_sector_ids(ids, count)
    &&& forall|i: int, j: int| 0 <= i < j < ids.len() ==> #[trigger] ids[i] != #[trigger] ids[j]
}

/// The first captured sector-id record for track `(cylinder, head)`.
pub open spec fn find_ids(tracks: Seq<TrackIdsV>, i: nat, cylinder: u8, head: u8) -> Option<Seq<u8>>
    decreases tracks.len() - i,
{
    if i >= tracks.len() {
        None
    } else if tracks[i as int].cylinder == cylinder && tracks[i as int].head == head {
        Some(tracks[i as int].ids)
    } else {
        find_ids(tracks, i + 1, cylinder, head)
    }
}

/// The sector-id ordering the encoder uses for track `(cylinder, head)`:
/// the captured ordering when one exists and is a valid permutation, else
/// the canonical ascending ordering.
pub open spec fn ids_for(
    mtracks: Option<Seq<TrackIdsV>>,
    cylinder: u8,
    head: u8,
    count: u8,
) -> Seq<u8> {
    match mtracks {
        None => ascending_ids(count),
        Some(tracks) => match find_ids(tracks, 0, cylinder, head) {
            None => ascending_ids(count),
            Some(ids) => if valid_id_permutation(ids, count) {
                ids
            } else {
                ascending_ids(count)
            },
        },
    }
}

/// The raw-buffer offset of track `(c, h)`: tracks are laid out cylinder-
/// major, head-minor, `sectors_per_track * sector_size` bytes each.
pub open spec fn track_offset(fmt: DiskFormat, c: nat, h: nat) -> nat {
    (c * fmt.heads as nat + h) * (fmt.sectors_per_track as nat * fmt.sector_size as nat)
}

/// The encodings of all tracks from `(c, h)` on, cylinder-major.
pub open spec fn enc_tracks_from(
    raw: Seq<u8>,
    fmt: DiskFormat,
    mtracks: Option<Seq<TrackIdsV>>,
    code: u8,
    c: nat,
    h: nat,
) -> Seq<u8>
    decreases fmt.cylinders as int - c, fmt.heads as int - h,
{
    if c >= fmt.cylinders as nat {
        Seq::empty()
    } else if h >= fmt.heads as nat {
        enc_tracks_from(raw, fmt, mtracks, code, c + 1, 0)
    } else {
        let toff = track_offset(fmt, c, h) as int;
        let tlen = fmt.sectors_per_track as int * fmt.sector_size as int;
        enc_track(
            fmt.mode,
            c as u8,
            h as u8,
            code,
            ids_for(mtracks, c as u8, h as u8, fmt.sectors_per_track),
            raw.subrange(toff, toff + tlen),
        ) + enc_tracks_from(raw, fmt, mtracks, code, c, h + 1)
    }
}

/// The synthetic default header used when no sidecar metadata is supplied.
pub open spec fn spec_default_header() -> Seq<u8> {
    seq![
        73u8, 77, 68, 32, 49, 46, 49, 56, 32, 45, 32, 102, 108, 111, 112, 112, 121, 116, 111, 111,
        108, 10, 26,
    ]
}

/// A header the decoder will split off again: non-empty, ends with the
/// terminator, and contains the terminator nowhere earlier.
pub open spec fn wf_header(h: Seq<u8>) -> bool {
    &&& h.len() > 0
    &&& h[h.len() - 1] == HEADER_TERMINATOR
    &&& forall|i: int| 0 <= i < h.len() - 1 ==> h[i] != HEADER_TERMINATOR
}

/// What encoding a raw buffer yields: the sidecar header (or the synthetic
/// default), then every track encoded cylinder-major, head-minor.  Fails
/// with `GeometryMismatch` exactly when the buffer length is not the
/// geometry's total size, and with `InvalidSectorSize` when no size code
/// stands for the geometry's sector size.
pub open spec fn spec_container_encode(
    raw: Seq<u8>,
    fmt: DiskFormat,
    meta: Option<MetaV>,
) -> Result<Seq<u8>, FloppyError> {
    if raw.len() != fmt.spec_total_size() {
        Err(
            FloppyError::GeometryMismatch {
                actual: raw.len() as usize,
                expected: fmt.spec_total_size() as u64,
            },
        )
    } else {
        match spec_code_of_size(fmt.sector_size) {
            None => Err(FloppyError::InvalidSectorSize { sector_size: fmt.sector_size }),
            Some(code) => {
                let header = match meta {
                    Some(m) => m.header,
                    None => spec_default_header(),
                };
                let mtracks = match meta {
                    Some(m) => Some(m.tracks),
                    None => None,
                };
                Ok(header + enc_tracks_from(raw, fmt, mtracks, code, 0, 0))
            },
        }
    }
}

} // verus!

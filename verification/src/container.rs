//! The container codec: decoding a whole structured container into a raw
//! buffer plus sidecar metadata, and encoding a raw buffer back into a
//! container, both specified exactly against the spec functions of `model`.

use vstd::prelude::*;

use crate::errors::FloppyError;
use crate::geometry::DiskFormat;
use crate::model::{
    ascending_ids, compressed_from, compressed_in_slots, concat_raw_from, enc_track,
    enc_tracks_from, find_ids, ids_for, parse_track, parse_tracks, spec_code_of_size,
    spec_container_decode, spec_container_encode, spec_default_header, spec_find_terminator,
    spec_size_of_code, total_sectors_from, track_offset, tracks_ids, valid_id_permutation,
    valid_sector_ids, wf_track, DecodedV, MetaV, TrackIdsV, TrackV, HEADER_TERMINATOR,
};
use crate::track::{decode_track, encode_track, size_of_code, code_of_size, SectorRecord, slots_of};

verus! {

/// The sector-id ordering of one track, captured at decode time.
#[derive(Debug, PartialEq)]
pub struct TrackIds {
    pub cylinder: u8,
    pub head: u8,
    pub ids: Vec<u8>,
}

impl View for TrackIds {
    type V = TrackIdsV;

    open spec fn view(&self) -> TrackIdsV {
        TrackIdsV { cylinder: self.cylinder, head: self.head, ids: self.ids@ }
    }
}

/// Sidecar metadata: the original container header (terminator included)
/// and the per-track physical sector-id orderings.  It exists so that a
/// later re-encode can reproduce the original framing byte-exactly; without
/// it, encoding falls back to a synthetic header and ascending sector ids.
#[derive(Debug, PartialEq)]
pub struct SidecarMetadata {
    pub header: Vec<u8>,
    pub track_sector_ids: Vec<TrackIds>,
}

impl View for SidecarMetadata {
    type V = MetaV;

    open spec fn view(&self) -> MetaV {
        MetaV {
            header: self.header@,
            tracks: self.track_sector_ids@.map_values(|t: TrackIds| t@),
        }
    }
}

/// Aggregate counters of one container decode.
#[derive(Debug, Clone, Copy, PartialEq, Eq, Structural)]
pub struct ConversionStats {
    pub total_sectors: usize,
    pub compressed_sectors: usize,
}

/// One captured track entry in sidecar-buffer form: cylinder, head, id
/// count, then the ids themselves.
pub open spec fn spec_meta_entry_bytes(t: TrackIdsV) -> Seq<u8> {
    seq![t.cylinder, t.head, t.ids.len() as u8] + t.ids
}

/// The sidecar-buffer bytes of the entries from index `i` on.
pub open spec fn spec_meta_entries_bytes(ts: Seq<TrackIdsV>, i: nat) -> Seq<u8>
    decreases ts.len() - i,
{
    if i >= ts.len() {
        Seq::empty()
    } else {
        spec_meta_entry_bytes(ts[i as int]) + spec_meta_entries_bytes(ts, i + 1)
    }
}

/// The sidecar buffer: the original header, terminator included, then one
/// entry per track.
pub open spec fn spec_meta_to_bytes(m: MetaV) -> Seq<u8> {
    m.header + spec_meta_entries_bytes(m.tracks, 0)
}

/// What parsing the entries of a sidecar buffer from `p` on yields.
pub open spec fn spec_parse_meta_entries(data: Seq<u8>, p: int) -> Result<Seq<TrackIdsV>, FloppyError>
    decreases data.len() - p,
{
    if p < 0 || p > data.len() {
        Err(FloppyError::MalformedContainer { offset: 0 })
    } else if p == data.len() {
        Ok(Seq::empty())
    } else if p + 3 > data.len() {
        Err(FloppyError::MalformedContainer { offset: p as usize })
    } else {
        let count = data[p + 2];
        if p + 3 + count > data.len() {
            Err(FloppyError::MalformedContainer { offset: (p + 3) as usize })
        } else {
            match spec_parse_meta_entries(data, p + 3 + count) {
                Ok(rest) => Ok(
                    seq![
                        TrackIdsV {
                            cylinder: data[p],
                            head: data[p + 1],
                            ids: data.subrange(p + 3, p + 3 + count),
                        },
                    ] + rest,
                ),
                Err(e) => Err(e),
            }
        }
    }
}

/// What parsing a whole sidecar buffer yields: the header up to and
/// including the terminator, then the captured track entries.
pub open spec fn spec_meta_from_bytes(data: Seq<u8>) -> Result<MetaV, FloppyError> {
    match spec_find_terminator(data, 0) {
        None => Err(FloppyError::MalformedContainer { offset: data.len() as usize }),
        Some(h) => match spec_parse_meta_entries(data, h + 1) {
            Ok(ts) => Ok(MetaV { header: data.subrange(0, h + 1), tracks: ts }),
            Err(e) => Err(e),
        },
    }
}

/// Combines already-parsed entries with the outcome of parsing the rest.
pub open spec fn combine_meta_entries(
    pre: Seq<TrackIdsV>,
    r: Result<Seq<TrackIdsV>, FloppyError>,
) -> Result<Seq<TrackIdsV>, FloppyError> {
    match r {
        Ok(rest) => Ok(pre + rest),
        Err(e) => Err(e),
    }
}

/// The metadata view an optional sidecar reference stands for.
pub open spec fn spec_meta_of(meta: Option<&SidecarMetadata>) -> Option<MetaV> {
    match meta {
        Some(m) => Some(m@),
        None => None,
    }
}

/// The position of the first header-terminator byte, if any.
#[verifier::loop_isolation(false)]
pub(crate) fn find_terminator(data: &[u8]) -> (r: Option<usize>)
    ensures
        match r {
            Some(i) => spec_find_terminator(data@, 0) == Some(i as int) && i < data@.len(),
            None => spec_find_terminator(data@, 0) == None::<int>,
        },
{
    let mut i: usize = 0;
    while i < data.len()
        invariant
            i <= data@.len(),
            spec_find_terminator(data@, 0) == spec_find_terminator(data@, i as int),
        decreases data@.len() - i,
    {
        if data[i] == HEADER_TERMINATOR {
            return Some(i);
        }
        i += 1;
    }
    None
}

/// The bytes `data[a..b]` as a fresh vector.
fn copy_slice_range(data: &[u8], a: usize, b: usize) -> (r: Vec<u8>)
    requires
        a <= b <= data@.len(),
    ensures
        r@ == data@.subrange(a as int, b as int),
{
    let mut v: Vec<u8> = Vec::new();
    let mut i: usize = a;
    while i < b
        invariant
            a <= i <= b <= data@.len(),
            v@ == data@.subrange(a as int, i as int),
        decreases b - i,
    {
        v.push(data[i]);
        i += 1;
        proof {
            assert(v@ =~= data@.subrange(a as int, i as int));
        }
    }
    v
}

/// How many of these sectors are compressed.
#[verifier::loop_isolation(false)]
fn compressed_count(sectors: &Vec<SectorRecord>) -> (c: usize)
    ensures
        c == compressed_in_slots(slots_of(sectors@), 0),
        c <= sectors@.len(),
{
    let n = sectors.len();
    let mut c: usize = 0;
    let mut j: usize = 0;
    while j < n
        invariant
            j <= n,
            c <= j,
            c + compressed_in_slots(slots_of(sectors@), j as nat) == compressed_in_slots(
                slots_of(sectors@),
                0,
            ),
        decreases n - j,
    {
        match &sectors[j] {
            SectorRecord::Compressed(_) => {
                c += 1;
            },
            SectorRecord::Normal(_) => {},
        }
        j += 1;
    }
    c
}

/// Combines already-parsed tracks with the outcome of parsing the rest.
pub open spec fn combine_tracks(
    pre: Seq<TrackV>,
    r: Result<Seq<TrackV>, FloppyError>,
) -> Result<Seq<TrackV>, FloppyError> {
    match r {
        Ok(rest) => Ok(pre + rest),
        Err(e) => Err(e),
    }
}

proof fn lemma_concat_raw_push(tracks: Seq<TrackV>, t: TrackV, i: nat)
    requires
        i <= tracks.len(),
    ensures
        concat_raw_from(tracks.push(t), i) == concat_raw_from(tracks, i)
            + crate::model::track_raw(t),
    decreases tracks.len() - i,
{
    if i < tracks.len() {
        lemma_concat_raw_push(tracks, t, i + 1);
        assert(tracks.push(t)[i as int] == tracks[i as int]);
        assert(crate::model::track_raw(tracks[i as int]) + (concat_raw_from(tracks, i + 1)
            + crate::model::track_raw(t)) =~= (crate::model::track_raw(tracks[i as int])
            + concat_raw_from(tracks, i + 1)) + crate::model::track_raw(t));
    } else {
        assert(concat_raw_from(tracks.push(t), i + 1) =~= Seq::<u8>::empty());
        assert(tracks.push(t)[i as int] == t);
        assert(concat_raw_from(tracks, i) =~= Seq::<u8>::empty());
        assert(crate::model::track_raw(t) + Seq::<u8>::empty() =~= crate::model::track_raw(t));
        assert(Seq::<u8>::empty() + crate::model::track_raw(t) =~= crate::model::track_raw(t));
    }
}

proof fn lemma_total_sectors_push(tracks: Seq<TrackV>, t: TrackV, i: nat)
    requires
        i <= tracks.len(),
    ensures
        total_sectors_from(tracks.push(t), i) == total_sectors_from(tracks, i) + t.slots.len(),
    decreases tracks.len() - i,
{
    if i < tracks.len() {
        lemma_total_sectors_push(tracks, t, i + 1);
        assert(tracks.push(t)[i as int] == tracks[i as int]);
    } else {
        assert(tracks.push(t)[i as int] == t);
        assert(total_sectors_from(tracks.push(t), i + 1) == 0);
        assert(total_sectors_from(tracks, i) == 0);
    }
}

proof fn lemma_compressed_push(tracks: Seq<TrackV>, t: TrackV, i: nat)
    requires
        i <= tracks.len(),
    ensures
        compressed_from(tracks.push(t), i) == compressed_from(tracks, i) + compressed_in_slots(
            t.slots,
            0,
        ),
    decreases tracks.len() - i,
{
    if i < tracks.len() {
        lemma_compressed_push(tracks, t, i + 1);
        assert(tracks.push(t)[i as int] == tracks[i as int]);
    } else {
        assert(tracks.push(t)[i as int] == t);
        assert(compressed_from(tracks.push(t), i + 1) == 0);
        assert(compressed_from(tracks, i) == 0);
    }
}

/// Decodes a whole structured container: everything up to and including the
/// header terminator becomes the sidecar header, then track records are
/// decoded until the end of the buffer, each track's sectors appended to the
/// raw buffer in physical sector-id order.  Returns the raw buffer, the
/// sidecar metadata, and the sector counters; the outcome, success or error,
/// is exactly what `spec_container_decode` says for these bytes.
#[verifier::loop_isolation(false)]
pub fn decode(data: &[u8]) -> (r: Result<(Vec<u8>, SidecarMetadata, ConversionStats), FloppyError>)
    ensures
        match r {
            Ok(rms) => spec_container_decode(data@) == Ok::<DecodedV, FloppyError>(
                (DecodedV {
                    raw: rms.0@,
                    meta: rms.1@,
                    total_sectors: rms.2.total_sectors as nat,
                    compressed_sectors: rms.2.compressed_sectors as nat,
                }),
            ),
            Err(e) => spec_container_decode(data@) == Err::<DecodedV, FloppyError>(e),
        },
{
    let h = match find_terminator(data) {
        Some(h) => h,
        None => {
            return Err(FloppyError::MalformedContainer { offset: data.len() });
        },
    };
    let dlen = data.len();
    assert(h < dlen);
    let header = copy_slice_range(data, 0, h + 1);
    let mut p: usize = h + 1;
    let ghost p0: int = p as int;
    let mut raw: Vec<u8> = Vec::new();
    let mut track_ids: Vec<TrackIds> = Vec::new();
    let mut total_sectors: usize = 0;
    let mut compressed_sectors: usize = 0;
    let ghost mut gtracks: Seq<TrackV> = Seq::empty();
    proof {
        assert(gtracks + parse_tracks(data@, p0)->Ok_0 =~= parse_tracks(data@, p0)->Ok_0);
    }
    while p < data.len()
        invariant
            p0 <= p as int <= data@.len(),
            parse_tracks(data@, p0) == combine_tracks(gtracks, parse_tracks(data@, p as int)),
            raw@ == concat_raw_from(gtracks, 0),
            track_ids@.map_values(|t: TrackIds| t@) == tracks_ids(gtracks),
            total_sectors == total_sectors_from(gtracks, 0),
            compressed_sectors == compressed_from(gtracks, 0),
            compressed_sectors <= total_sectors,
            2 * total_sectors <= p as int - p0,
        decreases data@.len() - p,
    {
        let (track, q) = match decode_track(data, p) {
            Ok(tq) => tq,
            Err(e) => {
                return Err(e);
            },
        };
        let ghost tv = track@;
        proof {
            crate::model::lemma_parse_track_advances(data@, p as int);
        }
        let count = track.sectors.len();
        let comp = compressed_count(&track.sectors);
        let mut track_raw_bytes = track.raw_bytes();
        raw.append(&mut track_raw_bytes);
        let ghost old_tids = track_ids@;
        let new_entry = TrackIds {
            cylinder: track.cylinder,
            head: track.head,
            ids: track.sector_ids,
        };
        let ghost nev = new_entry@;
        track_ids.push(new_entry);
        total_sectors = total_sectors + count;
        compressed_sectors = compressed_sectors + comp;
        proof {
            let ghost old_tracks = gtracks;
            gtracks = gtracks.push(tv);
            lemma_concat_raw_push(old_tracks, tv, 0);
            lemma_total_sectors_push(old_tracks, tv, 0);
            lemma_compressed_push(old_tracks, tv, 0);
            assert(nev == (TrackIdsV { cylinder: tv.cylinder, head: tv.head, ids: tv.ids }));
            assert(track_ids@.map_values(|t: TrackIds| t@) =~= old_tids.map_values(
                |t: TrackIds| t@,
            ).push(nev));
            assert(tracks_ids(gtracks) =~= tracks_ids(old_tracks).push(nev));
            if let Ok(rest) = parse_tracks(data@, q as int) {
                assert(old_tracks + (seq![tv] + rest) =~= gtracks + rest);
            }
        }
        p = q;
    }
    proof {
        assert(parse_tracks(data@, p as int) == Ok::<Seq<TrackV>, FloppyError>(Seq::empty()));
        assert(gtracks + Seq::<TrackV>::empty() =~= gtracks);
        assert(parse_tracks(data@, p0) == Ok::<Seq<TrackV>, FloppyError>(gtracks));
    }
    let meta = SidecarMetadata { header, track_sector_ids: track_ids };
    let stats = ConversionStats { total_sectors, compressed_sectors };
    Ok((raw, meta, stats))
}

impl SidecarMetadata {
    /// Serialises the metadata into its sidecar-buffer form: the header,
    /// terminator included, then cylinder, head, id count, and ids for each
    /// captured track.  Every id list must fit its one count byte.
    #[verifier::loop_isolation(false)]
    pub fn to_bytes(&self) -> (r: Vec<u8>)
        requires
            forall|i: int|
                0 <= i < self@.tracks.len() ==> (#[trigger] self@.tracks[i]).ids.len() <= 255,
        ensures
            r@ == spec_meta_to_bytes(self@),
    {
        let mut out: Vec<u8> = Vec::new();
        append_all(&mut out, &self.header);
        let ghost full = spec_meta_to_bytes(self@);
        let ghost tvs = self@.tracks;
        proof {
            assert(out@ + spec_meta_entries_bytes(tvs, 0) =~= full);
        }
        let n = self.track_sector_ids.len();
        let mut i: usize = 0;
        while i < n
            invariant
                i <= n,
                out@ + spec_meta_entries_bytes(tvs, i as nat) == full,
            decreases n - i,
        {
            let t = &self.track_sector_ids[i];
            proof {
                assert(tvs[i as int] == self.track_sector_ids@[i as int]@);
            }
            let ghost pre = out@;
            out.push(t.cylinder);
            out.push(t.head);
            out.push(t.ids.len() as u8);
            append_all(&mut out, &t.ids);
            proof {
                assert(out@ =~= pre + spec_meta_entry_bytes(tvs[i as int]));
                let rest = spec_meta_entries_bytes(tvs, i as nat + 1);
                assert(pre + (spec_meta_entry_bytes(tvs[i as int]) + rest) =~= out@ + rest);
            }
            i += 1;
        }
        proof {
            assert(spec_meta_entries_bytes(tvs, n as nat) =~= Seq::<u8>::empty());
            assert(out@ + Seq::<u8>::empty() =~= out@);
        }
        out
    }

    /// Parses a sidecar buffer back into metadata.
    #[verifier::loop_isolation(false)]
    pub fn from_bytes(data: &[u8]) -> (r: Result<SidecarMetadata, FloppyError>)
        ensures
            match r {
                Ok(m) => spec_meta_from_bytes(data@) == Ok::<MetaV, FloppyError>(m@),
                Err(e) => spec_meta_from_bytes(data@) == Err::<MetaV, FloppyError>(e),
            },
    {
        let h = match find_terminator(data) {
            Some(h) => h,
            None => {
                return Err(FloppyError::MalformedContainer { offset: data.len() });
            },
        };
        let dlen = data.len();
        assert(h < dlen);
        let header = copy_slice_range(data, 0, h + 1);
        let mut p: usize = h + 1;
        let ghost p0: int = p as int;
        let mut entries: Vec<TrackIds> = Vec::new();
        proof {
            assert(entries@.map_values(|t: TrackIds| t@) + spec_parse_meta_entries(data@, p0)->Ok_0
                =~= spec_parse_meta_entries(data@, p0)->Ok_0);
        }
        while p < data.len()
            invariant
                p0 <= p as int <= data@.len(),
                spec_parse_meta_entries(data@, p0) == combine_meta_entries(
                    entries@.map_values(|t: TrackIds| t@),
                    spec_parse_meta_entries(data@, p as int),
                ),
            decreases data@.len() - p,
        {
            if data.len() - p < 3 {
                return Err(FloppyError::MalformedContainer { offset: p });
            }
            let cylinder = data[p];
            let head = data[p + 1];
            let count = data[p + 2] as usize;
            if data.len() - (p + 3) < count {
                return Err(FloppyError::MalformedContainer { offset: p + 3 });
            }
            let ids = copy_slice_range(data, p + 3, p + 3 + count);
            let entry = TrackIds { cylinder, head, ids };
            let ghost ev = entry@;
            let ghost old_views = entries@.map_values(|t: TrackIds| t@);
            entries.push(entry);
            proof {
                assert(entries@.map_values(|t: TrackIds| t@) =~= old_views.push(ev));
                if let Ok(rest) = spec_parse_meta_entries(data@, p as int + 3 + count) {
                    assert(old_views + (seq![ev] + rest) =~= old_views.push(ev) + rest);
                }
            }
            p = p + 3 + count;
        }
        proof {
            assert(spec_parse_meta_entries(data@, p as int) == Ok::<Seq<TrackIdsV>, FloppyError>(
                Seq::empty(),
            ));
            assert(entries@.map_values(|t: TrackIds| t@) + Seq::<TrackIdsV>::empty()
                =~= entries@.map_values(|t: TrackIds| t@));
        }
        Ok(SidecarMetadata { header, track_sector_ids: entries })
    }
}

/// The canonical ascending sector-id list `1..=count`.
#[verifier::loop_isolation(false)]
fn ascending_vec(count: u8) -> (r: Vec<u8>)
    ensures
        r@ == ascending_ids(count),
{
    let mut v: Vec<u8> = Vec::new();
    let mut i: usize = 0;
    while i < count as usize
        invariant
            i <= count as usize,
            v@.len() == i,
            forall|j: int| 0 <= j < i ==> v@[j] == j + 1,
        decreases count as usize - i,
    {
        v.push((i + 1) as u8);
        i += 1;
    }
    proof {
        assert(v@ =~= ascending_ids(count));
    }
    v
}

/// Is `ids` a usable ordering for a track of `count` sectors: one id per
/// slot, every id in `1..=count`, no id twice?
#[verifier::loop_isolation(false)]
fn is_valid_permutation(ids: &Vec<u8>, count: u8) -> (r: bool)
    ensures
        r == valid_id_permutation(ids@, count),
{
    let n = ids.len();
    if n != count as usize {
        return false;
    }
    let mut i: usize = 0;
    while i < n
        invariant
            i <= n,
            forall|j: int| 0 <= j < i ==> 1 <= #[trigger] ids@[j] <= count,
        decreases n - i,
    {
        let id = ids[i];
        if id == 0 || id > count {
            return false;
        }
        i += 1;
    }
    let mut i: usize = 0;
    while i < n
        invariant
            i <= n,
            forall|a: int, b: int| 0 <= a < b < n && a < i ==> #[trigger] ids@[a] != #[trigger] ids@[b],
        decreases n - i,
    {
        let mut j: usize = i + 1;
        while j < n
            invariant
                i < j <= n,
                forall|a: int, b: int| 0 <= a < b < n && a < i ==> #[trigger] ids@[a]
                    != #[trigger] ids@[b],
                forall|b: int| i < b < j ==> ids@[i as int] != #[trigger] ids@[b],
            decreases n - j,
        {
            if ids[i] == ids[j] {
                return false;
            }
            j += 1;
        }
        i += 1;
    }
    true
}

/// The sector-id ordering the encoder uses for track `(cylinder, head)`
/// when sidecar metadata is present: the captured ordering when it exists
/// and is a valid permutation, else the canonical ascending ordering.
#[verifier::loop_isolation(false)]
fn meta_ids_for(m: &SidecarMetadata, cylinder: u8, head: u8, count: u8) -> (r: Vec<u8>)
    ensures
        r@ == ids_for(Some(m@.tracks), cylinder, head, count),
{
    let n = m.track_sector_ids.len();
    let mut i: usize = 0;
    while i < n
        invariant
            i <= n,
            find_ids(m@.tracks, 0, cylinder, head) == find_ids(m@.tracks, i as nat, cylinder, head),
        decreases n - i,
    {
        let entry = &m.track_sector_ids[i];
        proof {
            assert(m@.tracks[i as int] == m.track_sector_ids@[i as int]@);
        }
        if entry.cylinder == cylinder && entry.head == head {
            if is_valid_permutation(&entry.ids, count) {
                return copy_slice_range(entry.ids.as_slice(), 0, entry.ids.len());
            } else {
                return ascending_vec(count);
            }
        }
        i += 1;
    }
    ascending_vec(count)
}

/// Appends a whole vector's bytes.
#[verifier::loop_isolation(false)]
fn append_all(out: &mut Vec<u8>, bytes: &Vec<u8>)
    ensures
        final(out)@ == old(out)@ + bytes@,
{
    let ghost prev = out@;
    let n = bytes.len();
    let mut i: usize = 0;
    while i < n
        invariant
            i <= n,
            out@ == prev + bytes@.subrange(0, i as int),
        decreases n - i,
    {
        out.push(bytes[i]);
        i += 1;
        proof {
            assert(out@ =~= prev + bytes@.subrange(0, i as int));
        }
    }
    proof {
        assert(bytes@.subrange(0, n as int) =~= bytes@);
    }
}

/// The synthetic default header, terminator included.
fn default_header() -> (r: Vec<u8>)
    ensures
        r@ == spec_default_header(),
{
    let mut v: Vec<u8> = Vec::new();
    v.push(73);
    v.push(77);
    v.push(68);
    v.push(32);
    v.push(49);
    v.push(46);
    v.push(49);
    v.push(56);
    v.push(32);
    v.push(45);
    v.push(32);
    v.push(102);
    v.push(108);
    v.push(111);
    v.push(112);
    v.push(112);
    v.push(121);
    v.push(116);
    v.push(111);
    v.push(111);
    v.push(108);
    v.push(10);
    v.push(26);
    proof {
        assert(v@ =~= spec_default_header());
    }
    v
}

/// Encodes a raw buffer into a structured container for the given geometry:
/// the sidecar header (or the synthetic default) followed by every track,
/// cylinder-major, head-minor, each sector run-length compressed when all
/// its bytes are identical.  Fails with `GeometryMismatch` exactly when the
/// buffer length is not the geometry's total size, and with
/// `InvalidSectorSize` when no size code stands for the geometry's sector
/// size; the outcome is exactly what `spec_container_encode` says.
#[verifier::loop_isolation(false)]
pub fn encode(raw: &[u8], fmt: &DiskFormat, meta: Option<&SidecarMetadata>) -> (r: Result<
    Vec<u8>,
    FloppyError,
>)
    ensures
        match r {
            Ok(out) => spec_container_encode(raw@, *fmt, spec_meta_of(meta)) == Ok::<
                Seq<u8>,
                FloppyError,
            >(out@),
            Err(e) => spec_container_encode(raw@, *fmt, spec_meta_of(meta)) == Err::<
                Seq<u8>,
                FloppyError,
            >(e),
        },
{
    let cylinders = fmt.cylinders;
    let heads = fmt.heads;
    let spt = fmt.sectors_per_track;
    proof {
        let c = cylinders as int;
        let hh = heads as int;
        let s = spt as int;
        let z = fmt.sector_size as int;
        assert(c * hh <= 65025) by (nonlinear_arith)
            requires 0 <= c <= 255 && 0 <= hh <= 255;
        assert(c * hh * s <= 16581375) by (nonlinear_arith)
            requires 0 <= c * hh <= 65025 && 0 <= s <= 255;
        assert(c * hh * s * z <= 0x10_0000_0000_0000) by (nonlinear_arith)
            requires 0 <= c * hh * s <= 16581375 && 0 <= z <= 65535;
    }
    let total64: u64 = cylinders as u64 * heads as u64 * spt as u64 * fmt.sector_size as u64;
    if raw.len() as u64 != total64 {
        return Err(
            FloppyError::GeometryMismatch { actual: raw.len(), expected: total64 },
        );
    }
    let code = match code_of_size(fmt.sector_size) {
        Some(c) => c,
        None => {
            return Err(FloppyError::InvalidSectorSize { sector_size: fmt.sector_size });
        },
    };
    assert(spec_size_of_code(code) == fmt.sector_size as nat);
    let total = raw.len();
    let size = fmt.sector_size as usize;
    proof {
        assert(spt as int * size as int <= 255 * 4096) by (nonlinear_arith)
            requires 0 <= spt <= 255 && 0 <= size <= 4096;
    }
    let tlen = spt as usize * size;

    let mut out: Vec<u8> = Vec::new();
    match meta {
        Some(m) => {
            append_all(&mut out, &m.header);
        },
        None => {
            let mut dh = default_header();
            out.append(&mut dh);
        },
    }
    let ghost header_seq = out@;
    let ghost mtracksv: Option<Seq<TrackIdsV>> = match spec_meta_of(meta) {
        Some(mv) => Some(mv.tracks),
        None => None,
    };
    let ghost full: Seq<u8> = header_seq + enc_tracks_from(raw@, *fmt, mtracksv, code, 0, 0);

    let ghost cc = cylinders as int;
    let ghost hh = heads as int;
    let ghost ss = spt as int;
    let ghost zz = size as int;
    proof {
        assert(total as int == ((cc * hh) * ss) * zz);
        assert(tlen as int == ss * zz);
        assert(spt as nat * spec_size_of_code(code) == ss * zz);
    }
    let mut toff: usize = 0;
    let mut c: u8 = 0;
    proof {
        assert(out@ + enc_tracks_from(raw@, *fmt, mtracksv, code, 0, 0) =~= full);
        assert((0 * hh + 0) * (ss * zz) == 0) by (nonlinear_arith);
        assert(track_offset(*fmt, 0nat, 0nat) == (0 * hh + 0) * (ss * zz));
    }
    while c < cylinders
        invariant
            c <= cylinders,
            toff as int == track_offset(*fmt, c as nat, 0),
            toff <= total,
            out@ + enc_tracks_from(raw@, *fmt, mtracksv, code, c as nat, 0) == full,
        decreases cylinders as int - c,
    {
        let mut hd: u8 = 0;
        while hd < heads
            invariant
                hd <= heads,
                c < cylinders,
                toff as int == track_offset(*fmt, c as nat, hd as nat),
                toff <= total,
                out@ + enc_tracks_from(raw@, *fmt, mtracksv, code, c as nat, hd as nat) == full,
            decreases heads as int - hd,
        {
            let ghost ci = c as int;
            let ghost hi = hd as int;
            proof {
                assert((ci * hh + hi) * (ss * zz) + ss * zz <= ((cc * hh) * ss) * zz)
                    by (nonlinear_arith)
                    requires
                        0 <= ci < cc,
                        0 <= hi < hh,
                        0 <= ss,
                        0 <= zz,
                ;
                assert(track_offset(*fmt, c as nat, hd as nat) == (ci * hh + hi) * (ss * zz));
                assert(toff + tlen <= total);
            }
            let ids = match meta {
                Some(m) => meta_ids_for(m, c, hd, spt),
                None => ascending_vec(spt),
            };
            proof {
                assert(ids@ == ids_for(mtracksv, c, hd, spt));
                if valid_id_permutation(ids@, spt) {
                    assert(valid_sector_ids(ids@, ids@.len() as u8));
                } else {
                    assert(ids@ == ascending_ids(spt));
                    assert(valid_sector_ids(ids@, ids@.len() as u8));
                }
                assert(ids@.len() * spec_size_of_code(code) == tlen as int);
            }
            let ghost pre_step = out@;
            encode_track(&mut out, fmt.mode, c, hd, code, &ids, raw, toff);
            proof {
                let chunk = raw@.subrange(toff as int, toff as int + tlen as int);
                let enc = enc_track(fmt.mode, c, hd, code, ids@, chunk);
                let rest = enc_tracks_from(raw@, *fmt, mtracksv, code, c as nat, hd as nat + 1);
                assert(enc_tracks_from(raw@, *fmt, mtracksv, code, c as nat, hd as nat) == enc
                    + rest);
                assert(pre_step + enc + rest =~= pre_step + (enc + rest));
            }
            toff = toff + tlen;
            hd = hd + 1;
            proof {
                assert((ci * hh + hi) * (ss * zz) + ss * zz == (ci * hh + (hi + 1)) * (ss * zz))
                    by (nonlinear_arith);
                assert(track_offset(*fmt, c as nat, hd as nat) == (ci * hh + (hi + 1)) * (ss
                    * zz));
            }
        }
        c = c + 1;
        proof {
            let ci = c as int;
            assert(((ci - 1) * hh + hh) * (ss * zz) == (ci * hh + 0) * (ss * zz))
                by (nonlinear_arith);
            assert(track_offset(*fmt, (c - 1) as nat, heads as nat) == ((ci - 1) * hh + hh) * (ss
                * zz));
            assert(track_offset(*fmt, c as nat, 0nat) == (ci * hh + 0) * (ss * zz));
        }
    }
    proof {
        assert(enc_tracks_from(raw@, *fmt, mtracksv, code, c as nat, 0) =~= Seq::<u8>::empty());
        assert(out@ + Seq::<u8>::empty() =~= out@);
    }
    Ok(out)
}

} // verus!

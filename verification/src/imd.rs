//! The structured-container handler: geometry detection by walking the
//! track records, a per-sector report, and conversion to a raw buffer.

use vstd::prelude::*;
use vstd::string::StringExecFns;

use crate::container::{combine_tracks, decode, find_terminator, ConversionStats, SidecarMetadata};
use crate::errors::FloppyError;
use crate::geometry::{DiskFormat, Geometry};
use crate::model::{
    parse_tracks, spec_container_decode, spec_find_terminator, spec_size_of_code, track_raw,
    wf_track, DecodedV, TrackV,
};
use crate::report::{push_dec, push_preview, spec_dec, spec_preview};
use crate::track::{decode_track, size_of_code, TrackRecord};

verus! {

/// The container bytes of one structured disk image.
pub struct IMDHandler {
    data: Vec<u8>,
}

impl View for IMDHandler {
    type V = Seq<u8>;

    closed spec fn view(&self) -> Seq<u8> {
        self.data@
    }
}

/// The track records of a container, or the error its walk runs into: the
/// terminator must exist and every track record must parse.
pub open spec fn spec_imd_tracks(data: Seq<u8>) -> Result<Seq<TrackV>, FloppyError> {
    match spec_find_terminator(data, 0) {
        None => Err(FloppyError::MalformedContainer { offset: data.len() as usize }),
        Some(h) => parse_tracks(data, h + 1),
    }
}

/// `x + 1`, staying at 255 for the one unrepresentable case.
pub open spec fn sat_inc(x: u8) -> u8 {
    if x == 255 {
        255
    } else {
        (x + 1) as u8
    }
}

pub open spec fn max_u8(a: u8, b: u8) -> u8 {
    if a >= b {
        a
    } else {
        b
    }
}

/// One more than the largest cylinder byte of the tracks from `i` on.
pub open spec fn spec_max_cyl(tracks: Seq<TrackV>, i: nat) -> u8
    decreases tracks.len() - i,
{
    if i >= tracks.len() {
        0
    } else {
        max_u8(sat_inc(tracks[i as int].cylinder), spec_max_cyl(tracks, i + 1))
    }
}

/// One more than the largest head byte of the tracks from `i` on.
pub open spec fn spec_max_head(tracks: Seq<TrackV>, i: nat) -> u8
    decreases tracks.len() - i,
{
    if i >= tracks.len() {
        0
    } else {
        max_u8(sat_inc(tracks[i as int].head), spec_max_head(tracks, i + 1))
    }
}

/// The first nonzero sector count of the tracks from `i` on, or 0.
pub open spec fn spec_first_count(tracks: Seq<TrackV>, i: nat) -> u8
    decreases tracks.len() - i,
{
    if i >= tracks.len() {
        0
    } else if tracks[i as int].ids.len() != 0 {
        tracks[i as int].ids.len() as u8
    } else {
        spec_first_count(tracks, i + 1)
    }
}

/// The first nonzero mode byte of the tracks from `i` on, or 0.
pub open spec fn spec_first_mode(tracks: Seq<TrackV>, i: nat) -> u8
    decreases tracks.len() - i,
{
    if i >= tracks.len() {
        0
    } else if tracks[i as int].mode != 0 {
        tracks[i as int].mode
    } else {
        spec_first_mode(tracks, i + 1)
    }
}

/// The first track's sector size, or 0 for an empty container.
pub open spec fn spec_first_size(tracks: Seq<TrackV>) -> u16 {
    if tracks.len() == 0 {
        0
    } else {
        spec_size_of_code(tracks[0].size_code) as u16
    }
}

/// The geometry a container's track records imply: cylinder and head counts
/// are one more than the largest bytes seen (saturating at 255), the sector
/// count and mode are the first nonzero values, and the sector size is the
/// first track's.
pub open spec fn spec_analyze_geometry(data: Seq<u8>) -> Result<DiskFormat, FloppyError> {
    match spec_imd_tracks(data) {
        Err(e) => Err(e),
        Ok(tracks) => Ok(
            DiskFormat {
                cylinders: spec_max_cyl(tracks, 0),
                heads: spec_max_head(tracks, 0),
                sectors_per_track: spec_first_count(tracks, 0),
                sector_size: spec_first_size(tracks),
                mode: spec_first_mode(tracks, 0),
                name: "IMD Custom",
            },
        ),
    }
}

/// What the name given to the lossy text decoding of the header stands for;
/// see `lossy_string`.
pub uninterp spec fn lossy_chars(b: Seq<u8>) -> Seq<char>;

/// Relies on std's `String::from_utf8_lossy`: the result is a function of
/// the bytes alone, and all-ASCII bytes decode to exactly those characters.
#[verifier::external_body]
fn lossy_string(b: &[u8]) -> (r: String)
    ensures
        r@ == lossy_chars(b@),
        (forall|i: int| 0 <= i < b@.len() ==> b@[i] < 128) ==> r@ == b@.map_values(
            |x: u8| x as char,
        ),
{
    String::from_utf8_lossy(b).into_owned()
}

/// The per-sector report lines of a structured container, from sector `s`
/// of track `ti` on: each track's decoded sectors in physical order, with
/// the track's own coordinates, sector size, and mode.
pub open spec fn spec_imd_lines(tracks: Seq<TrackV>, ti: nat, s: nat) -> Seq<char>
    decreases tracks.len() - ti, (if ti < tracks.len() {
        tracks[ti as int].ids.len() + 1
    } else {
        0
    }) - s,
{
    if ti >= tracks.len() {
        Seq::empty()
    } else if s >= tracks[ti as int].ids.len() {
        spec_imd_lines(tracks, ti + 1, 0)
    } else {
        seq!['\n'] + spec_imd_line(tracks[ti as int], s) + spec_imd_lines(tracks, ti, s + 1)
    }
}

/// One per-sector line of the structured-container report; `s` is the
/// 0-based physical sector index.
pub open spec fn spec_imd_line(t: TrackV, s: nat) -> Seq<char> {
    let size = spec_size_of_code(t.size_code);
    "Cyl "@ + spec_dec(t.cylinder as nat) + ", Head "@ + spec_dec(t.head as nat) + ", Sector "@
        + spec_dec(s + 1) + ", Size "@ + spec_dec(size) + " bytes, Mode "@ + spec_dec(
        t.mode as nat,
    ) + ": "@ + spec_preview(track_raw(t), s as int * size as int, size)
}

/// The whole structured-container report: the free-text header, then either
/// the detected-geometry summary or one line per decoded sector.
pub open spec fn spec_imd_display(data: Seq<u8>, ascii: bool) -> Result<Seq<char>, FloppyError> {
    match spec_find_terminator(data, 0) {
        None => Err(FloppyError::MalformedContainer { offset: data.len() as usize }),
        Some(h) => match parse_tracks(data, h + 1) {
            Err(e) => Err(e),
            Ok(tracks) => {
                let head = "Header: "@ + lossy_chars(data.subrange(0, h));
                if !ascii {
                    let fmt = DiskFormat {
                        cylinders: spec_max_cyl(tracks, 0),
                        heads: spec_max_head(tracks, 0),
                        sectors_per_track: spec_first_count(tracks, 0),
                        sector_size: spec_first_size(tracks),
                        mode: spec_first_mode(tracks, 0),
                        name: "IMD Custom",
                    };
                    Ok(
                        head + "\nRaw Size: "@ + spec_dec(fmt.spec_total_size())
                            + " bytes\nDetected Geometry: "@ + spec_dec(fmt.cylinders as nat)
                            + " cylinders, "@ + spec_dec(fmt.heads as nat) + " heads, "@
                            + spec_dec(fmt.sectors_per_track as nat) + " sectors/track, "@
                            + spec_dec(fmt.sector_size as nat) + " bytes/sector, mode "@
                            + spec_dec(fmt.mode as nat),
                    )
                } else {
                    Ok(head + spec_imd_lines(tracks, 0, 0))
                }
            },
        },
    }
}

impl IMDHandler {
    /// Wraps the bytes of one structured container.
    pub fn new(data: Vec<u8>) -> (r: Self)
        ensures
            r@ == data@,
    {
        IMDHandler { data }
    }

    /// The container bytes.
    pub fn data(&self) -> (r: &[u8])
        ensures
            r@ == self@,
    {
        self.data.as_slice()
    }

    /// Decodes every track record of the container, in on-disk order.
    #[verifier::loop_isolation(false)]
    pub fn tracks(&self) -> (r: Result<Vec<TrackRecord>, FloppyError>)
        ensures
            match r {
                Ok(ts) => spec_imd_tracks(self@) == Ok::<Seq<TrackV>, FloppyError>(
                    ts@.map_values(|t: TrackRecord| t@),
                ) && forall|i: int| 0 <= i < ts@.len() ==> wf_track(#[trigger] ts@[i]@),
                Err(e) => spec_imd_tracks(self@) == Err::<Seq<TrackV>, FloppyError>(e),
            },
    {
        let data = self.data.as_slice();
        let h = match find_terminator(data) {
            Some(h) => h,
            None => {
                return Err(FloppyError::MalformedContainer { offset: data.len() });
            },
        };
        let dlen = data.len();
        assert(h < dlen);
        let mut p: usize = h + 1;
        let ghost p0: int = p as int;
        let mut out: Vec<TrackRecord> = Vec::new();
        proof {
            assert(out@.map_values(|t: TrackRecord| t@) + parse_tracks(data@, p0)->Ok_0
                =~= parse_tracks(data@, p0)->Ok_0);
        }
        while p < data.len()
            invariant
                p0 <= p as int <= data@.len(),
                parse_tracks(data@, p0) == combine_tracks(
                    out@.map_values(|t: TrackRecord| t@),
                    parse_tracks(data@, p as int),
                ),
                forall|i: int| 0 <= i < out@.len() ==> wf_track(#[trigger] out@[i]@),
            decreases data@.len() - p,
        {
            let (track, q) = match decode_track(data, p) {
                Ok(tq) => tq,
                Err(e) => {
                    return Err(e);
                },
            };
            proof {
                crate::model::lemma_parse_track_advances(data@, p as int);
            }
            let ghost tv = track@;
            let ghost old_views = out@.map_values(|t: TrackRecord| t@);
            out.push(track);
            proof {
                assert(out@.map_values(|t: TrackRecord| t@) =~= old_views.push(tv));
                if let Ok(rest) = parse_tracks(data@, q as int) {
                    assert(old_views + (seq![tv] + rest) =~= old_views.push(tv) + rest);
                }
            }
            p = q;
        }
        proof {
            assert(parse_tracks(data@, p as int) == Ok::<Seq<TrackV>, FloppyError>(Seq::empty()));
            assert(out@.map_values(|t: TrackRecord| t@) + Seq::<TrackV>::empty() =~= out@.map_values(
                |t: TrackRecord| t@,
            ));
        }
        Ok(out)
    }

    /// Detects the container's geometry by walking its track records: the
    /// cylinder and head counts are one more than the largest bytes seen
    /// (saturating at 255), the sector count and mode are the first nonzero
    /// values, and the sector size is the first track's.
    #[verifier::loop_isolation(false)]
    pub fn analyze_geometry(&self) -> (r: Result<DiskFormat, FloppyError>)
        ensures
            r == spec_analyze_geometry(self@),
    {
        let tracks = match self.tracks() {
            Ok(ts) => ts,
            Err(e) => {
                return Err(e);
            },
        };
        let ghost tvs = tracks@.map_values(|t: TrackRecord| t@);
        let n = tracks.len();
        let mut max_cyl: u8 = 0;
        let mut max_head: u8 = 0;
        let mut spt: u8 = 0;
        let mut mode: u8 = 0;
        let mut i: usize = 0;
        while i < n
            invariant
                i <= n,
                n == tvs.len(),
                spec_max_cyl(tvs, 0) == max_u8(max_cyl, spec_max_cyl(tvs, i as nat)),
                spec_max_head(tvs, 0) == max_u8(max_head, spec_max_head(tvs, i as nat)),
                spec_first_count(tvs, 0) == (if spt != 0 {
                    spt
                } else {
                    spec_first_count(tvs, i as nat)
                }),
                spec_first_mode(tvs, 0) == (if mode != 0 {
                    mode
                } else {
                    spec_first_mode(tvs, i as nat)
                }),
            decreases n - i,
        {
            let t = &tracks[i];
            proof {
                assert(tvs[i as int] == tracks@[i as int]@);
            }
            let c1 = if t.cylinder == 255 {
                255
            } else {
                t.cylinder + 1
            };
            if c1 > max_cyl {
                max_cyl = c1;
            }
            let h1 = if t.head == 255 {
                255
            } else {
                t.head + 1
            };
            if h1 > max_head {
                max_head = h1;
            }
            if spt == 0 {
                spt = t.sector_ids.len() as u8;
            }
            if mode == 0 {
                mode = t.mode;
            }
            i += 1;
        }
        let sector_size: u16 = if tracks.len() == 0 {
            0
        } else {
            proof {
                assert(tvs[0] == tracks@[0]@);
            }
            size_of_code(tracks[0].sector_size_code)
        };
        Ok(DiskFormat {
            cylinders: max_cyl,
            heads: max_head,
            sectors_per_track: spt,
            sector_size,
            mode,
            name: "IMD Custom",
        })
    }

    /// Decodes the whole container into a raw buffer, the sidecar metadata
    /// that makes a later re-encode byte-exact, and the sector counters.
    pub fn to_raw(&self) -> (r: Result<(Vec<u8>, SidecarMetadata, ConversionStats), FloppyError>)
        ensures
            match r {
                Ok(rms) => spec_container_decode(self@) == Ok::<DecodedV, FloppyError>(
                    (DecodedV {
                        raw: rms.0@,
                        meta: rms.1@,
                        total_sectors: rms.2.total_sectors as nat,
                        compressed_sectors: rms.2.compressed_sectors as nat,
                    }),
                ),
                Err(e) => spec_container_decode(self@) == Err::<DecodedV, FloppyError>(e),
            },
    {
        decode(self.data.as_slice())
    }

    /// The geometry the container implies, as a caller-facing choice.
    pub fn geometry(&self) -> (r: Result<Option<Geometry>, FloppyError>)
        ensures
            match r {
                Ok(g) => spec_analyze_geometry(self@) matches Ok(fmt) && g == Some(
                    Geometry::Manual {
                        cylinders: fmt.cylinders,
                        heads: fmt.heads,
                        sectors_per_track: fmt.sectors_per_track,
                        sector_size: fmt.sector_size,
                        mode: fmt.mode,
                    },
                ),
                Err(e) => spec_analyze_geometry(self@) == Err::<DiskFormat, FloppyError>(e),
            },
    {
        let fmt = match self.analyze_geometry() {
            Ok(f) => f,
            Err(e) => {
                return Err(e);
            },
        };
        Ok(Some(Geometry::Manual {
            cylinders: fmt.cylinders,
            heads: fmt.heads,
            sectors_per_track: fmt.sectors_per_track,
            sector_size: fmt.sector_size,
            mode: fmt.mode,
        }))
    }

    /// Renders the container report: the free-text header, then either the
    /// detected-geometry summary or one line per decoded sector, each
    /// sector's first 32 bytes shown as printable ASCII.
    #[verifier::loop_isolation(false)]
    #[verifier::rlimit(100)]
    pub fn display(&self, ascii: bool) -> (r: Result<String, FloppyError>)
        ensures
            match r {
                Ok(s) => spec_imd_display(self@, ascii) == Ok::<Seq<char>, FloppyError>(s@),
                Err(e) => spec_imd_display(self@, ascii) == Err::<Seq<char>, FloppyError>(e),
            },
    {
        let data = self.data.as_slice();
        let h = match find_terminator(data) {
            Some(h) => h,
            None => {
                return Err(FloppyError::MalformedContainer { offset: data.len() });
            },
        };
        let tracks = match self.tracks() {
            Ok(ts) => ts,
            Err(e) => {
                return Err(e);
            },
        };
        let ghost tvs = tracks@.map_values(|t: TrackRecord| t@);
        let mut out = String::from_str("Header: ");
        let htext = lossy_string(&data[0..h]);
        out.append(htext.as_str());
        let ghost head_chars = "Header: "@ + lossy_chars(self@.subrange(0, h as int));
        proof {
            assert(out@ =~= head_chars);
        }
        if !ascii {
            let fmt = match self.analyze_geometry() {
                Ok(f) => f,
                Err(e) => {
                    return Err(e);
                },
            };
            proof {
                let c = fmt.cylinders as int;
                let hh = fmt.heads as int;
                let s = fmt.sectors_per_track as int;
                assert(c * hh <= 65025) by (nonlinear_arith)
                    requires 0 <= c <= 255 && 0 <= hh <= 255;
                assert(c * hh * s <= 16581375) by (nonlinear_arith)
                    requires 0 <= c * hh <= 65025 && 0 <= s <= 255;
                assert(c * hh * s * fmt.sector_size as int <= 0x10_0000_0000_0000)
                    by (nonlinear_arith)
                    requires 0 <= c * hh * s <= 16581375 && 0 <= fmt.sector_size <= 65535;
            }
            let total64: u64 = fmt.cylinders as u64 * fmt.heads as u64
                * fmt.sectors_per_track as u64 * fmt.sector_size as u64;
            out.append("\nRaw Size: ");
            push_dec(&mut out, total64);
            out.append(" bytes\nDetected Geometry: ");
            push_dec(&mut out, fmt.cylinders as u64);
            out.append(" cylinders, ");
            push_dec(&mut out, fmt.heads as u64);
            out.append(" heads, ");
            push_dec(&mut out, fmt.sectors_per_track as u64);
            out.append(" sectors/track, ");
            push_dec(&mut out, fmt.sector_size as u64);
            out.append(" bytes/sector, mode ");
            push_dec(&mut out, fmt.mode as u64);
            proof {
                assert(out@ =~= spec_imd_display(self@, false)->Ok_0);
            }
            return Ok(out);
        }
        let ghost full = head_chars + spec_imd_lines(tvs, 0, 0);
        proof {
            assert(out@ + spec_imd_lines(tvs, 0, 0) =~= full);
        }
        let n = tracks.len();
        let mut ti: usize = 0;
        while ti < n
            invariant
                ti <= n,
                out@ + spec_imd_lines(tvs, ti as nat, 0) == full,
            decreases n - ti,
        {
            let t = &tracks[ti];
            proof {
                assert(tvs[ti as int] == tracks@[ti as int]@);
            }
            let traw = t.raw_bytes();
            let count = t.sector_ids.len();
            let size = size_of_code(t.sector_size_code) as usize;
            let mut s: usize = 0;
            while s < count
                invariant
                    s <= count,
                    out@ + spec_imd_lines(tvs, ti as nat, s as nat) == full,
                decreases count - s,
            {
                proof {
                    vstd::arithmetic::mul::lemma_mul_inequality(
                        s as int + 1,
                        count as int,
                        size as int,
                    );
                    assert((s + 1) * size == s * size + size) by (nonlinear_arith);
                    assert(s * size >= 0) by (nonlinear_arith)
                        requires s >= 0 && size >= 0;
                    assert(s * size <= 255 * 4096) by (nonlinear_arith)
                        requires 0 <= s <= 255 && 0 <= size <= 4096;
                }
                let ghost pre = out@;
                out.append("\n");
                proof {
                    reveal_strlit("\n");
                    assert("\n"@ =~= seq!['\n']);
                }
                out.append("Cyl ");
                push_dec(&mut out, t.cylinder as u64);
                out.append(", Head ");
                push_dec(&mut out, t.head as u64);
                out.append(", Sector ");
                push_dec(&mut out, s as u64 + 1);
                out.append(", Size ");
                push_dec(&mut out, size as u64);
                out.append(" bytes, Mode ");
                push_dec(&mut out, t.mode as u64);
                out.append(": ");
                push_preview(&mut out, traw.as_slice(), s * size, size);
                proof {
                    let line = spec_imd_line(tvs[ti as int], s as nat);
                    assert(out@ =~= pre + (seq!['\n'] + line));
                    let rest_next = spec_imd_lines(tvs, ti as nat, s as nat + 1);
                    assert(spec_imd_lines(tvs, ti as nat, s as nat) == seq!['\n'] + line
                        + rest_next);
                    assert(pre + (seq!['\n'] + line + rest_next) =~= out@ + rest_next);
                }
                s += 1;
            }
            proof {
                assert(spec_imd_lines(tvs, ti as nat, count as nat) == spec_imd_lines(
                    tvs,
                    ti as nat + 1,
                    0,
                ));
            }
            ti += 1;
        }
        proof {
            assert(spec_imd_lines(tvs, n as nat, 0) =~= Seq::<char>::empty());
            assert(out@ + Seq::<char>::empty() =~= out@);
            assert(out@ =~= spec_imd_display(self@, true)->Ok_0);
        }
        Ok(out)
    }
}

} // verus!

//! Read-only metadata extraction from flux-capture images: the fixed-size
//! file header and the per-track data headers (number, duration, byte
//! length, file offset).  Flux data itself is never decoded into sectors.

use vstd::prelude::*;
use vstd::string::StringExecFns;

use crate::errors::FloppyError;
use crate::geometry::Geometry;
use crate::report::{push_dec, spec_dec};

verus! {

/// The fixed 16-byte file header of a flux-capture image.
#[derive(Debug, Clone, Copy, PartialEq, Eq, Structural)]
pub struct SCPHeader {
    pub version: u8,
    pub disk_type: u8,
    pub revolutions: u8,
    pub start_track: u8,
    pub end_track: u8,
    pub flags: u8,
    pub bit_cell_width: u8,
    pub heads: u8,
    pub resolution: u8,
    pub checksum: u32,
}

/// One track data header: its number, total duration in resolution units,
/// byte length (capped at the bytes actually present), and file offset.
#[derive(Debug, Clone, Copy, PartialEq, Eq, Structural)]
pub struct TrackInfo {
    pub track_number: u8,
    pub duration_total: u32,
    pub length: u32,
    pub offset: u32,
}

/// The bytes of one flux-capture image.
pub struct SCPHandler {
    data: Vec<u8>,
}

impl View for SCPHandler {
    type V = Seq<u8>;

    closed spec fn view(&self) -> Seq<u8> {
        self.data@
    }
}

/// A little-endian 32-bit read.
pub open spec fn le32(b0: u8, b1: u8, b2: u8, b3: u8) -> u32 {
    (b0 as u32) | ((b1 as u32) << 8) | ((b2 as u32) << 16) | ((b3 as u32) << 24)
}

/// A big-endian 32-bit read.
pub open spec fn be32(b0: u8, b1: u8, b2: u8, b3: u8) -> u32 {
    ((b0 as u32) << 24) | ((b1 as u32) << 16) | ((b2 as u32) << 8) | (b3 as u32)
}

/// What parsing the fixed file header yields: magic, field bytes, and the
/// two validated ranges (1..=5 revolutions, a non-inverted track range
/// ending at 167 or below).
pub open spec fn spec_parse_header(data: Seq<u8>) -> Result<SCPHeader, FloppyError> {
    if data.len() < 16 {
        Err(FloppyError::ScpTooShort { len: data.len() as usize, needed: 16 })
    } else if !(data[0] == 83 && data[1] == 67 && data[2] == 80) {
        Err(FloppyError::ScpBadMagic)
    } else {
        let h = SCPHeader {
            version: data[3],
            disk_type: data[4],
            revolutions: data[5],
            start_track: data[6],
            end_track: data[7],
            flags: data[8],
            bit_cell_width: data[9],
            heads: data[10],
            resolution: data[11],
            checksum: le32(data[12], data[13], data[14], data[15]),
        };
        if h.revolutions < 1 || h.revolutions > 5 {
            Err(FloppyError::ScpInvalidRevolutions { revolutions: h.revolutions })
        } else if h.start_track > h.end_track || h.end_track > 167 {
            Err(
                FloppyError::ScpInvalidTrackRange {
                    start_track: h.start_track,
                    end_track: h.end_track,
                },
            )
        } else {
            Ok(h)
        }
    }
}

/// What parsing the track data headers from slot `k` on yields.  A zero
/// offset means the track is absent; a nonzero offset must leave room for
/// the 12-byte track header and carry the track magic.
pub open spec fn spec_scp_tracks(data: Seq<u8>, count: nat, k: nat) -> Result<
    Seq<TrackInfo>,
    FloppyError,
>
    decreases count - k,
{
    if k >= count {
        Ok(Seq::empty())
    } else {
        let t = 16 + 4 * k as int;
        let off = le32(data[t], data[t + 1], data[t + 2], data[t + 3]);
        if off == 0 {
            spec_scp_tracks(data, count, k + 1)
        } else if off + 12 > data.len() {
            Err(FloppyError::ScpTrackOffsetTooLarge { track_offset: off, len: data.len() as usize })
        } else if !(data[off as int] == 84 && data[off as int + 1] == 82 && data[off as int + 2]
            == 75) {
            Err(FloppyError::ScpBadTrackMagic { track_offset: off })
        } else {
            let o = off as int;
            let raw_len = ((data[o + 8] as u32) << 16) | ((data[o + 9] as u32) << 8) | (data[o
                + 10] as u32);
            let remaining = data.len() - off;
            let eff = if raw_len <= remaining {
                raw_len
            } else {
                remaining as u32
            };
            let ti = TrackInfo {
                track_number: data[o + 3],
                duration_total: be32(data[o + 4], data[o + 5], data[o + 6], data[o + 7]),
                length: eff,
                offset: off,
            };
            match spec_scp_tracks(data, count, k + 1) {
                Ok(rest) => Ok(seq![ti] + rest),
                Err(e) => Err(e),
            }
        }
    }
}

/// What parsing the whole track table yields: the header must parse, the
/// offset table must fit, then each slot as `spec_scp_tracks` says.
pub open spec fn spec_parse_track_headers(data: Seq<u8>) -> Result<Seq<TrackInfo>, FloppyError> {
    match spec_parse_header(data) {
        Err(e) => Err(e),
        Ok(h) => {
            let count = (h.end_track - h.start_track + 1) as nat;
            if data.len() < 16 + count * 4 {
                Err(
                    FloppyError::ScpTooShort {
                        len: data.len() as usize,
                        needed: (16 + count * 4) as usize,
                    },
                )
            } else {
                spec_scp_tracks(data, count, 0)
            }
        },
    }
}

/// Combines already-parsed track headers with the outcome for the rest.
pub open spec fn combine_infos(
    pre: Seq<TrackInfo>,
    r: Result<Seq<TrackInfo>, FloppyError>,
) -> Result<Seq<TrackInfo>, FloppyError> {
    match r {
        Ok(rest) => Ok(pre + rest),
        Err(e) => Err(e),
    }
}

/// The human-readable name of a disk-type byte: the manufacturer nibble,
/// then the subclass nibble, with the known PC types named outright.
pub open spec fn spec_disk_type_string(disk_type: u8) -> Seq<char> {
    let manufacturer = disk_type >> 4;
    let subclass = disk_type & 0x0f;
    if manufacturer == 0 {
        "CBM, subclass "@ + spec_dec(subclass as nat)
    } else if manufacturer == 1 {
        "Atari, subclass "@ + spec_dec(subclass as nat)
    } else if manufacturer == 2 {
        "Apple, subclass "@ + spec_dec(subclass as nat)
    } else if manufacturer == 3 {
        if subclass == 3 || subclass == 5 {
            "PC 1.44M"@
        } else {
            "PC, subclass "@ + spec_dec(subclass as nat)
        }
    } else if manufacturer == 8 {
        if subclass == 0 {
            "PC 1.44M (Non-standard)"@
        } else {
            "Unknown manufacturer 8, subclass "@ + spec_dec(subclass as nat)
        }
    } else {
        "Unknown manufacturer "@ + spec_dec(manufacturer as nat) + ", subclass "@ + spec_dec(
            subclass as nat,
        )
    }
}

impl SCPHandler {
    /// Wraps the bytes of one flux-capture image.
    pub fn new(data: Vec<u8>) -> (r: Self)
        ensures
            r@ == data@,
    {
        SCPHandler { data }
    }

    /// The image bytes.
    pub fn data(&self) -> (r: &[u8])
        ensures
            r@ == self@,
    {
        self.data.as_slice()
    }

    /// Parses the fixed 16-byte file header, validating the magic bytes,
    /// the revolution count, and the track range.
    pub fn parse_header(&self) -> (r: Result<SCPHeader, FloppyError>)
        ensures
            r == spec_parse_header(self@),
    {
        let data = self.data.as_slice();
        if data.len() < 16 {
            return Err(FloppyError::ScpTooShort { len: data.len(), needed: 16 });
        }
        if !(data[0] == 83 && data[1] == 67 && data[2] == 80) {
            return Err(FloppyError::ScpBadMagic);
        }
        let h = SCPHeader {
            version: data[3],
            disk_type: data[4],
            revolutions: data[5],
            start_track: data[6],
            end_track: data[7],
            flags: data[8],
            bit_cell_width: data[9],
            heads: data[10],
            resolution: data[11],
            checksum: (data[12] as u32) | ((data[13] as u32) << 8) | ((data[14] as u32) << 16) | (
            (data[15] as u32) << 24),
        };
        if h.revolutions < 1 || h.revolutions > 5 {
            return Err(FloppyError::ScpInvalidRevolutions { revolutions: h.revolutions });
        }
        if h.start_track > h.end_track || h.end_track > 167 {
            return Err(
                FloppyError::ScpInvalidTrackRange {
                    start_track: h.start_track,
                    end_track: h.end_track,
                },
            );
        }
        Ok(h)
    }

    /// Parses the track offset table and each present track's data header.
    #[verifier::loop_isolation(false)]
    pub fn parse_track_headers(&self) -> (r: Result<Vec<TrackInfo>, FloppyError>)
        ensures
            match r {
                Ok(ts) => spec_parse_track_headers(self@) == Ok::<Seq<TrackInfo>, FloppyError>(
                    ts@,
                ),
                Err(e) => spec_parse_track_headers(self@) == Err::<Seq<TrackInfo>, FloppyError>(e),
            },
    {
        let header = match self.parse_header() {
            Ok(h) => h,
            Err(e) => {
                return Err(e);
            },
        };
        let data = self.data.as_slice();
        let count: usize = (header.end_track - header.start_track) as usize + 1;
        if data.len() < 16 + count * 4 {
            return Err(FloppyError::ScpTooShort { len: data.len(), needed: 16 + count * 4 });
        }
        let mut out: Vec<TrackInfo> = Vec::new();
        let mut k: usize = 0;
        proof {
            assert(out@ + spec_scp_tracks(self@, count as nat, 0)->Ok_0 =~= spec_scp_tracks(
                self@,
                count as nat,
                0,
            )->Ok_0);
        }
        while k < count
            invariant
                k <= count,
                spec_scp_tracks(self@, count as nat, 0) == combine_infos(
                    out@,
                    spec_scp_tracks(self@, count as nat, k as nat),
                ),
            decreases count - k,
        {
            let t = 16 + 4 * k;
            let off: u32 = (data[t] as u32) | ((data[t + 1] as u32) << 8) | ((data[t
                + 2] as u32) << 16) | ((data[t + 3] as u32) << 24);
            if off != 0 {
                if off as u64 + 12 > data.len() as u64 {
                    return Err(
                        FloppyError::ScpTrackOffsetTooLarge {
                            track_offset: off,
                            len: data.len(),
                        },
                    );
                }
                let o = off as usize;
                if !(data[o] == 84 && data[o + 1] == 82 && data[o + 2] == 75) {
                    return Err(FloppyError::ScpBadTrackMagic { track_offset: off });
                }
                let raw_len: u32 = ((data[o + 8] as u32) << 16) | ((data[o + 9] as u32) << 8) | (
                data[o + 10] as u32);
                let remaining = data.len() - o;
                let eff: u32 = if raw_len as usize <= remaining {
                    raw_len
                } else {
                    remaining as u32
                };
                let ti = TrackInfo {
                    track_number: data[o + 3],
                    duration_total: ((data[o + 4] as u32) << 24) | ((data[o + 5] as u32) << 16) | (
                    (data[o + 6] as u32) << 8) | (data[o + 7] as u32),
                    length: eff,
                    offset: off,
                };
                let ghost old_out = out@;
                out.push(ti);
                proof {
                    if let Ok(rest) = spec_scp_tracks(self@, count as nat, k as nat + 1) {
                        assert(old_out + (seq![ti] + rest) =~= out@ + rest);
                    }
                }
            }
            k += 1;
        }
        proof {
            assert(spec_scp_tracks(self@, count as nat, count as nat) == Ok::<
                Seq<TrackInfo>,
                FloppyError,
            >(Seq::empty()));
            assert(out@ + Seq::<TrackInfo>::empty() =~= out@);
        }
        Ok(out)
    }

    /// The human-readable name of a disk-type byte.
    pub fn disk_type_to_string(&self, disk_type: u8) -> (r: String)
        ensures
            r@ == spec_disk_type_string(disk_type),
    {
        let manufacturer = disk_type >> 4;
        let subclass = disk_type & 0x0f;
        let mut out = String::new();
        if manufacturer == 0 {
            out.append("CBM, subclass ");
            push_dec(&mut out, subclass as u64);
        } else if manufacturer == 1 {
            out.append("Atari, subclass ");
            push_dec(&mut out, subclass as u64);
        } else if manufacturer == 2 {
            out.append("Apple, subclass ");
            push_dec(&mut out, subclass as u64);
        } else if manufacturer == 3 {
            if subclass == 3 || subclass == 5 {
                out.append("PC 1.44M");
            } else {
                out.append("PC, subclass ");
                push_dec(&mut out, subclass as u64);
            }
        } else if manufacturer == 8 {
            if subclass == 0 {
                out.append("PC 1.44M (Non-standard)");
            } else {
                out.append("Unknown manufacturer 8, subclass ");
                push_dec(&mut out, subclass as u64);
            }
        } else {
            out.append("Unknown manufacturer ");
            push_dec(&mut out, manufacturer as u64);
            out.append(", subclass ");
            push_dec(&mut out, subclass as u64);
        }
        proof {
            assert(out@ =~= spec_disk_type_string(disk_type));
        }
        out
    }

    /// The geometry for the known 1.44M PC disk types; other types are not
    /// inferred.
    pub fn geometry(&self) -> (r: Result<Option<Geometry>, FloppyError>)
        ensures
            match r {
                Ok(g) => spec_parse_header(self@) matches Ok(h) && g == (if h.disk_type == 0x33
                    || h.disk_type == 0x80 || h.disk_type == 0x35 {
                    Some(
                        Geometry::Manual {
                            cylinders: 80,
                            heads: 2,
                            sectors_per_track: 18,
                            sector_size: 512,
                            mode: 5,
                        },
                    )
                } else {
                    None
                }),
                Err(e) => spec_parse_header(self@) == Err::<SCPHeader, FloppyError>(e),
            },
    {
        let h = match self.parse_header() {
            Ok(h) => h,
            Err(e) => {
                return Err(e);
            },
        };
        if h.disk_type == 0x33 || h.disk_type == 0x80 || h.disk_type == 0x35 {
            Ok(Some(Geometry::Manual {
                cylinders: 80,
                heads: 2,
                sectors_per_track: 18,
                sector_size: 512,
                mode: 5,
            }))
        } else {
            Ok(None)
        }
    }
}

} // verus!

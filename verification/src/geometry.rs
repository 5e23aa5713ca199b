//! Disk geometry: the `DiskFormat` table of standard floppy layouts and
//! inference of a geometry from a raw-image byte size.

use vstd::prelude::*;

verus! {

/// A floppy disk format: the addressable layout (cylinders, heads, sectors
/// per track, bytes per sector) together with the encoding-rate tag (`mode`)
/// that the structured container stores for each track, and a display name.
#[derive(Debug, Clone, Copy, PartialEq)]
pub struct DiskFormat {
    pub cylinders: u8,
    pub heads: u8,
    pub sectors_per_track: u8,
    pub sector_size: u16,
    pub mode: u8,
    pub name: &'static str,
}

impl DiskFormat {
    /// Total raw-image size in bytes implied by this geometry.
    pub open spec fn spec_total_size(&self) -> nat {
        self.cylinders as nat * self.heads as nat * self.sectors_per_track as nat
            * self.sector_size as nat
    }

    /// Calculates the total size in bytes for this disk format.
    pub fn total_size(&self) -> (r: usize)
        requires
            self.spec_total_size() <= usize::MAX as nat,
        ensures
            r == self.spec_total_size(),
    {
        proof {
            let c = self.cylinders as int;
            let h = self.heads as int;
            let s = self.sectors_per_track as int;
            assert(c * h <= 65025) by (nonlinear_arith)
                requires 0 <= c <= 255 && 0 <= h <= 255;
            assert(c * h * s <= 16581375) by (nonlinear_arith)
                requires 0 <= c * h <= 65025 && 0 <= s <= 255;
        }
        self.cylinders as usize * self.heads as usize * self.sectors_per_track as usize
            * self.sector_size as usize
    }
}

/// A caller-facing geometry choice: infer from the data, or use the given
/// explicit layout.
#[derive(Debug, Clone, Copy, PartialEq, Eq, Structural)]
pub enum Geometry {
    Auto,
    Manual { cylinders: u8, heads: u8, sectors_per_track: u8, sector_size: u16, mode: u8 },
}

/// 360 KiB double-density 5.25-inch layout.
pub open spec fn spec_ibm_360k() -> DiskFormat {
    DiskFormat {
        cylinders: 40,
        heads: 2,
        sectors_per_track: 9,
        sector_size: 512,
        mode: 4,
        name: "360K 5.25\" DD",
    }
}

/// 720 KiB double-density 3.5-inch layout.
pub open spec fn spec_ibm_720k() -> DiskFormat {
    DiskFormat {
        cylinders: 80,
        heads: 2,
        sectors_per_track: 9,
        sector_size: 512,
        mode: 4,
        name: "720K 3.5\" DD",
    }
}

/// 1.2 MiB high-density 5.25-inch layout.
pub open spec fn spec_ibm_1_2m() -> DiskFormat {
    DiskFormat {
        cylinders: 80,
        heads: 2,
        sectors_per_track: 15,
        sector_size: 512,
        mode: 3,
        name: "1.2M 5.25\" HD",
    }
}

/// 1.44 MiB high-density 3.5-inch layout.
pub open spec fn spec_ibm_1_44m() -> DiskFormat {
    DiskFormat {
        cylinders: 80,
        heads: 2,
        sectors_per_track: 18,
        sector_size: 512,
        mode: 5,
        name: "1.44M 3.5\" HD",
    }
}

/// A brute-forced layout: 512-byte sectors, mode tag 5.
pub open spec fn spec_custom_format(cyl: nat, heads: nat, spt: nat) -> DiskFormat {
    DiskFormat {
        cylinders: cyl as u8,
        heads: heads as u8,
        sectors_per_track: spt as u8,
        sector_size: 512,
        mode: 5,
        name: "Custom",
    }
}

/// Does `(cyl, heads)` divide a `size`-byte image evenly into at most 36
/// 512-byte sectors per track?
pub open spec fn spec_brute_candidate(size: nat, cyl: nat, heads: nat) -> bool {
    let total = size / 512;
    let spt = total / (cyl * heads);
    &&& spt * (cyl * heads) == total
    &&& spt <= 36
}

/// The divisor search for unrecognized sizes: ascending cylinders from
/// `cyl` to 80, and for each cylinder count one head before two; the first
/// match wins, so the result is deterministic.
pub open spec fn spec_brute_force(size: nat, cyl: nat) -> Option<DiskFormat>
    decreases 81 - cyl,
{
    if cyl >= 81 {
        None
    } else if spec_brute_candidate(size, cyl, 1) {
        Some(spec_custom_format(cyl, 1, size / 512 / cyl))
    } else if spec_brute_candidate(size, cyl, 2) {
        Some(spec_custom_format(cyl, 2, size / 512 / (cyl * 2)))
    } else {
        spec_brute_force(size, cyl + 1)
    }
}

/// The geometry inferred for a raw image of `size` bytes: an exact match in
/// the table of standard formats, else the divisor search when the size is a
/// multiple of 512, else nothing.
pub open spec fn spec_infer_format(size: nat) -> Option<DiskFormat> {
    if size == 368640 {
        Some(spec_ibm_360k())
    } else if size == 737280 {
        Some(spec_ibm_720k())
    } else if size == 1228800 {
        Some(spec_ibm_1_2m())
    } else if size == 1474560 {
        Some(spec_ibm_1_44m())
    } else if size % 512 == 0 {
        spec_brute_force(size, 40)
    } else {
        None
    }
}

/// Infers the disk format for a raw image of `size` bytes: an exact table
/// match first (so standard sizes never fall through to the search), then a
/// brute-force divisor search over 40..=80 cylinders and 1..=2 heads in
/// ascending order, first match wins.
pub fn infer_format(size: usize) -> (r: Option<DiskFormat>)
    ensures
        r == spec_infer_format(size as nat),
{
    if size == 368_640 {
        Some(DiskFormat {
            cylinders: 40,
            heads: 2,
            sectors_per_track: 9,
            sector_size: 512,
            mode: 4,
            name: "360K 5.25\" DD",
        })
    } else if size == 737_280 {
        Some(DiskFormat {
            cylinders: 80,
            heads: 2,
            sectors_per_track: 9,
            sector_size: 512,
            mode: 4,
            name: "720K 3.5\" DD",
        })
    } else if size == 1_228_800 {
        Some(DiskFormat {
            cylinders: 80,
            heads: 2,
            sectors_per_track: 15,
            sector_size: 512,
            mode: 3,
            name: "1.2M 5.25\" HD",
        })
    } else if size == 1_474_560 {
        Some(DiskFormat {
            cylinders: 80,
            heads: 2,
            sectors_per_track: 18,
            sector_size: 512,
            mode: 5,
            name: "1.44M 3.5\" HD",
        })
    } else if size % 512 == 0 {
        brute_force_format(size)
    } else {
        None
    }
}

/// The divisor search behind `infer_format`.
fn brute_force_format(size: usize) -> (r: Option<DiskFormat>)
    ensures
        r == spec_brute_force(size as nat, 40),
{
    let total: usize = size / 512;
    let mut cyl: usize = 40;
    while cyl <= 80
        invariant
            40 <= cyl <= 81,
            total == size as nat / 512,
            spec_brute_force(size as nat, 40) == spec_brute_force(size as nat, cyl as nat),
        decreases 81 - cyl,
    {
        let spt1: usize = total / cyl;
        if spt1 <= 36 {
            proof {
                assert(spt1 * cyl <= 2880) by (nonlinear_arith)
                    requires 0 <= spt1 <= 36 && 0 <= cyl <= 80;
            }
            if spt1 * cyl == total {
                assert(spec_brute_candidate(size as nat, cyl as nat, 1));
                return Some(DiskFormat {
                    cylinders: cyl as u8,
                    heads: 1,
                    sectors_per_track: spt1 as u8,
                    sector_size: 512,
                    mode: 5,
                    name: "Custom",
                });
            }
        }
        let spt2: usize = total / (cyl * 2);
        if spt2 <= 36 {
            proof {
                assert(spt2 * (cyl * 2) <= 5760) by (nonlinear_arith)
                    requires 0 <= spt2 <= 36 && 0 <= cyl <= 80;
            }
            if spt2 * (cyl * 2) == total {
                assert(spec_brute_candidate(size as nat, cyl as nat, 2));
                return Some(DiskFormat {
                    cylinders: cyl as u8,
                    heads: 2,
                    sectors_per_track: spt2 as u8,
                    sector_size: 512,
                    mode: 5,
                    name: "Custom",
                });
            }
        }
        proof {
            assert(!spec_brute_candidate(size as nat, cyl as nat, 1));
            assert(!spec_brute_candidate(size as nat, cyl as nat, 2));
        }
        cyl += 1;
    }
    None
}

/// Geometry inference is deterministic, and on the standard 720 KiB size it
/// returns the table entry for the 80x2x9x512 layout, never a brute-forced
/// alternative (the search would have offered 40 cylinders, 1 head, 36
/// sectors per track for the same size).
pub proof fn lemma_infer_737280()
    ensures
        spec_infer_format(737280) == Some(spec_ibm_720k()),
{
}

} // verus!

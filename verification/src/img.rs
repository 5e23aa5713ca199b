//! The raw-image handler: geometry inference from the file size, the raw
//! report, and conversion to a structured container.

use vstd::prelude::*;

use crate::container::{encode, spec_meta_of, SidecarMetadata};
use crate::errors::FloppyError;
use crate::geometry::{
    infer_format, spec_brute_candidate, spec_brute_force, spec_infer_format, DiskFormat, Geometry,
};
use crate::model::spec_container_encode;
use crate::report::{display, spec_display};

verus! {

/// The bytes of one raw sector-dump image.
pub struct IMGHandler {
    data: Vec<u8>,
}

impl View for IMGHandler {
    type V = Seq<u8>;

    closed spec fn view(&self) -> Seq<u8> {
        self.data@
    }
}

/// Any geometry the divisor search returns accounts for every byte of the
/// image.
proof fn lemma_brute_force_total(size: nat, cyl: nat)
    requires
        size % 512 == 0,
        40 <= cyl,
    ensures
        match spec_brute_force(size, cyl) {
            Some(f) => f.spec_total_size() == size,
            None => true,
        },
    decreases 81 - cyl,
{
    vstd::arithmetic::div_mod::lemma_fundamental_div_mod(size as int, 512);
    let q = size / 512;
    if cyl >= 81 {
    } else if spec_brute_candidate(size, cyl, 1) {
        let spt = q / cyl;
        vstd::arithmetic::div_mod::lemma_fundamental_div_mod(q as int, cyl as int * 1);
        assert(cyl * 1 == cyl) by (nonlinear_arith);
        assert(spt * cyl == q);
        assert(cyl * 1 * spt * 512 == size) by (nonlinear_arith)
            requires spt * cyl == q && size == 512 * q;
    } else if spec_brute_candidate(size, cyl, 2) {
        let spt = q / (cyl * 2);
        assert(spt * (cyl * 2) == q);
        assert(cyl * 2 * spt * 512 == size) by (nonlinear_arith)
            requires spt * (cyl * 2) == q && size == 512 * q;
    } else {
        lemma_brute_force_total(size, cyl + 1);
    }
}

/// Any geometry `infer_format` returns accounts for every byte of the image.
pub proof fn lemma_infer_total(size: nat)
    ensures
        match spec_infer_format(size) {
            Some(f) => f.spec_total_size() == size,
            None => true,
        },
{
    if size == 368640 || size == 737280 || size == 1228800 || size == 1474560 {
    } else if size % 512 == 0 {
        lemma_brute_force_total(size, 40);
    }
}

/// The geometry an explicit choice or the image size stands for.
pub open spec fn spec_resolve_geometry(len: nat, geometry: Geometry) -> Result<
    DiskFormat,
    FloppyError,
> {
    match geometry {
        Geometry::Manual { cylinders, heads, sectors_per_track, sector_size, mode } => Ok(
            DiskFormat { cylinders, heads, sectors_per_track, sector_size, mode, name: "Custom" },
        ),
        Geometry::Auto => match spec_infer_format(len) {
            Some(f) => Ok(f),
            None => Err(FloppyError::AmbiguousGeometry { size: len as usize }),
        },
    }
}

impl IMGHandler {
    /// Wraps the bytes of one raw image.
    pub fn new(data: Vec<u8>) -> (r: Self)
        ensures
            r@ == data@,
    {
        IMGHandler { data }
    }

    /// The raw bytes.
    pub fn data(&self) -> (r: &[u8])
        ensures
            r@ == self@,
    {
        self.data.as_slice()
    }

    /// Infers the image's geometry from its size: an exact table match, then
    /// the divisor search; an unrecognized size is `AmbiguousGeometry`, and
    /// the caller must then supply the geometry explicitly.
    pub fn infer_geometry(&self) -> (r: Result<DiskFormat, FloppyError>)
        ensures
            match r {
                Ok(f) => spec_infer_format(self@.len()) == Some(f),
                Err(e) => spec_infer_format(self@.len()) is None && e
                    == (FloppyError::AmbiguousGeometry { size: self@.len() as usize }),
            },
    {
        match infer_format(self.data.len()) {
            Some(f) => Ok(f),
            None => Err(FloppyError::AmbiguousGeometry { size: self.data.len() }),
        }
    }

    /// Renders the raw-image report for the inferred geometry.
    pub fn display(&self, ascii: bool) -> (r: Result<String, FloppyError>)
        ensures
            match r {
                Ok(s) => spec_infer_format(self@.len()) matches Some(f) && s@ == spec_display(
                    self@,
                    f,
                    ascii,
                ),
                Err(e) => spec_infer_format(self@.len()) is None && e
                    == (FloppyError::AmbiguousGeometry { size: self@.len() as usize }),
            },
    {
        let fmt = match self.infer_geometry() {
            Ok(f) => f,
            Err(e) => {
                return Err(e);
            },
        };
        proof {
            lemma_infer_total(self@.len());
        }
        display(self.data.as_slice(), &fmt, ascii)
    }

    /// The inferred geometry, as a caller-facing choice.
    pub fn geometry(&self) -> (r: Result<Option<Geometry>, FloppyError>)
        ensures
            match r {
                Ok(g) => spec_infer_format(self@.len()) matches Some(f) && g == Some(
                    Geometry::Manual {
                        cylinders: f.cylinders,
                        heads: f.heads,
                        sectors_per_track: f.sectors_per_track,
                        sector_size: f.sector_size,
                        mode: f.mode,
                    },
                ),
                Err(e) => spec_infer_format(self@.len()) is None && e
                    == (FloppyError::AmbiguousGeometry { size: self@.len() as usize }),
            },
    {
        let f = match self.infer_geometry() {
            Ok(f) => f,
            Err(e) => {
                return Err(e);
            },
        };
        Ok(Some(Geometry::Manual {
            cylinders: f.cylinders,
            heads: f.heads,
            sectors_per_track: f.sectors_per_track,
            sector_size: f.sector_size,
            mode: f.mode,
        }))
    }

    /// Encodes the raw image into a structured container, for the explicit
    /// geometry or the inferred one, using the captured sidecar metadata
    /// when supplied.
    pub fn to_imd(&self, geometry: &Geometry, meta: Option<&SidecarMetadata>) -> (r: Result<
        Vec<u8>,
        FloppyError,
    >)
        ensures
            match spec_resolve_geometry(self@.len(), *geometry) {
                Err(e) => r == Err::<Vec<u8>, FloppyError>(e),
                Ok(fmt) => match r {
                    Ok(out) => spec_container_encode(self@, fmt, spec_meta_of(meta)) == Ok::<
                        Seq<u8>,
                        FloppyError,
                    >(out@),
                    Err(e) => spec_container_encode(self@, fmt, spec_meta_of(meta)) == Err::<
                        Seq<u8>,
                        FloppyError,
                    >(e),
                },
            },
    {
        let fmt = match geometry {
            Geometry::Manual { cylinders, heads, sectors_per_track, sector_size, mode } => DiskFormat {
                cylinders: *cylinders,
                heads: *heads,
                sectors_per_track: *sectors_per_track,
                sector_size: *sector_size,
                mode: *mode,
                name: "Custom",
            },
            Geometry::Auto => match self.infer_geometry() {
                Ok(f) => f,
                Err(e) => {
                    return Err(e);
                },
            },
        };
        encode(self.data.as_slice(), &fmt, meta)
    }
}

} // verus!

//! Conversion of either image kind to the raw sector-dump form.

use vstd::prelude::*;

use crate::container::decode;
use crate::errors::FloppyError;
use crate::geometry::DiskFormat;
use crate::model::spec_container_decode;

verus! {

/// Converts an image to its raw sector-dump bytes.  A structured container
/// (`is_imd`) is decoded track by track, each track's sectors placed in
/// physical sector-id order; a raw image is length-checked against the
/// geometry and copied through unchanged.  Progress reporting is the
/// caller's concern.
pub fn convert_to_raw(data: &[u8], format: &DiskFormat, _verbose: bool, is_imd: bool) -> (r:
    Result<Vec<u8>, FloppyError>)
    ensures
        is_imd ==> (match r {
            Ok(v) => spec_container_decode(data@) matches Ok(d) && v@ == d.raw,
            Err(e) => spec_container_decode(data@) == Err::<crate::model::DecodedV, FloppyError>(
                e,
            ),
        }),
        !is_imd ==> (match r {
            Ok(v) => data@.len() == format.spec_total_size() && v@ == data@,
            Err(e) => data@.len() != format.spec_total_size() && e
                == (FloppyError::GeometryMismatch {
                actual: data@.len() as usize,
                expected: format.spec_total_size() as u64,
            }),
        }),
{
    if is_imd {
        match decode(data) {
            Ok((raw, _meta, _stats)) => Ok(raw),
            Err(e) => Err(e),
        }
    } else {
        proof {
            let c = format.cylinders as int;
            let h = format.heads as int;
            let s = format.sectors_per_track as int;
            let z = format.sector_size as int;
            assert(c * h <= 65025) by (nonlinear_arith)
                requires 0 <= c <= 255 && 0 <= h <= 255;
            assert(c * h * s <= 16581375) by (nonlinear_arith)
                requires 0 <= c * h <= 65025 && 0 <= s <= 255;
            assert(c * h * s * z <= 0x10_0000_0000_0000) by (nonlinear_arith)
                requires 0 <= c * h * s <= 16581375 && 0 <= z <= 65535;
        }
        let expected: u64 = format.cylinders as u64 * format.heads as u64
            * format.sectors_per_track as u64 * format.sector_size as u64;
        if data.len() as u64 != expected {
            return Err(FloppyError::GeometryMismatch { actual: data.len(), expected });
        }
        let mut out: Vec<u8> = Vec::new();
        let n = data.len();
        let mut i: usize = 0;
        while i < n
            invariant
                i <= n,
                n == data@.len(),
                out@ == data@.subrange(0, i as int),
            decreases n - i,
        {
            out.push(data[i]);
            i += 1;
            proof {
                assert(out@ =~= data@.subrange(0, i as int));
            }
        }
        proof {
            assert(out@ =~= data@);
        }
        Ok(out)
    }
}

} // verus!

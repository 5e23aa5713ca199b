//! The track codec: decoding one track record from a byte buffer and
//! encoding one track's worth of raw bytes, each specified exactly against
//! the spec functions of `model`.

use vstd::prelude::*;

use crate::errors::FloppyError;
use crate::model::{
    enc_sector, enc_slots_from, enc_track, parse_slots, parse_track, place_slots, slot_content,
    spec_code_of_size, spec_size_of_code, spec_uniform, splice, track_raw, valid_sector_ids,
    wf_track, zero_bytes, SlotV, TrackV,
};

verus! {

/// One sector of a track record: a verbatim payload or a fill byte that
/// stands for a whole sector of identical bytes.
#[derive(Debug, PartialEq)]
pub enum SectorRecord {
    Normal(Vec<u8>),
    Compressed(u8),
}

impl View for SectorRecord {
    type V = SlotV;

    open spec fn view(&self) -> SlotV {
        match self {
            SectorRecord::Normal(bytes) => SlotV { compressed: false, fill: 0, bytes: bytes@ },
            SectorRecord::Compressed(fill) => SlotV {
                compressed: true,
                fill: *fill,
                bytes: Seq::empty(),
            },
        }
    }
}

/// The slot views of a sequence of sector records.
pub open spec fn slots_of(sectors: Seq<SectorRecord>) -> Seq<SlotV> {
    sectors.map_values(|s: SectorRecord| s@)
}

proof fn lemma_slots_push(sectors: Seq<SectorRecord>, x: SectorRecord)
    ensures
        slots_of(sectors.push(x)) == slots_of(sectors).push(x@),
{
    assert(slots_of(sectors.push(x)) =~= slots_of(sectors).push(x@));
}

/// One physical track of the structured container.  `sector_ids[i]` is the
/// 1-based physical sector number of `sectors[i]`; the list need not be
/// sorted or contiguous.
#[derive(Debug, PartialEq)]
pub struct TrackRecord {
    pub mode: u8,
    pub cylinder: u8,
    pub head: u8,
    pub sector_size_code: u8,
    pub sector_ids: Vec<u8>,
    pub sectors: Vec<SectorRecord>,
}

impl View for TrackRecord {
    type V = TrackV;

    open spec fn view(&self) -> TrackV {
        TrackV {
            mode: self.mode,
            cylinder: self.cylinder,
            head: self.head,
            size_code: self.sector_size_code,
            ids: self.sector_ids@,
            slots: slots_of(self.sectors@),
        }
    }
}

/// The sector size a size code stands for.
pub fn size_of_code(code: u8) -> (r: u16)
    requires
        code <= 5,
    ensures
        r as nat == spec_size_of_code(code),
        128 <= r <= 4096,
{
    match code {
        0 => 128,
        1 => 256,
        2 => 512,
        3 => 1024,
        4 => 2048,
        _ => 4096,
    }
}

/// The size code for a sector size, if one exists.
pub fn code_of_size(size: u16) -> (r: Option<u8>)
    ensures
        r == spec_code_of_size(size),
{
    match size {
        128 => Some(0),
        256 => Some(1),
        512 => Some(2),
        1024 => Some(3),
        2048 => Some(4),
        4096 => Some(5),
        _ => None,
    }
}

/// The bytes `data[a..b]` as a fresh vector.
fn copy_range(data: &[u8], a: usize, b: usize) -> (r: Vec<u8>)
    requires
        a <= b <= data@.len(),
    ensures
        r@ == data@.subrange(a as int, b as int),
{
    let mut v: Vec<u8> = Vec::new();
    let mut i: usize = a;
    while i < b
        invariant
            a <= i <= b <= data@.len(),
            v@ == data@.subrange(a as int, i as int),
        decreases b - i,
    {
        v.push(data[i]);
        i += 1;
        proof {
            assert(v@ =~= data@.subrange(a as int, i as int));
        }
    }
    v
}

/// Combines already-decoded slots with the outcome of parsing the rest.
pub open spec fn combine_slots(
    pre: Seq<SlotV>,
    r: Result<(Seq<SlotV>, int), FloppyError>,
) -> Result<(Seq<SlotV>, int), FloppyError> {
    match r {
        Ok(rq) => Ok((pre + rq.0, rq.1)),
        Err(e) => Err(e),
    }
}

/// Decodes exactly one track record starting at `start`, returning the track
/// and the position just past it.  The outcome, success or error, is exactly
/// what `parse_track` says for these bytes.
#[verifier::loop_isolation(false)]
pub fn decode_track(data: &[u8], start: usize) -> (r: Result<(TrackRecord, usize), FloppyError>)
    requires
        start <= data@.len(),
    ensures
        match r {
            Ok((t, q)) => parse_track(data@, start as int) == Ok::<(TrackV, int), FloppyError>(
                (t@, q as int),
            ) && start <= q <= data@.len(),
            Err(e) => parse_track(data@, start as int) == Err::<(TrackV, int), FloppyError>(e),
        },
{
    if data.len() - start < 5 {
        return Err(FloppyError::MalformedContainer { offset: start });
    }
    let mode = data[start];
    let cylinder = data[start + 1];
    let head = data[start + 2];
    let count = data[start + 3];
    let code = data[start + 4];
    if code > 5 {
        return Err(FloppyError::InvalidSectorSizeCode { code });
    }
    let p5 = start + 5;
    if data.len() - p5 < count as usize {
        return Err(FloppyError::MalformedContainer { offset: p5 });
    }
    let sector_ids = copy_range(data, p5, p5 + count as usize);
    let mut i: usize = 0;
    while i < count as usize
        invariant
            i <= count as usize,
            forall|j: int| 0 <= j < i ==> 1 <= #[trigger] sector_ids@[j] <= count,
        decreases count as usize - i,
    {
        let id = sector_ids[i];
        if id == 0 || id > count {
            proof {
                assert(!valid_sector_ids(sector_ids@, count));
            }
            return Err(FloppyError::MalformedContainer { offset: p5 });
        }
        i += 1;
    }
    assert(valid_sector_ids(sector_ids@, count));
    let skip: usize = (if head & 0x80 != 0 {
        count as usize
    } else {
        0
    }) + (if head & 0x40 != 0 {
        count as usize
    } else {
        0
    });
    let q0 = p5 + count as usize;
    if data.len() - q0 < skip {
        return Err(FloppyError::MalformedContainer { offset: q0 });
    }
    let mut pos: usize = q0 + skip;
    let size = size_of_code(code);
    let size_us = size as usize;
    let ghost q2: int = pos as int;
    let ghost sz: nat = size_us as nat;
    assert(parse_track(data@, start as int) == (match parse_slots(
        data@,
        q2,
        count as nat,
        sz,
        cylinder,
        head,
    ) {
        Ok(sq) => Ok::<(TrackV, int), FloppyError>(
            (
                TrackV {
                    mode,
                    cylinder,
                    head,
                    size_code: code,
                    ids: sector_ids@,
                    slots: sq.0,
                },
                sq.1,
            ),
        ),
        Err(e) => Err::<(TrackV, int), FloppyError>(e),
    }));

    let mut sectors: Vec<SectorRecord> = Vec::new();
    let mut i: usize = 0;
    while i < count as usize
        invariant
            i <= count as usize,
            q2 <= pos as int <= data@.len(),
            sectors@.len() == i,
            parse_slots(data@, q2, count as nat, sz, cylinder, head) == combine_slots(
                slots_of(sectors@),
                parse_slots(data@, pos as int, (count - i) as nat, sz, cylinder, head),
            ),
        decreases count as usize - i,
    {
        if pos >= data.len() {
            return Err(FloppyError::MalformedContainer { offset: pos });
        }
        let t = data[pos];
        if t == 1 {
            if data.len() - (pos + 1) < size_us {
                return Err(FloppyError::MalformedContainer { offset: pos });
            }
            let payload = copy_range(data, pos + 1, pos + 1 + size_us);
            let ghost slot = SlotV { compressed: false, fill: 0, bytes: payload@ };
            let ghost old_slots = slots_of(sectors@);
            sectors.push(SectorRecord::Normal(payload));
            pos = pos + 1 + size_us;
            i += 1;
            proof {
                lemma_slots_push(sectors@.drop_last(), sectors@.last());
                assert(sectors@.drop_last().push(sectors@.last()) =~= sectors@);
                assert(slots_of(sectors@) == old_slots.push(slot));
                let inner = parse_slots(data@, pos as int, (count - i) as nat, sz, cylinder, head);
                if let Ok(rq) = inner {
                    assert(old_slots.push(slot) + rq.0 =~= old_slots + (seq![slot] + rq.0));
                }
            }
        } else if t == 2 {
            if data.len() - (pos + 1) < 1 {
                return Err(FloppyError::MalformedContainer { offset: pos });
            }
            let fill = data[pos + 1];
            let ghost slot = SlotV { compressed: true, fill, bytes: Seq::empty() };
            let ghost old_slots = slots_of(sectors@);
            sectors.push(SectorRecord::Compressed(fill));
            pos = pos + 2;
            i += 1;
            proof {
                lemma_slots_push(sectors@.drop_last(), sectors@.last());
                assert(sectors@.drop_last().push(sectors@.last()) =~= sectors@);
                assert(slots_of(sectors@) == old_slots.push(slot));
                let inner = parse_slots(data@, pos as int, (count - i) as nat, sz, cylinder, head);
                if let Ok(rq) = inner {
                    assert(old_slots.push(slot) + rq.0 =~= old_slots + (seq![slot] + rq.0));
                }
            }
        } else {
            return Err(FloppyError::UnsupportedSectorType { type_byte: t, cylinder, head });
        }
    }
    proof {
        assert(slots_of(sectors@) + Seq::<SlotV>::empty() =~= slots_of(sectors@));
    }
    let track = TrackRecord {
        mode,
        cylinder,
        head,
        sector_size_code: code,
        sector_ids,
        sectors,
    };
    Ok((track, pos))
}

/// Overwrites `raw[off..off + bytes.len()]` with `bytes`.
#[verifier::loop_isolation(false)]
fn write_bytes(raw: &mut Vec<u8>, off: usize, bytes: &Vec<u8>)
    requires
        off + bytes@.len() <= old(raw)@.len(),
    ensures
        final(raw)@ == splice(old(raw)@, off as int, bytes@),
{
    let ghost prev = raw@;
    let rlen = raw.len();
    let n = bytes.len();
    let mut j: usize = 0;
    while j < n
        invariant
            j <= n,
            raw@ == splice(prev, off as int, bytes@.subrange(0, j as int)),
            raw@.len() == prev.len(),
        decreases n - j,
    {
        raw[off + j] = bytes[j];
        j += 1;
        proof {
            assert(raw@ =~= splice(prev, off as int, bytes@.subrange(0, j as int)));
        }
    }
    proof {
        assert(bytes@.subrange(0, n as int) =~= bytes@);
    }
}

/// Overwrites `raw[off..off + size]` with `size` copies of `fill`.
#[verifier::loop_isolation(false)]
fn write_fill(raw: &mut Vec<u8>, off: usize, size: usize, fill: u8)
    requires
        off + size <= old(raw)@.len(),
    ensures
        final(raw)@ == splice(old(raw)@, off as int, Seq::new(size as nat, |i: int| fill)),
{
    let ghost prev = raw@;
    let rlen = raw.len();
    let ghost content = Seq::new(size as nat, |i: int| fill);
    let mut j: usize = 0;
    while j < size
        invariant
            j <= size,
            raw@ == splice(prev, off as int, content.subrange(0, j as int)),
            raw@.len() == prev.len(),
        decreases size - j,
    {
        raw[off + j] = fill;
        j += 1;
        proof {
            assert(raw@ =~= splice(prev, off as int, content.subrange(0, j as int)));
        }
    }
    proof {
        assert(content.subrange(0, size as int) =~= content);
    }
}

impl TrackRecord {
    /// The sector size in bytes this track's size code stands for.
    pub fn sector_size(&self) -> (r: u16)
        requires
            self.sector_size_code <= 5,
        ensures
            r as nat == spec_size_of_code(self.sector_size_code),
    {
        size_of_code(self.sector_size_code)
    }

    /// The track's raw bytes: a zeroed buffer of `sector_count *
    /// sector_size` bytes with each decoded sector placed at the position
    /// its physical sector id names (id 1 first), later slots overwriting
    /// earlier ones.  Placement by physical id, not encounter order, is what
    /// keeps non-ascending id maps byte-exact.
    #[verifier::loop_isolation(false)]
    pub fn raw_bytes(&self) -> (r: Vec<u8>)
        requires
            wf_track(self@),
        ensures
            r@ == track_raw(self@),
            r@.len() == self@.ids.len() * spec_size_of_code(self@.size_code),
    {
        let count = self.sector_ids.len();
        let size = size_of_code(self.sector_size_code) as usize;
        proof {
            assert(count * size <= 255 * 4096) by (nonlinear_arith)
                requires 0 <= count <= 255 && 0 <= size <= 4096;
        }
        let total = count * size;
        let mut raw: Vec<u8> = Vec::new();
        let mut z: usize = 0;
        while z < total
            invariant
                z <= total,
                raw@ =~= zero_bytes(z as nat),
            decreases total - z,
        {
            raw.push(0);
            z += 1;
            proof {
                assert(raw@ =~= zero_bytes(z as nat));
            }
        }
        assert(raw@ =~= place_slots(self@.ids, self@.slots, 0, count as nat, size as nat));
        let mut k: usize = 0;
        while k < count
            invariant
                k <= count,
                raw@ == place_slots(self@.ids, self@.slots, k as nat, count as nat, size as nat),
                raw@.len() == total,
            decreases count - k,
        {
            let id = self.sector_ids[k];
            proof {
                assert(1 <= self@.ids[k as int] <= count);
                vstd::arithmetic::mul::lemma_mul_inequality(id as int, count as int, size as int);
                assert((id - 1) as int * size as int + size as int == id as int * size as int)
                    by (nonlinear_arith)
                    requires id >= 1;
            }
            let off = (id - 1) as usize * size;
            let ghost prev = raw@;
            match &self.sectors[k] {
                SectorRecord::Normal(bytes) => {
                    assert(self@.slots[k as int] == self.sectors@[k as int]@);
                    write_bytes(&mut raw, off, bytes);
                },
                SectorRecord::Compressed(fill) => {
                    assert(self@.slots[k as int] == self.sectors@[k as int]@);
                    write_fill(&mut raw, off, size, *fill);
                },
            }
            proof {
                assert(raw@ == splice(
                    prev,
                    off as int,
                    slot_content(self@.slots[k as int], size as nat),
                ));
            }
            k += 1;
        }
        raw
    }
}

/// Is the sector at `raw[off..off + size]` a single repeated byte?
#[verifier::loop_isolation(false)]
fn is_uniform(raw: &[u8], off: usize, size: usize) -> (r: bool)
    requires
        off + size <= raw@.len(),
        1 <= size,
    ensures
        r == spec_uniform(raw@.subrange(off as int, off as int + size as int)),
{
    let ghost chunk = raw@.subrange(off as int, off as int + size as int);
    let first = raw[off];
    let mut j: usize = 1;
    while j < size
        invariant
            1 <= j <= size,
            forall|i: int| 0 <= i < j ==> #[trigger] chunk[i] == first,
        decreases size - j,
    {
        if raw[off + j] != first {
            proof {
                assert(chunk[j as int] != chunk[0]);
            }
            return false;
        }
        j += 1;
    }
    true
}

/// Appends the bytes `data[a..b]` to `out`.
fn append_range(out: &mut Vec<u8>, data: &[u8], a: usize, b: usize)
    requires
        a <= b <= data@.len(),
    ensures
        final(out)@ == old(out)@ + data@.subrange(a as int, b as int),
{
    let ghost prev = out@;
    let mut i: usize = a;
    while i < b
        invariant
            a <= i <= b <= data@.len(),
            out@ == prev + data@.subrange(a as int, i as int),
        decreases b - i,
    {
        out.push(data[i]);
        i += 1;
        proof {
            assert(out@ =~= prev + data@.subrange(a as int, i as int));
        }
    }
    proof {
        if a == b {
            assert(out@ =~= prev + data@.subrange(a as int, b as int));
        }
    }
}

/// Appends the encoding of one sector: type 2 and the fill byte when all
/// `size` bytes are identical, else type 1 and the verbatim bytes.
fn encode_sector(out: &mut Vec<u8>, raw: &[u8], off: usize, size: usize)
    requires
        off + size <= raw@.len(),
        1 <= size,
    ensures
        final(out)@ == old(out)@ + enc_sector(
            raw@.subrange(off as int, off as int + size as int),
        ),
{
    let ghost chunk = raw@.subrange(off as int, off as int + size as int);
    let ghost prev = out@;
    let rlen = raw.len();
    assert(off + size <= rlen);
    if is_uniform(raw, off, size) {
        out.push(2);
        out.push(raw[off]);
        proof {
            assert(out@ =~= prev + seq![2u8, chunk[0]]);
        }
    } else {
        out.push(1);
        append_range(out, raw, off, off + size);
        proof {
            assert(out@ =~= prev + (seq![1u8] + chunk));
        }
    }
}

/// Appends the encoding of one track: the five header bytes, the sector-id
/// list, then one sector encoding per id in id-list order, each drawing its
/// payload from the physical sector the id names within the track's chunk
/// `raw[base..base + count * size]`.
#[verifier::loop_isolation(false)]
pub fn encode_track(
    out: &mut Vec<u8>,
    mode: u8,
    cylinder: u8,
    head: u8,
    code: u8,
    ids: &Vec<u8>,
    raw: &[u8],
    base: usize,
)
    requires
        code <= 5,
        ids@.len() <= 255,
        valid_sector_ids(ids@, ids@.len() as u8),
        base + ids@.len() * spec_size_of_code(code) <= raw@.len(),
    ensures
        final(out)@ == old(out)@ + enc_track(
            mode,
            cylinder,
            head,
            code,
            ids@,
            raw@.subrange(
                base as int,
                base as int + ids@.len() * spec_size_of_code(code),
            ),
        ),
{
    let count = ids.len();
    let size = size_of_code(code) as usize;
    proof {
        assert(count * size <= 255 * 4096) by (nonlinear_arith)
            requires 0 <= count <= 255 && 0 <= size <= 4096;
    }
    let ghost chunk = raw@.subrange(base as int, base as int + count as int * size as int);
    let ghost prev = out@;
    out.push(mode);
    out.push(cylinder);
    out.push(head);
    out.push(count as u8);
    out.push(code);
    let ghost header5 = seq![mode, cylinder, head, count as u8, code];
    proof {
        assert(out@ =~= prev + header5);
    }
    let mut i: usize = 0;
    while i < count
        invariant
            i <= count,
            out@ == prev + header5 + ids@.subrange(0, i as int),
        decreases count - i,
    {
        out.push(ids[i]);
        i += 1;
        proof {
            assert(out@ =~= prev + header5 + ids@.subrange(0, i as int));
        }
    }
    proof {
        assert(ids@.subrange(0, count as int) =~= ids@);
    }
    let ghost before_slots = out@;
    let mut i: usize = 0;
    while i < count
        invariant
            i <= count,
            out@ + enc_slots_from(chunk, ids@, i as nat, size as nat) == before_slots
                + enc_slots_from(chunk, ids@, 0, size as nat),
        decreases count - i,
    {
        let id = ids[i] as usize;
        let rlen = raw.len();
        proof {
            assert(1 <= ids@[i as int] <= count as u8);
            vstd::arithmetic::mul::lemma_mul_inequality(id as int, count as int, size as int);
            assert((id - 1) * size + size == id * size) by (nonlinear_arith)
                requires id >= 1;
            assert(base as int + (id as int - 1) * size as int + size as int <= rlen as int);
        }
        let soff = base + (id - 1) * size;
        let ghost pre_step = out@;
        encode_sector(out, raw, soff, size);
        proof {
            let seg = chunk.subrange(((id - 1) * size) as int, (id * size) as int);
            assert(seg =~= raw@.subrange(soff as int, soff as int + size as int));
            assert(pre_step + enc_sector(seg) + enc_slots_from(chunk, ids@, (i + 1) as nat,
                size as nat) =~= pre_step + (enc_sector(seg) + enc_slots_from(chunk, ids@,
                (i + 1) as nat, size as nat)));
            assert(out@ + enc_slots_from(chunk, ids@, (i + 1) as nat, size as nat) == before_slots
                + enc_slots_from(chunk, ids@, 0, size as nat));
        }
        i += 1;
    }
    proof {
        assert(out@ + Seq::<u8>::empty() =~= out@);
        assert(prev + header5 + ids@ + enc_slots_from(chunk, ids@, 0, size as nat) =~= prev
            + (header5 + ids@ + enc_slots_from(chunk, ids@, 0, size as nat)));
    }
}

} // verus!

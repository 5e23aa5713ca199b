//! The library's laws, proved over the spec functions of `model`:
//! round-trip identity, sector-id independence, size-mismatch rejection,
//! and compression correctness.

use vstd::prelude::*;

use vstd::arithmetic::div_mod::{lemma_fundamental_div_mod, lemma_mod_bound};
use vstd::arithmetic::mul::lemma_mul_inequality;
use vstd::set_lib::{lemma_int_range, lemma_len_subset, set_int_range};

use crate::errors::FloppyError;
use crate::geometry::DiskFormat;
use crate::model::{
    ascending_ids, concat_raw_from, enc_sector, enc_slot_of, enc_slots_from, enc_track,
    enc_tracks_from, ids_for, parse_slots, parse_track, parse_tracks, place_slots, slot_content,
    spec_code_of_size, spec_container_decode, spec_container_encode, spec_default_header,
    spec_find_terminator, spec_size_of_code, spec_uniform, splice, track_offset, track_raw,
    valid_id_permutation, valid_sector_ids, wf_header, wf_slot, MetaV, SlotV, TrackIdsV, TrackV,
    HEADER_TERMINATOR,
};

verus! {

// ---------------------------------------------------------------------------
// Splice and placement
// ---------------------------------------------------------------------------

proof fn lemma_splice_len(s: Seq<u8>, off: int, payload: Seq<u8>)
    requires
        0 <= off,
        off + payload.len() <= s.len(),
    ensures
        splice(s, off, payload).len() == s.len(),
{
}

proof fn lemma_splice_index(s: Seq<u8>, off: int, payload: Seq<u8>, m: int)
    requires
        0 <= off,
        off + payload.len() <= s.len(),
        0 <= m < s.len(),
    ensures
        off <= m < off + payload.len() ==> splice(s, off, payload)[m] == payload[m - off],
        (m < off || m >= off + payload.len()) ==> splice(s, off, payload)[m] == s[m],
{
}

/// Any index of a valid permutation is hit: for each physical slot `j` there
/// is a list position whose id names it.
proof fn lemma_permutation_covers(ids: Seq<u8>, j: int)
    requires
        ids.len() <= 255,
        valid_id_permutation(ids, ids.len() as u8),
        0 <= j < ids.len(),
    ensures
        exists|i: int| 0 <= i < ids.len() && ids[i] == j + 1,
{
    let n = ids.len() as int;
    let iseq = Seq::new(ids.len(), |i: int| ids[i] as int);
    assert(iseq.no_duplicates()) by {
        assert forall|a: int, b: int|
            0 <= a < iseq.len() && 0 <= b < iseq.len() && a != b implies iseq[a] != iseq[b] by {
            if a < b {
                assert(ids[a] != ids[b]);
            } else {
                assert(ids[b] != ids[a]);
            }
        }
    }
    iseq.unique_seq_to_set();
    lemma_int_range(1, n + 1);
    assert(iseq.to_set().subset_of(set_int_range(1, n + 1))) by {
        assert forall|x: int| iseq.to_set().contains(x) implies set_int_range(1, n + 1).contains(
            x,
        ) by {
            let i = choose|i: int| 0 <= i < iseq.len() && iseq[i] == x;
            assert(1 <= ids[i] <= ids.len() as u8);
        }
    }
    if !iseq.to_set().contains(j + 1) {
        let smaller = set_int_range(1, n + 1).remove(j + 1);
        assert(set_int_range(1, n + 1).contains(j + 1));
        assert(iseq.to_set().subset_of(smaller));
        lemma_len_subset(iseq.to_set(), smaller);
        assert(smaller.len() == n - 1);
        assert(false);
    }
    assert(iseq.contains(j + 1));
    let i = choose|i: int| 0 <= i < iseq.len() && iseq[i] == j + 1;
    assert(ids[i] == j + 1);
}

/// After placing the first `k` slots, every block a placed id names holds
/// the corresponding bytes of `chunk`.
proof fn lemma_place_blocks(ids: Seq<u8>, slots: Seq<SlotV>, chunk: Seq<u8>, size: nat, k: nat)
    requires
        1 <= size,
        ids.len() == slots.len(),
        ids.len() <= 255,
        valid_id_permutation(ids, ids.len() as u8),
        chunk.len() == ids.len() * size,
        forall|i: int|
            0 <= i < slots.len() ==> slot_content(#[trigger] slots[i], size) == chunk.subrange(
                (ids[i] - 1) * size,
                ids[i] * size,
            ),
        k <= ids.len(),
    ensures
        place_slots(ids, slots, k, ids.len(), size).len() == ids.len() * size,
        forall|i: int|
            0 <= i < k ==> #[trigger] place_slots(ids, slots, k, ids.len(), size).subrange(
                (ids[i] - 1) * size,
                ids[i] * size,
            ) == chunk.subrange((ids[i] - 1) * size, ids[i] * size),
    decreases k,
{
    let n = ids.len();
    if k > 0 {
        lemma_place_blocks(ids, slots, chunk, size, (k - 1) as nat);
        let prev = place_slots(ids, slots, (k - 1) as nat, n, size);
        let idk = ids[k - 1] as int;
        let offk = (idk - 1) * size;
        let content = slot_content(slots[k - 1], size);
        assert(1 <= idk <= n);
        lemma_mul_inequality(idk, n as int, size as int);
        assert((idk - 1) * size + size == idk * size) by (nonlinear_arith);
        assert((idk - 1) * size >= 0) by (nonlinear_arith)
            requires idk >= 1 && size >= 0;
        assert(content.len() == size);
        let placed = place_slots(ids, slots, k, n, size);
        assert(placed == splice(prev, offk, content));
        lemma_splice_len(prev, offk, content);
        assert forall|i: int|
            0 <= i < k implies #[trigger] placed.subrange((ids[i] - 1) * size, ids[i] * size)
            == chunk.subrange((ids[i] - 1) * size, ids[i] * size) by {
            let idi = ids[i] as int;
            let offi = (idi - 1) * size;
            assert(1 <= idi <= n);
            lemma_mul_inequality(idi, n as int, size as int);
            assert((idi - 1) * size + size == idi * size) by (nonlinear_arith);
            assert((idi - 1) * size >= 0) by (nonlinear_arith)
                requires idi >= 1 && size >= 0;
            if i == k - 1 {
                assert forall|m: int| 0 <= m < size implies #[trigger] placed.subrange(
                    offi,
                    idi * size,
                )[m] == chunk.subrange(offi, idi * size)[m] by {
                    lemma_splice_index(prev, offk, content, offi + m);
                }
                assert(placed.subrange(offi, idi * size) =~= chunk.subrange(offi, idi * size));
            } else {
                assert(ids[i] != ids[k - 1]);
                if idi < idk {
                    lemma_mul_inequality(idi, idk - 1, size as int);
                } else {
                    lemma_mul_inequality(idk, idi - 1, size as int);
                }
                assert forall|m: int| 0 <= m < size implies #[trigger] placed.subrange(
                    offi,
                    idi * size,
                )[m] == prev.subrange(offi, idi * size)[m] by {
                    lemma_splice_index(prev, offk, content, offi + m);
                }
                assert(placed.subrange(offi, idi * size) =~= prev.subrange(offi, idi * size));
            }
        }
    }
}

/// Sector-id independence: when every slot carries the bytes of the
/// physical sector its id names, placing the slots of any valid permutation
/// reconstructs the track's raw bytes exactly.  Physical sector number, not
/// on-disk encounter order, drives placement.
pub proof fn lemma_sector_id_independence(
    ids: Seq<u8>,
    slots: Seq<SlotV>,
    chunk: Seq<u8>,
    size: nat,
)
    requires
        1 <= size,
        ids.len() == slots.len(),
        ids.len() <= 255,
        valid_id_permutation(ids, ids.len() as u8),
        chunk.len() == ids.len() * size,
        forall|i: int|
            0 <= i < slots.len() ==> slot_content(#[trigger] slots[i], size) == chunk.subrange(
                (ids[i] - 1) * size,
                ids[i] * size,
            ),
    ensures
        place_slots(ids, slots, ids.len(), ids.len(), size) == chunk,
{
    let n = ids.len();
    lemma_place_blocks(ids, slots, chunk, size, n);
    let placed = place_slots(ids, slots, n, n, size);
    assert forall|m: int| 0 <= m < n * size implies placed[m] == chunk[m] by {
        let j = m / size as int;
        lemma_fundamental_div_mod(m, size as int);
        lemma_mod_bound(m, size as int);
        let r = m % size as int;
        assert(j >= 0) by {
            vstd::arithmetic::div_mod::lemma_div_pos_is_pos(m, size as int);
        }
        if j >= n {
            lemma_mul_inequality(n as int, j, size as int);
            assert(false);
        }
        lemma_permutation_covers(ids, j);
        let i = choose|i: int| 0 <= i < ids.len() && ids[i] == j + 1;
        assert(placed.subrange((ids[i] - 1) * size, ids[i] * size) == chunk.subrange(
            (ids[i] - 1) * size,
            ids[i] * size,
        ));
        lemma_mul_inequality(j + 1, n as int, size as int);
        assert(j * size >= 0) by (nonlinear_arith)
            requires j >= 0 && size >= 0;
        assert((j + 1) * size == j * size + size) by (nonlinear_arith);
        assert((ids[i] - 1) * size == j * size);
        assert(ids[i] * size == (j + 1) * size);
        assert(m == size * j + r);
        assert(size * j == j * size) by (nonlinear_arith);
        assert(placed.subrange(j * size, (j + 1) * size)[r] == placed[r + j * size]);
        assert(chunk.subrange(j * size, (j + 1) * size)[r] == chunk[r + j * size]);
        assert(placed.subrange(j * size, (j + 1) * size)[r] == placed[m]);
        assert(chunk.subrange(j * size, (j + 1) * size)[r] == chunk[m]);
    }
    assert(placed =~= chunk);
}

// ---------------------------------------------------------------------------
// Parsing what the encoder produced
// ---------------------------------------------------------------------------

/// The slots that decoding an encoded track yields: one per id, each the
/// encoding outcome of the physical sector the id names.
pub open spec fn enc_slots_of(chunk: Seq<u8>, ids: Seq<u8>, size: nat) -> Seq<SlotV> {
    Seq::new(
        ids.len(),
        |j: int| enc_slot_of(chunk.subrange((ids[j] - 1) * size, ids[j] * size)),
    )
}

proof fn lemma_enc_slot_content(seg: Seq<u8>, size: nat)
    requires
        seg.len() == size,
        size >= 1,
    ensures
        slot_content(enc_slot_of(seg), size) == seg,
        wf_slot(enc_slot_of(seg), size),
{
    if spec_uniform(seg) {
        assert(slot_content(enc_slot_of(seg), size) =~= seg);
    }
}

proof fn lemma_parse_enc_slots(
    data: Seq<u8>,
    p: int,
    chunk: Seq<u8>,
    ids: Seq<u8>,
    i: nat,
    size: nat,
    cyl: u8,
    head: u8,
)
    requires
        0 <= p,
        1 <= size,
        i <= ids.len(),
        ids.len() <= 255,
        valid_sector_ids(ids, ids.len() as u8),
        chunk.len() == ids.len() * size,
        p + enc_slots_from(chunk, ids, i, size).len() <= data.len(),
        data.subrange(p, p + enc_slots_from(chunk, ids, i, size).len()) == enc_slots_from(
            chunk,
            ids,
            i,
            size,
        ),
    ensures
        parse_slots(data, p, (ids.len() - i) as nat, size, cyl, head) == Ok::<
            (Seq<SlotV>, int),
            FloppyError,
        >(
            (
                enc_slots_of(chunk, ids, size).subrange(i as int, ids.len() as int),
                p + enc_slots_from(chunk, ids, i, size).len(),
            ),
        ),
    decreases ids.len() - i,
{
    let n = ids.len();
    if i == n {
        assert(enc_slots_of(chunk, ids, size).subrange(n as int, n as int) =~= Seq::<
            SlotV,
        >::empty());
    } else {
        let idi = ids[i as int] as int;
        assert(1 <= idi <= n);
        lemma_mul_inequality(idi, n as int, size as int);
        assert((idi - 1) * size + size == idi * size) by (nonlinear_arith);
        assert((idi - 1) * size >= 0) by (nonlinear_arith)
            requires idi >= 1 && size >= 0;
        let seg = chunk.subrange((idi - 1) * size, idi * size);
        assert(seg.len() == size);
        let e1 = enc_sector(seg);
        let rest = enc_slots_from(chunk, ids, i + 1, size);
        let whole = enc_slots_from(chunk, ids, i, size);
        assert(whole == e1 + rest);
        let l1 = e1.len() as int;
        let ll = whole.len() as int;
        assert(l1 >= 2);
        assert forall|t: int| p <= t < p + ll implies #[trigger] data[t] == whole[t - p] by {
            assert(data.subrange(p, p + ll)[t - p] == data[t]);
        }
        assert forall|t: int| 0 <= t < rest.len() implies data.subrange(p + l1, p + ll)[t]
            == rest[t] by {
            assert(data[p + l1 + t] == whole[l1 + t]);
            assert(whole[l1 + t] == rest[t]);
        }
        assert(data.subrange(p + l1, p + ll) =~= rest);
        lemma_parse_enc_slots(data, p + l1, chunk, ids, i + 1, size, cyl, head);
        let slot = enc_slot_of(seg);
        if seg.len() > 0 && spec_uniform(seg) {
            assert(e1 == seq![2u8, seg[0]]);
            assert(data[p + 0] == whole[0]);
            assert(data[p + 1] == whole[1]);
            assert(data[p] == 2);
            assert(data[p + 1] == seg[0]);
            assert(slot == (SlotV { compressed: true, fill: seg[0], bytes: Seq::<u8>::empty() }));
        } else {
            assert(e1 == seq![1u8] + seg);
            assert(data[p + 0] == whole[0]);
            assert(data[p] == 1);
            assert(data.subrange(p + 1, p + 1 + size) =~= seg) by {
                assert forall|t: int| 0 <= t < size implies data.subrange(p + 1, p + 1 + size)[t]
                    == seg[t] by {
                    assert(data[p + 1 + t] == whole[1 + t]);
                    assert(whole[1 + t] == e1[1 + t]);
                }
            }
            assert(slot == (SlotV {
                compressed: false,
                fill: 0,
                bytes: data.subrange(p + 1, p + 1 + size),
            }));
        }
        assert(seq![slot] + enc_slots_of(chunk, ids, size).subrange(i as int + 1, n as int)
            =~= enc_slots_of(chunk, ids, size).subrange(i as int, n as int));
    }
}

proof fn lemma_parse_enc_track(
    data: Seq<u8>,
    p: int,
    mode: u8,
    cylinder: u8,
    head: u8,
    code: u8,
    ids: Seq<u8>,
    chunk: Seq<u8>,
)
    requires
        0 <= p,
        code <= 5,
        head & 0x80 == 0,
        head & 0x40 == 0,
        ids.len() <= 255,
        valid_sector_ids(ids, ids.len() as u8),
        chunk.len() == ids.len() * spec_size_of_code(code),
        p + enc_track(mode, cylinder, head, code, ids, chunk).len() <= data.len(),
        data.subrange(p, p + enc_track(mode, cylinder, head, code, ids, chunk).len())
            == enc_track(mode, cylinder, head, code, ids, chunk),
    ensures
        parse_track(data, p) == Ok::<(TrackV, int), FloppyError>(
            (
                TrackV {
                    mode,
                    cylinder,
                    head,
                    size_code: code,
                    ids,
                    slots: enc_slots_of(chunk, ids, spec_size_of_code(code)),
                },
                p + enc_track(mode, cylinder, head, code, ids, chunk).len(),
            ),
        ),
{
    let size = spec_size_of_code(code);
    assert(size >= 128);
    let n = ids.len() as int;
    let whole = enc_track(mode, cylinder, head, code, ids, chunk);
    let ll = whole.len() as int;
    let header5 = seq![mode, cylinder, head, ids.len() as u8, code];
    let eslots = enc_slots_from(chunk, ids, 0, size);
    assert(whole == header5 + ids + eslots);
    assert forall|t: int| p <= t < p + ll implies #[trigger] data[t] == whole[t - p] by {
        assert(data.subrange(p, p + ll)[t - p] == data[t]);
    }
    assert(data[p + 0] == whole[0]);
    assert(data[p + 1] == whole[1]);
    assert(data[p + 2] == whole[2]);
    assert(data[p + 3] == whole[3]);
    assert(data[p + 4] == whole[4]);
    assert(data[p] == mode);
    assert(data[p + 1] == cylinder);
    assert(data[p + 2] == head);
    assert(data[p + 3] == ids.len() as u8);
    assert(data[p + 4] == code);
    assert(ids.len() as u8 as int == n);
    assert(data.subrange(p + 5, p + 5 + n) =~= ids) by {
        assert forall|t: int| 0 <= t < n implies data.subrange(p + 5, p + 5 + n)[t] == ids[t] by {
            assert(data[p + 5 + t] == whole[5 + t]);
            assert(whole[5 + t] == ids[t]);
        }
    }
    assert(crate::model::skip_len(head, ids.len() as u8 as nat) == 0);
    assert(data.subrange(p + 5 + n, p + ll) =~= eslots) by {
        assert forall|t: int| 0 <= t < eslots.len() implies data.subrange(p + 5 + n, p + ll)[t]
            == eslots[t] by {
            assert(data[p + 5 + n + t] == whole[5 + n + t]);
            assert(whole[5 + n + t] == eslots[t]);
        }
    }
    lemma_parse_enc_slots(data, p + 5 + n, chunk, ids, 0, size, cylinder, head);
    assert(enc_slots_of(chunk, ids, size).subrange(0, n) =~= enc_slots_of(chunk, ids, size));
}

/// `ids_for` always yields a valid permutation.
proof fn lemma_ids_for_perm(mtracks: Option<Seq<TrackIdsV>>, cylinder: u8, head: u8, count: u8)
    ensures
        valid_id_permutation(ids_for(mtracks, cylinder, head, count), count),
        ids_for(mtracks, cylinder, head, count).len() == count,
{
    assert(valid_id_permutation(ascending_ids(count), count)) by {
        assert forall|i: int| 0 <= i < ascending_ids(count).len() implies 1
            <= #[trigger] ascending_ids(count)[i] <= count by {
            assert(ascending_ids(count)[i] == i + 1);
        }
    }
}

proof fn lemma_concat_raw_cons(t: TrackV, ts: Seq<TrackV>, i: nat)
    requires
        i <= ts.len(),
    ensures
        concat_raw_from(seq![t] + ts, i + 1) == concat_raw_from(ts, i),
    decreases ts.len() - i,
{
    if i < ts.len() {
        lemma_concat_raw_cons(t, ts, i + 1);
        assert((seq![t] + ts)[i as int + 1] == ts[i as int]);
    }
}

#[verifier::rlimit(100)]
proof fn lemma_parse_enc_tracks(
    data: Seq<u8>,
    p: int,
    raw: Seq<u8>,
    fmt: DiskFormat,
    mtracks: Option<Seq<TrackIdsV>>,
    code: u8,
    c: nat,
    h: nat,
)
    requires
        0 <= p <= data.len(),
        code <= 5,
        spec_size_of_code(code) == fmt.sector_size as nat,
        fmt.heads <= 64,
        raw.len() == fmt.spec_total_size(),
        c <= fmt.cylinders as nat,
        h <= fmt.heads as nat,
        c < fmt.cylinders as nat || h == 0,
        data.len() == p + enc_tracks_from(raw, fmt, mtracks, code, c, h).len(),
        data.subrange(p, data.len() as int) == enc_tracks_from(raw, fmt, mtracks, code, c, h),
    ensures
        parse_tracks(data, p) is Ok,
        concat_raw_from(parse_tracks(data, p)->Ok_0, 0) == raw.subrange(
            track_offset(fmt, c, h) as int,
            raw.len() as int,
        ),
    decreases fmt.cylinders as int - c, fmt.heads as int - h,
{
    let cc = fmt.cylinders as int;
    let hh = fmt.heads as int;
    let ss = fmt.sectors_per_track as int;
    let zz = fmt.sector_size as int;
    let size = spec_size_of_code(code);
    let tl = ss * zz;
    assert(raw.len() as int == ((cc * hh) * ss) * zz) by (nonlinear_arith)
        requires raw.len() as int == cc * hh * ss * zz;
    if c >= fmt.cylinders as nat {
        assert(h == 0);
        assert(track_offset(fmt, c, h) == (c * hh + h) * (ss * zz));
        assert((cc * hh + 0) * (ss * zz) == ((cc * hh) * ss) * zz) by (nonlinear_arith);
        assert(parse_tracks(data, p) == Ok::<Seq<TrackV>, FloppyError>(Seq::empty()));
        assert(concat_raw_from(Seq::empty(), 0) =~= Seq::<u8>::empty());
        assert(raw.subrange(raw.len() as int, raw.len() as int) =~= Seq::<u8>::empty());
    } else if h >= fmt.heads as nat {
        lemma_parse_enc_tracks(data, p, raw, fmt, mtracks, code, c + 1, 0);
        assert(track_offset(fmt, c, h) == (c * hh + hh) * (ss * zz));
        assert(track_offset(fmt, c + 1, 0) == ((c + 1) * hh + 0) * (ss * zz));
        assert((c * hh + hh) * (ss * zz) == ((c + 1) * hh + 0) * (ss * zz)) by (nonlinear_arith);
    } else {
        let toff = track_offset(fmt, c, h) as int;
        assert(toff == (c * hh + h) * (ss * zz));
        assert((c * hh + h) * (ss * zz) + ss * zz <= ((cc * hh) * ss) * zz) by (nonlinear_arith)
            requires 0 <= c < cc, 0 <= h < hh, 0 <= ss, 0 <= zz;
        assert((c * hh + h) * (ss * zz) >= 0) by (nonlinear_arith)
            requires 0 <= c, 0 <= h, 0 <= hh, 0 <= ss, 0 <= zz;
        let chunk = raw.subrange(toff, toff + tl);
        let ids = ids_for(mtracks, c as u8, h as u8, fmt.sectors_per_track);
        lemma_ids_for_perm(mtracks, c as u8, h as u8, fmt.sectors_per_track);
        assert(chunk.len() == ids.len() * size);
        let e1 = enc_track(fmt.mode, c as u8, h as u8, code, ids, chunk);
        let rest = enc_tracks_from(raw, fmt, mtracks, code, c, h + 1);
        let whole = enc_tracks_from(raw, fmt, mtracks, code, c, h);
        assert(whole == e1 + rest);
        let l1 = e1.len() as int;
        let ll = whole.len() as int;
        assert forall|t: int| p <= t < p + ll implies #[trigger] data[t] == whole[t - p] by {
            assert(data.subrange(p, data.len() as int)[t - p] == data[t]);
        }
        assert forall|t: int| 0 <= t < l1 implies data.subrange(p, p + l1)[t] == e1[t] by {
            assert(data[p + t] == whole[t]);
            assert(whole[t] == e1[t]);
        }
        assert(data.subrange(p, p + l1) =~= e1);
        assert forall|t: int| 0 <= t < rest.len() implies data.subrange(
            p + l1,
            data.len() as int,
        )[t] == rest[t] by {
            assert(data[p + l1 + t] == whole[l1 + t]);
            assert(whole[l1 + t] == rest[t]);
        }
        assert(data.subrange(p + l1, data.len() as int) =~= rest);
        let hb = h as u8;
        assert(hb & 0x80 == 0 && hb & 0x40 == 0) by (bit_vector)
            requires hb < 64;
        lemma_parse_enc_track(data, p, fmt.mode, c as u8, hb, code, ids, chunk);
        let tv = TrackV {
            mode: fmt.mode,
            cylinder: c as u8,
            head: hb,
            size_code: code,
            ids,
            slots: enc_slots_of(chunk, ids, size),
        };
        lemma_parse_enc_tracks(data, p + l1, raw, fmt, mtracks, code, c, h + 1);
        let tracks_rest = parse_tracks(data, p + l1)->Ok_0;
        assert(parse_tracks(data, p) == Ok::<Seq<TrackV>, FloppyError>(seq![tv] + tracks_rest));
        // the track's raw bytes are exactly its chunk
        assert forall|i: int|
            0 <= i < tv.slots.len() implies slot_content(#[trigger] tv.slots[i], size)
            == chunk.subrange((tv.ids[i] - 1) * size, tv.ids[i] * size) by {
            let idi = tv.ids[i] as int;
            assert(1 <= idi <= ids.len());
            lemma_mul_inequality(idi, ids.len() as int, size as int);
            assert((idi - 1) * size + size == idi * size) by (nonlinear_arith);
            assert((idi - 1) * size >= 0) by (nonlinear_arith)
                requires idi >= 1 && size >= 0;
            lemma_enc_slot_content(chunk.subrange((idi - 1) * size, idi * size), size);
        }
        lemma_sector_id_independence(tv.ids, tv.slots, chunk, size);
        assert(track_raw(tv) == chunk);
        lemma_concat_raw_cons(tv, tracks_rest, 0);
        assert(concat_raw_from(seq![tv] + tracks_rest, 0) == track_raw((seq![tv]
            + tracks_rest)[0]) + concat_raw_from(seq![tv] + tracks_rest, 1));
        assert((seq![tv] + tracks_rest)[0] == tv);
        assert(track_offset(fmt, c, h + 1) == (c * hh + (h + 1)) * (ss * zz));
        assert((c * hh + h) * (ss * zz) + ss * zz == (c * hh + (h + 1)) * (ss * zz))
            by (nonlinear_arith);
        assert(chunk + raw.subrange(toff + tl, raw.len() as int) =~= raw.subrange(
            toff,
            raw.len() as int,
        ));
    }
}

proof fn lemma_find_terminator_at(data: Seq<u8>, hpos: int, i: int)
    requires
        0 <= i <= hpos < data.len(),
        data[hpos] == HEADER_TERMINATOR,
        forall|j: int| 0 <= j < hpos ==> data[j] != HEADER_TERMINATOR,
    ensures
        spec_find_terminator(data, i) == Some(hpos),
    decreases hpos - i,
{
    if i < hpos {
        lemma_find_terminator_at(data, hpos, i + 1);
    }
}

/// The synthetic default header is one the decoder splits off again.
proof fn lemma_default_header_wf()
    ensures
        wf_header(spec_default_header()),
{
    let h = spec_default_header();
    assert(h.len() == 23);
    assert(h[22] == HEADER_TERMINATOR);
    assert forall|i: int| 0 <= i < 22 implies h[i] != HEADER_TERMINATOR by {
        assert(h[i] != 26);
    }
}

// ---------------------------------------------------------------------------
// The laws
// ---------------------------------------------------------------------------

/// Round-trip identity: encoding a raw buffer whose length matches the
/// geometry and decoding the result reproduces the buffer byte-exactly,
/// for every geometry with a representable sector size and at most 64 heads,
/// with or without sidecar metadata (any captured sector-id orderings
/// included), through compressed and verbatim sectors alike.  The decode
/// also captures exactly the header the encoder emitted.
pub proof fn lemma_round_trip(raw: Seq<u8>, fmt: DiskFormat, meta: Option<MetaV>)
    requires
        raw.len() == fmt.spec_total_size(),
        spec_code_of_size(fmt.sector_size) is Some,
        fmt.heads <= 64,
        match meta {
            Some(m) => wf_header(m.header),
            None => true,
        },
    ensures
        spec_container_encode(raw, fmt, meta) is Ok,
        spec_container_decode(spec_container_encode(raw, fmt, meta)->Ok_0) is Ok,
        spec_container_decode(spec_container_encode(raw, fmt, meta)->Ok_0)->Ok_0.raw == raw,
        spec_container_decode(spec_container_encode(raw, fmt, meta)->Ok_0)->Ok_0.meta.header == (
        match meta {
            Some(m) => m.header,
            None => spec_default_header(),
        }),
{
    let code = spec_code_of_size(fmt.sector_size)->Some_0;
    assert(spec_size_of_code(code) == fmt.sector_size as nat);
    let header = match meta {
        Some(m) => m.header,
        None => spec_default_header(),
    };
    let mtracks = match meta {
        Some(m) => Some(m.tracks),
        None => None::<Seq<TrackIdsV>>,
    };
    lemma_default_header_wf();
    assert(wf_header(header));
    let body = enc_tracks_from(raw, fmt, mtracks, code, 0, 0);
    let data = header + body;
    assert(spec_container_encode(raw, fmt, meta) == Ok::<Seq<u8>, FloppyError>(data));
    let hl = header.len() as int;
    assert(data[hl - 1] == HEADER_TERMINATOR);
    assert forall|j: int| 0 <= j < hl - 1 implies data[j] != HEADER_TERMINATOR by {
        assert(data[j] == header[j]);
    }
    lemma_find_terminator_at(data, hl - 1, 0);
    assert(data.subrange(hl, data.len() as int) =~= body);
    lemma_parse_enc_tracks(data, hl, raw, fmt, mtracks, code, 0, 0);
    assert(data.subrange(0, hl) =~= header);
    let hh = fmt.heads as int;
    let ss = fmt.sectors_per_track as int;
    let zz = fmt.sector_size as int;
    assert(track_offset(fmt, 0, 0) == (0 * hh + 0) * (ss * zz));
    assert((0 * hh + 0) * (ss * zz) == 0) by (nonlinear_arith);
    assert(raw.subrange(0, raw.len() as int) =~= raw);
}

/// Size-mismatch rejection: encoding fails with `GeometryMismatch`, carrying
/// both sizes, exactly when the raw buffer's length is not the geometry's
/// total size; nothing else about the buffer or the metadata matters.
pub proof fn lemma_size_mismatch_rejected(raw: Seq<u8>, fmt: DiskFormat, meta: Option<MetaV>)
    ensures
        raw.len() != fmt.spec_total_size() <==> spec_container_encode(raw, fmt, meta)
            == Err::<Seq<u8>, FloppyError>(
            FloppyError::GeometryMismatch {
                actual: raw.len() as usize,
                expected: fmt.spec_total_size() as u64,
            },
        ),
{
    if raw.len() == fmt.spec_total_size() {
        match spec_code_of_size(fmt.sector_size) {
            None => {
                assert(spec_container_encode(raw, fmt, meta) == Err::<Seq<u8>, FloppyError>(
                    FloppyError::InvalidSectorSize { sector_size: fmt.sector_size },
                ));
            },
            Some(code) => {
                assert(spec_container_encode(raw, fmt, meta) is Ok);
            },
        }
    }
}

/// The sidecar buffer is lossless: serialising metadata and parsing the
/// buffer back yields the same header and the same captured orderings, for
/// any metadata whose header the decoder can split off again and whose id
/// lists fit their one count byte.
pub proof fn lemma_sidecar_round_trip(m: MetaV)
    requires
        wf_header(m.header),
        forall|i: int| 0 <= i < m.tracks.len() ==> (#[trigger] m.tracks[i]).ids.len() <= 255,
    ensures
        crate::container::spec_meta_from_bytes(crate::container::spec_meta_to_bytes(m)) == Ok::<
            MetaV,
            FloppyError,
        >(m),
{
    let data = crate::container::spec_meta_to_bytes(m);
    let hl = m.header.len() as int;
    assert(data[hl - 1] == HEADER_TERMINATOR);
    assert forall|j: int| 0 <= j < hl - 1 implies data[j] != HEADER_TERMINATOR by {
        assert(data[j] == m.header[j]);
    }
    lemma_find_terminator_at(data, hl - 1, 0);
    assert(data.subrange(hl, data.len() as int) =~= crate::container::spec_meta_entries_bytes(
        m.tracks,
        0,
    ));
    lemma_parse_meta_entries_of_bytes(data, hl, m.tracks, 0);
    assert(m.tracks.subrange(0, m.tracks.len() as int) =~= m.tracks);
    assert(data.subrange(0, hl) =~= m.header);
}

proof fn lemma_parse_meta_entries_of_bytes(data: Seq<u8>, p: int, ts: Seq<TrackIdsV>, i: nat)
    requires
        0 <= p,
        i <= ts.len(),
        forall|j: int| 0 <= j < ts.len() ==> (#[trigger] ts[j]).ids.len() <= 255,
        data.len() == p + crate::container::spec_meta_entries_bytes(ts, i).len(),
        data.subrange(p, data.len() as int) == crate::container::spec_meta_entries_bytes(ts, i),
    ensures
        crate::container::spec_parse_meta_entries(data, p) == Ok::<Seq<TrackIdsV>, FloppyError>(
            ts.subrange(i as int, ts.len() as int),
        ),
    decreases ts.len() - i,
{
    let whole = crate::container::spec_meta_entries_bytes(ts, i);
    let ll = whole.len() as int;
    if i == ts.len() {
        assert(ts.subrange(i as int, ts.len() as int) =~= Seq::<TrackIdsV>::empty());
    } else {
        let t = ts[i as int];
        let e1 = crate::container::spec_meta_entry_bytes(t);
        let rest = crate::container::spec_meta_entries_bytes(ts, i + 1);
        assert(whole == e1 + rest);
        let l1 = e1.len() as int;
        assert forall|x: int| p <= x < p + ll implies #[trigger] data[x] == whole[x - p] by {
            assert(data.subrange(p, data.len() as int)[x - p] == data[x]);
        }
        assert(data[p + 0] == whole[0]);
        assert(data[p + 1] == whole[1]);
        assert(data[p + 2] == whole[2]);
        assert(data[p] == t.cylinder);
        assert(data[p + 1] == t.head);
        assert(data[p + 2] == t.ids.len() as u8);
        let count = t.ids.len() as int;
        assert(t.ids.len() as u8 as int == count);
        assert(data.subrange(p + 3, p + 3 + count) =~= t.ids) by {
            assert forall|x: int| 0 <= x < count implies data.subrange(p + 3, p + 3 + count)[x]
                == t.ids[x] by {
                assert(data[p + 3 + x] == whole[3 + x]);
                assert(whole[3 + x] == e1[3 + x]);
            }
        }
        assert(data.subrange(p + l1, data.len() as int) =~= rest) by {
            assert forall|x: int| 0 <= x < rest.len() implies data.subrange(
                p + l1,
                data.len() as int,
            )[x] == rest[x] by {
                assert(data[p + l1 + x] == whole[l1 + x]);
                assert(whole[l1 + x] == rest[x]);
            }
        }
        lemma_parse_meta_entries_of_bytes(data, p + l1, ts, i + 1);
        assert(seq![
            TrackIdsV { cylinder: data[p], head: data[p + 1], ids: data.subrange(p + 3, p + 3 + count) },
        ] + ts.subrange(i as int + 1, ts.len() as int) =~= ts.subrange(i as int, ts.len() as int));
    }
}

/// Compression correctness: a sector of identical bytes encodes to exactly
/// two payload bytes (the type tag and the fill byte); any other sector
/// encodes to its size plus one type byte; and either encoding stands for
/// the original sector bytes exactly.
pub proof fn lemma_compression(chunk: Seq<u8>)
    requires
        chunk.len() >= 1,
    ensures
        spec_uniform(chunk) ==> enc_sector(chunk) == seq![2u8, chunk[0]] && enc_sector(
            chunk,
        ).len() == 2,
        !spec_uniform(chunk) ==> enc_sector(chunk) == seq![1u8] + chunk && enc_sector(
            chunk,
        ).len() == chunk.len() + 1,
        slot_content(enc_slot_of(chunk), chunk.len()) == chunk,
{
    lemma_enc_slot_content(chunk, chunk.len());
}

} // verus!

use vstd::prelude::*;
use crate::config::{
    FRAME_LENGTH, HOP_LENGTH, MAX_DELTA_UNITS, MAX_TARGETS_PER_ANCHOR, OUTPUT_SAMPLE_RATE,
    PRECISION_FACTOR, TARGET_ZONE_FRAMES,
};

verus! {

/// Quantized 16-bit code of the frequency a spectrogram bin stands for:
/// the bin frequency (rate / frame length x bin) clamped to the sample
/// rate and scaled to 0..65535. A bin at or past the frame length
/// saturates to 65535.
pub open spec fn spec_freq_code(bin: int) -> int {
    if bin >= FRAME_LENGTH as int {
        65535
    } else {
        bin * 65535 / (FRAME_LENGTH as int)
    }
}

/// Timestamp, in precision units, of bin `j` of frame `i`: the sample
/// index (hop x frame + bin) over the sample rate, scaled and truncated.
pub open spec fn spec_time_units(i: int, j: int) -> int {
    (HOP_LENGTH as int * i + j) * (PRECISION_FACTOR as int) / (OUTPUT_SAMPLE_RATE as int)
}

/// Quantized 16-bit code of an anchor-to-target delay given in precision
/// units: clamped to [0, `MAX_DELTA_UNITS`] and scaled to 0..65535.
pub open spec fn spec_delta_code(delta: int) -> int {
    (if delta < 0 {
        0
    } else if delta >= MAX_DELTA_UNITS as int {
        MAX_DELTA_UNITS as int
    } else {
        delta
    }) * 65535 / (MAX_DELTA_UNITS as int)
}

/// One xorshift scramble of a 64-bit word; each step is invertible, so
/// distinct packed triples keep distinct hashes.
pub open spec fn spec_mix64(z0: u64) -> u64 {
    let z1 = z0 ^ (z0 << 13);
    let z2 = z1 ^ (z1 >> 7);
    z2 ^ (z2 << 17)
}

/// The pair hash: the three 16-bit codes (anchor frequency, target
/// frequency, quantized delay) packed into one word and scrambled.
pub open spec fn spec_hash(anchor_code: u64, target_code: u64, delta: u64) -> u64 {
    spec_mix64(
        ((anchor_code & 0xFFFF) << 32) | ((target_code & 0xFFFF) << 16) | (
        (spec_delta_code(delta as int) as u64) & 0xFFFF),
    )
}

/// Law: the pair hash is a function of its inputs alone — two hash
/// computations over equal (anchor, target, delay) triples always give
/// the same hash value.
pub proof fn lemma_hash_deterministic(a1: u64, t1: u64, d1: u64, a2: u64, t2: u64, d2: u64)
    requires
        a1 == a2,
        t1 == t2,
        d1 == d2,
    ensures
        spec_hash(a1, t1, d1) == spec_hash(a2, t2, d2),
{
}

/// Law: the scramble is invertible, so distinct packed words keep
/// distinct hashes.
pub proof fn lemma_mix64_injective(x: u64, y: u64)
    requires
        spec_mix64(x) == spec_mix64(y),
    ensures
        x == y,
{
    let x1 = x ^ (x << 13);
    let y1 = y ^ (y << 13);
    let x2 = x1 ^ (x1 >> 7);
    let y2 = y1 ^ (y1 >> 7);
    assert(x2 == y2) by (bit_vector)
        requires
            x2 ^ (x2 << 17) == y2 ^ (y2 << 17),
    ;
    assert(x1 == y1) by (bit_vector)
        requires
            x1 ^ (x1 >> 7) == y1 ^ (y1 >> 7),
    ;
    assert(x == y) by (bit_vector)
        requires
            x ^ (x << 13) == y ^ (y << 13),
    ;
}

/// Law: the pair hash is collision-free on the quantized codes — two
/// hash computations agree only when all three 16-bit codes agree. The
/// only collisions the scheme admits are those of the quantization
/// itself.
pub proof fn lemma_hash_collision_free(a1: u64, t1: u64, d1: u64, a2: u64, t2: u64, d2: u64)
    requires
        spec_hash(a1, t1, d1) == spec_hash(a2, t2, d2),
    ensures
        a1 & 0xFFFF == a2 & 0xFFFF,
        t1 & 0xFFFF == t2 & 0xFFFF,
        (spec_delta_code(d1 as int) as u64) & 0xFFFF == (spec_delta_code(d2 as int) as u64)
            & 0xFFFF,
{
    let dv1 = spec_delta_code(d1 as int) as u64;
    let dv2 = spec_delta_code(d2 as int) as u64;
    let da = dv1 & 0xFFFF;
    let db = dv2 & 0xFFFF;
    assert(dv1 & 0xFFFF <= 0xFFFF && dv2 & 0xFFFF <= 0xFFFF) by (bit_vector);
    let p1 = ((a1 & 0xFFFF) << 32) | ((t1 & 0xFFFF) << 16) | da;
    let p2 = ((a2 & 0xFFFF) << 32) | ((t2 & 0xFFFF) << 16) | db;
    lemma_mix64_injective(p1, p2);
    assert(a1 & 0xFFFF == a2 & 0xFFFF && t1 & 0xFFFF == t2 & 0xFFFF && da == db)
        by (bit_vector)
        requires
            ((a1 & 0xFFFF) << 32) | ((t1 & 0xFFFF) << 16) | da == ((a2 & 0xFFFF) << 32) | ((t2
                & 0xFFFF) << 16) | db,
            da <= 0xFFFF,
            db <= 0xFFFF,
    ;
}

/// 16-bit frequency code of a spectrogram bin index.
pub fn convert_index_to_frequency(index: usize) -> (r: u64)
    ensures
        r == spec_freq_code(index as int),
        r <= 65535,
{
    if index >= FRAME_LENGTH {
        65535
    } else {
        assert((index as int) * 65535 / (FRAME_LENGTH as int) <= 65535) by (nonlinear_arith)
            requires
                index < 1024,
        ;
        (index as u64) * 65535 / (FRAME_LENGTH as u64)
    }
}

/// Timestamp, in precision units, of bin `j` of frame `i`.
pub fn convert_index_to_time(i: usize, j: usize) -> (r: u64)
    requires
        i <= 0x1_0000_0000,
        j <= FRAME_LENGTH,
    ensures
        r == spec_time_units(i as int, j as int),
        r < 0x100_0000_0000,
{
    proof {
        assert((HOP_LENGTH as int) * (i as int) <= 512 * 0x1_0000_0000) by (nonlinear_arith)
            requires
                i <= 0x1_0000_0000,
        ;
        vstd::arithmetic::div_mod::lemma_div_is_ordered(
            ((HOP_LENGTH as int) * (i as int) + (j as int)) * (PRECISION_FACTOR as int),
            (512int * 0x1_0000_0000int + 1024int) * 1000int,
            OUTPUT_SAMPLE_RATE as int,
        );
    }
    ((HOP_LENGTH as u64) * (i as u64) + (j as u64)) * PRECISION_FACTOR / OUTPUT_SAMPLE_RATE
}

/// 16-bit code of an anchor-to-target delay in precision units.
pub fn quantize_delta(delta: u64) -> (r: u64)
    ensures
        r == spec_delta_code(delta as int),
        r <= 65535,
{
    let d = if delta >= MAX_DELTA_UNITS {
        MAX_DELTA_UNITS
    } else {
        delta
    };
    d * 65535 / MAX_DELTA_UNITS
}

/// Hash of one anchor/target pair: both frequency codes and the delay,
/// in precision units, between the target's and the anchor's timestamps.
pub fn hash_function(anchor_code: u64, target_code: u64, delta: u64) -> (r: u64)
    ensures
        r == spec_hash(anchor_code, target_code, delta),
{
    let nd = quantize_delta(delta) & 0xFFFF;
    let packed = ((anchor_code & 0xFFFF) << 32) | ((target_code & 0xFFFF) << 16) | nd;
    let z1 = packed ^ (packed << 13);
    let z2 = z1 ^ (z1 >> 7);
    z2 ^ (z2 << 17)
}

/// One target-zone entry: the frequency code and timestamp of bin `bin`
/// of frame `ti`.
pub open spec fn spec_target_entry(ti: int, bin: usize) -> (u64, u64) {
    (spec_freq_code(bin as int) as u64, spec_time_units(ti, bin as int) as u64)
}

/// Targets contributed by frame `ti`, in bin order; a frame outside the
/// table contributes none.
pub open spec fn spec_row_targets(peaks: Seq<Seq<usize>>, ti: int) -> Seq<(u64, u64)> {
    if 0 <= ti < peaks.len() {
        peaks[ti].map(|q: int, bin: usize| spec_target_entry(ti, bin))
    } else {
        Seq::empty()
    }
}

/// Targets of the first `k` frames after `frame`, in frame-then-bin order.
pub open spec fn spec_zone(peaks: Seq<Seq<usize>>, frame: int, k: int) -> Seq<(u64, u64)>
    decreases k,
{
    if k <= 0 {
        Seq::empty()
    } else {
        spec_zone(peaks, frame, k - 1) + spec_row_targets(peaks, frame + k)
    }
}

/// The entry belongs to a frame strictly after `frame` but at most `k`
/// frames after it.
pub open spec fn spec_is_later_target(peaks: Seq<Seq<usize>>, frame: int, k: int, e: (u64, u64)) -> bool {
    exists|ti: int, q: int|
        frame < ti <= frame + k && 0 <= q < peaks[ti].len() && e == #[trigger] spec_target_entry(
            ti,
            peaks[ti][q],
        )
}

/// Law: every target-zone entry comes from a frame strictly after the
/// anchor's frame, and at most `k` frames after it — an anchor is never
/// paired with a target at or before its own frame.
pub proof fn lemma_zone_strictly_later(peaks: Seq<Seq<usize>>, frame: int, k: int)
    ensures
        forall|p: int|
            0 <= p < spec_zone(peaks, frame, k).len() ==> spec_is_later_target(
                peaks,
                frame,
                k,
                #[trigger] spec_zone(peaks, frame, k)[p],
            ),
    decreases k,
{
    if k <= 0 {
    } else {
        lemma_zone_strictly_later(peaks, frame, k - 1);
        let z = spec_zone(peaks, frame, k);
        let zp = spec_zone(peaks, frame, k - 1);
        let rt = spec_row_targets(peaks, frame + k);
        assert forall|p: int| 0 <= p < z.len() implies spec_is_later_target(
            peaks,
            frame,
            k,
            #[trigger] z[p],
        ) by {
            if p < zp.len() {
                assert(z[p] == zp[p]);
                assert(spec_is_later_target(peaks, frame, k - 1, zp[p]));
                let (ti, q) = choose|ti: int, q: int|
                    frame < ti <= frame + k - 1 && 0 <= q < peaks[ti].len() && zp[p]
                        == #[trigger] spec_target_entry(ti, peaks[ti][q]);
                assert(z[p] == spec_target_entry(ti, peaks[ti][q]));
            } else {
                let q = p - zp.len();
                assert(z[p] == rt[q]);
                assert(0 <= frame + k < peaks.len());
                assert(rt[q] == spec_target_entry(frame + k, peaks[frame + k][q]));
            }
        }
    }
}

/// Fingerprints emitted for the anchor at bin `j` of frame `i`: one
/// (hash, anchor timestamp) pair per target-zone entry, in zone order,
/// capped at `MAX_TARGETS_PER_ANCHOR`.
pub open spec fn spec_anchor_pairs(peaks: Seq<Seq<usize>>, i: int, j: int) -> Seq<(u64, u64)> {
    let abin = peaks[i][j];
    let acode = spec_freq_code(abin as int) as u64;
    let atime = spec_time_units(i, abin as int) as u64;
    let zone = spec_zone(peaks, i, TARGET_ZONE_FRAMES as int);
    let n = if zone.len() <= MAX_TARGETS_PER_ANCHOR {
        zone.len() as int
    } else {
        MAX_TARGETS_PER_ANCHOR as int
    };
    Seq::new(
        n as nat,
        |p: int|
            (
                spec_hash(
                    acode,
                    zone[p].0,
                    if zone[p].1 >= atime {
                        (zone[p].1 - atime) as u64
                    } else {
                        0u64
                    },
                ),
                atime,
            ),
    )
}

/// Law: an anchor is paired with at most `MAX_TARGETS_PER_ANCHOR` targets.
pub proof fn lemma_pairs_per_anchor_capped(peaks: Seq<Seq<usize>>, i: int, j: int)
    ensures
        spec_anchor_pairs(peaks, i, j).len() <= MAX_TARGETS_PER_ANCHOR,
{
}

/// Fingerprints of the first `j` anchors of frame `i`, concatenated.
pub open spec fn spec_row_pairs(peaks: Seq<Seq<usize>>, i: int, j: int) -> Seq<(u64, u64)>
    decreases j,
{
    if j <= 0 {
        Seq::empty()
    } else {
        spec_row_pairs(peaks, i, j - 1) + spec_anchor_pairs(peaks, i, j - 1)
    }
}

/// Fingerprints of all anchors of the first `i` frames, concatenated.
pub open spec fn spec_all_pairs(peaks: Seq<Seq<usize>>, i: int) -> Seq<(u64, u64)>
    decreases i,
{
    if i <= 0 {
        Seq::empty()
    } else {
        spec_all_pairs(peaks, i - 1) + spec_row_pairs(peaks, i - 1, peaks[i - 1].len() as int)
    }
}

/// All peak table entries index a bin inside the frame length.
pub open spec fn spec_bins_in_frame(pv: Seq<Seq<usize>>) -> bool {
    forall|p: int, q: int|
        0 <= p < pv.len() && 0 <= q < pv[p].len() ==> #[trigger] pv[p][q] <= FRAME_LENGTH
}

/// Targets for pairing with an anchor of frame `frame`: the retained
/// peaks of the next `TARGET_ZONE_FRAMES` frames, as (frequency code,
/// timestamp) entries in frame-then-bin order.
pub fn search_target_zone(peaks: &Vec<Vec<usize>>, frame: usize) -> (r: Vec<(u64, u64)>)
    requires
        peaks@.len() <= 0x1000_0000,
        frame < 0x1000_0000,
        spec_bins_in_frame(peaks.deep_view()),
    ensures
        r@ == spec_zone(peaks.deep_view(), frame as int, TARGET_ZONE_FRAMES as int),
{
    let ghost pv = peaks.deep_view();
    let mut r: Vec<(u64, u64)> = Vec::new();
    let mut k: usize = 0;
    while k < TARGET_ZONE_FRAMES
        invariant
            k <= TARGET_ZONE_FRAMES,
            pv == peaks.deep_view(),
            pv.len() == peaks@.len(),
            peaks@.len() <= 0x1000_0000,
            frame < 0x1000_0000,
            spec_bins_in_frame(pv),
            forall|p: int| 0 <= p < peaks@.len() ==> pv[p] == #[trigger] peaks@[p]@,
            r@ == spec_zone(pv, frame as int, k as int),
        decreases TARGET_ZONE_FRAMES - k,
    {
        let ti = frame + k + 1;
        if ti < peaks.len() {
            let row = &peaks[ti];
            assert(row@ == pv[ti as int]);
            let ghost zpre = spec_zone(pv, frame as int, k as int);
            let ghost tgt = spec_row_targets(pv, ti as int);
            let mut j: usize = 0;
            while j < row.len()
                invariant
                    j <= row@.len(),
                    ti == frame + k + 1,
                    (ti as int) < pv.len(),
                    pv.len() <= 0x1000_0000,
                    row@ == pv[ti as int],
                    spec_bins_in_frame(pv),
                    tgt == spec_row_targets(pv, ti as int),
                    tgt.len() == row@.len(),
                    r@ == zpre + tgt.take(j as int),
                decreases row@.len() - j,
            {
                let bin = row[j];
                assert(bin <= FRAME_LENGTH);
                let fc = convert_index_to_frequency(bin);
                let tc = convert_index_to_time(ti, bin);
                proof {
                    assert(tgt[j as int] == spec_target_entry(ti as int, pv[ti as int][j as int]));
                    assert(fc == spec_freq_code(bin as int) as u64);
                    assert(0 <= spec_time_units(ti as int, bin as int) < 0x1_0000_0000_0000_0000);
                    assert(tc == spec_time_units(ti as int, bin as int) as u64);
                    assert(tgt.take(j as int).push(tgt[j as int]) =~= tgt.take(j as int + 1));
                }
                r.push((fc, tc));
                j += 1;
            }
            proof {
                assert(tgt.take(row@.len() as int) =~= tgt);
                assert(zpre + tgt =~= spec_zone(pv, frame as int, k as int + 1));
            }
        } else {
            proof {
                assert(spec_row_targets(pv, ti as int) =~= Seq::<(u64, u64)>::empty());
                assert(r@ =~= spec_zone(pv, frame as int, k as int + 1));
            }
        }
        k += 1;
    }
    r
}

/// Keys and timestamps of two parallel vectors match a pair sequence.
pub open spec fn spec_pairs_match(keys: Seq<u64>, vals: Seq<u64>, acc: Seq<(u64, u64)>) -> bool {
    &&& keys.len() == acc.len()
    &&& vals.len() == acc.len()
    &&& forall|p: int|
        0 <= p < acc.len() ==> keys[p] == #[trigger] acc[p].0 && vals[p] == acc[p].1
}

/// Walks the peak table in frame-then-bin order and emits, for every
/// anchor peak, one fingerprint per target-zone peak (capped per
/// anchor): parallel vectors of hash keys and anchor timestamps.
pub fn create_pairs(peaks: &Vec<Vec<usize>>) -> (r: (Vec<u64>, Vec<u64>))
    requires
        peaks@.len() <= 0x1000_0000,
        spec_bins_in_frame(peaks.deep_view()),
    ensures
        spec_pairs_match(r.0@, r.1@, spec_all_pairs(peaks.deep_view(), peaks@.len() as int)),
        forall|p: int| 0 <= p < r.1@.len() ==> #[trigger] r.1@[p] < 0x100_0000_0000,
{
    let ghost pv = peaks.deep_view();
    let mut keys: Vec<u64> = Vec::new();
    let mut vals: Vec<u64> = Vec::new();
    let mut i: usize = 0;
    while i < peaks.len()
        invariant
            i <= peaks@.len(),
            pv == peaks.deep_view(),
            pv.len() == peaks@.len(),
            peaks@.len() <= 0x1000_0000,
            spec_bins_in_frame(pv),
            forall|p: int| 0 <= p < peaks@.len() ==> pv[p] == #[trigger] peaks@[p]@,
            spec_pairs_match(keys@, vals@, spec_all_pairs(pv, i as int)),
            forall|p: int| 0 <= p < vals@.len() ==> #[trigger] vals@[p] < 0x100_0000_0000,
        decreases peaks@.len() - i,
    {
        let zone = search_target_zone(peaks, i);
        let ghost zs = spec_zone(pv, i as int, TARGET_ZONE_FRAMES as int);
        let row_len = peaks[i].len();
        assert(row_len == pv[i as int].len());
        let ghost base = spec_all_pairs(pv, i as int);
        let mut j: usize = 0;
        while j < row_len
            invariant
                j <= row_len,
                i < peaks@.len(),
                pv == peaks.deep_view(),
                pv.len() == peaks@.len(),
                peaks@.len() <= 0x1000_0000,
                spec_bins_in_frame(pv),
                forall|p: int| 0 <= p < peaks@.len() ==> pv[p] == #[trigger] peaks@[p]@,
                row_len == pv[i as int].len(),
                zone@ == zs,
                zs == spec_zone(pv, i as int, TARGET_ZONE_FRAMES as int),
                base == spec_all_pairs(pv, i as int),
                spec_pairs_match(keys@, vals@, base + spec_row_pairs(pv, i as int, j as int)),
                forall|p: int| 0 <= p < vals@.len() ==> #[trigger] vals@[p] < 0x100_0000_0000,
            decreases row_len - j,
        {
            let abin = peaks[i][j];
            assert(abin == pv[i as int][j as int]);
            assert(abin <= FRAME_LENGTH);
            let acode = convert_index_to_frequency(abin);
            let atime = convert_index_to_time(i, abin);
            let ghost ap = spec_anchor_pairs(pv, i as int, j as int);
            proof {
                assert(acode == spec_freq_code(abin as int) as u64);
                assert(0 <= spec_time_units(i as int, abin as int) < 0x1_0000_0000_0000_0000);
                assert(atime == spec_time_units(i as int, abin as int) as u64);
            }
            let ghost mid = base + spec_row_pairs(pv, i as int, j as int);
            let mut c: usize = 0;
            while c < zone.len() && c < MAX_TARGETS_PER_ANCHOR
                invariant
                    c <= zone@.len(),
                    c <= MAX_TARGETS_PER_ANCHOR,
                    zone@ == zs,
                    j < pv[i as int].len(),
                    i < peaks@.len(),
                    pv.len() == peaks@.len(),
                    zs == spec_zone(pv, i as int, TARGET_ZONE_FRAMES as int),
                    abin == pv[i as int][j as int],
                    acode == spec_freq_code(abin as int) as u64,
                    atime == spec_time_units(i as int, abin as int) as u64,
                    ap == spec_anchor_pairs(pv, i as int, j as int),
                    ap.len() == (if zs.len() <= MAX_TARGETS_PER_ANCHOR {
                        zs.len() as int
                    } else {
                        MAX_TARGETS_PER_ANCHOR as int
                    }),
                    mid == base + spec_row_pairs(pv, i as int, j as int),
                    spec_pairs_match(keys@, vals@, mid + ap.take(c as int)),
                    forall|p: int| 0 <= p < vals@.len() ==> #[trigger] vals@[p] < 0x100_0000_0000,
                    atime < 0x100_0000_0000,
                decreases zone@.len() - c,
            {
                let (tcode, ttime) = zone[c];
                let delta = if ttime >= atime {
                    ttime - atime
                } else {
                    0
                };
                let h = hash_function(acode, tcode, delta);
                proof {
                    assert(ap[c as int] == (spec_hash(acode, zs[c as int].0, delta), atime));
                    assert((mid + ap.take(c as int)).push(ap[c as int]) =~= mid + ap.take(
                        c as int + 1,
                    ));
                }
                keys.push(h);
                vals.push(atime);
                c += 1;
            }
            proof {
                assert(c as int == ap.len());
                assert(ap.take(ap.len() as int) =~= ap);
                assert(mid + ap =~= base + spec_row_pairs(pv, i as int, j as int + 1));
            }
            j += 1;
        }
        proof {
            assert(base + spec_row_pairs(pv, i as int, pv[i as int].len() as int) =~= spec_all_pairs(
                pv,
                i as int + 1,
            ));
        }
        i += 1;
    }
    (keys, vals)
}

/// Law: a frame with at most six retained peaks emits at most
/// `MAX_TARGETS_PER_ANCHOR` pairs per peak, so at most 30 per frame.
pub proof fn lemma_row_pairs_len(peaks: Seq<Seq<usize>>, i: int, j: int)
    requires
        0 <= j,
    ensures
        spec_row_pairs(peaks, i, j).len() <= 5 * j,
    decreases j,
{
    if j <= 0 {
    } else {
        lemma_row_pairs_len(peaks, i, j - 1);
        lemma_pairs_per_anchor_capped(peaks, i, j - 1);
    }
}

/// Law: a peak table whose frames hold at most six peaks each emits at
/// most 30 fingerprints per frame.
pub proof fn lemma_all_pairs_len(peaks: Seq<Seq<usize>>, i: int)
    requires
        0 <= i <= peaks.len(),
        forall|p: int| 0 <= p < peaks.len() ==> (#[trigger] peaks[p]).len() <= 6,
    ensures
        spec_all_pairs(peaks, i).len() <= 30 * i,
    decreases i,
{
    if i <= 0 {
    } else {
        lemma_all_pairs_len(peaks, i - 1);
        lemma_row_pairs_len(peaks, i - 1, peaks[i - 1].len() as int);
        assert(30 * (i - 1) + 30 == 30 * i) by (nonlinear_arith);
    }
}

} // verus!

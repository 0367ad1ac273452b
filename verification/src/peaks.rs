use vstd::prelude::*;
use crate::config::{MAG_BOUND, NUM_BANDS};

verus! {

/// First bin (inclusive) of frequency band `b`.
pub open spec fn spec_band_start(b: int) -> int {
    if b == 0 {
        4
    } else if b == 1 {
        6
    } else if b == 2 {
        11
    } else if b == 3 {
        16
    } else if b == 4 {
        24
    } else {
        40
    }
}

/// One-past-last bin (exclusive) of frequency band `b`.
pub open spec fn spec_band_end(b: int) -> int {
    if b == 0 {
        6
    } else if b == 1 {
        11
    } else if b == 2 {
        16
    } else if b == 3 {
        24
    } else if b == 4 {
        40
    } else {
        65
    }
}

/// The bin index lies inside one of the six declared bands.
pub open spec fn spec_in_band(idx: int) -> bool {
    exists|b: int| 0 <= b < 6 && spec_band_start(b) <= idx < #[trigger] spec_band_end(b)
}

/// All magnitudes of a frame lie within the accepted range.
pub open spec fn spec_row_bounded(row: Seq<i64>) -> bool {
    forall|k: int| 0 <= k < row.len() ==> -MAG_BOUND <= #[trigger] row[k] <= MAG_BOUND
}

/// Every frame of the spectrogram has magnitudes within the accepted range.
pub open spec fn spec_mags_bounded(sg: Seq<Seq<i64>>) -> bool {
    forall|i: int| 0 <= i < sg.len() ==> spec_row_bounded(#[trigger] sg[i])
}

/// Index of the first maximum of `row` on `[lo, hi)`: scanning left to
/// right, a later bin replaces the running maximum only when strictly
/// larger, so ties keep the lowest index.
pub open spec fn spec_first_max(row: Seq<i64>, lo: int, hi: int) -> int
    decreases hi - lo,
{
    if hi - lo <= 1 {
        lo
    } else {
        let m = spec_first_max(row, lo, hi - 1);
        if row[hi - 1] > row[m] {
            hi - 1
        } else {
            m
        }
    }
}

pub proof fn lemma_first_max_range(row: Seq<i64>, lo: int, hi: int)
    requires
        lo < hi,
    ensures
        lo <= spec_first_max(row, lo, hi) < hi,
        forall|j: int| lo <= j < hi ==> #[trigger] row[j] <= row[spec_first_max(row, lo, hi)],
    decreases hi - lo,
{
    if hi - lo <= 1 {
    } else {
        lemma_first_max_range(row, lo, hi - 1);
    }
}

/// The candidate peak of band `b` in a frame: the first maximum over the
/// part of the band that lies inside the frame, or the band's first bin
/// when the band lies wholly outside it.
pub open spec fn spec_band_candidate(row: Seq<i64>, b: int) -> usize {
    let lo = spec_band_start(b);
    let hi = if spec_band_end(b) <= row.len() {
        spec_band_end(b)
    } else {
        row.len() as int
    };
    if lo < hi {
        spec_first_max(row, lo, hi) as usize
    } else {
        lo as usize
    }
}

/// The six per-band candidate peaks of one frame, in band order.
pub open spec fn spec_frame_candidates(row: Seq<i64>) -> Seq<usize> {
    Seq::new(NUM_BANDS as nat, |b: int| spec_band_candidate(row, b))
}

/// How many of the first `k` candidates index a bin inside the frame.
pub open spec fn spec_inrange_count(cands: Seq<usize>, row: Seq<i64>, k: int) -> int
    decreases k,
{
    if k <= 0 {
        0
    } else {
        spec_inrange_count(cands, row, k - 1) + if (cands[k - 1] as int) < row.len() {
            1int
        } else {
            0int
        }
    }
}

/// Sum of the magnitudes of the first `k` candidates that index a bin
/// inside the frame.
pub open spec fn spec_inrange_sum(cands: Seq<usize>, row: Seq<i64>, k: int) -> int
    decreases k,
{
    if k <= 0 {
        0
    } else {
        spec_inrange_sum(cands, row, k - 1) + if (cands[k - 1] as int) < row.len() {
            row[cands[k - 1] as int] as int
        } else {
            0int
        }
    }
}

/// The candidates among the first `k` that are inside the frame and
/// whose magnitude strictly exceeds the band mean (`6 x magnitude >
/// sum` states `magnitude > sum / 6` without the division), in order.
pub open spec fn spec_kept(cands: Seq<usize>, row: Seq<i64>, s: int, k: int) -> Seq<usize>
    decreases k,
{
    if k <= 0 {
        Seq::empty()
    } else {
        let pre = spec_kept(cands, row, s, k - 1);
        if (cands[k - 1] as int) < row.len() && 6 * (row[cands[k - 1] as int] as int) > s {
            pre.push(cands[k - 1])
        } else {
            pre
        }
    }
}

/// A frame's final peak list: empty unless all six band candidates fall
/// inside the frame; otherwise the candidates whose magnitude strictly
/// exceeds the mean of the six band magnitudes.
pub open spec fn spec_filter_frame(cands: Seq<usize>, row: Seq<i64>) -> Seq<usize> {
    if cands.len() < 6 {
        Seq::empty()
    } else if spec_inrange_count(cands, row, cands.len() as int) != 6 {
        Seq::empty()
    } else {
        spec_kept(cands, row, spec_inrange_sum(cands, row, cands.len() as int), cands.len() as int)
    }
}

/// The whole peak table of a spectrogram: per frame, the filtered
/// candidates of that frame.
pub open spec fn spec_peak_table(sg: Seq<Seq<i64>>) -> Seq<Seq<usize>> {
    Seq::new(sg.len(), |i: int| spec_filter_frame(spec_frame_candidates(sg[i]), sg[i]))
}

pub proof fn lemma_kept_sub(cands: Seq<usize>, row: Seq<i64>, s: int, k: int)
    requires
        0 <= k <= cands.len(),
    ensures
        spec_kept(cands, row, s, k).len() <= k,
        forall|p: int|
            0 <= p < spec_kept(cands, row, s, k).len() ==> exists|q: int|
                0 <= q < k && #[trigger] spec_kept(cands, row, s, k)[p] == cands[q] && (
                cands[q] as int) < row.len(),
    decreases k,
{
    if k <= 0 {
    } else {
        lemma_kept_sub(cands, row, s, k - 1);
        let pre = spec_kept(cands, row, s, k - 1);
        let cur = spec_kept(cands, row, s, k);
        if (cands[k - 1] as int) < row.len() && 6 * (row[cands[k - 1] as int] as int) > s {
            assert forall|p: int| 0 <= p < cur.len() implies exists|q: int|
                0 <= q < k && #[trigger] cur[p] == cands[q] && (cands[q] as int) < row.len() by {
                if p < pre.len() {
                    let q = choose|q: int|
                        0 <= q < k - 1 && #[trigger] pre[p] == cands[q] && (cands[q] as int)
                            < row.len();
                    assert(cur[p] == cands[q]);
                } else {
                    assert(cur[p] == cands[k - 1]);
                }
            }
        }
    }
}

/// Band bounds of band `b`, as a (first bin, one-past-last bin) pair.
pub fn band_bounds(b: usize) -> (r: (usize, usize))
    requires
        b < NUM_BANDS,
    ensures
        r.0 == spec_band_start(b as int),
        r.1 == spec_band_end(b as int),
        r.0 < r.1,
{
    if b == 0 {
        (4, 6)
    } else if b == 1 {
        (6, 11)
    } else if b == 2 {
        (11, 16)
    } else if b == 3 {
        (16, 24)
    } else if b == 4 {
        (24, 40)
    } else {
        (40, 65)
    }
}

fn band_max(row: &Vec<i64>, lo: usize, hi: usize) -> (m: usize)
    requires
        lo < hi,
        hi <= row@.len(),
    ensures
        m == spec_first_max(row@, lo as int, hi as int),
        lo <= m < hi,
{
    let mut m: usize = lo;
    let mut j: usize = lo + 1;
    while j < hi
        invariant
            lo <= m < j <= hi,
            hi <= row@.len(),
            m == spec_first_max(row@, lo as int, j as int),
        decreases hi - j,
    {
        if row[j] > row[m] {
            m = j;
        }
        j += 1;
    }
    m
}

/// The six per-band candidate peaks of one frame, in band order.
fn frame_candidates(row: &Vec<i64>) -> (cands: Vec<usize>)
    ensures
        cands@ == spec_frame_candidates(row@),
        cands@.len() == NUM_BANDS,
{
    let mut cands: Vec<usize> = Vec::new();
    let mut b: usize = 0;
    while b < NUM_BANDS
        invariant
            b <= NUM_BANDS,
            cands@.len() == b,
            forall|p: int| 0 <= p < b ==> cands@[p] == spec_band_candidate(row@, p),
        decreases NUM_BANDS - b,
    {
        let (lo, hi0) = band_bounds(b);
        let hi = if hi0 <= row.len() {
            hi0
        } else {
            row.len()
        };
        let c = if lo < hi {
            band_max(row, lo, hi)
        } else {
            lo
        };
        assert(c == spec_band_candidate(row@, b as int));
        cands.push(c);
        b += 1;
    }
    assert(cands@ =~= spec_frame_candidates(row@));
    cands
}

/// Filters a table of per-frame band candidates: a frame keeps only the
/// candidates that strictly exceed the frame's mean band magnitude, and
/// keeps none at all unless all six candidates fall inside the frame.
pub fn filter_peaks_by_threshold(peaks: &Vec<Vec<usize>>, spectrogram: &Vec<Vec<i64>>) -> (r: Vec<
    Vec<usize>,
>)
    requires
        spec_mags_bounded(spectrogram.deep_view()),
        forall|i: int|
            0 <= i < peaks@.len() ==> #[trigger] peaks.deep_view()[i].len() <= NUM_BANDS,
    ensures
        r@.len() == peaks@.len(),
        forall|i: int|
            0 <= i < r@.len() ==> #[trigger] r.deep_view()[i] == (if i < spectrogram@.len() {
                spec_filter_frame(peaks.deep_view()[i], spectrogram.deep_view()[i])
            } else {
                Seq::<usize>::empty()
            }),
{
    let ghost pv = peaks.deep_view();
    let ghost sv = spectrogram.deep_view();
    let mut r: Vec<Vec<usize>> = Vec::new();
    let mut i: usize = 0;
    while i < peaks.len()
        invariant
            i <= peaks@.len(),
            pv == peaks.deep_view(),
            sv == spectrogram.deep_view(),
            pv.len() == peaks@.len(),
            sv.len() == spectrogram@.len(),
            spec_mags_bounded(sv),
            forall|p: int| 0 <= p < peaks@.len() ==> #[trigger] pv[p].len() <= NUM_BANDS,
            forall|p: int| 0 <= p < peaks@.len() ==> pv[p] == #[trigger] peaks@[p]@,
            forall|p: int| 0 <= p < spectrogram@.len() ==> sv[p] == #[trigger] spectrogram@[p]@,
            r@.len() == i,
            forall|p: int|
                0 <= p < i ==> #[trigger] r.deep_view()[p] == (if p < sv.len() {
                    spec_filter_frame(pv[p], sv[p])
                } else {
                    Seq::<usize>::empty()
                }),
        decreases peaks@.len() - i,
    {
        let frame = filter_one_frame(&peaks[i], spectrogram, i);
        let ghost rprev = r.deep_view();
        r.push(frame);
        proof {
            assert(r.deep_view() =~~= rprev.push(frame.deep_view()));
        }
        i += 1;
    }
    r
}

fn filter_one_frame(cands: &Vec<usize>, spectrogram: &Vec<Vec<i64>>, i: usize) -> (out: Vec<usize>)
    requires
        spec_mags_bounded(spectrogram.deep_view()),
        cands@.len() <= NUM_BANDS,
    ensures
        out@ == (if (i as int) < spectrogram@.len() {
            spec_filter_frame(cands@, spectrogram.deep_view()[i as int])
        } else {
            Seq::<usize>::empty()
        }),
{
    let ghost sv = spectrogram.deep_view();
    if i >= spectrogram.len() || cands.len() < 6 {
        let out: Vec<usize> = Vec::new();
        assert(out@ =~= Seq::<usize>::empty());
        return out;
    }
    let row = &spectrogram[i];
    assert(row@ == sv[i as int]);
    assert(spec_row_bounded(row@));
    // first pass: count the candidates inside the frame and sum their magnitudes
    let mut count: usize = 0;
    let mut sum: i64 = 0;
    let mut k: usize = 0;
    while k < cands.len()
        invariant
            k <= cands@.len(),
            cands@.len() <= NUM_BANDS,
            spec_row_bounded(row@),
            count == spec_inrange_count(cands@, row@, k as int),
            count <= k,
            sum == spec_inrange_sum(cands@, row@, k as int),
            -6 * MAG_BOUND <= sum <= 6 * MAG_BOUND,
        decreases cands@.len() - k,
    {
        proof {
            lemma_inrange_bounds(cands@, row@, k as int + 1);
        }
        if cands[k] < row.len() {
            sum = sum + row[cands[k]];
            count += 1;
        }
        k += 1;
    }
    let mut out: Vec<usize> = Vec::new();
    if count != 6 {
        assert(out@ =~= spec_filter_frame(cands@, row@));
        return out;
    }
    // second pass: keep the candidates strictly above the band mean
    let ghost s = spec_inrange_sum(cands@, row@, cands@.len() as int);
    let mut k2: usize = 0;
    while k2 < cands.len()
        invariant
            k2 <= cands@.len(),
            cands@.len() <= NUM_BANDS,
            spec_row_bounded(row@),
            -6 * MAG_BOUND <= sum <= 6 * MAG_BOUND,
            sum == s,
            out@ == spec_kept(cands@, row@, s, k2 as int),
        decreases cands@.len() - k2,
    {
        if cands[k2] < row.len() {
            let m = row[cands[k2]];
            if 6 * m > sum {
                out.push(cands[k2]);
            }
        }
        k2 += 1;
    }
    assert(out@ == spec_filter_frame(cands@, row@));
    out
}

proof fn lemma_inrange_bounds(cands: Seq<usize>, row: Seq<i64>, k: int)
    requires
        0 <= k <= cands.len(),
        spec_row_bounded(row),
    ensures
        0 <= spec_inrange_count(cands, row, k) <= k,
        -k * MAG_BOUND <= spec_inrange_sum(cands, row, k) <= k * MAG_BOUND,
    decreases k,
{
    if k <= 0 {
    } else {
        lemma_inrange_bounds(cands, row, k - 1);
        assert((k - 1) * MAG_BOUND + MAG_BOUND == k * MAG_BOUND) by (nonlinear_arith);
    }
}

/// Per frame, picks the strongest bin of each of the six fixed
/// frequency bands, then drops every band whose magnitude does not
/// strictly exceed the frame's mean band magnitude; a frame whose six
/// candidates do not all fall inside it contributes no peaks.
pub fn find_spectral_peaks(spectrogram: &Vec<Vec<i64>>) -> (r: Vec<Vec<usize>>)
    requires
        spec_mags_bounded(spectrogram.deep_view()),
    ensures
        r@.len() == spectrogram@.len(),
        r.deep_view() == spec_peak_table(spectrogram.deep_view()),
        // a frame never yields more than six peaks, and each peak lies in
        // its band's bin range and inside the frame
        forall|i: int| 0 <= i < r@.len() ==> #[trigger] r.deep_view()[i].len() <= 6,
        forall|i: int, p: int|
            0 <= i < r@.len() && 0 <= p < r.deep_view()[i].len() ==> spec_in_band(
                #[trigger] r.deep_view()[i][p] as int,
            ) && (r.deep_view()[i][p] as int) < spectrogram.deep_view()[i].len(),
{
    let ghost sv = spectrogram.deep_view();
    let mut cands: Vec<Vec<usize>> = Vec::new();
    let mut i: usize = 0;
    while i < spectrogram.len()
        invariant
            i <= spectrogram@.len(),
            sv == spectrogram.deep_view(),
            sv.len() == spectrogram@.len(),
            forall|p: int| 0 <= p < spectrogram@.len() ==> sv[p] == #[trigger] spectrogram@[p]@,
            cands@.len() == i,
            forall|p: int|
                0 <= p < i ==> #[trigger] cands.deep_view()[p] == spec_frame_candidates(sv[p]),
        decreases spectrogram@.len() - i,
    {
        let fc = frame_candidates(&spectrogram[i]);
        let ghost cprev = cands.deep_view();
        cands.push(fc);
        proof {
            assert(cands.deep_view() =~~= cprev.push(fc.deep_view()));
        }
        i += 1;
    }
    let r = filter_peaks_by_threshold(&cands, spectrogram);
    proof {
        assert(r.deep_view() =~= spec_peak_table(sv));
        lemma_peak_table_bounds(sv);
    }
    r
}

/// Law: every frame of the peak table holds at most six peaks, and each
/// peak lies inside its band's bin range and inside the frame.
pub proof fn lemma_peak_table_bounds(sg: Seq<Seq<i64>>)
    ensures
        forall|i: int|
            0 <= i < sg.len() ==> #[trigger] spec_peak_table(sg)[i].len() <= 6,
        forall|i: int, p: int|
            0 <= i < sg.len() && 0 <= p < spec_peak_table(sg)[i].len() ==> spec_in_band(
                #[trigger] spec_peak_table(sg)[i][p] as int,
            ) && (spec_peak_table(sg)[i][p] as int) < sg[i].len(),
{
    assert forall|i: int| 0 <= i < sg.len() implies #[trigger] spec_peak_table(sg)[i].len()
        <= 6 by {
        lemma_frame_peaks_bounds(sg[i]);
    }
    assert forall|i: int, p: int|
        0 <= i < sg.len() && 0 <= p < spec_peak_table(sg)[i].len() implies spec_in_band(
        #[trigger] spec_peak_table(sg)[i][p] as int,
    ) && (spec_peak_table(sg)[i][p] as int) < sg[i].len() by {
        lemma_frame_peaks_bounds(sg[i]);
    }
}

/// Law, per frame: at most six peaks, each inside its band and the frame.
pub proof fn lemma_frame_peaks_bounds(row: Seq<i64>)
    ensures
        spec_filter_frame(spec_frame_candidates(row), row).len() <= 6,
        forall|p: int|
            0 <= p < spec_filter_frame(spec_frame_candidates(row), row).len() ==> spec_in_band(
                #[trigger] spec_filter_frame(spec_frame_candidates(row), row)[p] as int,
            ) && (spec_filter_frame(spec_frame_candidates(row), row)[p] as int) < row.len(),
{
    let cands = spec_frame_candidates(row);
    let out = spec_filter_frame(cands, row);
    if cands.len() < 6 || spec_inrange_count(cands, row, cands.len() as int) != 6 {
    } else {
        let s = spec_inrange_sum(cands, row, cands.len() as int);
        lemma_kept_sub(cands, row, s, 6);
        assert forall|p: int| 0 <= p < out.len() implies spec_in_band(#[trigger] out[p] as int)
            && (out[p] as int) < row.len() by {
            let q = choose|q: int|
                0 <= q < 6 && #[trigger] out[p] == cands[q] && (cands[q] as int) < row.len();
            lemma_candidate_in_band(row, q);
            assert(spec_band_start(q) <= out[p] as int && (out[p] as int) < spec_band_end(q));
            assert(spec_in_band(out[p] as int));
        }
    }
}

/// A band candidate lies between its band's first bin (inclusive) and
/// last bin (exclusive), or is exactly the band's first bin when the
/// band lies outside the frame.
pub proof fn lemma_candidate_in_band(row: Seq<i64>, b: int)
    requires
        0 <= b < 6,
    ensures
        spec_band_start(b) <= spec_band_candidate(row, b) as int,
        spec_band_candidate(row, b) as int == spec_band_start(b) || (spec_band_candidate(row, b)
            as int) < spec_band_end(b),
{
    let lo = spec_band_start(b);
    let hi = if spec_band_end(b) <= row.len() {
        spec_band_end(b)
    } else {
        row.len() as int
    };
    if lo < hi {
        lemma_first_max_range(row, lo, hi);
    }
}

} // verus!

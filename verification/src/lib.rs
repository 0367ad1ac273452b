use vstd::prelude::*;

pub mod config;
pub mod fingerprint;
pub mod framing;
pub mod matching;
pub mod normalize;
pub mod peaks;

use crate::fingerprint::{
    create_pairs, lemma_all_pairs_len, spec_all_pairs, spec_bins_in_frame, spec_pairs_match,
};
use crate::matching::{
    match_song, spec_config_of, spec_match_song, MAX_MATCH_INPUT, MAX_TIME_UNITS,
};
use crate::peaks::{
    find_spectral_peaks, spec_band_end, spec_in_band, spec_mags_bounded, spec_peak_table,
};

verus! {

/// The outcome of a recognition run handed back across the process
/// boundary: the matched song's name and artist.
pub struct ShazamResult {
    pub name: String,
    pub artist: String,
}

/// The failure kinds of the pipeline and its collaborators. "No match"
/// is not among them: it is a successful recognition outcome with the
/// zero sentinel.
#[derive(Debug)]
pub enum ShazamError {
    /// The audio source was unreadable or held no samples.
    DecodeError,
    /// The resampler produced no output frames.
    ResamplingFailure,
    /// Parallel hash/timestamp batches of different lengths: an
    /// internal invariant violation.
    DimensionMismatch,
    /// The storage collaborator failed to answer.
    StorageError,
    /// No song metadata exists under the identifier.
    NotFound,
}

/// What the pipeline core asks its caller to do next.
pub enum ShazamStep {
    /// Enrollment: store these (hash key, anchor timestamp) pairs under
    /// the song identifier, as one all-or-nothing batch.
    Enroll { song_id: u64, keys: Vec<u64>, times: Vec<u64> },
    /// Recognition: fetch the stored rows sharing any of these hash
    /// keys, then call again with them.
    NeedRows { keys: Vec<u64> },
    /// Recognition done: the confidence (in hundredths of a percent)
    /// and song identifier of the best match, or the (0, 0) sentinel.
    Match { confidence_x100: u64, song_id: u64 },
}

/// Hash keys of a fingerprint sequence.
pub open spec fn spec_pair_keys(pairs: Seq<(u64, u64)>) -> Seq<u64> {
    pairs.map(|i: int, p: (u64, u64)| p.0)
}

/// Anchor timestamps of a fingerprint sequence.
pub open spec fn spec_pair_vals(pairs: Seq<(u64, u64)>) -> Seq<u64> {
    pairs.map(|i: int, p: (u64, u64)| p.1)
}

/// Drives the fingerprinting core over one quantized spectrogram:
/// extracts the peak table, derives the fingerprint pairs, and either
/// hands them out for enrollment, asks for the stored rows matching
/// their hash keys, or — given those rows — runs the matching engine.
/// The caller performs the storage work between steps.
pub fn run_shazam_internal(
    spectrogram: &Vec<Vec<i64>>,
    song_id: u64,
    to_recognize: bool,
    rows: Option<Vec<(u64, u64, u64)>>,
) -> (r: ShazamStep)
    requires
        spec_mags_bounded(spectrogram.deep_view()),
        spectrogram@.len() <= 0x8000,
        rows matches Some(rs) ==> rs@.len() <= MAX_MATCH_INPUT && forall|p: int|
            0 <= p < rs@.len() ==> (#[trigger] rs@[p]).2 <= MAX_TIME_UNITS,
    ensures
        ({
            let pt = spec_peak_table(spectrogram.deep_view());
            let pairs = spec_all_pairs(pt, pt.len() as int);
            &&& (!to_recognize ==> (r matches ShazamStep::Enroll { song_id: sid, keys, times }
                && sid == song_id && spec_pairs_match(keys@, times@, pairs)))
            &&& ((to_recognize && rows is None) ==> (r matches ShazamStep::NeedRows { keys }
                && keys@ == spec_pair_keys(pairs)))
            &&& (to_recognize ==> (rows matches Some(rs) ==> (r matches ShazamStep::Match {
                confidence_x100,
                song_id: sid,
            } && confidence_x100 as int == spec_match_song(
                rs@,
                spec_pair_keys(pairs),
                spec_pair_vals(pairs),
                spec_config_of(None),
            ).0 && sid as int == spec_match_song(
                rs@,
                spec_pair_keys(pairs),
                spec_pair_vals(pairs),
                spec_config_of(None),
            ).1)))
        }),
{
    let ghost sv = spectrogram.deep_view();
    let peaks = find_spectral_peaks(spectrogram);
    let ghost pt = spec_peak_table(sv);
    proof {
        assert(peaks.deep_view() == pt);
        // peak bins lie inside the six bands, all far below the frame length
        assert forall|p: int, q: int|
            0 <= p < peaks.deep_view().len() && 0 <= q < peaks.deep_view()[p].len() implies #[trigger] peaks.deep_view()[p][q]
            <= crate::config::FRAME_LENGTH by {
            assert(spec_in_band(peaks.deep_view()[p][q] as int));
            let b = choose|b: int|
                0 <= b < 6 && crate::peaks::spec_band_start(b) <= peaks.deep_view()[p][q] as int
                    && (peaks.deep_view()[p][q] as int) < #[trigger] spec_band_end(b);
            assert(spec_band_end(b) <= 65);
        }
        assert(spec_bins_in_frame(peaks.deep_view()));
        lemma_all_pairs_len(pt, pt.len() as int);
        assert(30 * pt.len() <= 30 * 0x8000) by (nonlinear_arith)
            requires
                pt.len() <= 0x8000,
        ;
    }
    let (keys, values) = create_pairs(&peaks);
    let ghost pairs = spec_all_pairs(pt, pt.len() as int);
    proof {
        assert(keys@.len() == pairs.len());
        assert(spec_pairs_match(keys@, values@, pairs));
        assert forall|p: int| 0 <= p < pairs.len() implies keys@[p] == spec_pair_keys(pairs)[p]
            && values@[p] == spec_pair_vals(pairs)[p] by {
            assert(keys@[p] == pairs[p].0);
            assert(values@[p] == pairs[p].1);
        }
        assert(keys@ =~= spec_pair_keys(pairs));
        assert(values@ =~= spec_pair_vals(pairs));
    }
    if !to_recognize {
        ShazamStep::Enroll { song_id, keys, times: values }
    } else {
        match rows {
            None => ShazamStep::NeedRows { keys },
            Some(rs) => {
                let (confidence_x100, matched_id) = match_song(rs, &keys, &values, None);
                ShazamStep::Match { confidence_x100, song_id: matched_id }
            },
        }
    }
}

} // verus!

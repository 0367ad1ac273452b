use rubato::audioadapter_buffers::direct::SequentialSliceOfVecs;
use rubato::{
    Async, FixedAsync, Resampler, SincInterpolationParameters, SincInterpolationType,
    WindowFunction,
};
use rustfft::num_complex::Complex;
use rustfft::FftPlanner;
use shazam_core::config::{FRAME_LENGTH, OUTPUT_SAMPLE_RATE};
use shazam_core::fingerprint::hash_function;
use shazam_core::matching::{eval_song, group_matches, MatchConfig};
use shazam_core::{run_shazam_internal, ShazamStep};

/// Half-cosine (Hann) window over one frame.
fn windowed(frame: &[f64]) -> Vec<f64> {
    let n = frame.len();
    frame
        .iter()
        .enumerate()
        .map(|(k, &x)| {
            x * 0.5 * (1.0 - (2.0 * std::f64::consts::PI * k as f64 / (n as f64 - 1.0)).cos())
        })
        .collect()
}

/// The float front end: frames, windows and transforms a mono signal at
/// the target rate, and quantizes the magnitudes to thousandths of a
/// decibel for the verified pipeline.
fn spectrogram_of(signal: &[f64]) -> Vec<Vec<i64>> {
    let pad = shazam_core::framing::padding_needed(signal.len());
    let mut padded = signal.to_vec();
    padded.resize(signal.len() + pad, 0.0);
    let starts = shazam_core::framing::frame_starts(padded.len());
    let mut planner = FftPlanner::<f64>::new();
    let fft = planner.plan_fft_forward(FRAME_LENGTH);
    let mut sg = Vec::new();
    for &s in &starts {
        let frame = windowed(&padded[s..s + FRAME_LENGTH]);
        let mut buf: Vec<Complex<f64>> = frame.iter().map(|&x| Complex::new(x, 0.0)).collect();
        fft.process(&mut buf);
        let row: Vec<i64> = buf
            .iter()
            .map(|c| {
                let m = c.norm();
                let db = if m < 1e-10 { -200.0 } else { 20.0 * m.log10() };
                (db * 1000.0) as i64
            })
            .collect();
        sg.push(row);
    }
    sg
}

/// A five-second linear tone sweep from 50 Hz to 450 Hz at the target rate.
fn tone_sweep() -> Vec<f64> {
    let rate = OUTPUT_SAMPLE_RATE as f64;
    let n = (5.0 * rate) as usize;
    (0..n)
        .map(|k| {
            let t = k as f64 / rate;
            (2.0 * std::f64::consts::PI * (50.0 * t + 40.0 * t * t)).sin()
        })
        .collect()
}

fn enroll(signal: &[f64], song_id: u64) -> (Vec<u64>, Vec<u64>) {
    let sg = spectrogram_of(signal);
    match run_shazam_internal(&sg, song_id, false, None) {
        ShazamStep::Enroll { song_id: sid, keys, times } => {
            assert_eq!(sid, song_id);
            (keys, times)
        }
        _ => panic!("enrollment must produce a fingerprint batch"),
    }
}

#[test]
fn round_trip_recognizes_the_enrolled_waveform() {
    let signal = tone_sweep();
    let (keys, times) = enroll(&signal, 7);
    assert!(keys.len() > 50, "the sweep must yield a rich fingerprint set");
    let rows: Vec<(u64, u64, u64)> =
        keys.iter().zip(times.iter()).map(|(&h, &t)| (h, 7u64, t)).collect();
    let sg = spectrogram_of(&signal);
    match run_shazam_internal(&sg, 0, true, Some(rows)) {
        ShazamStep::Match { confidence_x100, song_id } => {
            assert_eq!(song_id, 7);
            assert!(confidence_x100 >= 100, "confidence {} below the minimum", confidence_x100);
        }
        _ => panic!("recognition with rows must produce a match step"),
    }
}

#[test]
fn subclip_matches_at_a_consistent_offset() {
    let signal = tone_sweep();
    let (keys, times) = enroll(&signal, 7);
    let rows: Vec<(u64, u64, u64)> =
        keys.iter().zip(times.iter()).map(|(&h, &t)| (h, 7u64, t)).collect();
    // a two-second clip starting near 1.5 s, aligned to the hop grid
    let start = 23 * 512;
    let clip = &signal[start..start + 2 * OUTPUT_SAMPLE_RATE as usize];
    let (clip_keys, clip_times) = enroll(clip, 0);
    let sg_clip = spectrogram_of(clip);
    match run_shazam_internal(&sg_clip, 0, true, Some(rows.clone())) {
        ShazamStep::Match { confidence_x100, song_id } => {
            assert_eq!(song_id, 7);
            assert!(confidence_x100 >= 100);
        }
        _ => panic!("recognition with rows must produce a match step"),
    }
    // the winning offset bin sits near the clip's 1.533 s start
    let songs = group_matches(&rows);
    let cfg = MatchConfig::default();
    let (bin, votes, conf) =
        eval_song(&songs[0], &songs, &clip_keys, &clip_times, &cfg).expect("the clip must match");
    assert!(votes >= 2);
    assert!(conf >= 100);
    assert!((1400..=1700).contains(&bin), "offset bin {} not near 1.5 s", bin);
}

#[test]
fn noise_fingerprints_never_match() {
    let signal = tone_sweep();
    let (keys, times) = enroll(&signal, 7);
    let rows: Vec<(u64, u64, u64)> =
        keys.iter().zip(times.iter()).map(|(&h, &t)| (h, 7u64, t)).collect();
    // pseudo-random query hashes, filtered to share nothing with storage
    let mut state: u64 = 0x9E3779B97F4A7C15;
    let mut noise_keys = Vec::new();
    let mut noise_times = Vec::new();
    let mut t: u64 = 0;
    while noise_keys.len() < 500 {
        state ^= state << 13;
        state ^= state >> 7;
        state ^= state << 17;
        if !keys.contains(&state) {
            noise_keys.push(state);
            noise_times.push(t);
            t += 37;
        }
    }
    let outcome = shazam_core::matching::match_song(rows, &noise_keys, &noise_times, None);
    assert_eq!(outcome, (0, 0), "noise must yield the no-match sentinel");
}

#[test]
fn hash_is_deterministic_and_collision_free_over_random_triples() {
    // determinism: the same triple always gives the same hash
    assert_eq!(hash_function(1000, 2000, 300), hash_function(1000, 2000, 300));
    // distribution: over 10000 pseudo-random distinct triples, the
    // collision rate must stay below one percent
    let mut state: u64 = 0x243F6A8885A308D3;
    let mut triples = Vec::new();
    while triples.len() < 10000 {
        state ^= state << 13;
        state ^= state >> 7;
        state ^= state << 17;
        let a = state & 0xFFFF;
        let t = (state >> 16) & 0xFFFF;
        let d = (state >> 32) % 5000;
        if !triples.contains(&(a, t, d)) {
            triples.push((a, t, d));
        }
    }
    let mut hashes: Vec<u64> = triples.iter().map(|&(a, t, d)| hash_function(a, t, d)).collect();
    hashes.sort_unstable();
    hashes.dedup();
    let collisions = 10000 - hashes.len();
    assert!(collisions * 100 < 10000, "{} collisions in 10000 hashes", collisions);
}

#[test]
fn resampled_length_tracks_the_rate_ratio() {
    // a mono signal resampled from 44100 Hz to the 7680 Hz target rate
    // keeps its duration: the output length stays within one sample of
    // len * target / source
    for &len in &[10000usize, 38400] {
        let input: Vec<Vec<f64>> =
            vec![(0..len).map(|k| (k as f64 * 0.01).sin() * 0.5).collect()];
        let params = SincInterpolationParameters {
            sinc_len: 256,
            f_cutoff: Some(0.95),
            interpolation: SincInterpolationType::Linear,
            oversampling_factor: 256,
            window: WindowFunction::BlackmanHarris2,
        };
        let ratio = OUTPUT_SAMPLE_RATE as f64 / 44100.0;
        let mut resampler =
            Async::<f64>::new_sinc(ratio, 1.1, &params, 1024, 1, FixedAsync::Input).unwrap();
        let adapter = SequentialSliceOfVecs::new(&input, 1, len).unwrap();
        let out = resampler.process_all(&adapter, len, None).unwrap();
        let out_len = out.take_data().len() as f64;
        let expected = len as f64 * ratio;
        assert!(
            (out_len - expected).abs() <= 1.0,
            "resampled {} samples to {}, expected about {}",
            len,
            out_len,
            expected
        );
    }
}

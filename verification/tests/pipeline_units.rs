use shazam_core::fingerprint::{
    convert_index_to_frequency, convert_index_to_time, create_pairs, hash_function, quantize_delta,
    search_target_zone,
};
use shazam_core::framing::{frame_starts, padding_needed};
use shazam_core::normalize::downmix;
use shazam_core::peaks::{band_bounds, filter_peaks_by_threshold, find_spectral_peaks};

#[test]
fn frequency_code_exact_values() {
    assert_eq!(convert_index_to_frequency(0), 0);
    assert_eq!(convert_index_to_frequency(64), 4095); // 64 * 65535 / 1024, truncated
    assert_eq!(convert_index_to_frequency(1023), 65471);
    assert_eq!(convert_index_to_frequency(1024), 65535); // saturates at the frame length
    assert_eq!(convert_index_to_frequency(5000), 65535);
}

#[test]
fn time_units_exact_values() {
    assert_eq!(convert_index_to_time(0, 0), 0);
    assert_eq!(convert_index_to_time(0, 10), 1); // 10 * 1000 / 7680, truncated
    assert_eq!(convert_index_to_time(1, 0), 66); // 512 * 1000 / 7680, truncated
    assert_eq!(convert_index_to_time(3, 0), 200); // exactly 200 ms
}

#[test]
fn delta_code_exact_values() {
    assert_eq!(quantize_delta(0), 0);
    assert_eq!(quantize_delta(2500), 32767); // halfway, truncated
    assert_eq!(quantize_delta(5000), 65535);
    assert_eq!(quantize_delta(999999), 65535); // clamps past five seconds
}

#[test]
fn hash_depends_on_every_component() {
    let h = hash_function(640, 1279, 68);
    assert_ne!(h, hash_function(641, 1279, 68));
    assert_ne!(h, hash_function(640, 1280, 68));
    assert_ne!(h, hash_function(640, 1279, 680));
}

#[test]
fn padding_makes_length_a_hop_multiple() {
    assert_eq!(padding_needed(1000), 24); // 1000 % 512 == 488
    assert_eq!(padding_needed(1024), 0);
    assert_eq!(padding_needed(0), 0);
    assert_eq!(padding_needed(513), 511);
    assert_eq!((1000 + padding_needed(1000)) % 512, 0);
}

#[test]
fn frame_starts_cover_the_padded_signal() {
    assert_eq!(frame_starts(1023), Vec::<usize>::new());
    assert_eq!(frame_starts(1024), vec![0]);
    assert_eq!(frame_starts(1536), vec![0, 512]);
    assert_eq!(frame_starts(2048), vec![0, 512, 1024]);
}

#[test]
fn downmix_averages_channel_frames() {
    let samples: Vec<i16> = vec![100, 200, 301, -5];
    assert_eq!(downmix(&samples, 2), vec![150, 148]);
    // truncation is toward zero, as with integer division
    let neg: Vec<i16> = vec![-3, -4];
    assert_eq!(downmix(&neg, 2), vec![-3]);
    // an incomplete trailing frame is dropped
    let odd: Vec<i16> = vec![7];
    assert_eq!(downmix(&odd, 2), Vec::<i16>::new());
    // mono input is unchanged
    assert_eq!(downmix(&samples, 1), samples);
}

#[test]
fn band_bounds_partition_the_low_bins() {
    let expected = [(4, 6), (6, 11), (11, 16), (16, 24), (24, 40), (40, 65)];
    for b in 0..6 {
        assert_eq!(band_bounds(b), expected[b]);
    }
}

#[test]
fn peaks_keep_bands_above_the_mean() {
    let mut row = vec![0i64; 70];
    row[5] = 10;
    row[7] = 20;
    row[12] = 30;
    row[17] = 40;
    row[25] = 50;
    row[45] = 60;
    let sg = vec![row];
    // the mean of the six band maxima is 35; only 40, 50 and 60 exceed it
    assert_eq!(find_spectral_peaks(&sg), vec![vec![17, 25, 45]]);
}

#[test]
fn peak_ties_resolve_to_the_lowest_bin() {
    let mut row = vec![0i64; 70];
    row[4] = 100;
    row[5] = 100; // tied with bin 4; bin 4 must win
    row[7] = 20;
    row[12] = 30;
    row[17] = 40;
    row[25] = 50;
    row[45] = 60;
    let sg = vec![row];
    assert_eq!(find_spectral_peaks(&sg), vec![vec![4, 45]]);
}

#[test]
fn short_frame_contributes_no_peaks() {
    // the highest band lies outside a 30-bin frame
    let sg = vec![vec![1i64; 30]];
    assert_eq!(find_spectral_peaks(&sg), vec![Vec::<usize>::new()]);
}

#[test]
fn filter_drops_frames_with_missing_candidates() {
    let sg = vec![vec![5i64; 70]];
    let too_few = vec![vec![4usize, 7, 12]];
    assert_eq!(filter_peaks_by_threshold(&too_few, &sg), vec![Vec::<usize>::new()]);
}

#[test]
fn target_zone_collects_following_frames() {
    let peaks = vec![vec![10usize], vec![20], vec![30]];
    let zone = search_target_zone(&peaks, 0);
    assert_eq!(zone.len(), 2);
    assert_eq!(zone[0].1, 69);
    assert_eq!(zone[1].1, 137);
    assert_eq!(zone[0], (convert_index_to_frequency(20), convert_index_to_time(1, 20)));
    assert_eq!(zone[1], (convert_index_to_frequency(30), convert_index_to_time(2, 30)));
    // the anchor's own frame is never in the zone
    let zone_last = search_target_zone(&peaks, 2);
    assert_eq!(zone_last.len(), 0);
}

#[test]
fn create_pairs_emits_anchor_target_hashes() {
    let peaks = vec![vec![10usize], vec![20], vec![30]];
    let (keys, values) = create_pairs(&peaks);
    assert_eq!(keys.len(), 3);
    assert_eq!(values, vec![1, 1, 69]);
    // the first anchor (frame 0, bin 10) pairs with both later peaks
    assert_eq!(keys[0], hash_function(639, 1279, 68));
    assert_eq!(keys[1], hash_function(639, 1919, 136));
    assert_eq!(keys[2], hash_function(1279, 1919, 68));
}

#[test]
fn create_pairs_caps_targets_per_anchor() {
    let peaks = vec![vec![10usize], vec![4, 5, 6, 7, 8, 9], vec![4, 5]];
    let (keys, values) = create_pairs(&peaks);
    // the frame-0 anchor sees 8 zone peaks but consumes only 5;
    // each frame-1 anchor sees the 2 peaks of frame 2
    assert_eq!(keys.len(), 5 + 6 * 2);
    assert_eq!(keys.len(), values.len());
}

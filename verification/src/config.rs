use vstd::prelude::*;

verus! {

/// Fixed sample rate, in Hz, that every input is resampled to before
/// analysis. With a 1024-sample frame this gives 7.5 Hz per spectrogram
/// bin, which places the six peak bands at roughly 30-40, 40-80, 80-120,
/// 120-180, 180-300 and 300-500 Hz.
pub const OUTPUT_SAMPLE_RATE: u64 = 7680;

/// Samples per analysis frame (also the transform size).
pub const FRAME_LENGTH: usize = 1024;

/// Stride, in samples, between consecutive frame starts.
pub const HOP_LENGTH: usize = 512;

/// Timestamps are kept in "precision units": seconds scaled by this
/// factor and truncated, so 1000 means milliseconds. Enrollment and
/// recognition must use the same value or stored offsets are meaningless.
pub const PRECISION_FACTOR: u64 = 1000;

/// Largest anchor-to-target delay, in precision units, that the hash
/// still distinguishes; longer delays saturate to the same code.
pub const MAX_DELTA_UNITS: u64 = 5000;

/// Number of frames after an anchor's frame that are searched for
/// target peaks.
pub const TARGET_ZONE_FRAMES: usize = 6;

/// Largest number of target peaks paired with one anchor.
pub const MAX_TARGETS_PER_ANCHOR: usize = 5;

/// Number of fixed frequency bands a frame is partitioned into.
pub const NUM_BANDS: usize = 6;

/// Largest magnitude value, in scaled decibels, the peak stage accepts;
/// keeps band sums far from the integer limits.
pub const MAG_BOUND: i64 = 0x0100_0000_0000_0000;

} // verus!

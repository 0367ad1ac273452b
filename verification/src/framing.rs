use vstd::prelude::*;
use crate::config::{FRAME_LENGTH, HOP_LENGTH};

verus! {

/// Number of zero samples appended to a signal so its length becomes a
/// multiple of the hop length; this guarantees the final partial frame
/// is never silently dropped.
pub open spec fn spec_padding(total: int) -> int {
    if total % (HOP_LENGTH as int) == 0 {
        0
    } else {
        HOP_LENGTH as int - total % (HOP_LENGTH as int)
    }
}

/// How many zero samples to append before framing.
pub fn padding_needed(total_samples: usize) -> (r: usize)
    requires
        total_samples <= 0x1000_0000,
    ensures
        r as int == spec_padding(total_samples as int),
        r < HOP_LENGTH,
        (total_samples as int + r) % (HOP_LENGTH as int) == 0,
{
    let rem = total_samples % HOP_LENGTH;
    proof {
        let t = total_samples as int;
        let h = HOP_LENGTH as int;
        vstd::arithmetic::div_mod::lemma_fundamental_div_mod(t, h);
        if rem != 0 {
            assert((t / h + 1) * h == h * (t / h) + h) by (nonlinear_arith);
            assert(t + (h - t % h) == (t / h + 1) * h);
            vstd::arithmetic::div_mod::lemma_mod_multiples_basic(t / h + 1, h);
        }
    }
    if rem == 0 {
        0
    } else {
        HOP_LENGTH - rem
    }
}

/// Start indices of the analysis frames of a padded signal: one frame
/// every `HOP_LENGTH` samples, as long as a whole frame still fits.
pub fn frame_starts(padded_len: usize) -> (starts: Vec<usize>)
    requires
        padded_len <= 0x1000_0000,
    ensures
        padded_len < FRAME_LENGTH ==> starts@.len() == 0,
        padded_len >= FRAME_LENGTH ==> starts@.len() == (padded_len - FRAME_LENGTH) / (
        HOP_LENGTH as int) + 1,
        forall|k: int| 0 <= k < starts@.len() ==> #[trigger] starts@[k] == k * (HOP_LENGTH as int),
        forall|k: int|
            0 <= k < starts@.len() ==> #[trigger] starts@[k] + FRAME_LENGTH <= padded_len,
{
    let mut starts: Vec<usize> = Vec::new();
    if padded_len < FRAME_LENGTH {
        return starts;
    }
    let mut pos: usize = 0;
    while pos + FRAME_LENGTH <= padded_len
        invariant
            padded_len <= 0x1000_0000,
            FRAME_LENGTH <= padded_len,
            pos == starts@.len() * (HOP_LENGTH as int),
            pos <= padded_len,
            forall|k: int|
                0 <= k < starts@.len() ==> #[trigger] starts@[k] == k * (HOP_LENGTH as int),
            forall|k: int|
                0 <= k < starts@.len() ==> #[trigger] starts@[k] + FRAME_LENGTH <= padded_len,
        decreases padded_len - pos,
    {
        starts.push(pos);
        proof {
            assert((starts@.len() - 1) * (HOP_LENGTH as int) + (HOP_LENGTH as int) == starts@.len()
                * (HOP_LENGTH as int)) by (nonlinear_arith);
        }
        pos += HOP_LENGTH;
    }
    proof {
        let h = HOP_LENGTH as int;
        let m = starts@.len() as int;
        let x = padded_len - FRAME_LENGTH;
        // the loop ran at least once, and the last start fits while the
        // next one does not: that pins the frame count
        assert(m >= 1);
        assert((m - 1) * h <= x) by {
            assert(starts@[m - 1] == (m - 1) * h);
            assert(starts@[m - 1] + FRAME_LENGTH <= padded_len);
        }
        assert(m * h > x);
        assert(x / h == m - 1) by (nonlinear_arith)
            requires
                h > 0,
                0 <= x,
                (m - 1) * h <= x,
                m * h > x,
        ;
    }
    starts
}

} // verus!

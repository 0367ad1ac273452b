use vstd::prelude::*;
use crate::matching::spec_trunc_div;

verus! {

/// Sum of the `k` interleaved samples of one frame starting at `base`.
pub open spec fn spec_frame_sum(s: Seq<i16>, base: int, k: int) -> int
    decreases k,
{
    if k <= 0 {
        0
    } else {
        spec_frame_sum(s, base, k - 1) + s[base + k - 1]
    }
}

/// The `i`-th mono sample of an interleaved multi-channel signal: the
/// truncating average of that frame's channel samples.
pub open spec fn spec_mono_sample(s: Seq<i16>, channels: int, i: int) -> int {
    spec_trunc_div(spec_frame_sum(s, i * channels, channels), channels)
}

proof fn lemma_frame_sum_bounds(s: Seq<i16>, base: int, k: int)
    requires
        0 <= k,
    ensures
        -32768 * k <= spec_frame_sum(s, base, k) <= 32767 * k,
    decreases k,
{
    if k <= 0 {
        assert(-32768 * 0 <= 0 <= 32767 * 0) by (nonlinear_arith);
    } else {
        lemma_frame_sum_bounds(s, base, k - 1);
        assert(-32768 * (k - 1) - 32768 == -32768 * k) by (nonlinear_arith);
        assert(32767 * (k - 1) + 32767 == 32767 * k) by (nonlinear_arith);
    }
}

/// Down-mixes an interleaved multi-channel integer signal to mono by
/// averaging each frame's channel samples; trailing samples of an
/// incomplete final frame are dropped.
pub fn downmix(samples: &Vec<i16>, channels: usize) -> (mono: Vec<i16>)
    requires
        1 <= channels <= 65536,
    ensures
        mono@.len() == (samples@.len() as int) / (channels as int),
        forall|i: int|
            0 <= i < mono@.len() ==> #[trigger] mono@[i] as int == spec_mono_sample(
                samples@,
                channels as int,
                i,
            ),
{
    let n = samples.len() / channels;
    proof {
        assert(n * channels <= samples@.len() && n == (samples@.len() as int) / (channels as int))
            by (nonlinear_arith)
            requires
                n == (samples@.len() as int) / (channels as int),
                channels >= 1,
                n * channels == ((samples@.len() as int) / (channels as int)) * (channels as int),
        ;
    }
    let mut mono: Vec<i16> = Vec::new();
    let mut i: usize = 0;
    while i < n
        invariant
            i <= n,
            n == (samples@.len() as int) / (channels as int),
            (n as int) * (channels as int) <= samples@.len(),
            1 <= channels <= 65536,
            mono@.len() == i,
            forall|p: int|
                0 <= p < i ==> #[trigger] mono@[p] as int == spec_mono_sample(
                    samples@,
                    channels as int,
                    p,
                ),
        decreases n - i,
    {
        proof {
            assert(samples@.len() == samples.len());
            assert((i as int) * (channels as int) + (channels as int) <= (n as int) * (
            channels as int)) by (nonlinear_arith)
                requires
                    i < n,
                    channels >= 1,
            ;
        }
        let base = i * channels;
        let mut sum: i64 = 0;
        let mut c: usize = 0;
        while c < channels
            invariant
                c <= channels,
                base == (i as int) * (channels as int),
                base + channels <= samples@.len(),
                1 <= channels <= 65536,
                sum == spec_frame_sum(samples@, base as int, c as int),
                -32768 * (c as int) <= sum <= 32767 * (c as int),
            decreases channels - c,
        {
            proof {
                assert(samples@.len() == samples.len());
                lemma_frame_sum_bounds(samples@, base as int, c as int + 1);
                assert(-0x1_0000_0000 <= sum + (samples@[base + c] as int) <= 0x1_0000_0000)
                    by (nonlinear_arith)
                    requires
                        -32768 * (c as int) <= sum <= 32767 * (c as int),
                        0 <= c as int <= 65536,
                        -32768 <= samples@[base + c] as int <= 32767,
                ;
            }
            sum = sum + (samples[base + c] as i64);
            c += 1;
        }
        let avg: i64 = if sum >= 0 {
            ((sum as u64) / (channels as u64)) as i64
        } else {
            let q = ((-sum) as u64) / (channels as u64);
            proof {
                vstd::arithmetic::div_mod::lemma_div_is_ordered(
                    (-sum) as int,
                    32768int * 65536int,
                    channels as int,
                );
                vstd::arithmetic::div_mod::lemma_div_is_ordered(0, (-sum) as int, channels as int);
            }
            -(q as i64)
        };
        proof {
            if sum >= 0 {
                vstd::arithmetic::div_mod::lemma_div_is_ordered(
                    sum as int,
                    32767int * 65536int,
                    channels as int,
                );
                vstd::arithmetic::div_mod::lemma_div_is_ordered(0, sum as int, channels as int);
            }
            assert(avg as int == spec_mono_sample(samples@, channels as int, i as int));
        }
        // the average of 16-bit samples stays within the 16-bit range
        proof {
            if sum >= 0 {
                assert(sum <= 32767int * (channels as int));
                vstd::arithmetic::div_mod::lemma_div_is_ordered(
                    sum as int,
                    32767int * (channels as int),
                    channels as int,
                );
                vstd::arithmetic::div_mod::lemma_div_multiples_vanish(32767, channels as int);
            } else {
                assert((-sum) as int <= 32768int * (channels as int));
                vstd::arithmetic::div_mod::lemma_div_is_ordered(
                    (-sum) as int,
                    32768int * (channels as int),
                    channels as int,
                );
                vstd::arithmetic::div_mod::lemma_div_multiples_vanish(32768, channels as int);
            }
        }
        mono.push(avg as i16);
        i += 1;
    }
    mono
}

} // verus!

use vstd::prelude::*;

use crate::windows::ceil_div;
use crate::windows::lemma_window_count;
use crate::windows::window;

verus! {

/// The minimum and maximum amplitude found in one window of samples.
#[derive(Clone, Copy, Debug, PartialEq, Eq, Structural)]
pub struct PeakPair {
    pub min: i32,
    pub max: i32,
}

/// The least sample of `s`, folded left to right from a seed of
/// `i32::MAX`; the minimum over an empty scan is therefore `i32::MAX`,
/// and a one-sample scan yields that sample.
pub open spec fn min_of(s: Seq<i32>) -> int
    decreases s.len(),
{
    if s.len() == 0 {
        i32::MAX as int
    } else if (s.last() as int) < min_of(s.drop_last()) {
        s.last() as int
    } else {
        min_of(s.drop_last())
    }
}

/// The greatest sample of `s`, folded left to right from a seed of
/// `i32::MIN`.
pub open spec fn max_of(s: Seq<i32>) -> int
    decreases s.len(),
{
    if s.len() == 0 {
        i32::MIN as int
    } else if (s.last() as int) > max_of(s.drop_last()) {
        s.last() as int
    } else {
        max_of(s.drop_last())
    }
}

/// The absolute value of one sample, widened so that `i32::MIN` has one.
pub open spec fn abs_of(x: i32) -> int {
    if x < 0 {
        -(x as int)
    } else {
        x as int
    }
}

/// The greatest absolute sample value of `s`, folded left to right from a
/// seed of `0`; an all-zero or empty scan therefore yields `0`.
pub open spec fn max_abs_of(s: Seq<i32>) -> int
    decreases s.len(),
{
    if s.len() == 0 {
        0
    } else if abs_of(s.last()) > max_abs_of(s.drop_last()) {
        abs_of(s.last())
    } else {
        max_abs_of(s.drop_last())
    }
}

/// `p` records the minimum and maximum amplitude of the `k`-th window of
/// width `w` over the buffer `s`.
pub open spec fn is_window_peak(s: Seq<i32>, w: int, k: int, p: PeakPair) -> bool {
    &&& p.min == min_of(window(s, w, k))
    &&& p.max == max_of(window(s, w, k))
}

/// Over a non-empty scan the seeded minimum is the true minimum: it is
/// one of the samples, and no sample lies below it.
pub proof fn lemma_min_of_is_minimum(s: Seq<i32>)
    requires
        s.len() > 0,
    ensures
        exists|i: int| 0 <= i < s.len() && s[i] == min_of(s),
        forall|i: int| 0 <= i < s.len() ==> min_of(s) <= #[trigger] s[i],
    decreases s.len(),
{
    if s.len() == 1 {
        assert(min_of(s.drop_last()) == i32::MAX as int);
        assert(s[0] == min_of(s));
    } else {
        let rest = s.drop_last();
        lemma_min_of_is_minimum(rest);
        assert(forall|i: int| 0 <= i < rest.len() ==> rest[i] == #[trigger] s[i]);
        if (s.last() as int) < min_of(rest) {
            assert(s[s.len() - 1] == min_of(s));
        } else {
            let j = choose|j: int| 0 <= j < rest.len() && rest[j] == min_of(rest);
            assert(s[j] == min_of(s));
        }
    }
}

/// Over a non-empty scan the seeded maximum is the true maximum: it is
/// one of the samples, and no sample lies above it.
pub proof fn lemma_max_of_is_maximum(s: Seq<i32>)
    requires
        s.len() > 0,
    ensures
        exists|i: int| 0 <= i < s.len() && s[i] == max_of(s),
        forall|i: int| 0 <= i < s.len() ==> #[trigger] s[i] <= max_of(s),
    decreases s.len(),
{
    if s.len() == 1 {
        assert(max_of(s.drop_last()) == i32::MIN as int);
        assert(s[0] == max_of(s));
    } else {
        let rest = s.drop_last();
        lemma_max_of_is_maximum(rest);
        assert(forall|i: int| 0 <= i < rest.len() ==> rest[i] == #[trigger] s[i]);
        if (s.last() as int) > max_of(rest) {
            assert(s[s.len() - 1] == max_of(s));
        } else {
            let j = choose|j: int| 0 <= j < rest.len() && rest[j] == max_of(rest);
            assert(s[j] == max_of(s));
        }
    }
}

/// In any non-empty window the minimum amplitude does not exceed the
/// maximum amplitude.
pub proof fn lemma_min_le_max(s: Seq<i32>)
    requires
        s.len() > 0,
    ensures
        min_of(s) <= max_of(s),
{
    lemma_min_of_is_minimum(s);
    lemma_max_of_is_maximum(s);
    assert(min_of(s) <= s[0]);
    assert(s[0] <= max_of(s));
}

/// The seeded maximum of absolute values is never negative.
pub proof fn lemma_max_abs_nonneg(s: Seq<i32>)
    ensures
        max_abs_of(s) >= 0,
    decreases s.len(),
{
    if s.len() > 0 {
        lemma_max_abs_nonneg(s.drop_last());
    }
}

/// Over a non-empty scan the seeded maximum of absolute values is the
/// true one: it is the absolute value of one of the samples, and no
/// sample's absolute value lies above it.
pub proof fn lemma_max_abs_is_peak(s: Seq<i32>)
    requires
        s.len() > 0,
    ensures
        exists|i: int| 0 <= i < s.len() && abs_of(s[i]) == max_abs_of(s),
        forall|i: int| 0 <= i < s.len() ==> abs_of(#[trigger] s[i]) <= max_abs_of(s),
    decreases s.len(),
{
    if s.len() == 1 {
        assert(max_abs_of(s.drop_last()) == 0);
        assert(abs_of(s[0]) == max_abs_of(s));
    } else {
        let rest = s.drop_last();
        lemma_max_abs_is_peak(rest);
        assert(forall|i: int| 0 <= i < rest.len() ==> rest[i] == #[trigger] s[i]);
        if abs_of(s.last()) > max_abs_of(rest) {
            assert(abs_of(s[s.len() - 1]) == max_abs_of(s));
        } else {
            let j = choose|j: int| 0 <= j < rest.len() && abs_of(rest[j]) == max_abs_of(rest);
            assert(abs_of(s[j]) == max_abs_of(s));
        }
    }
}

/// Reduce a sample buffer to one peak pair per window of
/// `samples_per_pixel` samples, the last window truncated to the
/// remaining tail. Each pair holds the least and greatest amplitude of
/// its window. An empty buffer or a zero window size yields an empty
/// sequence rather than an error.
pub fn extract_waveform_peaks(samples: &Vec<i32>, samples_per_pixel: usize) -> (peaks: Vec<
    PeakPair,
>)
    ensures
        samples.len() == 0 || samples_per_pixel == 0 ==> peaks.len() == 0,
        samples.len() > 0 && samples_per_pixel > 0 ==> peaks.len() == ceil_div(
            samples.len() as int,
            samples_per_pixel as int,
        ),
        forall|k: int|
            0 <= k < peaks.len() ==> is_window_peak(
                samples@,
                samples_per_pixel as int,
                k,
                #[trigger] peaks@[k],
            ),
        forall|k: int| 0 <= k < peaks.len() ==> (#[trigger] peaks@[k]).min <= peaks@[k].max,
{
    let len = samples.len();
    let mut peaks: Vec<PeakPair> = Vec::new();
    if len == 0 || samples_per_pixel == 0 {
        return peaks;
    }
    let mut i: usize = 0;
    assert(peaks.len() == 0);
    assert(peaks.len() * samples_per_pixel == 0);
    while i < len
        invariant
            0 < samples_per_pixel,
            0 < len,
            len == samples.len(),
            i <= len,
            i == peaks.len() * samples_per_pixel || (i == len && peaks.len() >= 1 && (
            peaks.len() as int - 1) * (samples_per_pixel as int) < len && len < peaks.len()
                * samples_per_pixel),
            forall|k: int|
                0 <= k < peaks.len() ==> is_window_peak(
                    samples@,
                    samples_per_pixel as int,
                    k,
                    #[trigger] peaks@[k],
                ),
            forall|k: int| 0 <= k < peaks.len() ==> (#[trigger] peaks@[k]).min <= peaks@[k].max,
        decreases len - i,
    {
        let ghost k = peaks.len() as int;
        let ghost w = samples_per_pixel as int;
        assert(i == k * w);
        let end = if samples_per_pixel < len - i {
            i + samples_per_pixel
        } else {
            len
        };
        let mut mn: i32 = i32::MAX;
        let mut mx: i32 = i32::MIN;
        let mut j: usize = i;
        while j < end
            invariant
                i <= j <= end <= len,
                len == samples.len(),
                mn == min_of(samples@.subrange(i as int, j as int)),
                mx == max_of(samples@.subrange(i as int, j as int)),
            decreases end - j,
        {
            let sample = samples[j];
            proof {
                let pre = samples@.subrange(i as int, j as int);
                let cur = samples@.subrange(i as int, j + 1);
                assert(cur.drop_last() =~= pre);
                assert(cur.last() == samples@[j as int]);
            }
            if sample < mn {
                mn = sample;
            }
            if sample > mx {
                mx = sample;
            }
            j += 1;
        }
        proof {
            let win = window(samples@, w, k);
            assert(win =~= samples@.subrange(i as int, end as int));
            lemma_min_le_max(win);
        }
        peaks.push(PeakPair { min: mn, max: mx });
        proof {
            assert((k + 1) * w == k * w + w) by (nonlinear_arith);
        }
        i = end;
    }
    proof {
        let k = peaks.len() as int;
        let w = samples_per_pixel as int;
        if i == k * w {
            assert((k - 1) * w == k * w - w) by (nonlinear_arith);
        }
        lemma_window_count(len as int, w, k);
    }
    peaks
}

/// Reduce a sample buffer to one envelope value per window of
/// `downsample_factor` samples, the last window truncated to the
/// remaining tail. Each value is the greatest absolute amplitude of its
/// window, folded from a seed of `0`, and so never negative. An empty
/// buffer or a zero factor yields an empty sequence rather than an error.
pub fn generate_waveform(samples: &Vec<i32>, downsample_factor: usize) -> (envelope: Vec<i64>)
    ensures
        samples.len() == 0 || downsample_factor == 0 ==> envelope.len() == 0,
        samples.len() > 0 && downsample_factor > 0 ==> envelope.len() == ceil_div(
            samples.len() as int,
            downsample_factor as int,
        ),
        forall|k: int|
            0 <= k < envelope.len() ==> #[trigger] envelope@[k] == max_abs_of(
                window(samples@, downsample_factor as int, k),
            ),
        forall|k: int| 0 <= k < envelope.len() ==> 0 <= #[trigger] envelope@[k],
{
    let len = samples.len();
    let mut envelope: Vec<i64> = Vec::new();
    if len == 0 || downsample_factor == 0 {
        return envelope;
    }
    let mut i: usize = 0;
    assert(envelope.len() == 0);
    assert(envelope.len() * downsample_factor == 0);
    while i < len
        invariant
            0 < downsample_factor,
            0 < len,
            len == samples.len(),
            i <= len,
            i == envelope.len() * downsample_factor || (i == len && envelope.len() >= 1 && (
            envelope.len() as int - 1) * (downsample_factor as int) < len && len < envelope.len()
                * downsample_factor),
            forall|k: int|
                0 <= k < envelope.len() ==> #[trigger] envelope@[k] == max_abs_of(
                    window(samples@, downsample_factor as int, k),
                ),
            forall|k: int| 0 <= k < envelope.len() ==> 0 <= #[trigger] envelope@[k],
        decreases len - i,
    {
        let ghost k = envelope.len() as int;
        let ghost w = downsample_factor as int;
        assert(i == k * w);
        let end = if downsample_factor < len - i {
            i + downsample_factor
        } else {
            len
        };
        let mut acc: i64 = 0;
        let mut j: usize = i;
        while j < end
            invariant
                i <= j <= end <= len,
                len == samples.len(),
                acc == max_abs_of(samples@.subrange(i as int, j as int)),
            decreases end - j,
        {
            let sample = samples[j];
            proof {
                let pre = samples@.subrange(i as int, j as int);
                let cur = samples@.subrange(i as int, j + 1);
                assert(cur.drop_last() =~= pre);
                assert(cur.last() == samples@[j as int]);
            }
            let magnitude: i64 = if sample < 0 {
                -(sample as i64)
            } else {
                sample as i64
            };
            assert(magnitude == abs_of(samples@[j as int]));
            if magnitude > acc {
                acc = magnitude;
            }
            j += 1;
        }
        proof {
            let win = window(samples@, w, k);
            assert(win =~= samples@.subrange(i as int, end as int));
            lemma_max_abs_nonneg(win);
        }
        envelope.push(acc);
        proof {
            assert((k + 1) * w == k * w + w) by (nonlinear_arith);
        }
        i = end;
    }
    proof {
        let k = envelope.len() as int;
        let w = downsample_factor as int;
        if i == k * w {
            assert((k - 1) * w == k * w - w) by (nonlinear_arith);
        }
        lemma_window_count(len as int, w, k);
    }
    envelope
}

} // verus!

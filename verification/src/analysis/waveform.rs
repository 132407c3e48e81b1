//! The coloured outline of a track.
use vstd::prelude::*;
use crate::audio::biquad::lemma_product_with_zero;
use crate::float::arith::abs;
use crate::float::close::{
    close, lemma_cancel, lemma_minus_close, lemma_over_close, lemma_ratio_close, lemma_scale,
    lemma_small_within, lemma_times_close, lemma_times_whole_close, lemma_unit, small, unit,
};
use crate::float::exact::{lemma_one_is_positive, lemma_whole_single};
use crate::float::order::{
    lemma_by_value_single, lemma_difference_is_positive, lemma_fraction_of, lemma_minus_number,
    lemma_least_single, lemma_natural_not_negative, lemma_order_single, lemma_over_positive,
    lemma_over_whole,
    lemma_ratio_at_least, lemma_ratio_at_most, lemma_ratio_not_negative, lemma_rest_single,
    lemma_share_single, lemma_times_commutes, lemma_zero_plus, lemma_zeros,
};
use crate::float::single::F32;
use crate::window::tapered;

verus! {

/// Samples in a window.
pub const FFT_WINDOW: usize = 4096;

/// Samples from window to window.
pub const HOP_SIZE: usize = FFT_WINDOW / 2;

/// Samples from point to point.
pub const STRIDE: usize = 64;

/// A point of the outline: a sample, and the red, green and blue of the pitch
/// around it.
#[derive(Clone, Copy, Debug)]
pub struct WaveformPoint {
    pub amplitude: F32,
    pub color: [F32; 3],
}

/// The frequency from bin to bin.
pub open spec fn bin_width(sample_rate: u32) -> F32 {
    F32::nearest_to(sample_rate as int).over(F32::nearest_to(FFT_WINDOW as int))
}

/// The lowest bin that can be heard.
pub open spec fn lowest_bin(sample_rate: u32) -> int {
    F32::nearest_to(20).over(bin_width(sample_rate)).ceil().integer_part(0, usize::MAX as int)
}

/// The highest bin that can be heard.
pub open spec fn highest_bin(sample_rate: u32) -> int {
    let bin = F32::nearest_to(20000).over(bin_width(sample_rate)).floor().integer_part(
        0,
        usize::MAX as int,
    );
    if bin < FFT_WINDOW as int / 2 - 1 {
        bin
    } else {
        FFT_WINDOW as int / 2 - 1
    }
}

/// The strongest of the bins from `lo` up to and without `hi`, the first of
/// equals, and how strong it is; `lo` if none is above zero.
pub open spec fn peak_before(magnitudes: Seq<F32>, lo: int, hi: int) -> (int, F32)
    decreases hi - lo,
{
    if hi <= lo {
        (lo, F32::zero())
    } else {
        let before = peak_before(magnitudes, lo, hi - 1);
        if magnitudes[hi - 1].gt(before.1) {
            (hi - 1, magnitudes[hi - 1])
        } else {
            before
        }
    }
}

/// The strongest bin that can be heard.
pub open spec fn peak_bin(magnitudes: Seq<F32>, sample_rate: u32) -> int {
    peak_before(magnitudes, lowest_bin(sample_rate), highest_bin(sample_rate) + 1).0
}

/// The sum, over the bins from `lo` up to and without `hi`, of the frequency
/// times the magnitude, and of the magnitude.
pub open spec fn moments(magnitudes: Seq<F32>, width: F32, lo: int, hi: int) -> (F32, F32)
    decreases hi - lo,
{
    if hi <= lo {
        (F32::zero(), F32::zero())
    } else {
        let before = moments(magnitudes, width, lo, hi - 1);
        let m = magnitudes[hi - 1];
        (before.0.plus(F32::nearest_to(hi - 1).times(width).times(m)), before.1.plus(m))
    }
}

/// The mean frequency around the strongest bin, thirty bins to each side.
pub open spec fn pitch(magnitudes: Seq<F32>, sample_rate: u32) -> F32 {
    let width = bin_width(sample_rate);
    let peak = peak_bin(magnitudes, sample_rate);
    let lo = if peak - 30 > 1 {
        peak - 30
    } else {
        1
    };
    let last = if peak + 30 < FFT_WINDOW as int / 2 - 1 {
        peak + 30
    } else {
        FFT_WINDOW as int / 2 - 1
    };
    let (weighted, sum) = moments(magnitudes, width, lo, last + 1);
    if sum.gt(F32::zero()) {
        weighted.over(sum)
    } else {
        F32::nearest_to(peak).times(width)
    }
}

/// The mean frequency around the strongest bin, brought between 60 and 5000
/// hertz.
pub fn dominant_pitch(magnitudes: &[F32], sample_rate: u32) -> (r: F32)
    requires
        magnitudes@.len() >= FFT_WINDOW / 2,
    ensures
        r == pitch(magnitudes@, sample_rate).max(F32::nearest_to(60)).min(F32::nearest_to(5000)),
{
    let width: F32 = F32::of_u64(sample_rate as u64).over(F32::of_usize(FFT_WINDOW));
    let lo: usize = F32::whole(20).over(width).ceil().to_usize();
    let bound: usize = F32::whole(20000).over(width).floor().to_usize();
    let top: usize = FFT_WINDOW / 2 - 1;
    let hi: usize = if bound < top {
        bound
    } else {
        top
    };
    let mut peak: usize = lo;
    let mut level: F32 = F32::zero();
    let mut i: usize = lo;
    while i <= hi
        invariant
            lo <= i,
            i <= hi + 1 || i == lo,
            hi <= top == FFT_WINDOW / 2 - 1,
            magnitudes@.len() >= FFT_WINDOW / 2,
            (peak as int, level) == peak_before(magnitudes@, lo as int, i as int),
        decreases hi + 1 - i,
    {
        let m: F32 = magnitudes[i];
        if m.gt(level) {
            level = m;
            peak = i;
        }
        i = i + 1;
    }
    proof {
        lemma_peak_empty(magnitudes@, lo as int, hi + 1);
    }
    assert(peak == peak_bin(magnitudes@, sample_rate));
    let first: usize = if peak > 31 {
        peak - 30
    } else {
        1
    };
    let last: usize = if peak < top - 30 {
        peak + 30
    } else {
        top
    };
    let mut weighted: F32 = F32::zero();
    let mut sum: F32 = F32::zero();
    let mut k: usize = first;
    while k <= last
        invariant
            first <= k,
            k <= last + 1 || k == first,
            last <= top == FFT_WINDOW / 2 - 1,
            magnitudes@.len() >= FFT_WINDOW / 2,
            (weighted, sum) == moments(magnitudes@, width, first as int, k as int),
        decreases last + 1 - k,
    {
        let m: F32 = magnitudes[k];
        weighted = weighted.plus(F32::of_usize(k).times(width).times(m));
        sum = sum.plus(m);
        k = k + 1;
    }
    assert((weighted, sum) == moments(magnitudes@, width, first as int, last + 1));
    let centroid: F32 = if sum.gt(F32::zero()) {
        weighted.over(sum)
    } else {
        F32::of_usize(peak).times(width)
    };
    centroid.max(F32::whole(60)).min(F32::whole(5000))
}

proof fn lemma_peak_empty(magnitudes: Seq<F32>, lo: int, hi: int)
    ensures
        hi <= lo ==> peak_before(magnitudes, lo, hi) == peak_before(magnitudes, lo, lo),
{
}

proof fn lemma_peak_before(magnitudes: Seq<F32>, lo: int, hi: int)
    requires
        lo <= hi,
    ensures
        ({
            let (peak, level) = peak_before(magnitudes, lo, hi);
            &&& F32::zero().at_most(level)
            &&& forall|k: int| lo <= k < hi ==> !level.less(#[trigger] magnitudes[k])
            &&& F32::zero().less(level) ==> lo <= peak < hi && level == magnitudes[peak]
                && forall|k: int|
                lo <= k < peak ==> !(#[trigger] level.at_most(magnitudes[k]))
            &&& !F32::zero().less(level) ==> peak == lo
        }),
    decreases hi - lo,
{
    let zero = F32::zero();
    lemma_order_single(zero, zero, zero);
    lemma_least_single(zero);
    lemma_zeros();
    if lo < hi {
        lemma_peak_before(magnitudes, lo, hi - 1);
        let (peak, level) = peak_before(magnitudes, lo, hi - 1);
        let m = magnitudes[hi - 1];
        lemma_order_single(zero, level, m);
        lemma_order_single(level, m, level);
        lemma_order_single(m, level, m);
        assert forall|k: int| lo <= k < hi implies !peak_before(magnitudes, lo, hi).1.less(
            #[trigger] magnitudes[k],
        ) by {
            lemma_order_single(level, m, magnitudes[k]);
            lemma_order_single(m, magnitudes[k], m);
        }
        if level.less(m) {
            assert forall|k: int| lo <= k < hi - 1 implies !(#[trigger] m.at_most(
                magnitudes[k],
            )) by {
                lemma_order_single(level, m, magnitudes[k]);
                lemma_order_single(magnitudes[k], level, m);
            }
        }
    }
}

/// The peak is the strongest bin that can be heard: wherever one of the bins is
/// above zero, none of them is stronger than the peak, and none below the peak
/// is as strong.
pub proof fn lemma_peak_is_strongest(magnitudes: Seq<F32>, sample_rate: u32, heard: int, k: int)
    requires
        lowest_bin(sample_rate) <= heard <= highest_bin(sample_rate),
        F32::zero().less(magnitudes[heard]),
        lowest_bin(sample_rate) <= k <= highest_bin(sample_rate),
    ensures
        ({
            let peak = peak_bin(magnitudes, sample_rate);
            &&& lowest_bin(sample_rate) <= peak <= highest_bin(sample_rate)
            &&& F32::zero().less(magnitudes[peak])
            &&& !magnitudes[peak].less(magnitudes[k])
            &&& k < peak ==> !magnitudes[peak].at_most(magnitudes[k])
        }),
{
    let lo = lowest_bin(sample_rate);
    let hi = highest_bin(sample_rate) + 1;
    lemma_peak_before(magnitudes, lo, hi);
    let level = peak_before(magnitudes, lo, hi).1;
    lemma_order_single(F32::zero(), level, magnitudes[heard]);
    lemma_order_single(level, F32::zero(), magnitudes[heard]);
    if k < peak_bin(magnitudes, sample_rate) {
        assert(!level.at_most(magnitudes[k]));
    }
}

/// The angle on the colour wheel of a pitch, from its binary logarithm: red at
/// 60 hertz, three quarters round at 5000.
pub open spec fn hue(log_pitch: F32) -> F32 {
    log_pitch.minus(F32::ratio(591, 100)).over(
        F32::ratio(1229, 100).minus(F32::ratio(591, 100)),
    ).clamp(F32::zero(), F32::nearest_to(1)).times(F32::nearest_to(270))
}

/// The remainder of `i` by six, with the sign of `i`.
pub open spec fn sextant(i: int) -> int {
    if i >= 0 {
        i % 6
    } else {
        -((-i) % 6)
    }
}

/// The pure colour at an angle, in degrees, on the colour wheel.
pub open spec fn wheel(angle: F32) -> [F32; 3] {
    let h = angle.over(F32::nearest_to(60));
    let i = h.floor().integer_part(i32::MIN as int, i32::MAX as int);
    let one = F32::nearest_to(1);
    let zero = F32::zero();
    let t = h.minus(F32::nearest_to(i));
    let q = one.minus(t);
    let k = sextant(i);
    if k == 0 {
        [one, t, zero]
    } else if k == 1 {
        [q, one, zero]
    } else if k == 2 {
        [zero, one, t]
    } else if k == 3 {
        [zero, q, one]
    } else if k == 4 {
        [t, zero, one]
    } else {
        [one, zero, q]
    }
}

/// A colour of full saturation and full value: the strongest of red, green and blue
/// is one, the weakest is zero, and the third lies between.
pub open spec fn pure(color: [F32; 3]) -> bool {
    &&& exists|j: int| 0 <= j < 3 && #[trigger] color[j] == F32::nearest_to(1)
    &&& exists|j: int| 0 <= j < 3 && #[trigger] color[j] == F32::zero()
    &&& forall|j: int|
        0 <= j < 3 ==> F32::zero().at_most(#[trigger] color[j]) && color[j].at_most(
            F32::nearest_to(1),
        )
}

/// The colour of a pitch is pure, whatever the pitch.
pub proof fn lemma_colors_are_pure(log_pitch: F32)
    requires
        !log_pitch.not_a_number(),
    ensures
        pure(wheel(hue(log_pitch))),
{
    let low = F32::ratio(591, 100);
    let span = F32::ratio(1229, 100).minus(low);
    let one = F32::nearest_to(1);
    let zero = F32::zero();
    lemma_ratio_not_negative(591, 100);
    lemma_ratio_at_most(591, 100, 6);
    lemma_ratio_at_least(1229, 100, 12);
    lemma_ratio_at_most(1229, 100, 13);
    lemma_difference_is_positive(F32::ratio(1229, 100), low, 12, 13, 6);
    lemma_minus_number(log_pitch, low, 6);
    let x = log_pitch.minus(low).over(span);
    lemma_over_positive(log_pitch.minus(low), span);
    let share = x.clamp(zero, one);
    lemma_one_is_positive();
    lemma_order_single(zero, one, x);
    lemma_order_single(x, zero, one);
    lemma_order_single(zero, x, one);
    lemma_order_single(one, one, one);
    lemma_order_single(zero, zero, zero);
    lemma_order_single(zero, zero, one);
    assert(zero.at_most(share) && share.at_most(one));
    let full = F32::nearest_to(270);
    lemma_whole_single(270);
    lemma_natural_not_negative(270);
    lemma_share_single(full, share);
    lemma_times_commutes(share, full);
    let angle = hue(log_pitch);
    let h = angle.over(F32::nearest_to(60));
    lemma_over_whole(angle, 60, 270, 5);
    let i = lemma_fraction_of(h, 5);
    lemma_rest_single(h.minus(F32::nearest_to(i)));
    let color = wheel(angle);
    assert(0 <= sextant(i) <= 5);
    let t = h.minus(F32::nearest_to(i));
    let q = one.minus(t);
    assert(pure([one, t, zero])) by {
        lemma_pure_of(one, t, zero, [one, t, zero], 0, 2);
    }
    assert(pure([q, one, zero])) by {
        lemma_pure_of(q, one, zero, [q, one, zero], 1, 2);
    }
    assert(pure([zero, one, t])) by {
        lemma_pure_of(zero, one, t, [zero, one, t], 1, 0);
    }
    assert(pure([zero, q, one])) by {
        lemma_pure_of(zero, q, one, [zero, q, one], 2, 0);
    }
    assert(pure([t, zero, one])) by {
        lemma_pure_of(t, zero, one, [t, zero, one], 2, 1);
    }
    assert(pure([one, zero, q])) by {
        lemma_pure_of(one, zero, q, [one, zero, q], 0, 1);
    }
}

proof fn lemma_pure_of(r: F32, g: F32, b: F32, color: [F32; 3], top: int, bottom: int)
    requires
        color == [r, g, b],
        0 <= top < 3,
        0 <= bottom < 3,
        seq![r, g, b][top] == F32::nearest_to(1),
        seq![r, g, b][bottom] == F32::zero(),
        F32::zero().at_most(r) && r.at_most(F32::nearest_to(1)),
        F32::zero().at_most(g) && g.at_most(F32::nearest_to(1)),
        F32::zero().at_most(b) && b.at_most(F32::nearest_to(1)),
    ensures
        pure(color),
{
    assert(color[0] == r && color[1] == g && color[2] == b);
    assert(color[top] == F32::nearest_to(1));
    assert(color[bottom] == F32::zero());
}

/// The colour of a pitch, from its binary logarithm.
pub fn pitch_color(log_pitch: F32) -> (r: [F32; 3])
    ensures
        r == wheel(hue(log_pitch)),
{
    let normalized: F32 = log_pitch.minus(F32::ratio(591, 100)).over(
        F32::ratio(1229, 100).minus(F32::ratio(591, 100)),
    );
    let angle: F32 = normalized.clamp(F32::zero(), F32::whole(1)).times(F32::whole(270));
    let h: F32 = angle.over(F32::whole(60));
    let i: i32 = h.floor().to_i32();
    let one: F32 = F32::whole(1);
    let zero: F32 = F32::zero();
    let t: F32 = h.minus(F32::of_i32(i));
    let q: F32 = one.minus(t);
    let wide: i64 = i as i64;
    let k: i64 = if wide >= 0 {
        wide % 6
    } else {
        -((-wide) % 6)
    };
    assert(k == sextant(i as int));
    if k == 0 {
        [one, t, zero]
    } else if k == 1 {
        [q, one, zero]
    } else if k == 2 {
        [zero, one, t]
    } else if k == 3 {
        [zero, q, one]
    } else if k == 4 {
        [t, zero, one]
    } else {
        [one, zero, q]
    }
}

/// The whole windows in `n` samples.
pub open spec fn windows_in(n: int) -> int {
    if n < FFT_WINDOW {
        0
    } else {
        (n - FFT_WINDOW) / HOP_SIZE as int + 1
    }
}

/// How many windows the samples have.
pub fn window_count(samples: &[F32]) -> (n: usize)
    ensures
        n == windows_in(samples@.len() as int),
        n > 0 ==> (n - 1) * HOP_SIZE + FFT_WINDOW <= samples@.len(),
{
    let len: usize = samples.len();
    if len < FFT_WINDOW {
        0
    } else {
        (len - FFT_WINDOW) / HOP_SIZE + 1
    }
}

/// A point of the given colour every stride from `start` up to `end`.
pub open spec fn stretch(samples: Seq<F32>, start: int, end: int, color: [F32; 3]) -> Seq<
    WaveformPoint,
> {
    Seq::new(
        ((end - start + STRIDE - 1) / STRIDE as int) as nat,
        |k: int| WaveformPoint { amplitude: samples[start + STRIDE * k], color },
    )
}

/// The points of the first `n` windows, each over its hop and in its colour.
pub open spec fn window_points(samples: Seq<F32>, colors: Seq<[F32; 3]>, n: int) -> Seq<
    WaveformPoint,
>
    decreases n,
{
    if n <= 0 {
        seq![]
    } else {
        window_points(samples, colors, n - 1) + stretch(
            samples,
            (n - 1) * HOP_SIZE,
            n * HOP_SIZE,
            colors[n - 1],
        )
    }
}

/// Half grey.
pub open spec fn grey() -> [F32; 3] {
    [F32::ratio(1, 2), F32::ratio(1, 2), F32::ratio(1, 2)]
}

/// The outline: the points of all windows, and of the rest in the last colour,
/// or grey.
pub open spec fn outline(samples: Seq<F32>, colors: Seq<[F32; 3]>) -> Seq<WaveformPoint> {
    let n = windows_in(samples.len() as int);
    let last = if n > 0 {
        colors[n - 1]
    } else {
        grey()
    };
    window_points(samples, colors, n) + stretch(
        samples,
        n * HOP_SIZE,
        samples.len() as int,
        last,
    )
}

/// Appends a point of the given colour every stride.
fn push_stretch(
    points: &mut Vec<WaveformPoint>,
    samples: &[F32],
    start: usize,
    end: usize,
    color: [F32; 3],
)
    requires
        start <= end <= samples@.len(),
    ensures
        final(points)@ == old(points)@ + stretch(samples@, start as int, end as int, color),
{
    let ghost before = points@;
    let ghost all = stretch(samples@, start as int, end as int, color);
    let count: usize = (end - start) / STRIDE + if (end - start) % STRIDE > 0 {
        1
    } else {
        0
    };
    let mut k: usize = 0;
    while k < count
        invariant
            start <= end <= samples@.len(),
            k <= count,
            count == all.len(),
            count == (end - start + STRIDE - 1) / STRIDE as int,
            all == stretch(samples@, start as int, end as int, color),
            points@ == before + all.take(k as int),
        decreases count - k,
    {
        points.push(WaveformPoint { amplitude: samples[start + STRIDE * k], color });
        assert(all.take(k + 1) =~= all.take(k as int).push(points@.last()));
        k = k + 1;
    }
    assert(all.take(k as int) =~= all);
}

/// The outline of a track, given the colour of each window.
pub fn analyze_waveform(samples: &[F32], colors: &[[F32; 3]]) -> (r: Vec<WaveformPoint>)
    requires
        colors@.len() == windows_in(samples@.len() as int),
    ensures
        r@ == outline(samples@, colors@),
{
    let n: usize = window_count(samples);
    let len: usize = samples.len();
    let mut points: Vec<WaveformPoint> = Vec::new();
    let mut w: usize = 0;
    while w < n
        invariant
            w <= n == colors@.len(),
            len == samples@.len(),
            n > 0 ==> (n - 1) * HOP_SIZE + FFT_WINDOW <= len,
            points@ == window_points(samples@, colors@, w as int),
        decreases n - w,
    {
        assert(w * HOP_SIZE <= (n - 1) * HOP_SIZE) by (nonlinear_arith)
            requires
                w <= n - 1,
                HOP_SIZE >= 0,
        ;
        assert((w + 1) * HOP_SIZE == w * HOP_SIZE + HOP_SIZE) by (nonlinear_arith);
        let start: usize = w * HOP_SIZE;
        push_stretch(&mut points, samples, start, start + HOP_SIZE, colors[w]);
        w = w + 1;
    }
    let last: [F32; 3] = if n > 0 {
        colors[n - 1]
    } else {
        [F32::ratio(1, 2), F32::ratio(1, 2), F32::ratio(1, 2)]
    };
    let start: usize = n * HOP_SIZE;
    push_stretch(&mut points, samples, start, len, last);
    points
}

proof fn lemma_window_points(samples: Seq<F32>, colors: Seq<[F32; 3]>, n: int)
    requires
        n >= 0,
    ensures
        window_points(samples, colors, n).len() == n * (HOP_SIZE / STRIDE),
        forall|k: int|
            0 <= k < n * (HOP_SIZE / STRIDE) ==> (#[trigger] window_points(
                samples,
                colors,
                n,
            )[k]).amplitude == samples[STRIDE * k],
    decreases n,
{
    let step = (HOP_SIZE / STRIDE) as int;
    assert(step == 32);
    assert(n * step == 32 * n && (n - 1) * step == 32 * (n - 1)) by (nonlinear_arith)
        requires
            step == 32,
    ;
    if n > 0 {
        lemma_window_points(samples, colors, n - 1);
        let before = window_points(samples, colors, n - 1);
        let start = (n - 1) * HOP_SIZE;
        let end = n * HOP_SIZE;
        assert(start == 2048 * (n - 1) && end == 2048 * n) by (nonlinear_arith)
            requires
                start == (n - 1) * HOP_SIZE,
                end == n * HOP_SIZE,
                HOP_SIZE == 2048,
        ;
        let last = stretch(samples, start, end, colors[n - 1]);
        assert(last.len() == 32);
        assert(window_points(samples, colors, n) == before + last);
        assert forall|k: int| 0 <= k < 32 * n implies (#[trigger] window_points(
            samples,
            colors,
            n,
        )[k]).amplitude == samples[STRIDE * k] by {
            let j = k - 32 * (n - 1);
            if j < 0 {
                assert(window_points(samples, colors, n)[k] == before[k]);
            } else {
                assert(window_points(samples, colors, n)[k] == last[j]);
                assert(start + STRIDE * j == STRIDE * k);
            }
        }
    }
}

/// The outline has a point for every stride of the track, each at its sample.
pub proof fn lemma_outline_samples(samples: Seq<F32>, colors: Seq<[F32; 3]>, k: int)
    requires
        0 <= k < outline(samples, colors).len(),
    ensures
        outline(samples, colors).len() == (samples.len() + STRIDE - 1) / STRIDE as int,
        outline(samples, colors)[k].amplitude == samples[STRIDE * k],
{
    let len = samples.len() as int;
    let n = windows_in(len);
    lemma_window_points(samples, colors, n);
    assert(n * HOP_SIZE == 2048 * n && n * (HOP_SIZE / STRIDE) == 32 * n) by (nonlinear_arith)
        requires
            HOP_SIZE == 2048,
            STRIDE == 64,
    ;
    assert(2048 * n <= len);
    let last = if n > 0 {
        colors[n - 1]
    } else {
        grey()
    };
    let rest = stretch(samples, n * HOP_SIZE, len, last);
    assert(rest.len() == (len - 2048 * n + 63) / 64);
    if k >= 32 * n {
        assert(outline(samples, colors)[k] == rest[k - 32 * n]);
    }
}

/// The points of the windows depend on the samples and the colours that they cover.
proof fn lemma_same_windows(
    samples: Seq<F32>,
    colors: Seq<[F32; 3]>,
    more: Seq<F32>,
    more_colors: Seq<[F32; 3]>,
    n: int,
)
    requires
        n >= 0,
        forall|i: int| 0 <= i < 2048 * n ==> #[trigger] samples[i] == more[i],
        forall|w: int| 0 <= w < n ==> #[trigger] colors[w] == more_colors[w],
    ensures
        window_points(samples, colors, n) == window_points(more, more_colors, n),
    decreases n,
{
    if n > 0 {
        lemma_same_windows(samples, colors, more, more_colors, n - 1);
        assert((n - 1) * HOP_SIZE == 2048 * (n - 1) && n * HOP_SIZE == 2048 * n) by (nonlinear_arith)
            requires
                HOP_SIZE == 2048,
        ;
        assert(stretch(samples, (n - 1) * HOP_SIZE, n * HOP_SIZE, colors[n - 1]) =~= stretch(
            more,
            (n - 1) * HOP_SIZE,
            n * HOP_SIZE,
            more_colors[n - 1],
        ));
    }
}

/// Appending to a track leaves the points of the whole windows that it had as they
/// were, if those windows keep their colours.
pub proof fn lemma_appending_keeps_points(
    samples: Seq<F32>,
    colors: Seq<[F32; 3]>,
    appended: Seq<F32>,
    more_colors: Seq<[F32; 3]>,
)
    requires
        forall|w: int|
            0 <= w < windows_in(samples.len() as int) ==> #[trigger] colors[w] == more_colors[w],
    ensures
        ({
            let kept = windows_in(samples.len() as int) * (HOP_SIZE / STRIDE);
            &&& kept <= outline(samples, colors).len()
            &&& kept <= outline(samples + appended, more_colors).len()
            &&& outline(samples + appended, more_colors).take(kept) == outline(
                samples,
                colors,
            ).take(kept)
        }),
{
    let more = samples + appended;
    let n = windows_in(samples.len() as int);
    let m = windows_in(more.len() as int);
    let kept = n * (HOP_SIZE / STRIDE);
    assert(kept == 32 * n && m * (HOP_SIZE / STRIDE) == 32 * m) by (nonlinear_arith)
        requires
            kept == n * (HOP_SIZE / STRIDE),
            HOP_SIZE == 2048,
            STRIDE == 64,
    ;
    assert(2048 * n <= samples.len());
    assert(n <= m);
    lemma_window_points(samples, colors, n);
    lemma_window_points(more, more_colors, n);
    lemma_window_points(more, more_colors, m);
    lemma_same_windows(samples, colors, more, more_colors, n);
    lemma_first_windows(more, more_colors, n, m);
    assert(outline(samples, colors).take(kept) =~= window_points(samples, colors, n));
    assert(outline(more, more_colors).take(kept) =~= window_points(more, more_colors, m).take(
        kept,
    ));
}

/// The colour that `paint` gives each whole window, from its samples weighted by
/// `window`.
pub open spec fn painted(
    samples: Seq<F32>,
    window: Seq<F32>,
    paint: spec_fn(Seq<F32>) -> [F32; 3],
) -> Seq<[F32; 3]> {
    Seq::new(
        windows_in(samples.len() as int) as nat,
        |w: int| paint(tapered(samples, w * HOP_SIZE, window)),
    )
}

/// Appending to a track never changes the points of the whole windows that it had,
/// whichever way the samples of a window give its colour.
pub proof fn lemma_appending_keeps_outline(
    samples: Seq<F32>,
    appended: Seq<F32>,
    window: Seq<F32>,
    paint: spec_fn(Seq<F32>) -> [F32; 3],
)
    requires
        window.len() == FFT_WINDOW,
    ensures
        ({
            let kept = windows_in(samples.len() as int) * (HOP_SIZE / STRIDE);
            let before = outline(samples, painted(samples, window, paint));
            let after = outline(samples + appended, painted(samples + appended, window, paint));
            kept <= before.len() && kept <= after.len() && after.take(kept) == before.take(kept)
        }),
{
    let more = samples + appended;
    let n = windows_in(samples.len() as int);
    let colors = painted(samples, window, paint);
    let more_colors = painted(more, window, paint);
    assert(n <= windows_in(more.len() as int));
    assert forall|w: int| 0 <= w < n implies #[trigger] colors[w] == more_colors[w] by {
        assert(w * HOP_SIZE == 2048 * w) by (nonlinear_arith)
            requires
                HOP_SIZE == 2048,
        ;
        assert(tapered(samples, w * HOP_SIZE, window) =~= tapered(more, w * HOP_SIZE, window));
    }
    lemma_appending_keeps_points(samples, colors, appended, more_colors);
}

/// The points of fewer windows come first among those of more.
proof fn lemma_first_windows(samples: Seq<F32>, colors: Seq<[F32; 3]>, n: int, m: int)
    requires
        0 <= n <= m,
    ensures
        window_points(samples, colors, m).len() >= window_points(samples, colors, n).len(),
        window_points(samples, colors, m).take(
            window_points(samples, colors, n).len() as int,
        ) == window_points(samples, colors, n),
    decreases m,
{
    let first = window_points(samples, colors, n);
    if n < m {
        lemma_first_windows(samples, colors, n, m - 1);
        let before = window_points(samples, colors, m - 1);
        assert(window_points(samples, colors, m).take(first.len() as int) =~= before.take(
            first.len() as int,
        ));
    } else {
        assert(first.take(first.len() as int) =~= first);
    }
}

/// The width of a bin, times the bins in a window, is the sample rate, but for
/// rounding.
pub proof fn lemma_bin_width(sample_rate: u32)
    requires
        1 <= sample_rate < 0x100_0000,
    ensures
        bin_width(sample_rate).finite(),
        bin_width(sample_rate).value() > 0,
        close(bin_width(sample_rate).value(), sample_rate * unit(), FFT_WINDOW as int),
        small(bin_width(sample_rate), 2 * sample_rate + 1),
{
    let u = unit();
    lemma_unit();
    lemma_ratio_close(sample_rate as i32, FFT_WINDOW as i32);
    let w = bin_width(sample_rate).value();
    let x = sample_rate * u;
    assert(x >= u) by (nonlinear_arith)
        requires
            x == sample_rate * u,
            sample_rate >= 1,
            u > 0,
    ;
    assert(FFT_WINDOW == 4096);
}

proof fn lemma_silent_bins(magnitudes: Seq<F32>, width: F32, p: int, lo: int, hi: int)
    requires
        1 <= lo <= hi <= 0x1000,
        0 <= p < 0x1000,
        small(width, 0x200_0000),
        small(magnitudes[p], 0x1_0000),
        forall|i: int| lo <= i < hi && i != p ==> #[trigger] magnitudes[i] == F32::zero(),
    ensures
        ({
            let (weighted, sum) = moments(magnitudes, width, lo, hi);
            let m = magnitudes[p];
            let x = F32::nearest_to(p).times(width).times(m);
            &&& weighted.finite() && sum.finite()
            &&& lo <= p < hi ==> weighted.value() == x.value() && sum.value() == m.value()
            &&& !(lo <= p < hi) ==> weighted.value() == 0 && sum.value() == 0
        }),
    decreases hi - lo,
{
    lemma_zeros();
    if lo < hi {
        lemma_silent_bins(magnitudes, width, p, lo, hi - 1);
        let k = hi - 1;
        let before = moments(magnitudes, width, lo, hi - 1);
        lemma_tone_at(width, k);
        let f = F32::nearest_to(k).times(width);
        if k == p {
            let m = magnitudes[p];
            lemma_times_close(f, m, 0x40_0000_0001, 0x1_0000);
            lemma_zero_plus(before.0, f.times(m));
            lemma_zero_plus(before.1, m);
        } else {
            assert(magnitudes[k] == F32::zero());
            lemma_times_commutes(F32::zero(), f);
            lemma_product_with_zero(f);
            lemma_zero_plus(f.times(F32::zero()), before.0);
            lemma_zero_plus(F32::zero(), before.1);
        }
    }
}

proof fn lemma_tone_at(width: F32, k: int)
    requires
        0 <= k < 0x1000,
        small(width, 0x200_0000),
    ensures
        F32::nearest_to(k).times(width).finite(),
        small(F32::nearest_to(k).times(width), 0x40_0000_0001),
{
    let u = unit();
    lemma_unit();
    lemma_whole_single(k);
    let a = F32::nearest_to(k);
    assert(0 <= k * u <= 0x1000 * u) by (nonlinear_arith)
        requires
            0 <= k < 0x1000,
            u > 0,
    ;
    lemma_times_close(a, width, 0x1000, 0x200_0000);
    lemma_small_within(a.times(width), 2 * (0x1000int * 0x200_0000) + 1, 0x40_0000_0001);
}

/// A lone tone is heard at its frequency: where only one of the bins that can be heard
/// is above zero, the pitch is, but for rounding, the frequency of that bin.
pub proof fn lemma_lone_tone_is_heard(magnitudes: Seq<F32>, sample_rate: u32, p: int)
    requires
        magnitudes.len() >= FFT_WINDOW / 2,
        1 <= sample_rate < 0x100_0000,
        1 <= lowest_bin(sample_rate) <= p <= highest_bin(sample_rate),
        small(magnitudes[p], 0x1_0000),
        magnitudes[p].value() >= unit(),
        forall|i: int|
            0 <= i < magnitudes.len() && i != p ==> #[trigger] magnitudes[i] == F32::zero(),
    ensures
        peak_bin(magnitudes, sample_rate) == p,
        ({
            let tone = F32::nearest_to(p).times(bin_width(sample_rate)).value();
            let gap = pitch(magnitudes, sample_rate).value() - tone;
            let slack = abs(tone) + unit();
            -slack <= 0x20_0000 * gap <= slack
        }),
{
    let u = unit();
    let m = magnitudes[p];
    let zero = F32::zero();
    let width = bin_width(sample_rate);
    lemma_unit();
    lemma_zeros();
    lemma_by_value_single(zero, m);
    lemma_by_value_single(zero, zero);
    lemma_peak_is_strongest(magnitudes, sample_rate, p, p);
    let peak = peak_bin(magnitudes, sample_rate);
    assert(peak == p);
    lemma_bin_width(sample_rate);
    lemma_small_within(width, 2 * sample_rate + 1, 0x200_0000);
    let lo = if peak - 30 > 1 {
        peak - 30
    } else {
        1
    };
    let last = if peak + 30 < FFT_WINDOW as int / 2 - 1 {
        peak + 30
    } else {
        FFT_WINDOW as int / 2 - 1
    };
    lemma_silent_bins(magnitudes, width, p, lo, last + 1);
    let (weighted, sum) = moments(magnitudes, width, lo, last + 1);
    lemma_by_value_single(zero, sum);
    let f = F32::nearest_to(p).times(width);
    lemma_tone_at(width, p);
    lemma_times_close(f, m, 0x40_0000_0001, 0x1_0000);
    let x = f.times(m);
    lemma_small_within(x, 2 * (0x40_0000_0001int * 0x1_0000) + 1, 0x100_0000_0000_0000);
    let top = 0x100_0000_0000_0000int;
    assert(-((top * u) * sum.value()) <= weighted.value() * u <= (top * u) * sum.value()) by (
        nonlinear_arith)
        requires
            -(top * u) <= weighted.value() <= top * u,
            sum.value() >= u,
            u > 0,
            top > 0,
    ;
    lemma_over_close(weighted, sum, top);
    lemma_centroid(weighted.over(sum).value(), x.value(), f.value(), m.value(), u);
}

proof fn lemma_centroid(q: int, x: int, f: int, m: int, u: int)
    requires
        u >= 0x1_0000_0000_0000,
        m >= u,
        close(x, f * m, u),
        close(q, x * u, m),
    ensures
        ({
            let slack = abs(f) + u;
            -slack <= 0x20_0000 * (q - f) <= slack
        }),
{
    let k = 0x100_0000int;
    let h = 0x80_0000int;
    let fm = f * m;
    let xu = x * u;
    let qm = q * m;
    let ax = abs(x) * u;
    let aq = abs(q) * m;
    let af = abs(f) * m;
    assert((ax == xu || ax == -xu) && (aq == qm || aq == -qm) && (af == fm || af == -fm)) by (
        nonlinear_arith)
        requires
            ax == abs(x) * u,
            xu == x * u,
            aq == abs(q) * m,
            qm == q * m,
            af == abs(f) * m,
            fm == f * m,
            abs(x) == x || abs(x) == -x,
            abs(q) == q || abs(q) == -q,
            abs(f) == f || abs(f) == -f,
    ;
    assert(ax >= 0 && aq >= 0 && af >= 0) by (nonlinear_arith)
        requires
            ax == abs(x) * u,
            aq == abs(q) * m,
            af == abs(f) * m,
            abs(x) >= 0,
            abs(q) >= 0,
            abs(f) >= 0,
            u > 0,
            m > 0,
    ;
    let um = u * m;
    assert(h * u <= um && h * m <= um) by (nonlinear_arith)
        requires
            h == 0x80_0000,
            um == u * m,
            m >= u,
            u >= 0x80_0000,
    ;
    let s = abs(f) + u;
    assert(s * m == af + um) by (nonlinear_arith)
        requires
            s == abs(f) + u,
            af == abs(f) * m,
            um == u * m,
    ;
    let v = 0x20_0000 * (q - f);
    assert(v * m == 0x20_0000 * (qm - fm)) by (nonlinear_arith)
        requires
            v == 0x20_0000 * (q - f),
            qm == q * m,
            fm == f * m,
    ;
    assert(-(s * m) <= v * m <= s * m);
    lemma_cancel(v, s, m);
    assert((-s) * m == -(s * m)) by (nonlinear_arith);
    lemma_cancel(-s, v, m);
}

/// The pitch is that of the bins around the peak: spectra with the same peak that agree
/// within thirty bins of it have the same pitch.
pub proof fn lemma_pitch_is_local(a: Seq<F32>, b: Seq<F32>, sample_rate: u32)
    requires
        peak_bin(a, sample_rate) == peak_bin(b, sample_rate),
        forall|i: int|
            peak_bin(a, sample_rate) - 30 <= i <= peak_bin(a, sample_rate) + 30 ==> #[trigger] a[i]
                == b[i],
    ensures
        pitch(a, sample_rate) == pitch(b, sample_rate),
{
    let peak = peak_bin(a, sample_rate);
    let width = bin_width(sample_rate);
    let lo = if peak - 30 > 1 {
        peak - 30
    } else {
        1
    };
    let last = if peak + 30 < FFT_WINDOW as int / 2 - 1 {
        peak + 30
    } else {
        FFT_WINDOW as int / 2 - 1
    };
    lemma_moments_agree(a, b, width, lo, last + 1);
}

proof fn lemma_moments_agree(a: Seq<F32>, b: Seq<F32>, width: F32, lo: int, hi: int)
    requires
        forall|i: int| lo <= i < hi ==> #[trigger] a[i] == b[i],
    ensures
        moments(a, width, lo, hi) == moments(b, width, lo, hi),
    decreases hi - lo,
{
    if lo < hi {
        lemma_moments_agree(a, b, width, lo, hi - 1);
        assert(a[hi - 1] == b[hi - 1]);
    }
}

/// The hue runs in a line with the logarithm of the pitch: but for rounding, from red at
/// 5.91 three quarters round at 12.29.
pub proof fn lemma_hue_is_linear(log_pitch: F32)
    requires
        log_pitch.finite(),
        592 * unit() <= 100 * log_pitch.value() <= 1228 * unit(),
    ensures
        hue(log_pitch).finite(),
        ({
            let gap = 638 * hue(log_pitch).value() - 270 * (100 * log_pitch.value() - 591
                * unit());
            -unit() <= gap <= unit()
        }),
{
    let u = unit();
    let low = F32::ratio(591, 100);
    let high = F32::ratio(1229, 100);
    let one = F32::nearest_to(1);
    lemma_unit();
    lemma_zeros();
    lemma_whole_single(1);
    lemma_ratio_close(591, 100);
    lemma_ratio_close(1229, 100);
    assert(small(log_pitch, 13));
    lemma_hundredths(low.value(), 591, u);
    lemma_hundredths(high.value(), 1229, u);
    lemma_minus_close(log_pitch, low, 13, 14);
    lemma_minus_close(high, low, 14, 14);
    let x = log_pitch.minus(low);
    let span = high.minus(low);
    let l = 100 * log_pitch.value() - 591 * u;
    lemma_hue_parts(low.value(), high.value(), log_pitch.value(), x.value(), span.value(), u);
    assert(0 <= x.value() * u <= (1 * u) * span.value()) by (nonlinear_arith)
        requires
            0 <= x.value() <= span.value(),
            u > 0,
    ;
    assert(-((1 * u) * span.value()) <= 0) by (nonlinear_arith)
        requires
            0 <= span.value(),
            u > 0,
    ;
    lemma_over_close(x, span, 1);
    let q = x.over(span);
    lemma_share_of_span(q.value(), x.value(), span.value(), l, u);
    lemma_by_value_single(q, F32::zero());
    lemma_by_value_single(one, q);
    lemma_times_whole_close(q, 270, 3);
    lemma_turned(hue(log_pitch).value(), q.value(), l, u);
}

proof fn lemma_turned(h: int, q: int, l: int, u: int)
    requires
        u >= 0x1_0000_0000_0000,
        0 < q < u,
        -u <= 0x200 * (638 * q - l) <= u,
        close(h, q * 270, 1),
    ensures
        -u <= 638 * h - 270 * l <= u,
{
}

proof fn lemma_hue_parts(low: int, high: int, log: int, x: int, span: int, u: int)
    requires
        u >= 0x1_0000_0000_0000,
        592 * u <= 100 * log <= 1228 * u,
        -u <= 0x2000 * (100 * low - 591 * u) <= u,
        -u <= 0x2000 * (100 * high - 1229 * u) <= u,
        close(x, log - low, 1),
        close(span, high - low, 1),
    ensures
        -u <= 0x800 * (100 * x - (100 * log - 591 * u)) <= u,
        -u <= 0x800 * (100 * span - 638 * u) <= u,
        0 <= x <= span,
        span > 0,
{
}

proof fn lemma_hundredths(r: int, n: int, u: int)
    requires
        u >= 0x1_0000_0000_0000,
        0 <= n <= 1300,
        r >= 0,
        close(r, n * u, 100),
    ensures
        -u <= 0x2000 * (100 * r - n * u) <= u,
        r <= 13 * u + u,
        100 * r <= n * u + u,
{
    let nu = n * u;
    assert(0 <= nu <= 1300 * u) by (nonlinear_arith)
        requires
            0 <= n <= 1300,
            nu == n * u,
            u > 0,
    ;
}

proof fn lemma_share_of_span(q: int, x: int, span: int, l: int, u: int)
    requires
        u >= 0x1_0000_0000_0000,
        u <= l <= 637 * u,
        -u <= 0x800 * (100 * x - l) <= u,
        -u <= 0x800 * (100 * span - 638 * u) <= u,
        close(q, x * u, span),
    ensures
        0 < q < u,
        -u <= 0x200 * (638 * q - l) <= u,
{
    let qs = q * span;
    let xu = x * u;
    let m = abs(q) * span;
    let uu = u * u;
    assert((m == qs || m == -qs) && m >= 0) by (nonlinear_arith)
        requires
            m == abs(q) * span,
            qs == q * span,
            abs(q) == q || abs(q) == -q,
            abs(q) >= 0,
            span > 0,
    ;
    let lu = l * u;
    lemma_scale(0x800 * (100 * x - l), u, u);
    assert((0x800 * (100 * x - l)) * u == 0x800 * (100 * xu - lu)) by (nonlinear_arith)
        requires
            xu == x * u,
            lu == l * u,
    ;
    assert(uu <= lu <= 637 * uu && 0x1_0000_0000_0000 * u <= uu) by (nonlinear_arith)
        requires
            u <= l <= 637 * u,
            lu == l * u,
            uu == u * u,
            u >= 0x1_0000_0000_0000,
    ;
    assert(span <= 7 * u);
    assert(0 < qs);
    assert(q > 0) by (nonlinear_arith)
        requires
            qs == q * span,
            qs > 0,
            span > 0,
    ;
    let g = 100 * span - 638 * u;
    lemma_scale(0x800 * g, u, q);
    let qu = q * u;
    assert((0x800 * g) * q == 0x800 * (100 * qs - 638 * qu) && u * q == qu) by (nonlinear_arith)
        requires
            g == 100 * span - 638 * u,
            qs == q * span,
            qu == q * u,
    ;
    assert(qu >= 0) by (nonlinear_arith)
        requires
            qu == q * u,
            q > 0,
            u > 0,
    ;
    assert(638 * qu <= 638 * uu - uu / 2);
    assert(qu < uu);
    assert(q < u) by (nonlinear_arith)
        requires
            qu == q * u,
            uu == u * u,
            qu < uu,
            u > 0,
    ;
    let v = 0x200 * (638 * q - l);
    assert(v * u == 0x200 * (638 * qu - lu)) by (nonlinear_arith)
        requires
            v == 0x200 * (638 * q - l),
            qu == q * u,
            lu == l * u,
    ;
    assert(-uu <= v * u <= uu);
    lemma_cancel(v, u, u);
    assert((-u) * u == -uu) by (nonlinear_arith)
        requires
            uu == u * u,
    ;
    lemma_cancel(-u, v, u);
}

} // verus!

//! Logarithmic spectral features, fifty frames a second.
use vstd::prelude::*;
use crate::float::arith::{abs, less};
use crate::float::close::{
    close, lemma_cancel, lemma_minus_close, lemma_plus_close, lemma_scale, lemma_small_within,
    lemma_term, lemma_times_close, lemma_unit, small, unit,
};
use crate::float::close_double as double;
use crate::float::double::F64;
use crate::float::exact::{
    lemma_formats, lemma_whole_double, lemma_whole_over_double, lemma_whole_single,
};
use crate::float::order::{lemma_by_value_single, lemma_zeros};
use crate::float::single::F32;
use crate::signal::{exact_total, lemma_mean_shares, mass, total};

verus! {

/// Samples per second that the features are taken from.
pub const SAMPLE_RATE: u32 = 22050;

/// Samples from frame to frame.
pub const HOP_SIZE: usize = 441;

/// Samples in a frame.
pub const FRAME_SIZE: usize = 1411;

/// Frequency bands of the filter bank.
pub const NUM_BANDS: usize = 136;

/// Features of a frame: the bands and how much each has grown.
pub const FEAT_DIM: usize = NUM_BANDS * 2;

/// Frequency bins below half the sample rate.
pub const NUM_FFT_BINS: usize = FRAME_SIZE / 2;

/// Activation frames per second.
#[verifier::allow_in_spec]
pub fn fps() -> F32
    returns
        F32::nearest_to(50),
{
    F32::whole(50)
}

/// The sum of the first `n` samples from `start` on.
pub open spec fn sum_from(s: Seq<F32>, start: int, n: int) -> F32
    decreases n,
{
    if n <= 0 {
        F32::zero()
    } else {
        sum_from(s, start, n - 1).plus(s[start + n - 1])
    }
}

/// The mean of the channels in each frame of interleaved samples; one channel
/// stands for itself.
pub open spec fn mixed(samples: Seq<F32>, channels: int) -> Seq<F32> {
    if channels <= 1 {
        samples
    } else {
        Seq::new(
            (samples.len() as int / channels) as nat,
            |i: int| sum_from(samples, i * channels, channels).over(F32::nearest_to(channels)),
        )
    }
}

/// The samples.
fn copied(samples: &[F32]) -> (r: Vec<F32>)
    ensures
        r@ == samples@,
{
    let mut out: Vec<F32> = Vec::new();
    let mut i: usize = 0;
    while i < samples.len()
        invariant
            i <= samples@.len(),
            out@ == samples@.take(i as int),
        decreases samples@.len() - i,
    {
        out.push(samples[i]);
        assert(samples@.take(i + 1) =~= samples@.take(i as int).push(samples@[i as int]));
        i = i + 1;
    }
    assert(out@ =~= samples@);
    out
}

/// Mixes interleaved channels down to one.
pub fn to_mono(samples: &[F32], channels: u16) -> (r: Vec<F32>)
    ensures
        r@ == mixed(samples@, channels as int),
{
    if channels <= 1 {
        return copied(samples);
    }
    let ch: usize = channels as usize;
    let len: usize = samples.len();
    let frames: usize = len / ch;
    let mut mono: Vec<F32> = Vec::new();
    let mut i: usize = 0;
    while i < frames
        invariant
            ch == channels,
            ch > 1,
            len == samples@.len(),
            frames == len as int / ch as int,
            i <= frames,
            mono@ == mixed(samples@, channels as int).take(i as int),
        decreases frames - i,
    {
        proof {
            lemma_frame_bounds(len as int, ch as int, i as int);
        }
        let start: usize = i * ch;
        let mut sum: F32 = F32::zero();
        let mut c: usize = 0;
        while c < ch
            invariant
                c <= ch,
                start + ch <= len == samples@.len(),
                sum == sum_from(samples@, start as int, c as int),
            decreases ch - c,
        {
            sum = sum.plus(samples[start + c]);
            c = c + 1;
        }
        mono.push(sum.over(F32::of_usize(ch)));
        assert(mixed(samples@, channels as int).take(i + 1) =~= mixed(
            samples@,
            channels as int,
        ).take(i as int).push(mono@.last()));
        i = i + 1;
    }
    assert(mono@ =~= mixed(samples@, channels as int));
    mono
}

/// A whole frame of `ch` samples lies within the first `n / ch` frames.
proof fn lemma_frame_bounds(n: int, ch: int, i: int)
    requires
        ch > 0,
        0 <= n,
        0 <= i < n / ch,
    ensures
        0 <= i * ch,
        i * ch + ch <= n,
{
    assert((i + 1) * ch <= (n / ch) * ch && (n / ch) * ch <= n && (i + 1) * ch == i * ch + ch && 0
        <= i * ch) by (nonlinear_arith)
        requires
            ch > 0,
            0 <= n,
            0 <= i < n / ch,
    ;
}

/// Output samples for each input sample.
pub open spec fn rate_ratio(from_sr: u32, to_sr: u32) -> F64 {
    F64::nearest_to(to_sr as int).over(F64::nearest_to(from_sr as int))
}

/// How many samples `n` become.
pub open spec fn resampled_len(n: int, ratio: F64) -> int {
    F64::nearest_to(n).times(ratio).round().max(F64::nearest_to(1)).integer_part(
        0,
        usize::MAX as int,
    )
}

/// Where in the input output sample `i` lies.
pub open spec fn source_place(ratio: F64, i: int) -> F64 {
    F64::nearest_to(i).over(ratio)
}

/// The input sample at or before output sample `i`.
pub open spec fn source_index(ratio: F64, i: int) -> int {
    source_place(ratio, i).floor().integer_part(0, usize::MAX as int)
}

/// The line between two samples, `frac` of the way.
pub open spec fn between(a: F32, b: F32, frac: F32) -> F32 {
    a.times(F32::nearest_to(1).minus(frac)).plus(b.times(frac))
}

/// Output sample `i`: on the line between the two input samples around it, or
/// the last one.
pub open spec fn resampled_at(s: Seq<F32>, ratio: F64, i: int) -> F32 {
    let i0 = source_index(ratio, i);
    let frac = source_place(ratio, i).minus(F64::nearest_to(i0)).to_single();
    if i0 >= s.len() - 1 {
        s.last()
    } else {
        between(s[i0], s[i0 + 1], frac)
    }
}

/// The samples at another rate.
pub open spec fn resampled(s: Seq<F32>, from_sr: u32, to_sr: u32) -> Seq<F32> {
    let ratio = rate_ratio(from_sr, to_sr);
    if from_sr == 0 || s.len() == 0 {
        seq![]
    } else if from_sr == to_sr {
        s
    } else {
        Seq::new(
            resampled_len(s.len() as int, ratio) as nat,
            |i: int| resampled_at(s, ratio, i),
        )
    }
}

/// Brings samples to another rate by linear interpolation.
pub fn resample_to(samples: &[F32], from_sr: u32, to_sr: u32) -> (r: Vec<F32>)
    ensures
        r@ == resampled(samples@, from_sr, to_sr),
{
    if from_sr == 0 || samples.len() == 0 {
        return Vec::new();
    }
    if from_sr == to_sr {
        return copied(samples);
    }
    let ratio: F64 = F64::of_u64(to_sr as u64).over(F64::of_u64(from_sr as u64));
    let out_len: usize = F64::of_usize(samples.len()).times(ratio).round().max(
        F64::whole(1),
    ).to_usize();
    let max_idx: usize = samples.len() - 1;
    let ghost all = resampled(samples@, from_sr, to_sr);
    let mut out: Vec<F32> = Vec::new();
    let mut i: usize = 0;
    while i < out_len
        invariant
            i <= out_len,
            out_len == resampled_len(samples@.len() as int, ratio),
            ratio == rate_ratio(from_sr, to_sr),
            samples@.len() > 0,
            max_idx == samples@.len() - 1,
            from_sr != 0,
            from_sr != to_sr,
            all == resampled(samples@, from_sr, to_sr),
            out@ == all.take(i as int),
        decreases out_len - i,
    {
        let src: F64 = F64::of_usize(i).over(ratio);
        let i0: usize = src.floor().to_usize();
        let frac: F32 = src.minus(F64::of_usize(i0)).to_single();
        if i0 >= max_idx {
            out.push(samples[max_idx]);
        } else {
            out.push(
                samples[i0].times(F32::whole(1).minus(frac)).plus(samples[i0 + 1].times(frac)),
            );
        }
        assert(all.take(i + 1) =~= all.take(i as int).push(out@.last()));
        i = i + 1;
    }
    assert(out@ =~= all);
    out
}

/// The frames that begin in `n` samples.
pub open spec fn frames_in(n: int) -> int {
    F64::nearest_to(n).over(F64::nearest_to(HOP_SIZE as int)).ceil().integer_part(
        0,
        usize::MAX as int,
    )
}

/// How many frames the samples have.
pub fn frame_count(mono: &[F32]) -> (n: usize)
    ensures
        n == frames_in(mono@.len() as int),
{
    F64::of_usize(mono.len()).over(F64::of_usize(HOP_SIZE)).ceil().to_usize()
}

/// Sample `i`, zero where there is none.
pub open spec fn sample_or_zero(s: Seq<F32>, i: int) -> F32 {
    if 0 <= i < s.len() {
        s[i]
    } else {
        F32::zero()
    }
}

/// The samples of a frame, weighted by the window. The frame is centred: it
/// begins half its size before its place.
pub fn windowed_frame(mono: &[F32], window: &[F32], frame_idx: usize) -> (r: Vec<F32>)
    requires
        window@.len() >= FRAME_SIZE,
    ensures
        r@ == Seq::new(
            FRAME_SIZE as nat,
            |n: int|
                sample_or_zero(
                    mono@,
                    frame_idx * HOP_SIZE - FRAME_SIZE as int / 2 + n,
                ).times(window@[n]),
        ),
{
    let start: i128 = frame_idx as i128 * HOP_SIZE as i128 - (FRAME_SIZE / 2) as i128;
    let len: usize = mono.len();
    let mut out: Vec<F32> = Vec::new();
    let mut n: usize = 0;
    while n < FRAME_SIZE
        invariant
            n <= FRAME_SIZE <= window@.len(),
            len == mono@.len(),
            start == frame_idx * HOP_SIZE - FRAME_SIZE as int / 2,
            out@ == Seq::new(
                n as nat,
                |k: int|
                    sample_or_zero(
                        mono@,
                        frame_idx * HOP_SIZE - FRAME_SIZE as int / 2 + k,
                    ).times(window@[k]),
            ),
        decreases FRAME_SIZE - n,
    {
        let src: i128 = start + n as i128;
        let sample: F32 = if src < 0 || src >= len as i128 {
            F32::zero()
        } else {
            mono[src as usize]
        };
        out.push(sample.times(window[n]));
        n = n + 1;
    }
    out
}

/// The first `n` bins, weighted by band `b` of the filter bank; bins without
/// weight do not count.
pub open spec fn band_sum(filterbank: Seq<F32>, magnitudes: Seq<F32>, b: int, n: int) -> F32
    decreases n,
{
    if n <= 0 {
        F32::zero()
    } else {
        let w = filterbank[(n - 1) * NUM_BANDS + b];
        if w.equals(F32::zero()) {
            band_sum(filterbank, magnitudes, b, n - 1)
        } else {
            band_sum(filterbank, magnitudes, b, n - 1).plus(magnitudes[n - 1].times(w))
        }
    }
}

/// One more than what each band holds of the magnitudes of a frame: the
/// numbers whose logarithms are the features.
pub fn band_energies(filterbank: &[F32], magnitudes: &[F32]) -> (r: Vec<F32>)
    requires
        filterbank@.len() == NUM_FFT_BINS * NUM_BANDS,
        magnitudes@.len() >= NUM_FFT_BINS,
    ensures
        r@ == Seq::new(
            NUM_BANDS as nat,
            |b: int|
                F32::nearest_to(1).plus(
                    band_sum(filterbank@, magnitudes@, b, NUM_FFT_BINS as int),
                ),
        ),
{
    let mut out: Vec<F32> = Vec::new();
    let mut b: usize = 0;
    while b < NUM_BANDS
        invariant
            b <= NUM_BANDS,
            filterbank@.len() == NUM_FFT_BINS * NUM_BANDS,
            magnitudes@.len() >= NUM_FFT_BINS,
            out@ == Seq::new(
                b as nat,
                |c: int|
                    F32::nearest_to(1).plus(
                        band_sum(filterbank@, magnitudes@, c, NUM_FFT_BINS as int),
                    ),
            ),
        decreases NUM_BANDS - b,
    {
        let mut acc: F32 = F32::zero();
        let mut k: usize = 0;
        while k < NUM_FFT_BINS
            invariant
                k <= NUM_FFT_BINS,
                b < NUM_BANDS,
                filterbank@.len() == NUM_FFT_BINS * NUM_BANDS,
                magnitudes@.len() >= NUM_FFT_BINS,
                acc == band_sum(filterbank@, magnitudes@, b as int, k as int),
            decreases NUM_FFT_BINS - k,
        {
            let w: F32 = filterbank[k * NUM_BANDS + b];
            if !w.equals(F32::zero()) {
                acc = acc.plus(magnitudes[k].times(w));
            }
            k = k + 1;
        }
        out.push(F32::whole(1).plus(acc));
        b = b + 1;
    }
    out
}

/// How much band `b` has grown from the frame before; zero in the first frame
/// and where it has not grown.
pub open spec fn growth(log_spec: Seq<F32>, t: int, b: int) -> F32 {
    let d = log_spec[t * NUM_BANDS + b].minus(log_spec[(t - 1) * NUM_BANDS + b]);
    if t > 0 && d.gt(F32::zero()) {
        d
    } else {
        F32::zero()
    }
}

/// The features of frame `t`: its bands, then how much each has grown.
pub open spec fn frame_features(log_spec: Seq<F32>, t: int) -> Seq<F32> {
    Seq::new(
        FEAT_DIM as nat,
        |k: int|
            if k < NUM_BANDS {
                log_spec[t * NUM_BANDS + k]
            } else {
                growth(log_spec, t, k - NUM_BANDS)
            },
    )
}

/// The features of the first `n` frames.
pub open spec fn features_before(log_spec: Seq<F32>, n: int) -> Seq<F32>
    decreases n,
{
    if n <= 0 {
        seq![]
    } else {
        features_before(log_spec, n - 1) + frame_features(log_spec, n - 1)
    }
}

/// Puts the bands of each frame beside how much each has grown.
fn stack_features(log_spec: &[F32], num_frames: usize) -> (r: Vec<F32>)
    requires
        log_spec@.len() == num_frames * NUM_BANDS,
    ensures
        r@ == features_before(log_spec@, num_frames as int),
        r@.len() == num_frames * FEAT_DIM,
{
    let mut out: Vec<F32> = Vec::new();
    let len: usize = log_spec.len();
    let mut t: usize = 0;
    while t < num_frames
        invariant
            t <= num_frames,
            log_spec@.len() == len == num_frames * NUM_BANDS,
            out@ == features_before(log_spec@, t as int),
            out@.len() == t * FEAT_DIM,
        decreases num_frames - t,
    {
        let ghost before = out@;
        let ghost row = frame_features(log_spec@, t as int);
        let base: usize = t * NUM_BANDS;
        let mut b: usize = 0;
        while b < NUM_BANDS
            invariant
                b <= NUM_BANDS,
                t < num_frames,
                base == t * NUM_BANDS,
                log_spec@.len() == len == num_frames * NUM_BANDS,
                row == frame_features(log_spec@, t as int),
                out@ == before + row.take(b as int),
            decreases NUM_BANDS - b,
        {
            out.push(log_spec[base + b]);
            assert(row.take(b + 1) =~= row.take(b as int).push(row[b as int]));
            b = b + 1;
        }
        let mut c: usize = 0;
        while c < NUM_BANDS
            invariant
                c <= NUM_BANDS,
                t < num_frames,
                base == t * NUM_BANDS,
                log_spec@.len() == len == num_frames * NUM_BANDS,
                row == frame_features(log_spec@, t as int),
                out@ == before + row.take(NUM_BANDS + c),
            decreases NUM_BANDS - c,
        {
            let grown: F32 = if t == 0 {
                F32::zero()
            } else {
                let d: F32 = log_spec[base + c].minus(log_spec[base - NUM_BANDS + c]);
                if d.gt(F32::zero()) {
                    d
                } else {
                    F32::zero()
                }
            };
            out.push(grown);
            assert(row.take(NUM_BANDS + c + 1) =~= row.take(NUM_BANDS + c as int).push(
                row[NUM_BANDS + c as int],
            ));
            c = c + 1;
        }
        assert(row.take(FEAT_DIM as int) =~= row);
        assert((t + 1) * FEAT_DIM == t * FEAT_DIM + FEAT_DIM) by (nonlinear_arith);
        t = t + 1;
    }
    out
}

/// The features of samples, given the logarithms of the band energies of their
/// frames, frame by frame; none where there is no frame.
pub fn log_spect_features(mono: &[F32], log_spec: &[F32]) -> (r: Option<Vec<F32>>)
    requires
        log_spec@.len() == frames_in(mono@.len() as int) * NUM_BANDS,
    ensures
        match r {
            Some(features) => {
                &&& frames_in(mono@.len() as int) > 0
                &&& features@ == features_before(log_spec@, frames_in(mono@.len() as int))
                &&& features@.len() == frames_in(mono@.len() as int) * FEAT_DIM
            },
            None => frames_in(mono@.len() as int) == 0,
        },
{
    let num_frames: usize = frame_count(mono);
    if num_frames == 0 {
        None
    } else {
        Some(stack_features(log_spec, num_frames))
    }
}

proof fn lemma_sum_is_total(s: Seq<F32>, start: int, n: int, k: int)
    requires
        0 <= start,
        0 <= n <= k,
        start + k <= s.len(),
    ensures
        sum_from(s, start, n) == total(s.subrange(start, start + k), n),
    decreases n,
{
    if n > 0 {
        lemma_sum_is_total(s, start, n - 1, k);
    }
}

/// A frame of several channels becomes their mean: but for rounding, times the
/// number of channels it is their exact sum.
pub proof fn lemma_mix_is_mean(samples: Seq<F32>, channels: int, i: int)
    requires
        1 < channels <= u16::MAX,
        0 <= i,
        (i + 1) * channels <= samples.len(),
        forall|k: int| 0 <= k < samples.len() ==> small(#[trigger] samples[k], 0x10_0000),
    ensures
        0 <= i < mixed(samples, channels).len(),
        ({
            let frame = samples.subrange(i * channels, (i + 1) * channels);
            let gap = mixed(samples, channels)[i].value() * channels - exact_total(
                frame,
                channels,
            );
            let slack = channels * (mass(frame, channels) + unit());
            -slack <= 0x20_0000 * gap <= slack
        }),
{
    let start = i * channels;
    assert(start >= 0 && (i + 1) * channels == start + channels) by (nonlinear_arith)
        requires
            i >= 0,
            channels > 0,
            start == i * channels,
    ;
    let frame = samples.subrange(start, start + channels);
    assert(i < samples.len() as int / channels) by (nonlinear_arith)
        requires
            (i + 1) * channels <= samples.len(),
            channels > 0,
    ;
    lemma_sum_is_total(samples, start, channels, channels);
    assert forall|k: int| 0 <= k < frame.len() implies small(#[trigger] frame[k], 0x10_0000) by {
        assert(frame[k] == samples[start + k]);
    }
    lemma_mean_shares(frame);
}

/// A sample between two others lies on the line from one to the other: but for
/// rounding, it is the first, weighted by what is left, and the second, weighted by
/// the fraction.
pub proof fn lemma_between_on_line(a: F32, b: F32, frac: F32)
    requires
        small(a, 0x1000),
        small(b, 0x1000),
        small(frac, 1),
        frac.value() >= 0,
    ensures
        between(a, b, frac).finite(),
        ({
            let u = unit();
            let f = frac.value();
            let exact = a.value() * (u - f) + b.value() * f;
            let gap = between(a, b, frac).value() * u - exact;
            let slack = (abs(a.value()) + abs(b.value()) + u) * u;
            -slack <= 0x10_0000 * gap <= slack
        }),
{
    let u = unit();
    let one = F32::nearest_to(1);
    lemma_unit();
    lemma_whole_single(1);
    lemma_minus_close(one, frac, 1, 1);
    let rest = one.minus(frac);
    lemma_times_close(a, rest, 0x1000, 5);
    lemma_times_close(b, frac, 0x1000, 1);
    let p = a.times(rest);
    let q = b.times(frac);
    lemma_plus_close(p, q, 2 * (0x1000int * 5) + 1, 2 * (0x1000int * 1) + 1);
    lemma_line(
        a.value(),
        b.value(),
        frac.value(),
        rest.value(),
        p.value(),
        q.value(),
        p.plus(q).value(),
        u,
    );
}

proof fn lemma_line(a: int, b: int, f: int, r: int, p: int, q: int, s: int, u: int)
    requires
        u >= 0x1_0000_0000_0000,
        0 <= f <= u,
        close(r, u - f, 1),
        close(p, a * r, u),
        close(q, b * f, u),
        close(s, p + q, 1),
    ensures
        ({
            let exact = a * (u - f) + b * f;
            let gap = s * u - exact;
            let slack = (abs(a) + abs(b) + u) * u;
            -slack <= 0x10_0000 * gap <= slack
        }),
{
    let k = 0x100_0000int;
    let h = 0x80_0000int;
    let x = abs(a);
    let y = abs(b);
    let ar = a * r;
    let bf = b * f;
    let af = a * (u - f);
    let xu = x * u;
    let yu = y * u;
    let uu = u * u;
    assert((x + y + u) * u == xu + yu + uu) by (nonlinear_arith)
        requires
            xu == x * u,
            yu == y * u,
            uu == u * u,
    ;
    assert(h * u <= uu && 0x1_0000_0000_0000 * u <= uu && xu >= 0 && yu >= 0) by (nonlinear_arith)
        requires
            u >= 0x1_0000_0000_0000,
            uu == u * u,
            xu == x * u,
            yu == y * u,
            x >= 0,
            y >= 0,
            h == 0x80_0000,
    ;
    assert(0 <= r <= 2 * u);
    let e = 4 * u;
    assert(-e <= k * (r - (u - f)) <= e);
    lemma_scale(k * (r - (u - f)), e, x);
    assert((k * (r - (u - f))) * x == k * (r * x - (u - f) * x) && e * x == 4 * xu) by (
        nonlinear_arith)
        requires
            e == 4 * u,
            xu == x * u,
    ;
    assert(ar - af == r * x - (u - f) * x || ar - af == -(r * x - (u - f) * x)) by (
        nonlinear_arith)
        requires
            ar == a * r,
            af == a * (u - f),
            x == a || x == -a,
    ;
    assert(-(2 * xu) <= ar <= 2 * xu) by (nonlinear_arith)
        requires
            ar == a * r,
            xu == x * u,
            0 <= r <= 2 * u,
            x == a || x == -a,
            x >= 0,
    ;
    assert(-yu <= bf <= yu) by (nonlinear_arith)
        requires
            bf == b * f,
            yu == y * u,
            0 <= f <= u,
            y == b || y == -b,
            y >= 0,
    ;
    let pu = p * u;
    let qu = q * u;
    let su = s * u;
    let ap = abs(p) * u;
    let aq = abs(q) * u;
    let a_s = abs(s) * u;
    lemma_same_size(p, u);
    lemma_same_size(q, u);
    lemma_same_size(s, u);
    assert(ap <= 3 * xu + uu);
    assert(aq <= 2 * yu + uu);
    let g = s - (p + q);
    lemma_scale(k * g, abs(s) + h, u);
    assert((k * g) * u == k * (su - pu - qu)) by (nonlinear_arith)
        requires
            g == s - (p + q),
            su == s * u,
            pu == p * u,
            qu == q * u,
    ;
    assert((abs(s) + h) * u == a_s + h * u) by (nonlinear_arith)
        requires
            a_s == abs(s) * u,
    ;
    assert(a_s <= 4 * xu + 3 * yu + 4 * uu);
}

proof fn lemma_same_size(p: int, u: int)
    requires
        u > 0,
    ensures
        abs(p) * u == p * u || abs(p) * u == -(p * u),
        abs(p) * u >= 0,
{
    assert((abs(p) * u == p * u || abs(p) * u == -(p * u)) && abs(p) * u >= 0) by (nonlinear_arith)
        requires
            u > 0,
            abs(p) == p || abs(p) == -p,
            abs(p) >= 0,
    ;
}

/// How much a band has grown since the frame before: a band that fell, or of the
/// first frame, has not grown.
pub proof fn lemma_growth_is_rise(log_spec: Seq<F32>, t: int, b: int)
    requires
        0 <= t,
        0 <= b < NUM_BANDS,
        t > 0 ==> small(log_spec[t * NUM_BANDS + b], 0x10_0000) && small(
            log_spec[(t - 1) * NUM_BANDS + b],
            0x10_0000,
        ),
    ensures
        t == 0 ==> growth(log_spec, t, b) == F32::zero(),
        t > 0 ==> ({
            let rise = log_spec[t * NUM_BANDS + b].value() - log_spec[(t - 1) * NUM_BANDS
                + b].value();
            &&& rise <= 0 ==> growth(log_spec, t, b) == F32::zero()
            &&& rise > 0 ==> growth(log_spec, t, b).value() > 0 && close(
                growth(log_spec, t, b).value(),
                rise,
                1,
            )
        }),
{
    lemma_unit();
    lemma_zeros();
    if t > 0 {
        let x = log_spec[t * NUM_BANDS + b];
        let y = log_spec[(t - 1) * NUM_BANDS + b];
        lemma_minus_close(x, y, 0x10_0000, 0x10_0000);
        lemma_by_value_single(F32::zero(), x.minus(y));
    }
}

/// What a band holds of the magnitudes of the first `n` bins, exactly, in squared
/// units.
pub open spec fn exact_band(filterbank: Seq<F32>, magnitudes: Seq<F32>, b: int, n: int) -> int
    decreases n,
{
    if n <= 0 {
        0
    } else {
        exact_band(filterbank, magnitudes, b, n - 1) + magnitudes[n - 1].value() * filterbank[(n
            - 1) * NUM_BANDS + b].value()
    }
}

/// The same sum with every product without its sign.
pub open spec fn band_mass(filterbank: Seq<F32>, magnitudes: Seq<F32>, b: int, n: int) -> int
    decreases n,
{
    if n <= 0 {
        0
    } else {
        band_mass(filterbank, magnitudes, b, n - 1) + abs(
            magnitudes[n - 1].value() * filterbank[(n - 1) * NUM_BANDS + b].value(),
        )
    }
}

/// A band sums the magnitudes of the bins, each weighted by the filter, but for
/// rounding; a bin of no weight changes nothing.
pub proof fn lemma_band_weighs(filterbank: Seq<F32>, magnitudes: Seq<F32>, b: int, n: int)
    requires
        0 <= n <= 0x1000,
        0 <= b < NUM_BANDS,
        n <= magnitudes.len(),
        n * NUM_BANDS <= filterbank.len(),
        forall|i: int| 0 <= i < magnitudes.len() ==> small(#[trigger] magnitudes[i], 0x1_0000),
        forall|i: int| 0 <= i < filterbank.len() ==> small(#[trigger] filterbank[i], 0x100),
    ensures
        band_sum(filterbank, magnitudes, b, n).finite(),
        small(band_sum(filterbank, magnitudes, b, n), 0x1_0000_0000_0000),
        abs(exact_band(filterbank, magnitudes, b, n)) <= band_mass(filterbank, magnitudes, b, n),
        0 <= band_mass(filterbank, magnitudes, b, n) <= n * (0x100_0000 * (unit() * unit())),
        ({
            let gap = band_sum(filterbank, magnitudes, b, n).value() * unit() - exact_band(
                filterbank,
                magnitudes,
                b,
                n,
            );
            let slack = (8 * n) * (band_mass(filterbank, magnitudes, b, n) + 0x200_0000 * unit());
            -slack <= 0x100_0000 * gap <= slack
        }),
    decreases n,
{
    let u = unit();
    lemma_unit();
    lemma_zeros();
    if n <= 0 {
        assert(0 * u == 0 && (8 * n) * (0 + 0x200_0000 * u) == 0 && n * (0x100_0000 * (u * u))
            == 0) by (nonlinear_arith)
            requires
                n == 0,
        ;
    } else {
        assert((n - 1) * NUM_BANDS + NUM_BANDS == n * NUM_BANDS && (n - 1) * NUM_BANDS >= 0) by (
            nonlinear_arith)
            requires
                n >= 1,
                NUM_BANDS >= 0,
        ;
        lemma_band_weighs(filterbank, magnitudes, b, n - 1);
        let x = magnitudes[n - 1];
        let y = filterbank[(n - 1) * NUM_BANDS + b];
        assert(small(x, 0x1_0000) && small(y, 0x100));
        let t0 = band_sum(filterbank, magnitudes, b, n - 1);
        let p = x.value() * y.value();
        let m = band_mass(filterbank, magnitudes, b, n - 1);
        let exact = exact_band(filterbank, magnitudes, b, n - 1);
        let uu = u * u;
        assert(abs(p) <= 0x100_0000 * uu) by (nonlinear_arith)
            requires
                -(0x1_0000 * u) <= x.value() <= 0x1_0000 * u,
                -(0x100 * u) <= y.value() <= 0x100 * u,
                p == x.value() * y.value(),
                uu == u * u,
                u > 0,
                abs(p) == p || abs(p) == -p,
        ;
        let big = 0x100_0000 * uu;
        assert((n - 1) * big + big == n * big) by (nonlinear_arith);
        let z = m + abs(p) + 0x200_0000 * u;
        lemma_equals_zero(y);
        if y.equals(F32::zero()) {
            assert(p == 0) by (nonlinear_arith)
                requires
                    p == x.value() * y.value(),
                    y.value() == 0,
            ;
            assert((8 * (n - 1)) * z <= (8 * n) * z) by (nonlinear_arith)
                requires
                    z >= 0,
                    n >= 1,
            ;
        } else {
            let t = x.times(y);
            lemma_times_close(x, y, 0x1_0000, 0x100);
            lemma_small_within(t, 2 * (0x1_0000int * 0x100) + 1, 0x400_0000);
            lemma_plus_close(t0, t, 0x1_0000_0000_0000, 0x400_0000);
            let a = t0.plus(t);
            lemma_term(t0.value(), t.value(), a.value(), exact, p, m, 8 * (n - 1), u);
        }
        lemma_band_bound(
            band_sum(filterbank, magnitudes, b, n),
            n,
            m + abs(p),
            exact_band(filterbank, magnitudes, b, n),
            u,
        );
    }
}

proof fn lemma_equals_zero(y: F32)
    requires
        y.finite(),
    ensures
        y.equals(F32::zero()) <==> y.value() == 0,
{
    lemma_zeros();
    lemma_by_value_single(y, F32::zero());
    lemma_by_value_single(F32::zero(), y);
    lemma_formats();
    reveal(F32::finite);
    reveal(F32::not_a_number);
    reveal(F32::less);
    reveal(less);
}

proof fn lemma_band_bound(a: F32, n: int, m: int, exact: int, u: int)
    requires
        a.finite(),
        u == unit(),
        1 <= n <= 0x1000,
        0 <= m <= n * (0x100_0000 * (u * u)),
        abs(exact) <= m,
        ({
            let gap = a.value() * u - exact;
            let slack = (8 * n) * (m + 0x200_0000 * u);
            -slack <= 0x100_0000 * gap <= slack
        }),
    ensures
        small(a, 0x1_0000_0000_0000),
{
    let uu = u * u;
    lemma_unit();
    assert(m <= 0x10_0000_0000 * uu) by (nonlinear_arith)
        requires
            0 <= m <= n * (0x100_0000 * uu),
            1 <= n <= 0x1000,
            uu >= 0,
    ;
    let z = m + 0x200_0000 * u;
    assert((8 * n) * z <= 0x8000 * z) by (nonlinear_arith)
        requires
            1 <= n <= 0x1000,
            z >= 0,
    ;
    assert(u <= uu) by (nonlinear_arith)
        requires
            u >= 1,
            uu == u * u,
    ;
    let top = 0x1_0000_0000_0000 * u;
    assert(top * u == 0x1_0000_0000_0000 * uu) by (nonlinear_arith)
        requires
            top == 0x1_0000_0000_0000 * u,
            uu == u * u,
    ;
    assert((-top) * u == -(top * u)) by (nonlinear_arith);
    lemma_cancel(a.value(), top, u);
    lemma_cancel(-top, a.value(), u);
}

/// The frames cover the samples: there are as many as it takes hops to reach past
/// the last sample.
pub proof fn lemma_frames_cover(n: int, k: int)
    requires
        0 < n < 0x1_0000_0000,
        (k - 1) * HOP_SIZE < n <= k * HOP_SIZE,
        k <= usize::MAX,
    ensures
        frames_in(n) == k,
{
    let u = double::unit();
    let a = F64::nearest_to(n);
    let h = HOP_SIZE as int;
    let d = F64::nearest_to(h);
    double::lemma_unit();
    lemma_whole_double(n);
    lemma_whole_double(h);
    assert(1 <= k <= 0x1_0000_0000) by (nonlinear_arith)
        requires
            0 < n < 0x1_0000_0000,
            (k - 1) * 441 < n <= k * 441,
    ;
    if n == k * h {
        lemma_whole_over_double(k, h);
        lemma_whole_double(k);
        let q = a.over(d);
        assert((k - 1) * u < k * u) by (nonlinear_arith)
            requires
                u > 0,
        ;
        assert(k * u >= 0) by (nonlinear_arith)
            requires
                u > 0,
                k >= 1,
        ;
        double::lemma_ceil_of(q, k, 0, usize::MAX as int);
    } else {
        assert(0 <= a.value() * u <= (n * u) * d.value()) by (nonlinear_arith)
            requires
                a.value() == n * u,
                d.value() == h * u,
                h >= 1,
                n >= 0,
                u >= 1,
        ;
        assert(d.value() > 0) by (nonlinear_arith)
            requires
                d.value() == h * u,
                h >= 1,
                u >= 1,
        ;
        double::lemma_over_close(a, d, n);
        let q = a.over(d);
        assert(a.value() * u == (n * u) * u);
        double::lemma_close_reduced(q.value(), n * u, h, u);
        lemma_frame_between(q.value(), n, k, u);
        double::lemma_ceil_of(q, k, 0, usize::MAX as int);
    }
}

proof fn lemma_frame_between(q: int, n: int, k: int, u: int)
    requires
        u >= 0x1_0000_0000_0000_0000,
        0 < n < 0x1_0000_0000,
        1 <= k <= 0x1_0000_0000,
        (k - 1) * 441 < n < k * 441,
        double::close(q, n * u, 441),
    ensures
        (k - 1) * u < q <= k * u,
        q >= 0,
{
    let nu = n * u;
    let ku = k * u;
    assert((k - 1) * u == ku - u) by (nonlinear_arith)
        requires
            ku == k * u,
    ;
    assert(441 * ku - 440 * u <= nu <= 441 * ku - u) by (nonlinear_arith)
        requires
            (k - 1) * 441 < n < k * 441,
            nu == n * u,
            ku == k * u,
            u > 0,
    ;
    assert(u <= nu <= 0x1_0000_0000 * u) by (nonlinear_arith)
        requires
            1 <= n <= 0x1_0000_0000,
            nu == n * u,
            u > 0,
    ;
}

/// The features lie frame by frame: first the bands of a frame, then how much each
/// has grown.
pub proof fn lemma_features_layout(log_spec: Seq<F32>, n: int, t: int, b: int)
    requires
        0 <= t < n,
        0 <= b < NUM_BANDS,
    ensures
        features_before(log_spec, n).len() == n * FEAT_DIM,
        features_before(log_spec, n)[t * FEAT_DIM + b] == log_spec[t * NUM_BANDS + b],
        features_before(log_spec, n)[t * FEAT_DIM + NUM_BANDS + b] == growth(log_spec, t, b),
    decreases n,
{
    assert((n - 1) * FEAT_DIM + FEAT_DIM == n * FEAT_DIM) by (nonlinear_arith);
    assert(features_before(log_spec, n - 1).len() == (n - 1) * FEAT_DIM) by {
        if n > 1 {
            lemma_features_layout(log_spec, n - 1, 0, b);
        }
    }
    if t < n - 1 {
        lemma_features_layout(log_spec, n - 1, t, b);
        assert(t * FEAT_DIM + FEAT_DIM <= (n - 1) * FEAT_DIM && t * FEAT_DIM >= 0) by (
            nonlinear_arith)
            requires
                0 <= t < n - 1,
                FEAT_DIM >= 0,
        ;
    }
}

/// An output sample lies where its time is in the input: but for rounding, its
/// place times the new rate is its number times the old rate.
pub proof fn lemma_place_keeps_time(from_sr: u32, to_sr: u32, i: int)
    requires
        1 <= from_sr < 0x100_0000,
        1 <= to_sr < 0x100_0000,
        0 <= i < 0x1_0000_0000,
    ensures
        ({
            let u = double::unit();
            let place = source_place(rate_ratio(from_sr, to_sr), i);
            let exact = (i * from_sr) * u;
            let gap = place.value() * to_sr - exact;
            let slack = exact + u;
            &&& place.finite()
            &&& -slack <= 0x1_0000_0000_0000 * gap <= slack
        }),
{
    let u = double::unit();
    let f = from_sr as int;
    let t = to_sr as int;
    let x = F64::nearest_to(f);
    let y = F64::nearest_to(t);
    let a = F64::nearest_to(i);
    double::lemma_unit();
    lemma_whole_double(f);
    lemma_whole_double(t);
    lemma_whole_double(i);
    assert(x.value() > 0 && 0 <= y.value() * u <= (t * u) * x.value()) by (nonlinear_arith)
        requires
            x.value() == f * u,
            y.value() == t * u,
            f >= 1,
            t >= 1,
            u >= 1,
    ;
    double::lemma_over_close(y, x, t);
    let r = y.over(x);
    assert(y.value() * u == (t * u) * u);
    double::lemma_close_reduced(r.value(), t * u, f, u);
    lemma_ratio_size(r.value(), f, t, u);
    let m = 0x1_0000_0000_0000_0000int;
    assert(-((m * u) * r.value()) <= a.value() * u <= (m * u) * r.value()) by (nonlinear_arith)
        requires
            a.value() == i * u,
            0 <= i < 0x1_0000_0000,
            0x200_0000 * r.value() >= u,
            u > 0,
            m == 0x1_0000_0000_0000_0000,
    ;
    double::lemma_over_close(a, r, m);
    lemma_place(a.over(r).value(), r.value(), f, t, i, u);
}

proof fn lemma_ratio_size(r: int, f: int, t: int, u: int)
    requires
        u >= double::huge(),
        1 <= f < 0x100_0000,
        1 <= t < 0x100_0000,
        double::close(r, t * u, f),
    ensures
        r > 0,
        0x200_0000 * r >= u,
        ({
            let gap = r * f - t * u;
            let slack = 2 * (t * u);
            -slack <= 0x20_0000_0000_0000 * gap <= slack
        }),
{
    let rf = r * f;
    let tu = t * u;
    let m = abs(r) * f;
    assert(u <= tu) by (nonlinear_arith)
        requires
            t >= 1,
            u > 0,
            tu == t * u,
    ;
    assert((m == rf || m == -rf) && m >= 0) by (nonlinear_arith)
        requires
            m == abs(r) * f,
            rf == r * f,
            abs(r) == r || abs(r) == -r,
            abs(r) >= 0,
            f > 0,
    ;
    assert(0x10_0000_0000_0000 * f <= u);
    assert(2 * rf >= u);
    assert(r > 0) by (nonlinear_arith)
        requires
            rf == r * f,
            rf > 0,
            f > 0,
    ;
    assert(rf <= 0x100_0000 * r) by (nonlinear_arith)
        requires
            rf == r * f,
            r > 0,
            f < 0x100_0000,
    ;
}

proof fn lemma_place(p: int, r: int, f: int, t: int, i: int, u: int)
    requires
        u >= double::huge(),
        1 <= f < 0x100_0000,
        1 <= t < 0x100_0000,
        0 <= i < 0x1_0000_0000,
        r > 0,
        0x200_0000 * r >= u,
        ({
            let gap = r * f - t * u;
            let slack = 2 * (t * u);
            -slack <= 0x20_0000_0000_0000 * gap <= slack
        }),
        double::close(p, (i * u) * u, r),
    ensures
        ({
            let exact = (i * f) * u;
            let gap = p * t - exact;
            let slack = exact + u;
            -slack <= 0x1_0000_0000_0000 * gap <= slack
        }),
{
    let k = 0x20_0000_0000_0000int;
    let h = 0x10_0000_0000_0000int;
    let iu = i * u;
    let pr = p * r;
    let m = abs(p) * r;
    assert((m == pr || m == -pr) && m >= 0) by (nonlinear_arith)
        requires
            m == abs(p) * r,
            pr == p * r,
            abs(p) == p || abs(p) == -p,
            abs(p) >= 0,
            r > 0,
    ;
    let iuu = iu * u;
    assert(0 <= iuu) by (nonlinear_arith)
        requires
            iuu == iu * u,
            iu == i * u,
            i >= 0,
            u > 0,
    ;
    let b = 2 * iuu + 2 * h * r;
    assert(-b <= k * (pr - iuu) <= b);
    // times f
    lemma_scale(k * (pr - iuu), b, f);
    let rf = r * f;
    let tu = t * u;
    let x = p * tu;
    assert(pr * f == p * rf) by (nonlinear_arith)
        requires
            pr == p * r,
            rf == r * f,
    ;
    let g = rf - tu;
    let w = 2 * tu;
    let ap = abs(p);
    lemma_scale(k * g, w, ap);
    let prf = p * rf;
    assert(k * (prf - x) == (k * g) * ap || k * (prf - x) == -((k * g) * ap)) by (nonlinear_arith)
        requires
            prf == p * rf,
            x == p * tu,
            g == rf - tu,
            ap == p || ap == -p,
    ;
    let e = i * f;
    let eu = e * u;
    let euu = eu * u;
    assert(iuu * f == euu) by (nonlinear_arith)
        requires
            iuu == iu * u,
            iu == i * u,
            e == i * f,
            eu == e * u,
            euu == eu * u,
    ;
    assert((k * (pr - iuu)) * f == k * (prf - euu)) by (nonlinear_arith)
        requires
            pr * f == prf,
            iuu * f == euu,
    ;
    assert(b * f == 2 * euu + (2 * h) * rf) by (nonlinear_arith)
        requires
            b == 2 * iuu + 2 * h * r,
            iuu * f == euu,
            rf == r * f,
    ;
    let y = ap * tu;
    assert(w * ap == 2 * y) by (nonlinear_arith)
        requires
            w == 2 * tu,
            y == ap * tu,
    ;
    assert(y == x || y == -x) by (nonlinear_arith)
        requires
            y == ap * tu,
            x == p * tu,
            ap == p || ap == -p,
    ;
    assert(tu >= 0 && y >= 0) by (nonlinear_arith)
        requires
            tu == t * u,
            t > 0,
            u > 0,
            y == ap * tu,
            ap >= 0,
    ;
    assert(euu >= 0) by (nonlinear_arith)
        requires
            euu == eu * u,
            eu == e * u,
            e == i * f,
            i >= 0,
            f > 0,
            u > 0,
    ;
    let uu = u * u;
    assert(tu <= 0x100_0000 * u && rf <= 2 * tu) by {
        assert(tu <= 0x100_0000 * u) by (nonlinear_arith)
            requires
                tu == t * u,
                t < 0x100_0000,
                u > 0,
        ;
    }
    assert((4 * h) * (0x100_0000 * u) <= uu) by (nonlinear_arith)
        requires
            h == 0x10_0000_0000_0000,
            uu == u * u,
            u >= 0x10_0000_0000_0000_0000_0000_0000,
    ;
    assert((2 * h) * rf <= uu) by (nonlinear_arith)
        requires
            rf <= 2 * (0x100_0000 * u),
            (4 * h) * (0x100_0000 * u) <= uu,
            h > 0,
    ;
    assert(k * (prf - euu) <= 2 * euu + uu && -(2 * euu + uu) <= k * (prf - euu));
    assert(-(2 * y) <= k * (prf - x) <= 2 * y);
    let n = 0x1_0000_0000_0000int;
    assert(-(euu + uu) <= n * (x - euu) <= euu + uu);
    // the unit goes
    let pt = p * t;
    assert(x == pt * u) by (nonlinear_arith)
        requires
            x == p * tu,
            tu == t * u,
            pt == p * t,
    ;
    let gap = n * (pt - eu);
    let slack = eu + u;
    assert(gap * u == n * (x - euu) && slack * u == euu + uu) by (nonlinear_arith)
        requires
            gap == n * (pt - eu),
            slack == eu + u,
            x == pt * u,
            euu == eu * u,
            uu == u * u,
    ;
    lemma_cancel(gap, slack, u);
    assert((-slack) * u == -(slack * u)) by (nonlinear_arith);
    lemma_cancel(-slack, gap, u);
}

} // verus!

//! Triangular filters on a logarithmic frequency scale.
use vstd::prelude::*;
use crate::float::arith::{abs, less};
use crate::float::close::{
    close, lemma_close_reduced, lemma_minus_close, lemma_over_close, lemma_ratio_close,
    lemma_scale, lemma_small_within, lemma_times_whole_close, lemma_unit, small, unit,
};
use crate::float::exact::lemma_whole_single;
use crate::float::order::{lemma_by_value_single, lemma_zeros};
use crate::float::single::F32;
use crate::signal::{lemma_total_adds_up, total, total_of};
use super::features::{NUM_BANDS, NUM_FFT_BINS, SAMPLE_RATE};

verus! {

/// Bands in an octave.
pub const BANDS_PER_OCTAVE: i32 = 24;

/// The lowest frequency, in hertz.
pub const FMIN: i32 = 30;

/// The highest frequency, in hertz.
pub const FMAX: i32 = 17000;

/// The frequency that the bands are tuned to, in hertz.
pub const FREF: i32 = 440;

/// The bands below and above the reference that the frequency range spans,
/// from the binary logarithms of its ends over the reference.
pub fn band_range(log_low: F32, log_high: F32) -> (r: (i32, i32))
    ensures
        r.0 == log_low.times(F32::nearest_to(BANDS_PER_OCTAVE as int)).floor().integer_part(
            i32::MIN as int,
            i32::MAX as int,
        ),
        r.1 == log_high.times(F32::nearest_to(BANDS_PER_OCTAVE as int)).ceil().integer_part(
            i32::MIN as int,
            i32::MAX as int,
        ),
{
    let per_octave: F32 = F32::of_i32(BANDS_PER_OCTAVE);
    (log_low.times(per_octave).floor().to_i32(), log_high.times(per_octave).ceil().to_i32())
}

/// The octaves from the reference to each band.
pub fn band_octaves(left: i32, right: i32) -> (r: Vec<F32>)
    ensures
        r@ == Seq::new(
            if left < right {
                (right - left) as nat
            } else {
                0
            },
            |k: int|
                F32::nearest_to(left + k).over(F32::nearest_to(BANDS_PER_OCTAVE as int)),
        ),
{
    let mut out: Vec<F32> = Vec::new();
    let per_octave: F32 = F32::of_i32(BANDS_PER_OCTAVE);
    let mut i: i32 = left;
    while i < right
        invariant
            left <= i,
            i <= right || i == left,
            per_octave == F32::nearest_to(BANDS_PER_OCTAVE as int),
            out@ == Seq::new(
                (i - left) as nat,
                |k: int| F32::nearest_to(left + k).over(F32::nearest_to(BANDS_PER_OCTAVE as int)),
            ),
        decreases right - i,
    {
        out.push(F32::of_i32(i).over(per_octave));
        i = i + 1;
    }
    out
}

/// The centre frequency lies in the range.
pub open spec fn audible(f: F32) -> bool {
    f.ge(F32::nearest_to(FMIN as int)) && f.le(F32::nearest_to(FMAX as int))
}

/// The centre frequencies in the range among the first `n` powers of two times
/// the reference.
pub open spec fn centres_before(powers: Seq<F32>, n: int) -> Seq<F32>
    decreases n,
{
    if n <= 0 {
        seq![]
    } else {
        let f = F32::nearest_to(FREF as int).times(powers[n - 1]);
        if audible(f) {
            centres_before(powers, n - 1).push(f)
        } else {
            centres_before(powers, n - 1)
        }
    }
}

/// The centre frequencies in the range, from two to the power of the octaves
/// of each band.
pub fn log_frequencies(powers: &[F32]) -> (r: Vec<F32>)
    ensures
        r@ == centres_before(powers@, powers@.len() as int),
{
    let mut out: Vec<F32> = Vec::new();
    let fmin: F32 = F32::of_i32(FMIN);
    let fmax: F32 = F32::of_i32(FMAX);
    let mut i: usize = 0;
    while i < powers.len()
        invariant
            i <= powers@.len(),
            fmin == F32::nearest_to(FMIN as int),
            fmax == F32::nearest_to(FMAX as int),
            out@ == centres_before(powers@, i as int),
        decreases powers@.len() - i,
    {
        let f: F32 = F32::of_i32(FREF).times(powers[i]);
        if f.ge(fmin) && f.le(fmax) {
            out.push(f);
        }
        i = i + 1;
    }
    out
}

/// The frequency of bin `i` of `n`.
pub open spec fn bin_frequency(n: int, sample_rate: u32, i: int) -> F32 {
    F32::nearest_to(i).times(F32::nearest_to(sample_rate as int)).over(F32::nearest_to(n * 2))
}

/// The frequencies of the bins below half the sample rate.
pub fn fft_bin_frequencies(num_fft_bins: usize, sample_rate: u32) -> (r: Vec<F32>)
    requires
        num_fft_bins * 2 <= usize::MAX,
    ensures
        r@ == Seq::new(
            num_fft_bins as nat,
            |i: int| bin_frequency(num_fft_bins as int, sample_rate, i),
        ),
{
    let n: F32 = F32::of_usize(num_fft_bins * 2);
    let rate: F32 = F32::of_u64(sample_rate as u64);
    let mut out: Vec<F32> = Vec::new();
    let mut i: usize = 0;
    while i < num_fft_bins
        invariant
            i <= num_fft_bins,
            n == F32::nearest_to(num_fft_bins * 2),
            rate == F32::nearest_to(sample_rate as int),
            out@ == Seq::new(
                i as nat,
                |k: int| bin_frequency(num_fft_bins as int, sample_rate, k),
            ),
        decreases num_fft_bins - i,
    {
        out.push(F32::of_usize(i).times(rate).over(n));
        i = i + 1;
    }
    out
}

/// The first bin from `i` on that is not below `f`.
pub open spec fn first_not_below(bins: Seq<F32>, f: F32, i: int) -> int
    decreases bins.len() - i,
{
    if i < bins.len() && bins[i].lt(f) {
        first_not_below(bins, f, i + 1)
    } else {
        i
    }
}

/// The bin closest to `f`, the upper one of two as close.
pub open spec fn closest_bin(bins: Seq<F32>, f: F32) -> int {
    let above = first_not_below(bins, f, 0);
    let i = if above < 1 {
        1
    } else if above > bins.len() - 1 {
        bins.len() - 1
    } else {
        above
    };
    if f.minus(bins[i - 1]).lt(bins[i].minus(f)) {
        i - 1
    } else {
        i
    }
}

/// The closest bins of the first `n` frequencies; of equal neighbours one.
pub open spec fn closest_bins(freqs: Seq<F32>, bins: Seq<F32>, n: int) -> Seq<usize>
    decreases n,
{
    if n <= 0 {
        seq![]
    } else {
        let before = closest_bins(freqs, bins, n - 1);
        let bin = closest_bin(bins, freqs[n - 1]) as usize;
        if before.len() > 0 && before.last() == bin {
            before
        } else {
            before.push(bin)
        }
    }
}

/// The bins closest to the frequencies, without repetition. The bins ascend.
pub fn frequencies_to_unique_bins(frequencies: &[F32], bin_frequencies: &[F32]) -> (r: Vec<usize>)
    requires
        bin_frequencies@.len() >= 2,
    ensures
        r@ == closest_bins(frequencies@, bin_frequencies@, frequencies@.len() as int),
        forall|k: int| 0 <= k < r@.len() ==> #[trigger] r@[k] < bin_frequencies@.len(),
{
    let count: usize = bin_frequencies.len();
    let mut out: Vec<usize> = Vec::new();
    let mut i: usize = 0;
    while i < frequencies.len()
        invariant
            i <= frequencies@.len(),
            2 <= count == bin_frequencies@.len(),
            out@ == closest_bins(frequencies@, bin_frequencies@, i as int),
            forall|k: int| 0 <= k < out@.len() ==> #[trigger] out@[k] < count,
        decreases frequencies@.len() - i,
    {
        let f: F32 = frequencies[i];
        let mut above: usize = 0;
        while above < count && bin_frequencies[above].lt(f)
            invariant
                above <= count == bin_frequencies@.len(),
                first_not_below(bin_frequencies@, f, 0) == first_not_below(
                    bin_frequencies@,
                    f,
                    above as int,
                ),
            decreases count - above,
        {
            above = above + 1;
        }
        let mut bin: usize = if above < 1 {
            1
        } else if above > count - 1 {
            count - 1
        } else {
            above
        };
        let left: F32 = bin_frequencies[bin - 1];
        let right: F32 = bin_frequencies[bin];
        if f.minus(left).lt(right.minus(f)) {
            bin = bin - 1;
        }
        let n: usize = out.len();
        if n == 0 || out[n - 1] != bin {
            out.push(bin);
        }
        i = i + 1;
    }
    out
}

/// Point `i` of a triangle that rises over `c` bins and falls to the end of
/// `s` bins.
pub open spec fn triangle_at(c: int, s: int, i: int) -> F32 {
    if i < c {
        F32::nearest_to(i).over(F32::nearest_to(c))
    } else {
        F32::nearest_to(1).minus(F32::nearest_to(i - c).over(F32::nearest_to(s - c)))
    }
}

/// A triangle over bins, rising from `start` to `center` and falling towards
/// `stop`.
pub open spec fn triangle(start: int, center: int, stop: int) -> Seq<F32> {
    Seq::new((stop - start) as nat, |i: int| triangle_at(center - start, stop - start, i))
}

/// The values, each divided by their sum where that is positive.
pub open spec fn normalised(data: Seq<F32>) -> Seq<F32> {
    let sum = total(data, data.len() as int);
    if sum.gt(F32::zero()) {
        data.map_values(|v: F32| v.over(sum))
    } else {
        data
    }
}

/// The filter of a band.
pub open spec fn band_filter(start: int, center: int, stop: int, norm: bool) -> Seq<F32> {
    if norm {
        normalised(triangle(start, center, stop))
    } else {
        triangle(start, center, stop)
    }
}

/// A triangular filter, and the bin that it begins with.
pub fn triangular_filter(start: usize, center: usize, stop: usize, norm: bool) -> (r: (
    usize,
    Vec<F32>,
))
    requires
        start <= center <= stop,
    ensures
        r.0 == start,
        r.1@ == band_filter(start as int, center as int, stop as int, norm),
        r.1@.len() == stop - start,
{
    let c: usize = center - start;
    let s: usize = stop - start;
    let fall: usize = s - c;
    let ghost all = triangle(start as int, center as int, stop as int);
    let mut data: Vec<F32> = Vec::new();
    let mut i: usize = 0;
    while i < s
        invariant
            i <= s,
            c == center - start,
            s == stop - start,
            fall == s - c,
            all == triangle(start as int, center as int, stop as int),
            data@ == all.take(i as int),
        decreases s - i,
    {
        if i < c {
            data.push(F32::of_usize(i).over(F32::of_usize(c)));
        } else {
            data.push(F32::whole(1).minus(F32::of_usize(i - c).over(F32::of_usize(fall))));
        }
        assert(all.take(i + 1) =~= all.take(i as int).push(data@.last()));
        i = i + 1;
    }
    assert(data@ =~= all);
    if !norm {
        return (start, data);
    }
    let sum: F32 = total_of(data.as_slice());
    if !sum.gt(F32::zero()) {
        return (start, data);
    }
    let mut out: Vec<F32> = Vec::new();
    let mut k: usize = 0;
    while k < data.len()
        invariant
            k <= data@.len(),
            out@ == data@.map_values(|v: F32| v.over(sum)).take(k as int),
        decreases data@.len() - k,
    {
        out.push(data[k].over(sum));
        assert(data@.map_values(|v: F32| v.over(sum)).take(k + 1) =~= data@.map_values(
            |v: F32| v.over(sum),
        ).take(k as int).push(out@.last()));
        k = k + 1;
    }
    assert(out@ =~= normalised(all));
    (start, out)
}

/// Three neighbouring bins make a band.
pub open spec fn makes_band(bins: Seq<usize>, i: int) -> bool {
    bins[i] <= bins[i + 1] < bins[i + 2]
}

/// The places in `bins` of the bands among the first `n` triples.
pub open spec fn bands_before(bins: Seq<usize>, n: int) -> Seq<int>
    decreases n,
{
    if n <= 0 {
        seq![]
    } else if makes_band(bins, n - 1) {
        bands_before(bins, n - 1).push(n - 1)
    } else {
        bands_before(bins, n - 1)
    }
}

/// The places in `bins` of all bands.
pub open spec fn bands(bins: Seq<usize>) -> Seq<int> {
    bands_before(bins, bins.len() - 2)
}

/// The weight of bin `k` in the band of the triple at `i`; none is negative.
pub open spec fn band_weight(bins: Seq<usize>, i: int, k: int) -> F32 {
    let start = bins[i] as int;
    let w = band_filter(start, bins[i + 1] as int, bins[i + 2] as int, true)[k - start];
    if start <= k < bins[i + 2] && w.gt(F32::zero()) {
        w
    } else {
        F32::zero()
    }
}

/// The bins of the centre frequencies.
pub open spec fn centre_bins(powers: Seq<F32>) -> Seq<usize> {
    let centres = centres_before(powers, powers.len() as int);
    closest_bins(
        centres,
        Seq::new(
            NUM_FFT_BINS as nat,
            |i: int| bin_frequency(NUM_FFT_BINS as int, SAMPLE_RATE, i),
        ),
        centres.len() as int,
    )
}

/// The weight of every bin in every band, bin by bin.
pub open spec fn bank_weights(bins: Seq<usize>) -> Seq<F32> {
    Seq::new(
        (NUM_FFT_BINS * NUM_BANDS) as nat,
        |j: int| band_weight(bins, bands(bins)[j % NUM_BANDS as int], j / NUM_BANDS as int),
    )
}

/// The places of the bands.
fn find_bands(bins: &Vec<usize>) -> (r: Vec<usize>)
    ensures
        r@.map_values(|i: usize| i as int) == bands(bins@),
        forall|b: int|
            0 <= b < r@.len() ==> #[trigger] r@[b] + 2 < bins@.len() && makes_band(
                bins@,
                r@[b] as int,
            ),
{
    let mut out: Vec<usize> = Vec::new();
    let len: usize = bins.len();
    let count: usize = if len < 2 {
        0
    } else {
        len - 2
    };
    let mut i: usize = 0;
    assert(out@.map_values(|k: usize| k as int) =~= bands_before(bins@, 0));
    while i < count
        invariant
            i <= count,
            len == bins@.len(),
            count == if len < 2 {
                0
            } else {
                len - 2
            },
            out@.map_values(|k: usize| k as int) == bands_before(bins@, i as int),
            forall|b: int|
                0 <= b < out@.len() ==> #[trigger] out@[b] + 2 < bins@.len() && makes_band(
                    bins@,
                    out@[b] as int,
                ),
        decreases count - i,
    {
        if bins[i] <= bins[i + 1] && bins[i + 1] < bins[i + 2] {
            let ghost before = out@.map_values(|k: usize| k as int);
            out.push(i);
            assert(out@.map_values(|k: usize| k as int) =~= before.push(i as int));
        }
        i = i + 1;
    }
    out
}

/// The filter bank, from two to the power of the octaves of each band, if it
/// has the right number of bands.
pub fn build_log_filterbank(powers: &[F32]) -> (r: Option<Vec<F32>>)
    ensures
        match r {
            Some(fb) => bands(centre_bins(powers@)).len() == NUM_BANDS && fb@ == bank_weights(
                centre_bins(powers@),
            ),
            None => bands(centre_bins(powers@)).len() != NUM_BANDS,
        },
{
    let bin_freqs: Vec<F32> = fft_bin_frequencies(NUM_FFT_BINS, SAMPLE_RATE);
    let centres: Vec<F32> = log_frequencies(powers);
    let bins: Vec<usize> = frequencies_to_unique_bins(centres.as_slice(), bin_freqs.as_slice());
    let places: Vec<usize> = find_bands(&bins);
    proof {
        assert(bins@ == centre_bins(powers@));
        assert(places@.map_values(|i: usize| i as int).len() == places@.len());
    }
    if places.len() != NUM_BANDS {
        return None;
    }
    let len: usize = bins.len();
    let mut filters: Vec<(usize, Vec<F32>)> = Vec::new();
    let mut b: usize = 0;
    while b < NUM_BANDS
        invariant
            b <= NUM_BANDS == places@.len(),
            len == bins@.len(),
            forall|c: int|
                0 <= c < places@.len() ==> #[trigger] places@[c] + 2 < bins@.len() && makes_band(
                    bins@,
                    places@[c] as int,
                ),
            filters@.len() == b,
            forall|c: int|
                0 <= c < b ==> (#[trigger] filters@[c]).0 == bins@[places@[c] as int]
                    && filters@[c].1@ == band_filter(
                    bins@[places@[c] as int] as int,
                    bins@[places@[c] + 1] as int,
                    bins@[places@[c] + 2] as int,
                    true,
                ) && filters@[c].1@.len() == bins@[places@[c] + 2] - bins@[places@[c] as int],
        decreases NUM_BANDS - b,
    {
        let i: usize = places[b];
        assert(places@[b as int] + 2 < bins@.len() && makes_band(bins@, places@[b as int] as int));
        filters.push(triangular_filter(bins[i], bins[i + 1], bins[i + 2], true));
        b = b + 1;
    }
    let ghost all = bank_weights(bins@);
    let mut fb: Vec<F32> = Vec::new();
    let mut k: usize = 0;
    while k < NUM_FFT_BINS
        invariant
            k <= NUM_FFT_BINS,
            places@.len() == NUM_BANDS,
            places@.map_values(|i: usize| i as int) == bands(bins@),
            all == bank_weights(bins@),
            filters@.len() == NUM_BANDS,
            forall|c: int|
                0 <= c < NUM_BANDS ==> (#[trigger] filters@[c]).0 == bins@[places@[c] as int]
                    && filters@[c].1@ == band_filter(
                    bins@[places@[c] as int] as int,
                    bins@[places@[c] + 1] as int,
                    bins@[places@[c] + 2] as int,
                    true,
                ) && filters@[c].1@.len() == bins@[places@[c] + 2] - bins@[places@[c] as int],
            fb@ == all.take(k * NUM_BANDS),
        decreases NUM_FFT_BINS - k,
    {
        let mut band: usize = 0;
        while band < NUM_BANDS
            invariant
                band <= NUM_BANDS,
                k < NUM_FFT_BINS,
                places@.len() == NUM_BANDS,
                places@.map_values(|i: usize| i as int) == bands(bins@),
                all == bank_weights(bins@),
                filters@.len() == NUM_BANDS,
                forall|c: int|
                    0 <= c < NUM_BANDS ==> (#[trigger] filters@[c]).0 == bins@[places@[c] as int]
                        && filters@[c].1@ == band_filter(
                        bins@[places@[c] as int] as int,
                        bins@[places@[c] + 1] as int,
                        bins@[places@[c] + 2] as int,
                        true,
                    ) && filters@[c].1@.len() == bins@[places@[c] + 2] - bins@[places@[c] as int],
                fb@ == all.take(k * NUM_BANDS + band),
            decreases NUM_BANDS - band,
        {
            let start: usize = filters[band].0;
            let len: usize = filters[band].1.len();
            let mut w: F32 = F32::zero();
            if start <= k && k - start < len {
                let v: F32 = filters[band].1[k - start];
                if v.gt(w) {
                    w = v;
                }
            }
            proof {
                let j = k * NUM_BANDS + band;
                assert(j % NUM_BANDS as int == band && j / NUM_BANDS as int == k);
                assert(bands(bins@)[band as int] == places@[band as int]);
                assert(all[j] == w);
                assert(all.take(j + 1) =~= all.take(j).push(w));
            }
            fb.push(w);
            band = band + 1;
        }
        k = k + 1;
    }
    assert(fb@ =~= all);
    Some(fb)
}

/// A triangular filter rises in a line to one at its centre and falls in a line to
/// zero at its end, but for rounding.
pub proof fn lemma_triangle_shape(c: int, s: int, i: int)
    requires
        0 <= c < s < 0x10_0000,
        0 <= i < s,
    ensures
        triangle_at(c, s, i).finite(),
        i < c ==> close(triangle_at(c, s, i).value(), i * unit(), c),
        i >= c ==> ({
            let gap = triangle_at(c, s, i).value() * (s - c) - (s - i) * unit();
            let slack = (s - c) * unit();
            -slack <= 0x20_0000 * gap <= slack
        }),
{
    let u = unit();
    lemma_unit();
    if i < c {
        lemma_ratio_close(i as i32, c as i32);
    } else {
        let w = s - c;
        let j = i - c;
        lemma_ratio_close(j as i32, w as i32);
        let r = F32::ratio(j as i32, w as i32);
        lemma_whole_single(1);
        lemma_minus_close(F32::nearest_to(1), r, 1, 2 * j + 1);
        lemma_falls(triangle_at(c, s, i).value(), r.value(), j, w, u);
        assert((s - i) * u == (w - j) * u);
    }
}

proof fn lemma_falls(v: int, r: int, j: int, w: int, u: int)
    requires
        u >= 0x1_0000_0000_0000,
        0 <= j < w < 0x10_0000,
        r >= 0,
        close(r, j * u, w),
        close(v, u - r, 1),
    ensures
        ({
            let gap = v * w - (w - j) * u;
            let slack = w * u;
            -slack <= 0x20_0000 * gap <= slack
        }),
{
    let k = 0x100_0000int;
    let h = 0x80_0000int;
    let rw = r * w;
    let ju = j * u;
    let wu = w * u;
    let vw = v * w;
    assert((w - j) * u == wu - ju) by (nonlinear_arith)
        requires
            wu == w * u,
            ju == j * u,
    ;
    assert(0 <= ju <= wu && u <= wu) by (nonlinear_arith)
        requires
            0 <= j < w,
            wu == w * u,
            ju == j * u,
            u > 0,
    ;
    assert(rw >= 0) by (nonlinear_arith)
        requires
            rw == r * w,
            r >= 0,
            w > 0,
    ;
    assert(abs(r) * w == rw);
    assert(rw <= 2 * wu);
    let g = v - (u - r);
    let e = abs(v) + h;
    let m = abs(v) * w;
    assert((m == vw || m == -vw) && m >= 0) by (nonlinear_arith)
        requires
            m == abs(v) * w,
            vw == v * w,
            abs(v) == v || abs(v) == -v,
            abs(v) >= 0,
            w > 0,
    ;
    lemma_scale(k * g, e, w);
    assert(e * w == m + h * w) by (nonlinear_arith)
        requires
            e == abs(v) + h,
            m == abs(v) * w,
    ;
    assert((k * g) * w == k * (vw - wu + rw)) by (nonlinear_arith)
        requires
            g == v - (u - r),
            vw == v * w,
            wu == w * u,
            rw == r * w,
    ;
    assert(h * w <= u);
}

proof fn lemma_not_below(bins: Seq<F32>, f: F32, i: int)
    requires
        0 <= i <= bins.len(),
    ensures
        ({
            let r = first_not_below(bins, f, i);
            &&& i <= r <= bins.len()
            &&& forall|k: int| i <= k < r ==> (#[trigger] bins[k]).less(f)
            &&& r < bins.len() ==> !bins[r].less(f)
        }),
    decreases bins.len() - i,
{
    if i < bins.len() && bins[i].lt(f) {
        lemma_not_below(bins, f, i + 1);
    }
}

/// The bin for a frequency is the closest one: of bins in ascending order, none lies
/// closer to it, but for rounding.
pub proof fn lemma_bin_is_closest(bins: Seq<F32>, f: F32, k: int)
    requires
        bins.len() >= 2,
        small(f, 0x10_0000),
        forall|i: int| 0 <= i < bins.len() ==> small(#[trigger] bins[i], 0x10_0000),
        forall|i: int, j: int|
            0 <= i < j < bins.len() ==> (#[trigger] bins[i]).value() < (#[trigger] bins[j]).value(),
        0 <= k < bins.len(),
    ensures
        ({
            let r = closest_bin(bins, f);
            let here = abs(f.value() - bins[r].value());
            let there = abs(f.value() - bins[k].value());
            &&& 0 <= r < bins.len()
            &&& 0x20_0000 * (here - there) <= here + there + 0x800_0000
        }),
{
    let above = first_not_below(bins, f, 0);
    lemma_unit();
    lemma_not_below(bins, f, 0);
    let i = if above < 1 {
        1
    } else if above > bins.len() - 1 {
        bins.len() - 1
    } else {
        above
    };
    let a = bins[i - 1];
    let b = bins[i];
    assert(small(a, 0x10_0000) && small(b, 0x10_0000) && small(bins[k], 0x10_0000));
    assert(a.value() < b.value());
    lemma_by_value_single(a, f);
    lemma_by_value_single(b, f);
    lemma_minus_close(f, a, 0x10_0000, 0x10_0000);
    lemma_minus_close(b, f, 0x10_0000, 0x10_0000);
    lemma_by_value_single(f.minus(a), b.minus(f));
    if above < bins.len() {
        assert(small(bins[above], 0x10_0000));
        lemma_by_value_single(bins[above], f);
    }
    if above >= 1 {
        assert(bins[above - 1].less(f));
        assert(small(bins[above - 1], 0x10_0000));
        lemma_by_value_single(bins[above - 1], f);
    }
    if k < i - 1 {
        assert(bins[k].value() < a.value());
    }
    if k > i {
        assert(b.value() < bins[k].value());
    }
}

/// The frequency of a bin is its share of the sample rate, but for rounding: bin `i`
/// of `n` lies at `i` times the sample rate over twice `n`.
pub proof fn lemma_bin_frequency(n: int, sample_rate: u32, i: int)
    requires
        0 < n < 0x10_0000,
        sample_rate < 0x100_0000,
        0 <= i < 0x10_0000,
    ensures
        bin_frequency(n, sample_rate, i).finite(),
        ({
            let exact = (i * sample_rate) * unit();
            let gap = bin_frequency(n, sample_rate, i).value() * (2 * n) - exact;
            let slack = exact + unit();
            -slack <= 0x40_0000 * gap <= slack
        }),
{
    let u = unit();
    let sr = sample_rate as int;
    let a = F32::nearest_to(i);
    lemma_unit();
    lemma_whole_single(i);
    lemma_whole_single(n * 2);
    assert(0 <= i * u) by (nonlinear_arith)
        requires
            i >= 0,
            u > 0,
    ;
    assert(0 <= i * sr <= 0x10_0000 * 0x100_0000) by (nonlinear_arith)
        requires
            0 <= i < 0x10_0000,
            0 <= sr < 0x100_0000,
    ;
    lemma_times_whole_close(a, sr, i);
    let p = a.times(F32::nearest_to(sr));
    let e = i * sr;
    assert(a.value() * sr == e * u) by (nonlinear_arith)
        requires
            a.value() == i * u,
            e == i * sr,
    ;
    let d = F32::nearest_to(n * 2);
    let m = 2 * e + 1;
    assert(d.value() >= u) by (nonlinear_arith)
        requires
            d.value() == (n * 2) * u,
            n >= 1,
            u > 0,
    ;
    assert(-((m * u) * d.value()) <= p.value() * u <= (m * u) * d.value()) by (nonlinear_arith)
        requires
            -(m * u) <= p.value() <= m * u,
            d.value() >= u,
            u > 0,
            m > 0,
    ;
    lemma_over_close(p, d, m);
    let q = p.over(d).value();
    lemma_close_reduced(q, p.value(), n * 2, u);
    let x = e * u;
    assert(x >= 0) by (nonlinear_arith)
        requires
            x == e * u,
            e >= 0,
            u > 0,
    ;
    let qd = q * (n * 2);
    let md = abs(q) * (n * 2);
    assert(md == qd || md == -qd) by (nonlinear_arith)
        requires
            md == abs(q) * (n * 2),
            qd == q * (n * 2),
            abs(q) == q || abs(q) == -q,
    ;
    assert(q * (2 * n) == qd);
}

/// Every centre lies between 30 and 17000 hertz.
pub proof fn lemma_centres_can_be_heard(powers: Seq<F32>, n: int, k: int)
    requires
        0 <= k < centres_before(powers, n).len(),
    ensures
        30 * unit() <= centres_before(powers, n)[k].value() <= 17000 * unit(),
    decreases n,
{
    let f = F32::nearest_to(FREF as int).times(powers[n - 1]);
    if n > 0 {
        if audible(f) && k == centres_before(powers, n).len() - 1 {
            lemma_whole_single(30);
            lemma_whole_single(17000);
            reveal(F32::less);
            reveal(less);
            reveal(F32::not_a_number);
        } else {
            lemma_centres_can_be_heard(powers, n - 1, k);
        }
    }
}

/// A filter that is normalised gives each of its weights its share of their sum.
pub proof fn lemma_normalised_shares(data: Seq<F32>, i: int)
    requires
        0 <= i < data.len() <= 0x10_0000,
        forall|j: int| 0 <= j < data.len() ==> small(#[trigger] data[j], 0x100),
        total(data, data.len() as int).value() >= unit(),
    ensures
        normalised(data).len() == data.len(),
        normalised(data)[i].finite(),
        close(
            normalised(data)[i].value(),
            data[i].value() * unit(),
            total(data, data.len() as int).value(),
        ),
{
    let u = unit();
    let n = data.len() as int;
    let t = total(data, n);
    lemma_unit();
    lemma_zeros();
    assert forall|j: int| 0 <= j < n implies small(#[trigger] data[j], 0x10_0000) by {
        lemma_small_within(data[j], 0x100, 0x10_0000);
    }
    lemma_total_adds_up(data, n);
    lemma_by_value_single(F32::zero(), t);
    let x = data[i];
    assert(small(x, 0x100));
    let m = 0x100int;
    assert(-((m * u) * t.value()) <= x.value() * u <= (m * u) * t.value()) by (nonlinear_arith)
        requires
            -(m * u) <= x.value() <= m * u,
            t.value() >= u,
            u > 0,
            m > 0,
    ;
    lemma_over_close(x, t, m);
}

} // verus!

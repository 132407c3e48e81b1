//! The tempo of a track from the onsets in its spectrum.
use vstd::prelude::*;
use crate::beatnet::decode::{snap_tempo, snapped};
use crate::float::arith::{abs, lemma_magnitude_order, truncated};
use crate::float::close::{
    close, lemma_close_reduced, lemma_minus_close, lemma_over_close, lemma_plus_close,
    lemma_ratio_close, lemma_round_of, lemma_times_close, lemma_unit, small, unit,
};
use crate::float::exact::{lemma_formats, lemma_whole_single, lemma_whole_times_single};
use crate::float::order::{
    lemma_by_value_single, lemma_least_single, lemma_order_single, lemma_plus_sign_single,
    lemma_value_bounds, lemma_zeros,
};
use crate::float::single::{single_format, F32};
use crate::signal::{last_largest, last_largest_of, lemma_last_largest};

verus! {

/// Samples in a window.
pub const WINDOW_SIZE: usize = 2048;

/// Samples from window to window.
pub const HOP_SIZE: usize = 512;

/// Bins up to half the sample rate.
pub const NUM_BINS: usize = WINDOW_SIZE / 2 + 1;

/// A tempo in beats per minute, and the time of the first beat in seconds.
#[derive(Clone, Copy, Debug)]
pub struct BpmResult {
    pub bpm: F32,
    pub beat_offset: F32,
}

impl Default for BpmResult {
    /// No tempo.
    fn default() -> (r: BpmResult)
        ensures
            r == (BpmResult { bpm: F32::zero(), beat_offset: F32::zero() }),
    {
        BpmResult { bpm: F32::zero(), beat_offset: F32::zero() }
    }
}

/// The windows in `n` samples; one begins every hop, and the last sample of
/// each has another behind it.
pub open spec fn onset_frames(n: int) -> int {
    if n <= WINDOW_SIZE {
        0
    } else {
        (n - WINDOW_SIZE + HOP_SIZE - 1) / HOP_SIZE as int
    }
}

/// How many windows the samples have.
pub fn onset_frame_count(samples: &[F32]) -> (n: usize)
    ensures
        n == onset_frames(samples@.len() as int),
        forall|k: int| 0 <= k < n ==> #[trigger] (k * HOP_SIZE) + WINDOW_SIZE < samples@.len(),
{
    let len: usize = samples.len();
    if len <= WINDOW_SIZE {
        return 0;
    }
    let span: usize = len - WINDOW_SIZE;
    span / HOP_SIZE + if span % HOP_SIZE > 0 {
        1
    } else {
        0
    }
}

/// One more than each magnitude: the numbers whose logarithms the onsets are
/// taken from.
pub fn compressed(magnitudes: &[F32]) -> (r: Vec<F32>)
    ensures
        r@ == magnitudes@.map_values(|m: F32| F32::nearest_to(1).plus(m)),
{
    let ghost all = magnitudes@.map_values(|m: F32| F32::nearest_to(1).plus(m));
    let mut out: Vec<F32> = Vec::new();
    let mut i: usize = 0;
    while i < magnitudes.len()
        invariant
            i <= magnitudes@.len(),
            all == magnitudes@.map_values(|m: F32| F32::nearest_to(1).plus(m)),
            out@ == all.take(i as int),
        decreases magnitudes@.len() - i,
    {
        out.push(F32::whole(1).plus(magnitudes[i]));
        assert(all.take(i + 1) =~= all.take(i as int).push(out@.last()));
        i = i + 1;
    }
    assert(out@ =~= all);
    out
}

/// The sum of what the first `n` bins have grown.
pub open spec fn flux(before: Seq<F32>, now: Seq<F32>, n: int) -> F32
    decreases n,
{
    if n <= 0 {
        F32::zero()
    } else {
        let d = now[n - 1].minus(before[n - 1]);
        if d.gt(F32::zero()) {
            flux(before, now, n - 1).plus(d)
        } else {
            flux(before, now, n - 1)
        }
    }
}

/// The spectrum before spectrum `k`: silence before the first.
pub open spec fn spectrum_before(spectra: Seq<Vec<F32>>, k: int) -> Seq<F32> {
    if k <= 0 {
        Seq::new(NUM_BINS as nat, |i: int| F32::zero())
    } else {
        spectra[k - 1]@
    }
}

/// How much each spectrum has grown from the one before.
pub open spec fn onsets(spectra: Seq<Vec<F32>>) -> Seq<F32> {
    Seq::new(
        spectra.len(),
        |k: int| flux(spectrum_before(spectra, k), spectra[k]@, NUM_BINS as int),
    )
}

/// How much the logarithmic spectra grow from window to window.
pub fn calculate_onset_envelope(spectra: &Vec<Vec<F32>>) -> (r: Vec<F32>)
    requires
        forall|k: int| 0 <= k < spectra@.len() ==> (#[trigger] spectra@[k])@.len() >= NUM_BINS,
    ensures
        r@ == onsets(spectra@),
{
    let mut out: Vec<F32> = Vec::new();
    let mut k: usize = 0;
    while k < spectra.len()
        invariant
            k <= spectra@.len(),
            forall|j: int|
                0 <= j < spectra@.len() ==> (#[trigger] spectra@[j])@.len() >= NUM_BINS,
            out@ == onsets(spectra@).take(k as int),
        decreases spectra@.len() - k,
    {
        let ghost before = spectrum_before(spectra@, k as int);
        let mut sum: F32 = F32::zero();
        let mut i: usize = 0;
        while i < NUM_BINS
            invariant
                i <= NUM_BINS,
                k < spectra@.len(),
                before == spectrum_before(spectra@, k as int),
                forall|j: int|
                    0 <= j < spectra@.len() ==> (#[trigger] spectra@[j])@.len() >= NUM_BINS,
                sum == flux(before, spectra@[k as int]@, i as int),
            decreases NUM_BINS - i,
        {
            assert(spectra@[k as int]@.len() >= NUM_BINS);
            let earlier: F32 = if k == 0 {
                F32::zero()
            } else {
                assert(spectra@[k - 1]@.len() >= NUM_BINS);
                spectra[k - 1][i]
            };
            let d: F32 = spectra[k][i].minus(earlier);
            if d.gt(F32::zero()) {
                sum = sum.plus(d);
            }
            i = i + 1;
        }
        out.push(sum);
        assert(onsets(spectra@).take(k + 1) =~= onsets(spectra@).take(k as int).push(out@.last()));
        k = k + 1;
    }
    assert(out@ =~= onsets(spectra@));
    out
}

/// The first of `p`, `2 p`, `4 p`, ... that reaches `m`.
pub open spec fn doubled_to(m: int, p: int) -> int
    decreases
            if p < m {
                m - p
            } else {
                0
            },
{
    if p >= m || p <= 0 {
        p
    } else {
        doubled_to(m, 2 * p)
    }
}

/// The smallest power of two that twice the length fits in.
pub fn padded_len(n: usize) -> (r: usize)
    requires
        n <= usize::MAX / 4,
    ensures
        r == doubled_to(2 * n, 1),
        1 <= r,
        2 * n <= r,
{
    let mut p: usize = 1;
    while p < 2 * n
        invariant
            n <= usize::MAX / 4,
            1 <= p,
            doubled_to(2 * n, 1) == doubled_to(2 * n, p as int),
        decreases
                if p < 2 * n {
                    2 * n - p
                } else {
                    0
                },
    {
        p = p * 2;
    }
    p
}

/// The squared magnitudes of complex numbers.
pub fn power_spectrum(re: &[F32], im: &[F32]) -> (r: Vec<F32>)
    requires
        re@.len() == im@.len(),
    ensures
        r@ == Seq::new(
            re@.len(),
            |k: int| re@[k].times(re@[k]).plus(im@[k].times(im@[k])),
        ),
{
    let mut out: Vec<F32> = Vec::new();
    let mut k: usize = 0;
    while k < re.len()
        invariant
            k <= re@.len() == im@.len(),
            out@ == Seq::new(
                k as nat,
                |j: int| re@[j].times(re@[j]).plus(im@[j].times(im@[j])),
            ),
        decreases re@.len() - k,
    {
        out.push(re[k].times(re[k]).plus(im[k].times(im[k])));
        k = k + 1;
    }
    out
}

/// Onset windows per second.
pub open spec fn onset_rate(sample_rate: u32, hop_size: usize) -> F32 {
    F32::nearest_to(sample_rate as int).over(F32::nearest_to(hop_size as int))
}

/// The windows between two beats at the given tempo, rounded down.
pub open spec fn lag_of(rate: F32, bpm: int) -> int {
    rate.times(F32::nearest_to(60)).over(F32::nearest_to(bpm)).integer_part(0, usize::MAX as int)
}

/// The autocorrelation at `lag`, per overlapping window.
pub open spec fn normalised_at(corr: Seq<F32>, scale: F32, n: int, lag: int) -> F32 {
    let overlap = F32::nearest_to(n - lag);
    if overlap.gt(F32::zero()) {
        corr[lag].times(scale).over(overlap)
    } else {
        F32::zero()
    }
}

/// The lag with the highest autocorrelation above zero, the first of equals,
/// from `lo` up to and without `hi`; zero if there is none.
pub open spec fn strongest_before(corr: Seq<F32>, scale: F32, n: int, lo: int, hi: int) -> (
    int,
    F32,
)
    decreases hi - lo,
{
    if hi <= lo {
        (0, F32::zero())
    } else {
        let before = strongest_before(corr, scale, n, lo, hi - 1);
        let c = normalised_at(corr, scale, n, hi - 1);
        if c.gt(before.1) {
            (hi - 1, c)
        } else {
            before
        }
    }
}

/// The autocorrelation at `lag`, minus infinity where there is none.
pub open spec fn correlation_at(corr: Seq<F32>, scale: F32, n: int, lag: int) -> F32 {
    let overlap = F32::nearest_to(n - lag);
    if lag <= 0 || lag >= corr.len() || lag > n / 2 || overlap.le(F32::zero()) {
        F32::minus_infinity()
    } else {
        corr[lag].times(scale).over(overlap)
    }
}

fn lag_correlation(corr: &[F32], scale: F32, n: usize, lag: usize) -> (r: F32)
    ensures
        r == correlation_at(corr@, scale, n as int, lag as int),
{
    if lag == 0 || lag >= corr.len() || lag > n / 2 {
        return F32::minus_infinity();
    }
    let overlap: F32 = F32::of_usize(n - lag);
    if overlap.le(F32::zero()) {
        return F32::minus_infinity();
    }
    corr[lag].times(scale).over(overlap)
}

/// The lag `num / den` times as long.
pub open spec fn relative(base: int, num: int, den: int) -> int {
    F32::nearest_to(base).times(F32::nearest_to(num)).over(
        F32::nearest_to(den),
    ).round().integer_part(0, usize::MAX as int)
}

/// `lag` is `base`, or half, twice, two thirds or three halves of it.
pub open spec fn is_relative(base: int, lag: int) -> bool {
    ||| lag == relative(base, 1, 1)
    ||| lag == relative(base, 1, 2)
    ||| lag == relative(base, 2, 1)
    ||| lag == relative(base, 2, 3)
    ||| lag == relative(base, 3, 2)
}

/// What a lag is chosen from, and the onset windows per second.
pub struct LagSearch<'a> {
    pub corr: &'a [F32],
    pub scale: F32,
    pub n: usize,
    pub min_lag: usize,
    pub max_lag: usize,
    pub rate: F32,
}

impl<'a> LagSearch<'a> {
    /// The autocorrelation at `lag`.
    pub open spec fn at(self, lag: int) -> F32 {
        correlation_at(self.corr@, self.scale, self.n as int, lag)
    }

    /// The lag is allowed, not the one it is compared with, and a local peak.
    pub open spec fn eligible(self, base: int, lag: int) -> bool {
        &&& self.min_lag <= lag <= self.max_lag
        &&& lag != base
        &&& !self.at(lag).lt(
            self.at(if lag > 0 {
                lag - 1
            } else {
                0
            }),
        )
        &&& !self.at(lag).lt(self.at(lag + 1))
    }

    /// The better one of a lag and its autocorrelation, and a relative of `base`.
    pub open spec fn better(self, base: int, best: (int, F32), num: int, den: int) -> (int, F32) {
        let lag = relative(base, num, den);
        if self.eligible(base, lag) && self.at(lag).gt(best.1) {
            (lag, self.at(lag))
        } else {
            best
        }
    }

    /// The one of `base` and its relatives with the highest autocorrelation, the
    /// first of equals: as long, half, twice, two thirds and three halves.
    pub open spec fn resolved(self, base: int) -> int {
        let b1 = self.better(base, (base, self.at(base)), 1, 1);
        let b2 = self.better(base, b1, 1, 2);
        let b3 = self.better(base, b2, 2, 1);
        let b4 = self.better(base, b3, 2, 3);
        self.better(base, b4, 3, 2).0
    }

    fn consider(&self, base: usize, best: (usize, F32), num: i32, den: i32) -> (r: (usize, F32))
        requires
            self.max_lag < usize::MAX,
        ensures
            (r.0 as int, r.1) == self.better(
                base as int,
                (best.0 as int, best.1),
                num as int,
                den as int,
            ),
    {
        let lag: usize = F32::of_usize(base).times(F32::of_i32(num)).over(
            F32::of_i32(den),
        ).round().to_usize();
        if lag < self.min_lag || lag > self.max_lag || lag == base {
            return best;
        }
        let c: F32 = lag_correlation(self.corr, self.scale, self.n, lag);
        let left: F32 = lag_correlation(
            self.corr,
            self.scale,
            self.n,
            if lag > 0 {
                lag - 1
            } else {
                0
            },
        );
        let right: F32 = lag_correlation(self.corr, self.scale, self.n, lag + 1);
        if c.lt(left) || c.lt(right) {
            return best;
        }
        if c.gt(best.1) {
            (lag, c)
        } else {
            best
        }
    }

    /// Resolves octave and three-to-two confusions of the best lag: of it and its
    /// relatives that are local peaks, the one with the highest autocorrelation.
    pub fn resolve_tempo_lag(&self, best_lag: F32) -> (r: F32)
        requires
            self.max_lag < usize::MAX,
        ensures
            r == F32::nearest_to(
                self.resolved(
                    best_lag.round().max(F32::nearest_to(1)).integer_part(0, usize::MAX as int),
                ),
            ),
    {
        let base: usize = best_lag.round().max(F32::whole(1)).to_usize();
        let c: F32 = lag_correlation(self.corr, self.scale, self.n, base);
        let b1: (usize, F32) = self.consider(base, (base, c), 1, 1);
        let b2: (usize, F32) = self.consider(base, b1, 1, 2);
        let b3: (usize, F32) = self.consider(base, b2, 2, 1);
        let b4: (usize, F32) = self.consider(base, b3, 2, 3);
        let b5: (usize, F32) = self.consider(base, b4, 3, 2);
        F32::of_usize(b5.0)
    }
}

/// The lag that is settled on is the one that was found, or a relative of it
/// that is allowed and a local peak.
pub proof fn lemma_resolved_is_peak(search: LagSearch, base: int)
    ensures
        ({
            let lag = search.resolved(base);
            lag == base || (search.eligible(base, lag) && is_relative(base, lag) && search.at(
                lag,
            ).gt(search.at(base)))
        }),
{
    let b0 = (base, search.at(base));
    let b1 = search.better(base, b0, 1, 1);
    let b2 = search.better(base, b1, 1, 2);
    let b3 = search.better(base, b2, 2, 1);
    let b4 = search.better(base, b3, 2, 3);
    let b5 = search.better(base, b4, 3, 2);
    lemma_order_single(b0.1, b1.1, b2.1);
    lemma_order_single(b0.1, b2.1, b3.1);
    lemma_order_single(b0.1, b3.1, b4.1);
    lemma_order_single(b0.1, b4.1, b5.1);
}

/// No relative of the lag that was found, if it is allowed and a local peak, has
/// a higher autocorrelation than the lag that is settled on; nor has the lag
/// that was found.
pub proof fn lemma_resolved_is_highest(search: LagSearch, base: int, lag: int)
    requires
        lag == base || (search.eligible(base, lag) && is_relative(base, lag)),
    ensures
        !search.at(lag).gt(search.at(search.resolved(base))),
{
    let b0 = (base, search.at(base));
    let b1 = search.better(base, b0, 1, 1);
    let b2 = search.better(base, b1, 1, 2);
    let b3 = search.better(base, b2, 2, 1);
    let b4 = search.better(base, b3, 2, 3);
    let b5 = search.better(base, b4, 3, 2);
    let c = search.at(lag);
    lemma_not_above(c, b0.1, b1.1);
    lemma_not_above(c, b1.1, b2.1);
    lemma_not_above(c, b2.1, b3.1);
    lemma_not_above(c, b3.1, b4.1);
    lemma_not_above(c, b4.1, b5.1);
    lemma_order_single(c, c, c);
}

/// What is not above a number is not above a greater one.
proof fn lemma_not_above(c: F32, a: F32, b: F32)
    requires
        b == a || b.gt(a),
    ensures
        !c.gt(a) ==> !c.gt(b),
{
    lemma_order_single(a, b, c);
}

/// The vertex of the parabola through the autocorrelation around a lag, or the
/// lag where there is none.
pub open spec fn vertex_near(corr: Seq<F32>, lag: F32) -> F32 {
    let i = lag.round().integer_part(0, usize::MAX as int);
    if 0 < i < corr.len() - 1 {
        let denominator = F32::nearest_to(2).times(
            F32::nearest_to(2).times(corr[i]).minus(corr[i + 1]).minus(corr[i - 1]),
        );
        if denominator.abs().gt(F32::ratio(1, 100000)) {
            F32::nearest_to(i).plus(corr[i + 1].minus(corr[i - 1]).over(denominator))
        } else {
            lag
        }
    } else {
        lag
    }
}

fn refine_lag(corr: &[F32], lag: F32) -> (r: F32)
    ensures
        r == vertex_near(corr@, lag),
{
    let len: usize = corr.len();
    let i: usize = lag.round().to_usize();
    if len == 0 || i == 0 || i >= len - 1 {
        return lag;
    }
    let denominator: F32 = F32::whole(2).times(
        F32::whole(2).times(corr[i]).minus(corr[i + 1]).minus(corr[i - 1]),
    );
    if denominator.abs().gt(F32::ratio(1, 100000)) {
        F32::of_usize(i).plus(corr[i + 1].minus(corr[i - 1]).over(denominator))
    } else {
        lag
    }
}

/// The smaller of two.
pub open spec fn least(a: int, b: int) -> int {
    if a < b {
        a
    } else {
        b
    }
}

/// What the choice of a lag depends on, for `n` onsets.
pub open spec fn lag_search<'a>(
    corr: &'a [F32],
    n: usize,
    sample_rate: u32,
    hop_size: usize,
) -> LagSearch<'a> {
    let rate = onset_rate(sample_rate, hop_size);
    LagSearch {
        corr,
        scale: F32::nearest_to(1).over(F32::nearest_to(corr@.len() as int)),
        n,
        min_lag: lag_of(rate, 220) as usize,
        max_lag: least(lag_of(rate, 40), n as int / 2) as usize,
        rate,
    }
}

/// The strongest lag in the search and its autocorrelation.
pub open spec fn strongest(search: LagSearch) -> (int, F32) {
    strongest_before(
        search.corr@,
        search.scale,
        search.n as int,
        search.min_lag as int,
        least(search.max_lag + 1, search.corr@.len() as int),
    )
}

/// The tempo that the autocorrelation of `n` onsets shows, and how strongly;
/// zeros if none.
pub open spec fn flux_tempo(corr: &[F32], n: usize, sample_rate: u32, hop_size: usize) -> (
    F32,
    F32,
) {
    let search = lag_search(corr, n, sample_rate, hop_size);
    let (lag, level) = strongest(search);
    let first = F32::nearest_to(lag);
    if first.equals(F32::zero()) {
        (F32::zero(), F32::zero())
    } else {
        let base = first.round().max(F32::nearest_to(1)).integer_part(0, usize::MAX as int);
        let chosen = F32::nearest_to(search.resolved(base));
        let exact = vertex_near(corr@, chosen);
        (snapped(F32::nearest_to(60).times(search.rate).over(exact)), level)
    }
}

/// Estimates the tempo from the autocorrelation of `n` onsets.
pub fn estimate_tempo(corr: &[F32], n: usize, sample_rate: u32, hop_size: usize) -> (r: (F32, F32))
    ensures
        r == flux_tempo(corr, n, sample_rate, hop_size),
{
    let rate: F32 = F32::of_u64(sample_rate as u64).over(F32::of_usize(hop_size));
    let scale: F32 = F32::whole(1).over(F32::of_usize(corr.len()));
    let slowest: usize = rate.times(F32::whole(60)).over(F32::whole(40)).to_usize();
    let min_lag: usize = rate.times(F32::whole(60)).over(F32::whole(220)).to_usize();
    let max_lag: usize = if slowest < n / 2 {
        slowest
    } else {
        n / 2
    };
    let search = LagSearch { corr, scale, n, min_lag, max_lag, rate };
    let len: usize = corr.len();
    let end: usize = if max_lag + 1 < len {
        max_lag + 1
    } else {
        len
    };
    let mut level: F32 = F32::zero();
    let mut best: usize = 0;
    let mut lag: usize = min_lag;
    while lag < end
        invariant
            min_lag <= lag,
            lag <= end || lag == min_lag,
            len == corr@.len(),
            end == least(max_lag + 1, len as int),
            max_lag <= n / 2,
            (best as int, level) == strongest_before(
                corr@,
                scale,
                n as int,
                min_lag as int,
                lag as int,
            ),
        decreases end - lag,
    {
        let overlap: F32 = F32::of_usize(n - lag);
        let c: F32 = if overlap.gt(F32::zero()) {
            corr[lag].times(scale).over(overlap)
        } else {
            F32::zero()
        };
        if c.gt(level) {
            level = c;
            best = lag;
        }
        lag = lag + 1;
    }
    proof {
        assert(search == lag_search(corr, n, sample_rate, hop_size));
        assert((best as int, level) == strongest(search));
    }
    let first: F32 = F32::of_usize(best);
    if first.equals(F32::zero()) {
        return (F32::zero(), F32::zero());
    }
    let chosen: F32 = search.resolve_tempo_lag(first);
    let exact: F32 = refine_lag(corr, chosen);
    let bpm: F32 = F32::whole(60).times(rate).over(exact);
    (snap_tempo(bpm), level)
}

/// The time of the strongest onset within the first two beats; zero if there
/// is no tempo.
pub open spec fn first_beat_time(env: Seq<F32>, bpm: F32, sample_rate: u32, hop_size: usize) -> F32 {
    let span = onset_rate(sample_rate, hop_size).times(F32::nearest_to(60)).over(bpm).times(
        F32::nearest_to(2),
    ).ceil().integer_part(0, usize::MAX as int);
    if env.len() == 0 || bpm.le(F32::zero()) {
        F32::zero()
    } else {
        F32::nearest_to(last_largest(env, least(span, env.len() as int))).times(
            F32::nearest_to(hop_size as int),
        ).over(F32::nearest_to(sample_rate as int))
    }
}

/// Finds the first beat.
pub fn detect_first_beat(env: &[F32], bpm: F32, sample_rate: u32, hop_size: usize) -> (r: F32)
    ensures
        r == first_beat_time(env@, bpm, sample_rate, hop_size),
{
    if env.len() == 0 || bpm.le(F32::zero()) {
        return F32::zero();
    }
    let rate: F32 = F32::of_u64(sample_rate as u64).over(F32::of_usize(hop_size));
    let frames_per_beat: F32 = rate.times(F32::whole(60)).over(bpm);
    let span: usize = frames_per_beat.times(F32::whole(2)).ceil().to_usize();
    let n: usize = if span < env.len() {
        span
    } else {
        env.len()
    };
    let frame: usize = last_largest_of(env, n);
    F32::of_usize(frame).times(F32::of_usize(hop_size)).over(F32::of_u64(sample_rate as u64))
}

/// The tempo and first beat that the onsets and their autocorrelation show.
pub open spec fn flux_result(env: Seq<F32>, corr: &[F32], sample_rate: u32) -> BpmResult {
    let bpm = flux_tempo(corr, env.len() as usize, sample_rate, HOP_SIZE).0;
    BpmResult {
        bpm,
        beat_offset: if bpm.gt(F32::zero()) && env.len() > 0 {
            first_beat_time(env, bpm, sample_rate, HOP_SIZE)
        } else {
            F32::zero()
        },
    }
}

/// The tempo and first beat from the onsets and their autocorrelation.
pub fn detect_bpm_spectral_flux(env: &[F32], corr: &[F32], sample_rate: u32) -> (r: BpmResult)
    ensures
        r == flux_result(env@, corr, sample_rate),
{
    let (bpm, _level) = estimate_tempo(corr, env.len(), sample_rate, HOP_SIZE);
    let beat_offset: F32 = if bpm.gt(F32::zero()) && env.len() > 0 {
        detect_first_beat(env, bpm, sample_rate, HOP_SIZE)
    } else {
        F32::zero()
    };
    BpmResult { bpm, beat_offset }
}

/// The tempo that the network found, or else that of the onsets.
pub fn detect_bpm(neural: Option<BpmResult>, env: &[F32], corr: &[F32], sample_rate: u32) -> (r:
    BpmResult)
    ensures
        r == match neural {
            Some(found) => found,
            None => flux_result(env@, corr, sample_rate),
        },
{
    match neural {
        Some(found) => found,
        None => detect_bpm_spectral_flux(env, corr, sample_rate),
    }
}

/// How much the first `n` bins have grown together, exactly, in units: bins that
/// fell count nothing.
pub open spec fn exact_growth(before: Seq<F32>, now: Seq<F32>, n: int) -> int
    decreases n,
{
    if n <= 0 {
        0
    } else {
        let d = now[n - 1].value() - before[n - 1].value();
        exact_growth(before, now, n - 1) + if d > 0 {
            d
        } else {
            0
        }
    }
}

/// The magnitudes of the first `n` bins of both spectra together, in units.
pub open spec fn weight(before: Seq<F32>, now: Seq<F32>, n: int) -> int
    decreases n,
{
    if n <= 0 {
        0
    } else {
        weight(before, now, n - 1) + abs(before[n - 1].value()) + abs(now[n - 1].value())
    }
}

/// The flux is what the bins that grew have grown together, but for rounding.
pub proof fn lemma_flux_is_growth(before: Seq<F32>, now: Seq<F32>, n: int)
    requires
        0 <= n <= 0x1_0000,
        forall|i: int| 0 <= i < n ==> small(#[trigger] before[i], 0x10_0000),
        forall|i: int| 0 <= i < n ==> small(#[trigger] now[i], 0x10_0000),
    ensures
        flux(before, now, n).finite(),
        0 <= exact_growth(before, now, n) <= weight(before, now, n),
        weight(before, now, n) <= n * (0x20_0000 * unit()),
        ({
            let gap = flux(before, now, n).value() - exact_growth(before, now, n);
            let slack = 8 * (n * (weight(before, now, n) + unit()));
            -slack <= 0x100_0000 * gap <= slack
        }),
    decreases n,
{
    let u = unit();
    lemma_unit();
    lemma_zeros();
    if n > 0 {
        lemma_flux_is_growth(before, now, n - 1);
        assert(small(before[n - 1], 0x10_0000) && small(now[n - 1], 0x10_0000));
        let t = flux(before, now, n - 1);
        let x = before[n - 1];
        let y = now[n - 1];
        let d = y.minus(x);
        lemma_minus_close(y, x, 0x10_0000, 0x10_0000);
        lemma_by_value_single(F32::zero(), d);
        let m = weight(before, now, n - 1);
        let next = weight(before, now, n);
        let big = 0x20_0000 * u;
        assert((n - 1) * big + big == n * big) by (nonlinear_arith);
        assert((n - 1) * big <= 0x1_0000 * big) by (nonlinear_arith)
            requires
                n <= 0x1_0000,
                big >= 0,
        ;
        let w = (n - 1) * (m + u);
        assert(0 <= w <= 0x1_0000 * (m + u)) by (nonlinear_arith)
            requires
                1 <= n <= 0x1_0000,
                m >= 0,
                u > 0,
                w == (n - 1) * (m + u),
        ;
        let v = (n - 1) * (next + u);
        assert(v + (next + u) == n * (next + u)) by (nonlinear_arith)
            requires
                v == (n - 1) * (next + u),
        ;
        assert(w <= v) by (nonlinear_arith)
            requires
                w == (n - 1) * (m + u),
                v == (n - 1) * (next + u),
                m <= next,
                n >= 1,
        ;
        let top = 0x200_0000_0000int;
        assert(small(t, top));
        lemma_plus_close(t, d, top, 0x40_0001);
    }
}

proof fn lemma_strongest_before(corr: Seq<F32>, scale: F32, n: int, lo: int, hi: int)
    requires
        lo <= hi,
    ensures
        ({
            let (lag, level) = strongest_before(corr, scale, n, lo, hi);
            &&& F32::zero().at_most(level)
            &&& forall|k: int|
                lo <= k < hi ==> !level.less(#[trigger] normalised_at(corr, scale, n, k))
            &&& F32::zero().less(level) ==> lo <= lag < hi && level == normalised_at(
                corr,
                scale,
                n,
                lag,
            )
            &&& F32::zero().less(level) ==> forall|k: int|
                lo <= k < lag ==> !level.at_most(#[trigger] normalised_at(corr, scale, n, k))
            &&& !F32::zero().less(level) ==> lag == 0
        }),
    decreases hi - lo,
{
    let zero = F32::zero();
    lemma_order_single(zero, zero, zero);
    lemma_zeros();
    lemma_least_single(zero);
    if lo < hi {
        lemma_strongest_before(corr, scale, n, lo, hi - 1);
        let (lag, level) = strongest_before(corr, scale, n, lo, hi - 1);
        let c = normalised_at(corr, scale, n, hi - 1);
        lemma_order_single(zero, level, c);
        lemma_order_single(zero, c, level);
        lemma_order_single(level, c, level);
        lemma_order_single(c, level, c);
        assert forall|k: int| lo <= k < hi implies !strongest_before(
            corr,
            scale,
            n,
            lo,
            hi,
        ).1.less(#[trigger] normalised_at(corr, scale, n, k)) by {
            let o = normalised_at(corr, scale, n, k);
            lemma_order_single(level, c, o);
            lemma_order_single(c, o, c);
        }
        if level.less(c) {
            assert forall|k: int| lo <= k < hi - 1 implies !c.at_most(
                #[trigger] normalised_at(corr, scale, n, k),
            ) by {
                let o = normalised_at(corr, scale, n, k);
                lemma_order_single(level, c, o);
                lemma_order_single(o, level, c);
            }
        }
    }
}

/// The lag that is found has the highest autocorrelation per overlapping window of
/// all in the search, the first of equals.
pub proof fn lemma_strongest_is_highest(search: LagSearch, lag: int)
    requires
        search.min_lag <= lag <= search.max_lag,
        lag < search.corr@.len(),
        F32::zero().less(normalised_at(search.corr@, search.scale, search.n as int, lag)),
    ensures
        ({
            let (best, level) = strongest(search);
            let there = normalised_at(search.corr@, search.scale, search.n as int, lag);
            &&& search.min_lag <= best <= search.max_lag && best < search.corr@.len()
            &&& level == normalised_at(search.corr@, search.scale, search.n as int, best)
            &&& !level.less(there)
            &&& lag < best ==> !level.at_most(there)
        }),
{
    let lo = search.min_lag as int;
    let hi = least(search.max_lag + 1, search.corr@.len() as int);
    lemma_strongest_before(search.corr@, search.scale, search.n as int, lo, hi);
    let level = strongest(search).1;
    let there = normalised_at(search.corr@, search.scale, search.n as int, lag);
    lemma_order_single(F32::zero(), level, there);
    lemma_order_single(level, F32::zero(), there);
}

/// A peak is drawn to its higher neighbour: its vertex lies on the side of the
/// neighbour with the higher autocorrelation, and on the peak where both are
/// equal. At an end the lag stays.
pub proof fn lemma_vertex_leans(corr: Seq<F32>, lag: int)
    requires
        0 <= lag < 0x80_0000,
        lag <= usize::MAX,
        forall|i: int| 0 <= i < corr.len() ==> small(#[trigger] corr[i], 0x10_0000),
    ensures
        ({
            let here = F32::nearest_to(lag);
            let r = vertex_near(corr, here);
            if 0 < lag < corr.len() - 1 {
                let c = corr[lag].value();
                let a = corr[lag - 1].value();
                let b = corr[lag + 1].value();
                &&& 2 * c - b - a > unit() && b >= a ==> here.at_most(r)
                &&& 2 * c - b - a > unit() && b <= a ==> r.at_most(here)
            } else {
                r == here
            }
        }),
{
    let here = F32::nearest_to(lag);
    let u = unit();
    lemma_unit();
    lemma_whole_single(lag);
    assert(2 * lag * u == 2 * (lag * u)) by (nonlinear_arith);
    lemma_round_of(here, lag, 0, usize::MAX as int);
    if 0 < lag < corr.len() - 1 {
        let x = corr[lag];
        let a = corr[lag - 1];
        let b = corr[lag + 1];
        assert(small(x, 0x10_0000) && small(a, 0x10_0000) && small(b, 0x10_0000));
        if 2 * x.value() - b.value() - a.value() > u {
            let two = F32::nearest_to(2);
            let bend = two.times(two.times(x).minus(b).minus(a));
            lemma_parabola_leans(here, a, x, b);
            lemma_ratio_close(1, 100000);
            lemma_magnitude_is_finite(bend);
            lemma_by_value_single(F32::ratio(1, 100000), bend.abs());
        }
    }
}

/// The vertex of a parabola through a peak and its neighbours lies towards the
/// higher neighbour.
pub proof fn lemma_parabola_leans(here: F32, a: F32, x: F32, b: F32)
    requires
        here.finite(),
        small(a, 0x10_0000),
        small(x, 0x10_0000),
        small(b, 0x10_0000),
        2 * x.value() - b.value() - a.value() > unit(),
    ensures
        ({
            let two = F32::nearest_to(2);
            let bend = two.times(two.times(x).minus(b).minus(a));
            let r = here.plus(b.minus(a).over(bend));
            &&& bend.finite() && bend.value() >= unit()
            &&& b.value() >= a.value() ==> here.at_most(r)
            &&& b.value() <= a.value() ==> r.at_most(here)
        }),
{
    let two = F32::nearest_to(2);
    let m = 0x10_0000int;
    lemma_unit();
    lemma_whole_single(2);
    lemma_times_close(two, x, 2, m);
    let t = two.times(x);
    lemma_twice_close(t.value(), x.value());
    lemma_minus_close(t, b, 2 * (2 * m) + 1, m);
    let s = t.minus(b);
    lemma_minus_close(s, a, 2 * (2 * (2 * m) + 1 + m) + 1, m);
    let v = s.minus(a);
    assert(small(v, 0x1000_0000));
    lemma_times_close(two, v, 2, 0x1000_0000);
    let bend = two.times(v);
    lemma_twice_close(bend.value(), v.value());
    lemma_minus_close(b, a, m, m);
    let rise = b.minus(a);
    lemma_bent(rise, bend);
    lemma_least_single(here);
    lemma_plus_sign_single(here, rise.over(bend));
}

proof fn lemma_bent(rise: F32, bend: F32)
    requires
        small(rise, 0x40_0001),
        bend.finite(),
        bend.value() >= unit(),
    ensures
        rise.over(bend).finite(),
        rise.value() >= 0 ==> rise.over(bend).value() >= 0,
        rise.value() <= 0 ==> rise.over(bend).value() <= 0,
{
    let u = unit();
    let q = 0x40_0001int;
    lemma_unit();
    assert(-((q * u) * bend.value()) <= rise.value() * u <= (q * u) * bend.value()) by (
        nonlinear_arith)
        requires
            -(q * u) <= rise.value() <= q * u,
            bend.value() >= u,
            u > 0,
            q > 0,
    ;
    lemma_over_close(rise, bend, q);
    lemma_zeros();
    let r = rise.over(bend).value();
    let d = bend.value();
    let n = rise.value() * u;
    lemma_over_sign_of(r, rise.value(), d, u);
}

/// A quotient has the sign of what is divided.
proof fn lemma_over_sign_of(r: int, a: int, d: int, u: int)
    requires
        d >= u > 0x100_0000,
        close(r, a * u, d),
    ensures
        a >= 0 ==> r >= 0,
        a <= 0 ==> r <= 0,
{
    let rd = r * d;
    let au = a * u;
    assert(a >= 0 ==> au >= 0) by (nonlinear_arith)
        requires
            au == a * u,
            u > 0,
    ;
    assert(a <= 0 ==> au <= 0) by (nonlinear_arith)
        requires
            au == a * u,
            u > 0,
    ;
    if r < 0 {
        assert(abs(r) * d == -rd && rd <= -d) by (nonlinear_arith)
            requires
                r <= -1,
                abs(r) == -r,
                rd == r * d,
                d > 0,
        ;
    }
    if r > 0 {
        assert(abs(r) * d == rd && rd >= d) by (nonlinear_arith)
            requires
                r >= 1,
                abs(r) == r,
                rd == r * d,
                d > 0,
        ;
    }
}

proof fn lemma_twice_close(t: int, x: int)
    requires
        close(t, (2 * unit()) * x, unit()),
    ensures
        close(t, 2 * x, 1),
{
    lemma_unit();
    assert((2 * unit()) * x == (2 * x) * unit()) by (nonlinear_arith);
    lemma_close_reduced(t, 2 * x, 1, unit());
}

/// The magnitude of a finite number is finite.
pub proof fn lemma_magnitude_is_finite(a: F32)
    requires
        a.finite(),
    ensures
        a.abs().finite(),
        a.abs().value() == abs(a.value()),
{
    lemma_formats();
    reveal(F32::unsigned);
    reveal(F32::finite);
    lemma_value_bounds(single_format(), a.datum());
    lemma_magnitude_order(single_format(), 0, a.datum().number);
}

/// The first beat is at the strongest of the first onsets, the last of equals: of
/// the onsets within two beats, or of all where there are fewer, none is
/// stronger. Gives the window of that onset and the end of the part searched.
pub proof fn lemma_first_beat_is_strongest(
    env: Seq<F32>,
    bpm: F32,
    sample_rate: u32,
    hop_size: usize,
) -> (r: (int, int))
    requires
        env.len() > 0,
        !bpm.le(F32::zero()),
        forall|i: int| 0 <= i < env.len() ==> (#[trigger] env[i]).finite(),
    ensures
        ({
            let (c, end) = r;
            let period = onset_rate(sample_rate, hop_size).times(F32::nearest_to(60)).over(bpm);
            let two = F32::nearest_to(2);
            &&& 0 <= c < env.len() && c <= end <= env.len()
            &&& end == env.len() || end == period.times(two).ceil().integer_part(
                0,
                usize::MAX as int,
            )
            &&& first_beat_time(env, bpm, sample_rate, hop_size) == F32::nearest_to(c).times(
                F32::nearest_to(hop_size as int),
            ).over(F32::nearest_to(sample_rate as int))
            &&& forall|i: int| 0 <= i < end ==> (#[trigger] env[i]).value() <= env[c].value()
            &&& forall|i: int| c < i < end ==> (#[trigger] env[i]).value() < env[c].value()
        }),
{
    let period = onset_rate(sample_rate, hop_size).times(F32::nearest_to(60)).over(bpm);
    let span = period.times(F32::nearest_to(2)).ceil().integer_part(0, usize::MAX as int);
    let end = least(span, env.len() as int);
    reveal(F32::integer_part);
    reveal(truncated);
    if end >= 1 {
        lemma_last_largest(env, end);
    }
    (last_largest(env, end), end)
}

/// A relative of a lag is the nearest to the exact fraction of it.
pub proof fn lemma_relative_is_nearest(base: int, num: int, den: int, k: int)
    requires
        0 <= base < 0x10_0000,
        1 <= num <= 3,
        1 <= den <= 3,
        -den < 2 * den * k - 2 * base * num < den,
        0 <= k <= usize::MAX,
    ensures
        relative(base, num, den) == k,
{
    let u = unit();
    lemma_unit();
    lemma_whole_single(base);
    lemma_whole_single(num);
    lemma_whole_single(den);
    let bn = base * num;
    assert(0 <= bn < 0x30_0000) by (nonlinear_arith)
        requires
            0 <= base < 0x10_0000,
            1 <= num <= 3,
            bn == base * num,
    ;
    lemma_whole_times_single(base, num);
    lemma_whole_single(bn);
    let p = F32::nearest_to(bn);
    let d = F32::nearest_to(den);
    assert(0 <= p.value() * u <= (bn * u) * d.value()) by (nonlinear_arith)
        requires
            p.value() == bn * u,
            d.value() == den * u,
            den >= 1,
            bn >= 0,
            u >= 1,
    ;
    assert(d.value() > 0) by (nonlinear_arith)
        requires
            d.value() == den * u,
            den >= 1,
            u >= 1,
    ;
    lemma_over_close(p, d, bn);
    let q = p.over(d);
    lemma_close_reduced(q.value(), bn * u, den, u);
    assert(2 * base * num == 2 * bn) by (nonlinear_arith)
        requires
            bn == base * num,
    ;
    lemma_half_way(q.value(), bn, den, k, u);
    lemma_round_of(q, k, 0, usize::MAX as int);
}

proof fn lemma_half_way(q: int, bn: int, den: int, k: int, u: int)
    requires
        1 <= den <= 3,
        0 <= bn < 0x30_0000,
        0 <= k,
        -den < 2 * den * k - 2 * bn < den,
        u >= 0x1_0000_0000_0000,
        close(q, bn * u, den),
    ensures
        2 * k * u - u < 2 * q < 2 * k * u + u,
        k < 0x80_0000,
{
    let ku = k * u;
    let bu = bn * u;
    assert(k <= bn + 1) by (nonlinear_arith)
        requires
            1 <= den <= 3,
            0 <= k,
            0 <= bn,
            2 * den * k - 2 * bn < den,
    ;
    assert(2 * k * u == 2 * ku) by (nonlinear_arith)
        requires
            ku == k * u,
    ;
    let e = 2 * den * k - 2 * bn;
    assert(e * u == 2 * (den * ku) - 2 * bu) by (nonlinear_arith)
        requires
            e == 2 * den * k - 2 * bn,
            ku == k * u,
            bu == bn * u,
    ;
    assert(-((den - 1) * u) <= e * u <= (den - 1) * u) by (nonlinear_arith)
        requires
            -den < e < den,
            u > 0,
    ;
    assert((den - 1) * u == den * u - u) by (nonlinear_arith);
    assert(0 <= bu < 0x30_0000 * u) by (nonlinear_arith)
        requires
            bu == bn * u,
            0 <= bn < 0x30_0000,
            u > 0,
    ;
    let qd = q * den;
    let md = abs(q) * den;
    let kd = den * ku;
    let ud = den * u;
    assert(md == qd || md == -qd) by (nonlinear_arith)
        requires
            qd == q * den,
            md == abs(q) * den,
            abs(q) == q || abs(q) == -q,
    ;
    assert(0x80_0000 * den <= u);
    assert(-(3 * ud) + u < 3 * (2 * qd - 2 * kd) < 3 * ud - u);
    let v = 2 * q - 2 * ku;
    assert(v * den == 2 * qd - 2 * kd) by (nonlinear_arith)
        requires
            v == 2 * q - 2 * ku,
            qd == q * den,
            kd == den * ku,
    ;
    assert(-u < v < u) by (nonlinear_arith)
        requires
            -ud < v * den < ud,
            ud == den * u,
            den >= 1,
    ;
}

} // verus!

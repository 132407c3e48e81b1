//! Tempo-constrained beat tracking on beat activations.
use vstd::prelude::*;
use crate::analysis::tempo::{lemma_magnitude_is_finite, lemma_parabola_leans};
use crate::float::arith::{abs, Direction};
use crate::float::close::{
    close, lemma_cancel, lemma_close_reduced, lemma_minus_close, lemma_opposite_close,
    lemma_over_close, lemma_plus_close, lemma_ratio_close, lemma_round_of, lemma_scale,
    lemma_small_within, lemma_term,
    lemma_times_close, lemma_times_fraction, lemma_unit, small, unit,
};
use crate::float::exact::{
    lemma_formats, lemma_whole_integral_single, lemma_whole_over_single, lemma_whole_single,
    lemma_whole_times_single,
};
use crate::float::order::{
    lemma_by_value_single, lemma_least_single, lemma_order_single, lemma_plus_finite_single,
    lemma_plus_monotone_right, lemma_plus_monotone_single, lemma_plus_not_above_single,
    lemma_times_commutes, lemma_times_monotone_single, lemma_value_bounds, lemma_zero_plus, lemma_zero_times,
    lemma_zeros,
};
use crate::float::single::{single_format, F32};
use crate::signal::{
    climb, first_largest, last_largest, last_largest_of, lemma_above_bottom, mean, mean_of, peak,
    peak_of,
};
use crate::sorting::{sort_ascending, sorted};
use super::features::fps;
use super::infer::Activations;

verus! {

/// The slowest tempo looked for, in beats per minute.
pub const MIN_BPM: i32 = 55;

/// The fastest tempo looked for, in beats per minute.
pub const MAX_BPM: i32 = 200;

/// Frames between two beats at the given tempo.
pub open spec fn frames_per_beat(rate: F32, bpm: int) -> F32 {
    rate.times(F32::nearest_to(60)).over(F32::nearest_to(bpm))
}

/// The frames between two beats at the fastest tempo.
pub fn min_peak_distance() -> (d: usize)
    ensures
        d == 15,
{
    let n: usize = fps().times(F32::whole(60)).over(F32::whole(MAX_BPM)).floor().to_usize();
    proof {
        lemma_fastest_lag();
    }
    if n > 1 {
        n
    } else {
        1
    }
}

/// At fifty frames per second the fastest tempo is a beat every fifteen.
pub proof fn lemma_fastest_lag()
    ensures
        frames_per_beat(fps(), MAX_BPM as int).floor().integer_part(0, usize::MAX as int) == 15,
{
    lemma_whole_times_single(50, 60);
    lemma_whole_over_single(15, 200);
    lemma_whole_integral_single(15, Direction::Down, 0, usize::MAX as int);
}

/// The sum of the first `n` products of samples `lag` apart.
pub open spec fn lagged_sum(s: Seq<F32>, lag: int, n: int) -> F32
    decreases n,
{
    if n <= 0 {
        F32::zero()
    } else {
        lagged_sum(s, lag, n - 1).plus(s[n - 1].times(s[n - 1 + lag]))
    }
}

/// The mean product of samples `lag` apart; zero if there are none.
pub open spec fn autocorrelation(s: Seq<F32>, lag: int) -> F32 {
    if lag >= s.len() {
        F32::zero()
    } else {
        lagged_sum(s, lag, s.len() - lag).over(F32::nearest_to(s.len() - lag))
    }
}

/// The autocorrelation at `lag`.
pub fn autocorr_at(centered: &[F32], lag: usize) -> (r: F32)
    ensures
        r == autocorrelation(centered@, lag as int),
{
    let n: usize = centered.len();
    if lag >= n {
        return F32::zero();
    }
    let mut corr: F32 = F32::zero();
    let count: usize = n - lag;
    let mut i: usize = 0;
    while i < count
        invariant
            i <= count,
            count == n - lag,
            n == centered@.len(),
            lag < n,
            corr == lagged_sum(centered@, lag as int, i as int),
        decreases count - i,
    {
        corr = corr.plus(centered[i].times(centered[i + lag]));
        i = i + 1;
    }
    corr.over(F32::of_usize(count))
}

/// What a sample must reach to be a peak.
pub open spec fn peak_threshold(env: Seq<F32>) -> F32 {
    let m = mean(env);
    m.plus(peak(env, env.len() as int).minus(m).times(F32::ratio(35, 100))).max(
        m.times(F32::ratio(3, 2)),
    )
}

/// Sample `i` reaches the threshold, and neither neighbour exceeds it.
pub open spec fn is_local_peak(env: Seq<F32>, threshold: F32, i: int) -> bool {
    &&& env[i].ge(threshold)
    &&& env[i].ge(env[i - 1])
    &&& env[i].ge(env[i + 1])
}

/// The peaks among the inner samples before sample `n`: of peaks closer than
/// fifteen frames the higher one stays, the earlier one of equals.
pub open spec fn peaks_before(env: Seq<F32>, threshold: F32, n: int) -> Seq<usize>
    decreases n,
{
    if n <= 1 {
        seq![]
    } else {
        let i = n - 1;
        let p = peaks_before(env, threshold, i);
        if !is_local_peak(env, threshold, i) {
            p
        } else if p.len() == 0 || i - p.last() >= 15 {
            p.push(i as usize)
        } else if env[i].gt(env[p.last() as int]) {
            p.update(p.len() - 1, i as usize)
        } else {
            p
        }
    }
}

/// The peaks of an envelope.
pub open spec fn peaks(env: Seq<F32>) -> Seq<usize> {
    if env.len() < 3 {
        seq![]
    } else {
        peaks_before(env, peak_threshold(env), env.len() - 1)
    }
}

/// Peaks are local peaks, in order, and at least fifteen frames apart.
pub proof fn lemma_peaks_apart(env: Seq<F32>, threshold: F32, n: int)
    requires
        n < env.len(),
        env.len() <= usize::MAX,
    ensures
        ({
            let p = peaks_before(env, threshold, n);
            &&& forall|k: int| 0 <= k < p.len() ==> 1 <= (#[trigger] p[k]) < n
            &&& forall|k: int|
                0 <= k < p.len() ==> is_local_peak(env, threshold, #[trigger] p[k] as int)
            &&& forall|k: int| 0 <= k < p.len() - 1 ==> (#[trigger] p[k]) + 15 <= p[k + 1]
        }),
    decreases n,
{
    if n > 1 {
        lemma_peaks_apart(env, threshold, n - 1);
        let before = peaks_before(env, threshold, n - 1);
        let p = peaks_before(env, threshold, n);
        assert forall|k: int| 0 <= k < p.len() - 1 implies (#[trigger] p[k]) + 15 <= p[k + 1] by {
            if k < before.len() - 1 {
                assert(before[k] + 15 <= before[k + 1]);
            }
        }
    }
}

/// The peaks of an envelope.
pub fn peak_pick(env: &[F32]) -> (r: Vec<usize>)
    ensures
        r@ == peaks(env@),
        forall|k: int| 0 <= k < r@.len() ==> 1 <= (#[trigger] r@[k]) < env@.len() - 1,
        forall|k: int| 0 <= k < r@.len() - 1 ==> (#[trigger] r@[k]) + 15 <= r@[k + 1],
{
    let n: usize = env.len();
    let mut found: Vec<usize> = Vec::new();
    if n < 3 {
        return found;
    }
    let top: F32 = peak_of(env);
    let average: F32 = mean_of(env);
    let threshold: F32 = average.plus(top.minus(average).times(F32::ratio(35, 100))).max(
        average.times(F32::ratio(3, 2)),
    );
    let distance: usize = min_peak_distance();
    let mut i: usize = 1;
    while i < n - 1
        invariant
            1 <= i <= n - 1,
            n == env@.len(),
            n >= 3,
            distance == 15,
            found@ == peaks_before(env@, threshold, i as int),
        decreases n - i,
    {
        proof {
            lemma_peaks_apart(env@, threshold, i as int);
        }
        if env[i].ge(threshold) && env[i].ge(env[i - 1]) && env[i].ge(env[i + 1]) {
            let count: usize = found.len();
            if count == 0 || i - found[count - 1] >= distance {
                found.push(i);
            } else if env[i].gt(env[found[count - 1]]) {
                found.set(count - 1, i);
            }
        }
        i = i + 1;
    }
    proof {
        lemma_peaks_apart(env@, threshold, n - 1);
    }
    found
}

/// The differences of neighbours among the first `n` entries that lie between
/// `lo` and `hi`.
pub open spec fn intervals(p: Seq<usize>, lo: int, hi: int, n: int) -> Seq<usize>
    decreases n,
{
    if n <= 1 {
        seq![]
    } else {
        let d = p[n - 1] - p[n - 2];
        let before = intervals(p, lo, hi, n - 1);
        if lo <= d <= hi {
            before.push(d as usize)
        } else {
            before
        }
    }
}

/// The median interval between peaks, if there are at least four peaks and
/// three intervals in range.
pub open spec fn median_interval(env: Seq<F32>, lo: int, hi: int) -> Option<usize> {
    let p = peaks(env);
    let d = intervals(p, lo, hi, p.len() as int);
    if p.len() < 4 || d.len() < 3 {
        None
    } else {
        Some(sorted(d)[d.len() as int / 2])
    }
}

/// Every interval that is kept lies in range.
proof fn lemma_intervals_in_range(p: Seq<usize>, lo: int, hi: int, n: int)
    requires
        n <= p.len(),
        0 <= lo,
        hi <= usize::MAX,
    ensures
        intervals(p, lo, hi, n).len() <= if n < 0 {
            0
        } else {
            n
        },
        forall|k: int|
            0 <= k < intervals(p, lo, hi, n).len() ==> lo <= #[trigger] intervals(p, lo, hi, n)[k]
                <= hi,
    decreases n,
{
    if n > 1 {
        lemma_intervals_in_range(p, lo, hi, n - 1);
    }
}

/// The median interval between peaks, within `min_lag..=max_lag`.
pub fn median_ioi_lag(env: &[F32], min_lag: usize, max_lag: usize) -> (r: Option<usize>)
    ensures
        r == median_interval(env@, min_lag as int, max_lag as int),
        r matches Some(lag) ==> min_lag <= lag <= max_lag,
{
    let p: Vec<usize> = peak_pick(env);
    if p.len() < 4 {
        return None;
    }
    let mut d: Vec<usize> = Vec::new();
    let mut i: usize = 1;
    while i < p.len()
        invariant
            1 <= i <= p@.len(),
            forall|k: int| 0 <= k < p@.len() - 1 ==> (#[trigger] p@[k]) + 15 <= p@[k + 1],
            d@ == intervals(p@, min_lag as int, max_lag as int, i as int),
        decreases p@.len() - i,
    {
        assert(p@[i - 1] + 15 <= p@[i as int]);
        let gap: usize = p[i] - p[i - 1];
        if gap >= min_lag && gap <= max_lag {
            d.push(gap);
        }
        i = i + 1;
    }
    if d.len() < 3 {
        return None;
    }
    let ghost unsorted = d@;
    sort_ascending(&mut d);
    proof {
        lemma_intervals_in_range(p@, min_lag as int, max_lag as int, p@.len() as int);
        unsorted.to_multiset_ensures();
        d@.to_multiset_ensures();
        let mid = d@.len() as int / 2;
        assert(d@.contains(d@[mid]));
        assert(d@.to_multiset().count(d@[mid]) > 0);
        assert(unsorted.contains(d@[mid]));
    }
    Some(d[d.len() / 2])
}

/// The shortest lag looked at: a beat at the fastest tempo.
pub open spec fn shortest_lag(rate: F32) -> int {
    frames_per_beat(rate, MAX_BPM as int).floor().integer_part(0, usize::MAX as int)
}

/// The longest lag looked at: a beat at the slowest tempo, but no more than half
/// of the `n` frames, and more than the shortest.
pub open spec fn longest_lag(rate: F32, n: int) -> int {
    let slow = frames_per_beat(rate, MIN_BPM as int).ceil().integer_part(0, usize::MAX as int);
    let within = if slow < n / 2 {
        slow
    } else {
        n / 2
    };
    if within > shortest_lag(rate) + 1 {
        within
    } else {
        shortest_lag(rate) + 1
    }
}

/// The samples with their mean taken off.
pub open spec fn centred(env: Seq<F32>) -> Seq<F32> {
    env.map_values(|x: F32| x.minus(mean(env)))
}

/// The autocorrelation at every lag up to `hi`, zero below `lo`.
pub open spec fn correlations(env: Seq<F32>, lo: int, hi: int) -> Seq<F32> {
    Seq::new(
        (hi + 1) as nat,
        |lag: int|
            if lag < lo {
                F32::zero()
            } else {
                autocorrelation(centred(env), lag)
            },
    )
}

/// A table of which only the entries from `base` on are kept.
pub open spec fn padded(base: int, kept: Seq<F32>) -> Seq<F32> {
    Seq::new(base as nat, |i: int| F32::zero()) + kept
}

/// The median interval, or half of it where the correlation there is clearly
/// stronger (every other beat was missed), or twice as much where the interval
/// itself looks like a weak harmonic.
pub open spec fn settled_lag(corr: Seq<F32>, ioi: int, lo: int, hi: int) -> int {
    let half = ioi / 2;
    let lag = if half >= lo && corr[half].gt(corr[ioi].times(F32::ratio(115, 100))) {
        half
    } else {
        ioi
    };
    let double = 2 * ioi;
    if double <= hi && corr[double].gt(corr[lag].times(F32::ratio(5, 4))) && corr[double].gt(
        corr[ioi],
    ) && corr[ioi].lt(corr[double].times(F32::ratio(85, 100))) {
        double
    } else {
        lag
    }
}

/// Chooses among a median interval, its half and its double.
fn settle_lag(kept: &[F32], base: usize, ioi: usize, max_lag: usize) -> (r: usize)
    requires
        base <= ioi <= max_lag,
        max_lag - base < kept@.len(),
    ensures
        r == settled_lag(padded(base as int, kept@), ioi as int, base as int, max_lag as int),
        base <= r <= max_lag,
{
    let mut lag: usize = ioi;
    let half: usize = ioi / 2;
    if half >= base && kept[half - base].gt(kept[ioi - base].times(F32::ratio(115, 100))) {
        lag = half;
    }
    if ioi <= max_lag / 2 {
        let double: usize = ioi * 2;
        if kept[double - base].gt(kept[lag - base].times(F32::ratio(5, 4)))
            && kept[double - base].gt(kept[ioi - base]) {
            if kept[ioi - base].lt(kept[double - base].times(F32::ratio(85, 100))) {
                lag = double;
            }
        }
    }
    lag
}

/// Whether the correlation at `lag` is no less than at the neighbours in range.
pub open spec fn is_crest(corr: Seq<F32>, lo: int, hi: int, lag: int) -> bool {
    &&& corr[lag].ge(if lag > lo { corr[lag - 1] } else { F32::minus_infinity() })
    &&& corr[lag].ge(if lag < hi { corr[lag + 1] } else { F32::minus_infinity() })
}

/// The strongest crest before lag `n`, and its correlation; the first of equals.
pub open spec fn strongest_crest(corr: Seq<F32>, lo: int, hi: int, n: int) -> (int, F32)
    decreases n - lo,
{
    if n <= lo {
        (lo, F32::minus_infinity())
    } else {
        let before = strongest_crest(corr, lo, hi, n - 1);
        if is_crest(corr, lo, hi, n - 1) && corr[n - 1].gt(before.1) {
            (n - 1, corr[n - 1])
        } else {
            before
        }
    }
}

/// How far beyond `base` the strongest crest lies.
fn strongest_lag(kept: &[F32], base: usize, span: usize) -> (r: usize)
    requires
        span < kept@.len(),
    ensures
        base + r == strongest_crest(
            padded(base as int, kept@),
            base as int,
            base + span,
            base + span + 1,
        ).0,
        r <= span,
{
    let mut best_value: F32 = F32::minus_infinity();
    let mut best: usize = 0;
    let mut k: usize = 0;
    while k <= span
        invariant
            k <= span + 1,
            span < kept@.len(),
            best <= span,
            (base + best, best_value) == strongest_crest(
                padded(base as int, kept@),
                base as int,
                base + span,
                base + k,
            ),
        decreases span + 1 - k,
    {
        let c: F32 = kept[k];
        let left: F32 = if k > 0 {
            kept[k - 1]
        } else {
            F32::minus_infinity()
        };
        let right: F32 = if k < span {
            kept[k + 1]
        } else {
            F32::minus_infinity()
        };
        if c.ge(left) && c.ge(right) && c.gt(best_value) {
            best_value = c;
            best = k;
        }
        k = k + 1;
    }
    best
}

/// The vertex of the parabola through three neighbouring correlations, or the
/// middle lag where they lie on a line or at the edge of the range.
pub open spec fn vertex(corr: Seq<F32>, lag: int, lo: int, hi: int) -> F32 {
    let here = F32::nearest_to(lag);
    if lo < lag < hi {
        let y0 = corr[lag - 1];
        let y1 = corr[lag];
        let y2 = corr[lag + 1];
        let two = F32::nearest_to(2);
        let bend = two.times(two.times(y1).minus(y2).minus(y0));
        if bend.abs().gt(F32::ratio(1, 1_000_000)) {
            here.plus(y2.minus(y0).over(bend))
        } else {
            here
        }
    } else {
        here
    }
}

/// Refines the lag `base + k` to a fraction of a frame.
fn refine_lag(kept: &[F32], base: usize, k: usize, span: usize) -> (r: F32)
    requires
        k <= span < kept@.len(),
        base + k <= usize::MAX,
    ensures
        r == vertex(padded(base as int, kept@), base + k, base as int, base + span),
{
    let here: F32 = F32::of_usize(base + k);
    if k > 0 && k < span {
        let y0: F32 = kept[k - 1];
        let y1: F32 = kept[k];
        let y2: F32 = kept[k + 1];
        let two: F32 = F32::whole(2);
        let bend: F32 = two.times(two.times(y1).minus(y2).minus(y0));
        if bend.abs().gt(F32::ratio(1, 1_000_000)) {
            return here.plus(y2.minus(y0).over(bend));
        }
    }
    here
}

/// The whole lag that the envelope repeats at.
pub open spec fn whole_lag(env: Seq<F32>, lo: int, hi: int) -> int {
    let corr = correlations(env, lo, hi);
    match median_interval(env, lo, hi) {
        Some(ioi) => settled_lag(corr, ioi as int, lo, hi),
        None => strongest_crest(corr, lo, hi, hi + 1).0,
    }
}

/// Beats per minute and frames per beat of an envelope of `rate` frames per
/// second: none for fewer than four frames or too low a rate.
pub open spec fn tempo(env: Seq<F32>, rate: F32) -> Option<(F32, F32)> {
    let lo = shortest_lag(rate);
    let hi = longest_lag(rate, env.len() as int);
    if env.len() < 4 || lo == 0 {
        None
    } else {
        let lag = vertex(correlations(env, lo, hi), whole_lag(env, lo, hi), lo, hi);
        Some((F32::nearest_to(60).times(rate).over(lag), lag))
    }
}

/// The correlations from the shortest lag on.
fn correlate(env: &[F32], min_lag: usize, span: usize) -> (r: Vec<F32>)
    requires
        span < usize::MAX,
    ensures
        r@.len() == span + 1,
        padded(min_lag as int, r@) == correlations(env@, min_lag as int, min_lag + span),
{
    let n: usize = env.len();
    let average: F32 = mean_of(env);
    let mut centered: Vec<F32> = Vec::new();
    let mut i: usize = 0;
    while i < n
        invariant
            i <= n,
            n == env@.len(),
            average == mean(env@),
            centered@ == centred(env@).take(i as int),
        decreases n - i,
    {
        centered.push(env[i].minus(average));
        proof {
            assert(centered@ =~= centred(env@).take(i + 1));
        }
        i = i + 1;
    }
    proof {
        assert(centered@ =~= centred(env@));
    }
    let mut corr: Vec<F32> = Vec::new();
    let mut k: usize = 0;
    while k <= span
        invariant
            k <= span + 1,
            span < usize::MAX,
            n == env@.len(),
            centered@ == centred(env@),
            corr@.len() == k,
            forall|j: int|
                0 <= j < k ==> #[trigger] corr@[j] == autocorrelation(
                    centred(env@),
                    min_lag + j,
                ),
        decreases span + 1 - k,
    {
        let c: F32 = if min_lag >= n || k >= n - min_lag {
            F32::zero()
        } else {
            autocorr_at(centered.as_slice(), min_lag + k)
        };
        corr.push(c);
        k = k + 1;
    }
    proof {
        assert(padded(min_lag as int, corr@) =~= correlations(
            env@,
            min_lag as int,
            min_lag + span,
        ));
    }
    corr
}

/// No interval exceeds the largest index.
proof fn lemma_intervals_capped(p: Seq<usize>, lo: int, hi: int, n: int)
    requires
        n <= p.len(),
        hi >= usize::MAX,
    ensures
        intervals(p, lo, hi, n) == intervals(p, lo, usize::MAX as int, n),
    decreases n,
{
    if n > 1 {
        lemma_intervals_capped(p, lo, hi, n - 1);
    }
}

/// Of two correlations that are both zero the first is the strongest crest.
proof fn lemma_flat_crest(corr: Seq<F32>, lo: int)
    requires
        0 <= lo,
        lo + 1 < corr.len(),
        corr[lo] == F32::zero(),
        corr[lo + 1] == F32::zero(),
    ensures
        strongest_crest(corr, lo, lo + 1, lo + 2).0 == lo,
{
    let zero = F32::zero();
    let f = crate::float::single::single_format();
    crate::float::exact::lemma_formats();
    assert(zero.finite() && F32::minus_infinity().less(zero)) by {
        reveal(F32::finite);
        reveal(F32::less);
        reveal(crate::float::arith::less);
        crate::float::order::lemma_value_bounds(f, zero.datum());
    }
    lemma_least_single(zero);
    lemma_order_single(zero, zero, zero);
    let none = strongest_crest(corr, lo, lo + 1, lo);
    let first = strongest_crest(corr, lo, lo + 1, lo + 1);
    assert(is_crest(corr, lo, lo + 1, lo));
    assert(first == (lo, zero));
}

/// Finds the whole lag that the envelope repeats at, as a distance from the
/// shortest one, among the given correlations.
fn locate_lag(env: &[F32], corr: &[F32], min_lag: usize, span: usize) -> (k: usize)
    requires
        corr@.len() == span + 1,
        padded(min_lag as int, corr@) == correlations(env@, min_lag as int, min_lag + span),
        min_lag + span <= usize::MAX || (min_lag == usize::MAX && span == 1),
        min_lag > 0,
    ensures
        k <= span,
        min_lag + k <= usize::MAX,
        min_lag + k == whole_lag(env@, min_lag as int, min_lag + span),
{
    let n: usize = env.len();
    let max_lag: usize = if span > usize::MAX - min_lag {
        usize::MAX
    } else {
        min_lag + span
    };
    proof {
        assert(centred(env@).len() == n);
        let p = peaks(env@);
        if min_lag + span > usize::MAX {
            lemma_intervals_capped(p, min_lag as int, min_lag + span, p.len() as int);
        }
    }
    match median_ioi_lag(env, min_lag, max_lag) {
        Some(ioi) => settle_lag(corr, min_lag, ioi, max_lag) - min_lag,
        None => {
            proof {
                if min_lag + span > usize::MAX {
                    let table = correlations(env@, min_lag as int, min_lag + span);
                    assert(table[min_lag as int] == F32::zero());
                    assert(table[min_lag + 1] == F32::zero());
                    lemma_flat_crest(table, min_lag as int);
                }
            }
            strongest_lag(corr, min_lag, span)
        },
    }
}

/// Estimates the tempo of an envelope of `rate` frames per second: beats per
/// minute and frames per beat.
pub fn estimate_tempo(env: &[F32], rate: F32) -> (r: Option<(F32, F32)>)
    ensures
        r == tempo(env@, rate),
{
    let n: usize = env.len();
    if n < 4 {
        return None;
    }
    let min_lag: usize = rate.times(F32::whole(60)).over(F32::whole(MAX_BPM)).floor().to_usize();
    let slow: usize = rate.times(F32::whole(60)).over(F32::whole(MIN_BPM)).ceil().to_usize();
    let within: usize = if slow < n / 2 {
        slow
    } else {
        n / 2
    };
    // The longest lag lies `span` beyond the shortest.
    let span: usize = if within > min_lag && within - min_lag > 1 {
        within - min_lag
    } else {
        1
    };
    if min_lag == 0 {
        return None;
    }
    assert(min_lag == shortest_lag(rate));
    assert(min_lag + span == longest_lag(rate, n as int));
    let corr: Vec<F32> = correlate(env, min_lag, span);
    let k: usize = locate_lag(env, corr.as_slice(), min_lag, span);
    let refined: F32 = refine_lag(corr.as_slice(), min_lag, k, span);
    let bpm: F32 = F32::whole(60).times(rate).over(refined);
    Some((bpm, refined))
}

/// The period in whole frames, at least one.
pub open spec fn whole_period(period: F32) -> int {
    period.round().max(F32::nearest_to(1)).integer_part(isize::MIN as int, isize::MAX as int)
}

/// By how many frames a beat may miss the period: three tenths of it, at least
/// one.
pub open spec fn tolerance(period: F32) -> int {
    let t = period.times(F32::ratio(3, 10)).ceil().integer_part(
        isize::MIN as int,
        isize::MAX as int,
    );
    if t > 1 {
        t
    } else {
        1
    }
}

/// The fewest frames between two beats.
pub open spec fn min_step(period: F32) -> int {
    let s = whole_period(period) - tolerance(period);
    if s > 1 {
        s
    } else {
        1
    }
}

/// The most frames between two beats.
pub open spec fn max_step(period: F32) -> int {
    whole_period(period) + tolerance(period)
}

/// What a step that differs from the period costs.
pub open spec fn step_penalty(step: int, period: F32) -> F32 {
    F32::nearest_to(step).minus(period).abs().over(period).opposite().times(F32::ratio(1, 10))
}

/// The score of a beat at frame `t` and the beat before it (-1 for none), as
/// far as steps of at most `s` frames are concerned.
pub open spec fn best_beat(act: Seq<F32>, period: F32, t: int, s: int) -> (F32, int)
    decreases t, s,
{
    if s < min_step(period) || s < 1 {
        (act[t], -1)
    } else {
        let best = best_beat(act, period, t, s - 1);
        let p = t - s;
        if p < 0 {
            best
        } else {
            let candidate = best_beat(act, period, p, max_step(period)).0.plus(act[t]).plus(
                step_penalty(s, period),
            );
            if candidate.gt(best.0) {
                (candidate, p)
            } else {
                best
            }
        }
    }
}

/// The best score of a chain of beats that ends at frame `t`.
pub open spec fn score(act: Seq<F32>, period: F32, t: int) -> F32 {
    best_beat(act, period, t, max_step(period)).0
}

/// The beat before the one at frame `t` in the best chain; -1 for none.
pub open spec fn previous(act: Seq<F32>, period: F32, t: int) -> int {
    best_beat(act, period, t, max_step(period)).1
}

/// The best chain of beats that ends at frame `t`.
pub open spec fn chain(act: Seq<F32>, period: F32, t: int) -> Seq<usize>
    decreases t,
{
    let p = previous(act, period, t);
    if 0 <= p < t {
        chain(act, period, p).push(t as usize)
    } else {
        seq![t as usize]
    }
}

/// The scores of all frames.
pub open spec fn scores(act: Seq<F32>, period: F32) -> Seq<F32> {
    Seq::new(act.len(), |t: int| score(act, period, t))
}

/// The frame at which the best chain ends: the first with the highest score
/// among the last ones, no more than the longest step before the end.
pub open spec fn final_beat(act: Seq<F32>, period: F32) -> int {
    let n = act.len() as int;
    let start = if n > max_step(period) + 1 {
        n - (max_step(period) + 1)
    } else {
        0
    };
    climb(scores(act, period), start, n).0
}

/// The beats of an activation curve: the best chain.
pub open spec fn beat_frames(act: Seq<F32>, period: F32) -> Seq<usize> {
    if act.len() == 0 || period.lt(F32::nearest_to(1)) {
        seq![]
    } else {
        chain(act, period, final_beat(act, period))
    }
}

/// A beat that precedes another does so by an allowed step.
proof fn lemma_previous_in_range(act: Seq<F32>, period: F32, t: int, s: int)
    requires
        t >= 0,
        s <= max_step(period),
    ensures
        ({
            let p = best_beat(act, period, t, s).1;
            p == -1 || (0 <= p < t && min_step(period) <= t - p <= max_step(period))
        }),
    decreases s,
{
    if !(s < min_step(period) || s < 1) {
        lemma_previous_in_range(act, period, t, s - 1);
    }
}

/// Steps that reach before the first frame change nothing.
proof fn lemma_long_steps(act: Seq<F32>, period: F32, t: int, s: int)
    requires
        0 <= t <= s,
    ensures
        best_beat(act, period, t, s) == best_beat(act, period, t, t),
    decreases s,
{
    if s > t {
        lemma_long_steps(act, period, t, s - 1);
    }
}

/// A chain ends where it should, and its steps are allowed ones.
pub proof fn lemma_chain_steps(act: Seq<F32>, period: F32, t: int)
    requires
        0 <= t <= usize::MAX,
    ensures
        ({
            let c = chain(act, period, t);
            &&& c.len() >= 1
            &&& c.last() == t
            &&& forall|k: int| 0 <= k < c.len() ==> (#[trigger] c[k]) <= t
            &&& forall|k: int|
                0 <= k < c.len() - 1 ==> min_step(period) <= c[k + 1] - (#[trigger] c[k])
                    <= max_step(period)
        }),
    decreases t,
{
    let p = previous(act, period, t);
    lemma_previous_in_range(act, period, t, max_step(period));
    if 0 <= p < t {
        lemma_chain_steps(act, period, p);
        let before = chain(act, period, p);
        let c = chain(act, period, t);
        assert forall|k: int| 0 <= k < c.len() - 1 implies min_step(period) <= c[k + 1] - (
        #[trigger] c[k]) <= max_step(period) by {
            if k < before.len() - 1 {
                assert(c[k] == before[k] && c[k + 1] == before[k + 1]);
            }
        }
    }
}

/// The score of a given chain of beats, added from the left.
pub open spec fn chain_score(act: Seq<F32>, period: F32, beats: Seq<int>) -> F32
    decreases beats.len(),
{
    if beats.len() <= 1 {
        act[beats.last()]
    } else {
        let before = beats.drop_last();
        chain_score(act, period, before).plus(act[beats.last()]).plus(
            step_penalty(beats.last() - before.last(), period),
        )
    }
}

/// Beats within the curve, an allowed step apart.
pub open spec fn is_chain(act: Seq<F32>, period: F32, beats: Seq<int>) -> bool {
    &&& beats.len() >= 1
    &&& forall|k: int| 0 <= k < beats.len() ==> 0 <= (#[trigger] beats[k]) < act.len()
    &&& forall|k: int|
        0 <= k < beats.len() - 1 ==> min_step(period) <= beats[k + 1] - (#[trigger] beats[k])
            <= max_step(period)
}

/// With finite activations every score is a number, and allowing longer steps
/// never makes it less.
proof fn lemma_score_grows(act: Seq<F32>, period: F32, t: int, s: int, u: int)
    requires
        0 <= t < act.len(),
        s <= u,
        act[t].finite(),
    ensures
        !best_beat(act, period, t, s).0.not_a_number(),
        best_beat(act, period, t, s).0.at_most(best_beat(act, period, t, u).0),
    decreases u, u - s,
{
    let zero = F32::zero();
    lemma_least_single(act[t]);
    if u < min_step(period) || u < 1 {
        lemma_order_single(act[t], act[t], act[t]);
    } else if s < u {
        lemma_score_grows(act, period, t, s, u - 1);
        let a = best_beat(act, period, t, s).0;
        let b = best_beat(act, period, t, u - 1).0;
        let c = best_beat(act, period, t, u).0;
        lemma_order_single(b, c, c);
        lemma_order_single(a, b, c);
        lemma_order_single(b, b, b);
    } else {
        lemma_score_grows(act, period, t, s - 1, s - 1);
        let b = best_beat(act, period, t, s - 1).0;
        let c = best_beat(act, period, t, s).0;
        lemma_order_single(b, c, c);
        lemma_order_single(c, c, c);
    }
}

/// No chain of beats that ends at frame `t` scores more than the best one
/// found: the tracker maximises the activation along a tempo-constrained path.
pub proof fn lemma_best_chain_is_best(act: Seq<F32>, period: F32, beats: Seq<int>)
    requires
        is_chain(act, period, beats),
        forall|i: int| 0 <= i < act.len() ==> (#[trigger] act[i]).finite(),
    ensures
        !score(act, period, beats.last()).less(chain_score(act, period, beats)),
    decreases beats.len(),
{
    let t = beats.last();
    let top = max_step(period);
    assert(0 <= beats[beats.len() - 1] < act.len());
    if beats.len() == 1 {
        let low = if min_step(period) - 1 < top {
            min_step(period) - 1
        } else {
            top
        };
        lemma_score_grows(act, period, t, low, top);
        assert(best_beat(act, period, t, low).0 == act[t]);
    } else {
        let before = beats.drop_last();
        let p = before.last();
        assert(beats[beats.len() - 2] == p);
        let s = t - p;
        assert(min_step(period) <= s <= top);
        assert forall|k: int| 0 <= k < before.len() implies 0 <= (#[trigger] before[k])
            < act.len() by {
            assert(before[k] == beats[k]);
        }
        assert forall|k: int| 0 <= k < before.len() - 1 implies min_step(period) <= before[k + 1] - (
        #[trigger] before[k]) <= top by {
            assert(before[k] == beats[k] && before[k + 1] == beats[k + 1]);
        }
        lemma_best_chain_is_best(act, period, before);
        let given = chain_score(act, period, before);
        let found = score(act, period, p);
        let cost = step_penalty(s, period);
        lemma_score_grows(act, period, p, top, top);
        lemma_plus_not_above_single(given, found, act[t]);
        lemma_plus_finite_single(found, act[t]);
        lemma_plus_not_above_single(given.plus(act[t]), found.plus(act[t]), cost);
        let candidate = found.plus(act[t]).plus(cost);
        let path = given.plus(act[t]).plus(cost);
        let kept = best_beat(act, period, t, s).0;
        let best = score(act, period, t);
        lemma_score_grows(act, period, t, s - 1, s);
        lemma_score_grows(act, period, t, s, top);
        lemma_least_single(best);
        assert(best_beat(act, period, t, s) == {
            let b = best_beat(act, period, t, s - 1);
            if candidate.gt(b.0) {
                (candidate, p)
            } else {
                b
            }
        });
        lemma_order_single(candidate, kept, best);
        lemma_order_single(best_beat(act, period, t, s - 1).0, candidate, best);
        lemma_order_single(best, path, candidate);
        lemma_order_single(candidate, best, path);
        lemma_order_single(kept, candidate, path);
        lemma_order_single(kept, best, path);
    }
}

/// Finds the best chain of beats about `period` frames apart.
pub fn track_beats_dp(act: &[F32], period: F32) -> (r: Vec<usize>)
    ensures
        r@ == beat_frames(act@, period),
        forall|k: int| 0 <= k < r@.len() ==> (#[trigger] r@[k]) < act@.len(),
        forall|k: int|
            0 <= k < r@.len() - 1 ==> min_step(period) <= r@[k + 1] - (#[trigger] r@[k])
                <= max_step(period),
        r@.len() == 0 <==> (act@.len() == 0 || period.lt(F32::nearest_to(1))),
{
    let n: usize = act.len();
    if n == 0 || period.lt(F32::whole(1)) {
        return Vec::new();
    }
    let whole: isize = period.round().max(F32::whole(1)).to_isize();
    let tenths: isize = period.times(F32::ratio(3, 10)).ceil().to_isize();
    let slack: isize = if tenths > 1 {
        tenths
    } else {
        1
    };
    let shortest: usize = if whole > slack && whole - slack > 1 {
        (whole - slack) as usize
    } else {
        1
    };
    proof {
        lemma_whole_period(period);
    }
    let longest: u64 = whole as u64 + slack as u64;
    let mut best: Vec<F32> = Vec::new();
    let mut back: Vec<Option<usize>> = Vec::new();
    let mut t: usize = 0;
    while t < n
        invariant
            t <= n,
            n == act@.len(),
            shortest == min_step(period),
            longest == max_step(period),
            best@.len() == t,
            back@.len() == t,
            forall|u: int| 0 <= u < t ==> #[trigger] best@[u] == score(act@, period, u),
            forall|u: int|
                0 <= u < t ==> #[trigger] back@[u] == (if previous(act@, period, u) < 0 {
                    None
                } else {
                    Some(previous(act@, period, u) as usize)
                }),
        decreases n - t,
    {
        let mut value: F32 = act[t];
        let mut from: Option<usize> = None;
        let last: usize = if longest < t as u64 {
            longest as usize
        } else {
            t
        };
        let mut step: usize = shortest;
        while step <= last
            invariant
                shortest <= step,
                step <= last + 1 || step == shortest,
                last <= t < n,
                n == act@.len(),
                1 <= shortest == min_step(period),
                last <= longest == max_step(period),
                best@.len() == t,
                forall|u: int| 0 <= u < t ==> #[trigger] best@[u] == score(act@, period, u),
                value == best_beat(act@, period, t as int, step - 1).0,
                from == (if best_beat(act@, period, t as int, step - 1).1 < 0 {
                    None::<usize>
                } else {
                    Some(best_beat(act@, period, t as int, step - 1).1 as usize)
                }),
            decreases last + 1 - step,
        {
            let p: usize = t - step;
            let cost: F32 = F32::of_usize(step).minus(period).abs().over(period).opposite().times(
                F32::ratio(1, 10),
            );
            let candidate: F32 = best[p].plus(act[t]).plus(cost);
            if candidate.gt(value) {
                value = candidate;
                from = Some(p);
            }
            step = step + 1;
        }
        proof {
            lemma_rest_of_steps(act@, period, t as int, step - 1, last as int);
        }
        best.push(value);
        back.push(from);
        t = t + 1;
    }
    let start: usize = if n as u64 > longest + 1 {
        n - (longest + 1) as usize
    } else {
        0
    };
    proof {
        assert(best@ =~= scores(act@, period));
    }
    let (end, _value): (usize, F32) = first_largest(best.as_slice(), start, n);
    let mut cur: usize = end;
    let mut reversed: Vec<usize> = Vec::new();
    reversed.push(cur);
    proof {
        lemma_chain_steps(act@, period, end as int);
        assert(chain(act@, period, cur as int) =~= chain(act@, period, cur as int).drop_last()
            + reversed@.reverse());
    }
    while back[cur].is_some()
        invariant
            cur < n,
            n == act@.len(),
            back@.len() == n,
            forall|u: int|
                0 <= u < n ==> #[trigger] back@[u] == (if previous(act@, period, u) < 0 {
                    None
                } else {
                    Some(previous(act@, period, u) as usize)
                }),
            chain(act@, period, end as int) == chain(act@, period, cur as int).drop_last()
                + reversed@.reverse(),
        decreases cur,
    {
        proof {
            lemma_previous_in_range(act@, period, cur as int, max_step(period));
            lemma_chain_steps(act@, period, previous(act@, period, cur as int));
        }
        let ghost later = cur;
        let ghost tail = reversed@;
        match back[cur] {
            Some(p) => {
                cur = p;
            },
            None => {},
        }
        reversed.push(cur);
        proof {
            let c = chain(act@, period, cur as int);
            assert(chain(act@, period, later as int) == c.push(later));
            assert(c.push(later).drop_last() =~= c);
            assert(c =~= c.drop_last().push(c.last()));
            assert(reversed@.reverse() =~= seq![cur] + tail.reverse());
            assert(c + tail.reverse() =~= c.drop_last() + reversed@.reverse());
        }
    }
    proof {
        lemma_previous_in_range(act@, period, cur as int, max_step(period));
        assert(chain(act@, period, cur as int).drop_last() =~= seq![]);
        assert(chain(act@, period, end as int) =~= reversed@.reverse());
    }
    let mut beats: Vec<usize> = Vec::new();
    let mut i: usize = reversed.len();
    while i > 0
        invariant
            i <= reversed@.len(),
            beats@ == reversed@.reverse().take(reversed@.len() - i),
        decreases i,
    {
        i = i - 1;
        beats.push(reversed[i]);
        proof {
            assert(beats@ =~= reversed@.reverse().take(reversed@.len() - i));
        }
    }
    proof {
        assert(beats@ =~= reversed@.reverse());
    }
    beats
}

/// The whole period is positive.
proof fn lemma_whole_period(period: F32)
    ensures
        whole_period(period) >= 0,
{
    reveal(F32::integer_part);
    reveal(crate::float::arith::truncated);
    let f = crate::float::single::single_format();
    let one = F32::nearest_to(1);
    let x = period.round().max(one);
    crate::float::exact::lemma_formats();
    crate::float::exact::lemma_whole_single(1);
    crate::float::rounding::lemma_pow2_step(149);
    reveal(F32::less);
    reveal(F32::not_a_number);
    reveal(crate::float::arith::less);
    if x.datum().negative && !x.datum().is_nan(f) {
        crate::float::order::lemma_value_bounds(f, x.datum());
        assert(1 * f.one() > 0) by (nonlinear_arith)
            requires
                f.one() > 0,
        ;
        assert(x.value() <= 0);
    }
    assert(f.magnitude(x.datum().number) / f.one() >= 0) by (nonlinear_arith)
        requires
            f.magnitude(x.datum().number) >= 0,
            f.one() > 0,
    ;
}

/// After the steps up to `last`, longer ones find no frame or are not allowed.
proof fn lemma_rest_of_steps(act: Seq<F32>, period: F32, t: int, s: int, last: int)
    requires
        t >= 0,
        last == if max_step(period) < t {
            max_step(period)
        } else {
            t
        },
        s >= last,
        s == last || s == min_step(period) - 1,
    ensures
        best_beat(act, period, t, s) == best_beat(act, period, t, max_step(period)),
{
    if max_step(period) >= t {
        lemma_long_steps(act, period, t, s);
        lemma_long_steps(act, period, t, max_step(period));
    } else if s > last {
        assert(last < min_step(period));
    }
}

/// How well each frame fits the start of a bar.
pub open spec fn downbeat_emphasis(act: Activations, frame: int) -> F32 {
    act.downbeat@[frame].times(F32::ratio(3, 2)).plus(act.beat@[frame])
}

/// The first frame of `lo..hi` that fits the start of a bar best, and how well;
/// `around` if there is none.
pub open spec fn best_downbeat(act: Activations, around: int, lo: int, hi: int) -> (int, F32)
    decreases hi - lo,
{
    if hi <= lo {
        (around, F32::minus_infinity())
    } else {
        let before = best_downbeat(act, around, lo, hi - 1);
        if downbeat_emphasis(act, hi - 1).gt(before.1) {
            (hi - 1, downbeat_emphasis(act, hi - 1))
        } else {
            before
        }
    }
}

/// The frame that an offset lies in.
pub open spec fn frame_around(offset: F32) -> int {
    offset.times(fps()).round().integer_part(isize::MIN as int, isize::MAX as int)
}

/// The frames within half a period of an offset, from the first up to and without
/// the last.
pub open spec fn frames_searched(act: Activations, offset: F32, period: F32) -> (int, int) {
    let around = frame_around(offset);
    let reach = period.times(F32::ratio(1, 2)).ceil().integer_part(
        isize::MIN as int,
        isize::MAX as int,
    );
    (
        if around - reach > 0 {
            around - reach
        } else {
            0
        },
        if around + reach + 1 < act.downbeat@.len() {
            around + reach + 1
        } else {
            act.downbeat@.len() as int
        },
    )
}

/// The frames that are searched for the start of a bar exist.
pub open spec fn searchable(act: Activations, offset: F32, period: F32) -> bool {
    let (lo, hi) = frames_searched(act, offset, period);
    period.lt(F32::nearest_to(1)) || hi <= lo || hi <= act.beat@.len()
}

/// The offset moved to the best start of a bar within half a period of it.
pub open spec fn refined_offset(act: Activations, offset: F32, period: F32) -> F32 {
    if act.downbeat@.len() == 0 || period.lt(F32::nearest_to(1)) {
        offset
    } else {
        let (lo, hi) = frames_searched(act, offset, period);
        F32::nearest_to(best_downbeat(act, frame_around(offset), lo, hi).0).over(fps())
    }
}

/// A frame fits the start of a bar the better, the stronger the downbeat is in
/// it, and the better, the stronger the beat is.
pub proof fn lemma_fit_grows(act: Activations, weak: int, strong: int)
    requires
        act.downbeat@[weak].finite() && act.beat@[weak].finite(),
        act.downbeat@[strong].finite() && act.beat@[strong].finite(),
        act.downbeat@[weak].at_most(act.downbeat@[strong]),
        act.beat@[weak].at_most(act.beat@[strong]),
    ensures
        downbeat_emphasis(act, weak).at_most(downbeat_emphasis(act, strong)),
{
    let c = F32::ratio(3, 2);
    lemma_ratio_close(3, 2);
    let p = act.downbeat@[weak].times(c);
    let q = act.downbeat@[strong].times(c);
    let x = act.beat@[weak];
    let y = act.beat@[strong];
    lemma_times_monotone_single(act.downbeat@[weak], act.downbeat@[strong], c);
    lemma_plus_finite_single(p, x);
    lemma_plus_finite_single(q, x);
    lemma_plus_finite_single(q, y);
    lemma_plus_monotone_single(p, q, x);
    lemma_plus_monotone_right(q, x, y);
    lemma_order_single(p.plus(x), q.plus(x), q.plus(y));
}

/// How well a frame fits the start of a bar, times two: but for rounding, three
/// times its downbeat activation and twice its beat activation.
pub proof fn lemma_fit_weighs(act: Activations, frame: int)
    requires
        small(act.downbeat@[frame], 0x10_0000),
        small(act.beat@[frame], 0x10_0000),
    ensures
        downbeat_emphasis(act, frame).finite(),
        ({
            let p = act.downbeat@[frame].value();
            let b = act.beat@[frame].value();
            let gap = 2 * downbeat_emphasis(act, frame).value() - (3 * p + 2 * b);
            let slack = abs(p) + abs(b) + unit();
            -slack <= 0x8_0000 * gap <= slack
        }),
{
    let u = unit();
    let a = act.downbeat@[frame];
    let b = act.beat@[frame];
    let c = F32::ratio(3, 2);
    let p = a.value();
    lemma_unit();
    lemma_ratio_close(3, 2);
    lemma_three_halves(c.value(), u);
    lemma_times_close(a, c, 0x10_0000, 7);
    let t = a.times(c);
    lemma_weighed(p, c.value(), t.value(), u);
    lemma_plus_close(t, b, 2 * (0x10_0000int * 7) + 1, 0x10_0000);
}

proof fn lemma_three_halves(c: int, u: int)
    requires
        c >= 0,
        u >= 0x100_0000_0000,
        close(c, 3 * u, 2),
    ensures
        c <= 2 * u,
        -u <= 0x40_0000 * (2 * c - 3 * u) <= u,
{
}

proof fn lemma_weighed(p: int, c: int, t: int, u: int)
    requires
        u >= 0x100_0000_0000,
        0 <= c <= 2 * u,
        -u <= 0x40_0000 * (2 * c - 3 * u) <= u,
        close(t, p * c, u),
    ensures
        ({
            let slack = 3 * abs(p) + 0x200_0000;
            &&& -slack <= 0x40_0000 * (2 * t - 3 * p) <= slack
            &&& abs(t) <= 3 * abs(p) + 0x200_0000
        }),
{
    let x = abs(p);
    let y = abs(t);
    let k = 0x40_0000int;
    let pc = p * c;
    let tu = t * u;
    let pu = p * u;
    assert(-(x * u) <= k * (2 * pc - 3 * pu) <= x * u) by (nonlinear_arith)
        requires
            -u <= k * (2 * c - 3 * u) <= u,
            x == p || x == -p,
            x >= 0,
            pc == p * c,
            pu == p * u,
    ;
    assert(abs(pc) <= 2 * (x * u)) by (nonlinear_arith)
        requires
            0 <= c <= 2 * u,
            x == p || x == -p,
            x >= 0,
            pc == p * c,
            abs(pc) == pc || abs(pc) == -pc,
    ;
    let yu = y * u;
    assert(yu == tu || yu == -tu) by (nonlinear_arith)
        requires
            y == t || y == -t,
            tu == t * u,
            yu == y * u,
    ;
    assert(yu >= 0) by (nonlinear_arith)
        requires
            y >= 0,
            u > 0,
            yu == y * u,
    ;
    let xu = x * u;
    assert(xu >= 0) by (nonlinear_arith)
        requires
            x >= 0,
            u > 0,
            xu == x * u,
    ;
    assert(4 * k * (tu - pc) <= yu + 2 * k * u);
    assert(4 * k * (pc - tu) <= yu + 2 * k * u);
    assert(yu <= 3 * xu + u + u);
    let g = k * (2 * t - 3 * p);
    assert(g * u == k * (2 * tu - 3 * pu)) by (nonlinear_arith)
        requires
            g == k * (2 * t - 3 * p),
            tu == t * u,
            pu == p * u,
    ;
    let s = 3 * x + 0x200_0000;
    assert(s * u == 3 * xu + 0x200_0000 * u) by (nonlinear_arith)
        requires
            s == 3 * x + 0x200_0000,
            xu == x * u,
    ;
    assert(-(s * u) <= g * u <= s * u);
    assert(-s <= g <= s) by (nonlinear_arith)
        requires
            -(s * u) <= g * u <= s * u,
            u > 0,
    ;
    assert(y <= 3 * x + 2) by (nonlinear_arith)
        requires
            yu <= 3 * xu + u + u,
            yu == y * u,
            xu == x * u,
            u > 0,
    ;
}

proof fn lemma_best_downbeat(act: Activations, around: int, lo: int, hi: int)
    requires
        lo <= hi,
        forall|i: int|
            lo <= i < hi ==> (#[trigger] downbeat_emphasis(act, i)).finite(),
    ensures
        ({
            let (best, fit) = best_downbeat(act, around, lo, hi);
            &&& lo == hi ==> best == around && fit == F32::minus_infinity()
            &&& lo < hi ==> lo <= best < hi && fit == downbeat_emphasis(act, best)
            &&& forall|i: int| lo <= i < hi ==> !fit.less(#[trigger] downbeat_emphasis(act, i))
            &&& forall|i: int|
                lo <= i < best && lo < hi ==> (#[trigger] downbeat_emphasis(act, i)).less(fit)
        }),
    decreases hi - lo,
{
    if lo < hi {
        lemma_best_downbeat(act, around, lo, hi - 1);
        let (best, fit) = best_downbeat(act, around, lo, hi - 1);
        let last = downbeat_emphasis(act, hi - 1);
        lemma_least_single(last);
        lemma_least_single(fit);
        if lo == hi - 1 {
            reveal(F32::less);
            reveal(crate::float::arith::less);
            reveal(F32::finite);
            lemma_formats();
            lemma_value_bounds(single_format(), last.datum());
            lemma_value_bounds(single_format(), F32::minus_infinity().datum());
        }
        lemma_order_single(fit, last, fit);
        lemma_order_single(last, fit, last);
        assert forall|i: int| lo <= i < hi implies !best_downbeat(act, around, lo, hi).1.less(
            #[trigger] downbeat_emphasis(act, i),
        ) by {
            lemma_order_single(fit, last, downbeat_emphasis(act, i));
            lemma_order_single(last, downbeat_emphasis(act, i), last);
        }
        if fit.less(last) {
            assert forall|i: int| lo <= i < hi - 1 implies (#[trigger] downbeat_emphasis(
                act,
                i,
            )).less(last) by {
                let e = downbeat_emphasis(act, i);
                lemma_least_single(e);
                lemma_order_single(e, fit, last);
                lemma_order_single(fit, e, last);
            }
        }
    }
}

/// The offset is moved to a frame within reach that no other frame within reach
/// fits better: but for a rounding of about a millionth, none has a greater
/// sum of three times its downbeat and twice its beat activation. A frame that
/// follows one whose activations are both as great is never taken.
pub proof fn lemma_refined_to_strongest(act: Activations, offset: F32, period: F32)
    requires
        act.beat@.len() == act.downbeat@.len(),
        forall|i: int|
            0 <= i < act.beat@.len() ==> small(#[trigger] act.beat@[i], 0x10_0000),
        forall|i: int|
            0 <= i < act.beat@.len() ==> small(#[trigger] act.downbeat@[i], 0x10_0000),
        !period.lt(F32::nearest_to(1)),
        frames_searched(act, offset, period).0 < frames_searched(act, offset, period).1,
    ensures
        ({
            let (lo, hi) = frames_searched(act, offset, period);
            exists|c: int|
                #![trigger act.beat@[c]]
                lo <= c < hi && refined_offset(act, offset, period) == F32::nearest_to(c).over(
                    F32::nearest_to(50),
                ) && forall|i: int|
                    #![trigger act.beat@[i]]
                    lo <= i < hi ==> {
                        let there = 3 * act.downbeat@[i].value() + 2 * act.beat@[i].value();
                        let here = 3 * act.downbeat@[c].value() + 2 * act.beat@[c].value();
                        let slack = abs(act.downbeat@[i].value()) + abs(act.beat@[i].value())
                            + abs(act.downbeat@[c].value()) + abs(act.beat@[c].value()) + 2
                            * unit();
                        &&& 0x8_0000 * (there - here) <= slack
                        &&& i < c ==> !(act.downbeat@[c].at_most(act.downbeat@[i])
                            && act.beat@[c].at_most(act.beat@[i]))
                    }
        }),
{
    let (lo, hi) = frames_searched(act, offset, period);
    let around = frame_around(offset);
    assert forall|i: int| lo <= i < hi implies (#[trigger] downbeat_emphasis(
        act,
        i,
    )).finite() by {
        assert(small(act.beat@[i], 0x10_0000) && small(act.downbeat@[i], 0x10_0000));
        lemma_fit_weighs(act, i);
    }
    lemma_best_downbeat(act, around, lo, hi);
    let c = best_downbeat(act, around, lo, hi).0;
    let fit = downbeat_emphasis(act, c);
    assert(small(act.beat@[c], 0x10_0000) && small(act.downbeat@[c], 0x10_0000));
    lemma_fit_weighs(act, c);
    assert forall|i: int| #![trigger act.beat@[i]] lo <= i < hi implies {
        let there = 3 * act.downbeat@[i].value() + 2 * act.beat@[i].value();
        let here = 3 * act.downbeat@[c].value() + 2 * act.beat@[c].value();
        let slack = abs(act.downbeat@[i].value()) + abs(act.beat@[i].value()) + abs(
            act.downbeat@[c].value(),
        ) + abs(act.beat@[c].value()) + 2 * unit();
        &&& 0x8_0000 * (there - here) <= slack
        &&& i < c ==> !(act.downbeat@[c].at_most(act.downbeat@[i]) && act.beat@[c].at_most(
            act.beat@[i],
        ))
    } by {
        assert(small(act.beat@[i], 0x10_0000) && small(act.downbeat@[i], 0x10_0000));
        let other = downbeat_emphasis(act, i);
        lemma_fit_weighs(act, i);
        assert(!fit.less(other));
        lemma_by_value_single(fit, other);
        if i < c && act.downbeat@[c].at_most(act.downbeat@[i]) && act.beat@[c].at_most(
            act.beat@[i],
        ) {
            lemma_fit_grows(act, c, i);
            assert(other.less(fit));
            lemma_order_single(other, fit, other);
        }
    }
}

/// Where no downbeat is heard, the offset is moved to the frame within reach
/// with the strongest beat, the first of equals.
pub proof fn lemma_refined_by_beats(act: Activations, offset: F32, period: F32)
    requires
        act.beat@.len() == act.downbeat@.len(),
        forall|i: int| 0 <= i < act.beat@.len() ==> (#[trigger] act.beat@[i]).finite(),
        forall|i: int|
            0 <= i < act.beat@.len() ==> #[trigger] act.downbeat@[i] == F32::zero(),
        !period.lt(F32::nearest_to(1)),
        frames_searched(act, offset, period).0 < frames_searched(act, offset, period).1,
    ensures
        ({
            let (lo, hi) = frames_searched(act, offset, period);
            exists|c: int|
                #![trigger act.beat@[c]]
                lo <= c < hi && refined_offset(act, offset, period) == F32::nearest_to(c).over(
                    F32::nearest_to(50),
                ) && forall|i: int|
                    #![trigger act.beat@[i]]
                    lo <= i < hi ==> act.beat@[i].value() <= act.beat@[c].value() && (i < c
                        ==> act.beat@[i].value() < act.beat@[c].value())
        }),
{
    let (lo, hi) = frames_searched(act, offset, period);
    let around = frame_around(offset);
    assert forall|i: int| lo <= i < hi implies (#[trigger] downbeat_emphasis(act, i)).finite()
        && downbeat_emphasis(act, i).value() == act.beat@[i].value() by {
        assert(act.downbeat@[i] == F32::zero());
        assert(act.beat@[i].finite());
        lemma_no_downbeat(act.beat@[i]);
    }
    lemma_best_downbeat(act, around, lo, hi);
    let c = best_downbeat(act, around, lo, hi).0;
    let fit = downbeat_emphasis(act, c);
    assert(act.beat@[c].finite());
    assert forall|i: int| #![trigger act.beat@[i]] lo <= i < hi implies act.beat@[i].value()
        <= act.beat@[c].value() && (i < c ==> act.beat@[i].value() < act.beat@[c].value()) by {
        let other = downbeat_emphasis(act, i);
        assert(!fit.less(other));
        lemma_by_value_single(fit, other);
        lemma_by_value_single(other, fit);
    }
}

proof fn lemma_no_downbeat(beat: F32)
    requires
        beat.finite(),
    ensures
        F32::zero().times(F32::ratio(3, 2)).plus(beat).finite(),
        F32::zero().times(F32::ratio(3, 2)).plus(beat).value() == beat.value(),
{
    let z = F32::zero().times(F32::ratio(3, 2));
    lemma_zeros();
    lemma_ratio_close(3, 2);
    lemma_zero_times(F32::ratio(3, 2));
    lemma_zero_plus(z, beat);
}

/// Moves an offset to the best start of a bar nearby.
pub fn refine_offset_with_downbeat(act: &Activations, offset: F32, period: F32) -> (r: F32)
    requires
        searchable(*act, offset, period),
    ensures
        r == refined_offset(*act, offset, period),
{
    let n: usize = act.downbeat.len();
    if n == 0 || period.lt(F32::whole(1)) {
        return offset;
    }
    let around: isize = offset.times(fps()).round().to_isize();
    let reach: isize = period.times(F32::ratio(1, 2)).ceil().to_isize();
    let first: i128 = around as i128 - reach as i128;
    let end: i128 = around as i128 + reach as i128 + 1;
    let lo: usize = if first > 0 {
        if first < n as i128 {
            first as usize
        } else {
            n
        }
    } else {
        0
    };
    let hi: usize = if end < n as i128 {
        if end > 0 {
            end as usize
        } else {
            0
        }
    } else {
        n
    };
    let mut best: Option<usize> = None;
    let mut value: F32 = F32::minus_infinity();
    let mut frame: usize = lo;
    while frame < hi
        invariant
            lo <= frame,
            frame <= hi || frame == lo,
            hi <= n,
            n == act.downbeat@.len(),
            lo < hi ==> hi <= act.beat@.len(),
            value == best_downbeat(*act, around as int, lo as int, frame as int).1,
            (match best {
                Some(f) => f as int,
                None => around as int,
            }) == best_downbeat(*act, around as int, lo as int, frame as int).0,
        decreases hi - frame,
    {
        let fit: F32 = act.downbeat[frame].times(F32::ratio(3, 2)).plus(act.beat[frame]);
        if fit.gt(value) {
            value = fit;
            best = Some(frame);
        }
        frame = frame + 1;
    }
    match best {
        Some(f) => F32::of_usize(f).over(fps()),
        None => F32::of_i64(around as i64).over(fps()),
    }
}

/// The curve that beats are placed on: beats, with some weight on the starts of
/// bars.
pub open spec fn strength(act: Activations) -> Seq<F32> {
    Seq::new(
        (if act.beat@.len() < act.downbeat@.len() {
            act.beat@.len()
        } else {
            act.downbeat@.len()
        }),
        |i: int| act.beat@[i].plus(F32::ratio(35, 100).times(act.downbeat@[i])),
    )
}

/// The first frame that carries a beat.
pub open spec fn first_beat(act: Activations, period: F32) -> int {
    let curve = strength(act);
    let beats = beat_frames(curve, period);
    if beats.len() > 0 {
        beats[0] as int
    } else {
        let reach = period.times(F32::nearest_to(2)).ceil().integer_part(0, usize::MAX as int);
        last_largest(
            curve,
            if reach < curve.len() {
                reach
            } else {
                curve.len() as int
            },
        )
    }
}

/// A tempo within three tenths of a whole number is taken to be that number.
pub open spec fn snapped(bpm: F32) -> F32 {
    if bpm.minus(bpm.round()).abs().lt(F32::ratio(3, 10)) {
        bpm.round()
    } else {
        bpm
    }
}

/// Snaps a tempo to the nearest whole number if it is close.
pub fn snap_tempo(bpm: F32) -> (r: F32)
    ensures
        r == snapped(bpm),
{
    let nearest: F32 = bpm.round();
    if bpm.minus(nearest).abs().lt(F32::ratio(3, 10)) {
        nearest
    } else {
        bpm
    }
}

/// The frames that decoding searches for the start of a bar exist.
pub open spec fn decodable(act: Activations) -> bool {
    match tempo(act.beat@, fps()) {
        None => true,
        Some((_bpm, period)) => searchable(
            act,
            F32::nearest_to(first_beat(act, period)).over(fps()),
            period,
        ),
    }
}

/// Beats per minute and the time of the first beat in seconds.
pub open spec fn decoded(act: Activations) -> Option<(F32, F32)> {
    if act.beat@.len() == 0 {
        None
    } else {
        match tempo(act.beat@, fps()) {
            None => None,
            Some((bpm, period)) => Some(
                (
                    snapped(bpm),
                    refined_offset(
                        act,
                        F32::nearest_to(first_beat(act, period)).over(fps()),
                        period,
                    ),
                ),
            ),
        }
    }
}

/// Decodes the tempo and the time of the first beat.
pub fn decode_bpm_offset(act: &Activations) -> (r: Option<(F32, F32)>)
    requires
        act.beat@.len() == 0 || decodable(*act),
    ensures
        r == decoded(*act),
{
    if act.is_empty() {
        return None;
    }
    let (bpm, period): (F32, F32) = match estimate_tempo(act.beat.as_slice(), fps()) {
        Some(found) => found,
        None => {
            return None;
        },
    };
    let n: usize = if act.beat.len() < act.downbeat.len() {
        act.beat.len()
    } else {
        act.downbeat.len()
    };
    let weight: F32 = F32::ratio(35, 100);
    let mut curve: Vec<F32> = Vec::new();
    let mut i: usize = 0;
    while i < n
        invariant
            i <= n,
            n == strength(*act).len(),
            n <= act.beat@.len(),
            n <= act.downbeat@.len(),
            weight == F32::ratio(35, 100),
            curve@ == strength(*act).take(i as int),
        decreases n - i,
    {
        curve.push(act.beat[i].plus(weight.times(act.downbeat[i])));
        proof {
            assert(curve@ =~= strength(*act).take(i + 1));
        }
        i = i + 1;
    }
    proof {
        assert(curve@ =~= strength(*act));
    }
    let beats: Vec<usize> = track_beats_dp(curve.as_slice(), period);
    let first: usize = if beats.len() > 0 {
        beats[0]
    } else {
        let reach: usize = period.times(F32::whole(2)).ceil().to_usize();
        last_largest_of(
            curve.as_slice(),
            if reach < curve.len() {
                reach
            } else {
                curve.len()
            },
        )
    };
    let offset: F32 = F32::of_usize(first).over(fps());
    let offset: F32 = refine_offset_with_downbeat(act, offset, period);
    Some((snap_tempo(bpm), offset))
}

/// A tempo within three tenths of a whole number becomes that number, any other
/// stays as it is.
pub proof fn lemma_snaps_to_whole(bpm: F32, k: int)
    requires
        bpm.finite(),
        0 <= k < 0x1_0000,
        2 * k * unit() - unit() < 2 * bpm.value() < 2 * k * unit() + unit(),
    ensures
        ({
            let off = abs(bpm.value() - k * unit());
            &&& 100 * off <= 29 * unit() ==> snapped(bpm).value() == k * unit()
            &&& 100 * off >= 31 * unit() ==> snapped(bpm) == bpm
        }),
{
    let u = unit();
    lemma_unit();
    lemma_round_of(bpm, k, i64::MIN as int, i64::MAX as int);
    let n = bpm.round();
    assert(2 * k * u == 2 * (k * u)) by (nonlinear_arith);
    assert(0 <= k * u <= 0x1_0000 * u) by (nonlinear_arith)
        requires
            0 <= k < 0x1_0000,
            u > 0,
    ;
    assert(small(bpm, 0x1_0001) && small(n, 0x1_0001));
    lemma_minus_close(bpm, n, 0x1_0001, 0x1_0001);
    let d = bpm.minus(n);
    lemma_magnitude_is_finite(d);
    lemma_ratio_close(3, 10);
    lemma_by_value_single(d.abs(), F32::ratio(3, 10));
}

/// The strength of a frame is its beat activation and 35 hundredths of its
/// downbeat activation, but for rounding.
pub proof fn lemma_strength_weighs(act: Activations, i: int)
    requires
        0 <= i < act.beat@.len(),
        i < act.downbeat@.len(),
        small(act.beat@[i], 0x10_0000),
        small(act.downbeat@[i], 0x10_0000),
    ensures
        i < strength(act).len(),
        strength(act)[i].finite(),
        ({
            let b = act.beat@[i].value();
            let d = act.downbeat@[i].value();
            let gap = 100 * strength(act)[i].value() - (100 * b + 35 * d);
            let slack = 100 * (abs(b) + abs(d) + unit());
            -slack <= 0x10_0000 * gap <= slack
        }),
{
    let b = act.beat@[i];
    let d = act.downbeat@[i];
    lemma_unit();
    lemma_small_within(d, 0x10_0000, 0x1000_0000);
    lemma_times_fraction(d, 35, 100);
    lemma_times_commutes(d, F32::ratio(35, 100));
    lemma_plus_close(b, d.times(F32::ratio(35, 100)), 0x10_0000, 0x1_0000_0000_0000);
}

/// A step costs a tenth of how far it is off the period, as a share of the period,
/// but for rounding; one that is exact costs nothing.
pub proof fn lemma_penalty_is_share(step: int, period: F32)
    requires
        0 <= step < 0x10_0000,
        small(period, 0x10_0000),
        period.value() >= unit(),
    ensures
        step_penalty(step, period).finite(),
        ({
            let u = unit();
            let p = period.value();
            let off = abs(step * u - p);
            let gap = 10 * (step_penalty(step, period).value() * p) + off * u;
            let slack = (off + p) * u;
            -slack <= 0x10_0000 * gap <= slack
        }),
{
    let u = unit();
    let s = F32::nearest_to(step);
    let p = period.value();
    lemma_unit();
    lemma_whole_single(step);
    assert(0 <= step * u <= 0x10_0000 * u) by (nonlinear_arith)
        requires
            0 <= step < 0x10_0000,
            u > 0,
    ;
    lemma_minus_close(s, period, 0x10_0000, 0x10_0000);
    let d = s.minus(period);
    lemma_magnitude_is_finite(d);
    let x = d.abs();
    let m = 0x40_0001int;
    assert(small(x, m));
    assert(-((m * u) * p) <= x.value() * u <= (m * u) * p) by (nonlinear_arith)
        requires
            -(m * u) <= x.value() <= m * u,
            p >= u,
            u > 0,
            m > 0,
    ;
    lemma_over_close(x, period, m);
    let q = x.over(period);
    lemma_opposite_close(q, 2 * m + 1);
    lemma_small_within(q.opposite(), 2 * m + 1, 0x1000_0000);
    lemma_times_fraction(q.opposite(), 1, 10);
    let t = q.opposite().times(F32::ratio(1, 10));
    lemma_penalty(step * u, p, d.value(), q.value(), t.value(), u);
}

proof fn lemma_penalty(s: int, p: int, d: int, q: int, t: int, u: int)
    requires
        u >= 0x1_0000_0000_0000,
        p >= u,
        close(d, s - p, 1),
        close(q, abs(d) * u, p),
        ({
            let gap = 10 * t + q;
            let slack = abs(q) + u;
            -slack <= 0x40_0000 * gap <= slack
        }),
    ensures
        ({
            let off = abs(s - p);
            let gap = 10 * (t * p) + off * u;
            let slack = (off + p) * u;
            -slack <= 0x10_0000 * gap <= slack
        }),
{
    let off = abs(s - p);
    let x = abs(d);
    let qp = q * p;
    let tp = t * p;
    let xu = x * u;
    let ou = off * u;
    let pu = p * u;
    assert((off + p) * u == ou + pu) by (nonlinear_arith)
        requires
            ou == off * u,
            pu == p * u,
    ;
    assert(0 <= xu && 0 <= ou && 0x1_0000_0000_0000 * p <= pu) by (nonlinear_arith)
        requires
            xu == x * u,
            ou == off * u,
            pu == p * u,
            x >= 0,
            off >= 0,
            p > 0,
            u >= 0x1_0000_0000_0000,
    ;
    // the distance
    let e = x + 0x80_0000;
    let g = x - off;
    assert(-e <= 0x100_0000 * g <= e);
    lemma_scale(0x100_0000 * g, e, u);
    assert(e * u == xu + 0x80_0000 * u) by (nonlinear_arith)
        requires
            e == x + 0x80_0000,
            xu == x * u,
    ;
    assert((0x100_0000 * g) * u == 0x100_0000 * (xu - ou)) by (nonlinear_arith)
        requires
            g == x - off,
            xu == x * u,
            ou == off * u,
    ;
    assert(0x80_0000 * u <= pu) by (nonlinear_arith)
        requires
            pu == p * u,
            p >= 0x1_0000_0000_0000,
            u > 0,
    ;
    // the share
    let aq = abs(q) * p;
    assert(aq == qp || aq == -qp) by (nonlinear_arith)
        requires
            aq == abs(q) * p,
            qp == q * p,
            abs(q) == q || abs(q) == -q,
    ;
    let v = 10 * t + q;
    let w = abs(q) + u;
    lemma_scale(0x40_0000 * v, w, p);
    assert(w * p == aq + pu) by (nonlinear_arith)
        requires
            w == abs(q) + u,
            aq == abs(q) * p,
            pu == p * u,
    ;
    assert((0x40_0000 * v) * p == 0x40_0000 * (10 * tp + qp)) by (nonlinear_arith)
        requires
            v == 10 * t + q,
            qp == q * p,
            tp == t * p,
    ;
}

/// The sum of the products of the first `n` samples with those `lag` later,
/// exactly, in squared units.
pub open spec fn exact_lagged(s: Seq<F32>, lag: int, n: int) -> int
    decreases n,
{
    if n <= 0 {
        0
    } else {
        exact_lagged(s, lag, n - 1) + s[n - 1].value() * s[n - 1 + lag].value()
    }
}

/// The same sum with every product without its sign.
pub open spec fn lagged_mass(s: Seq<F32>, lag: int, n: int) -> int
    decreases n,
{
    if n <= 0 {
        0
    } else {
        lagged_mass(s, lag, n - 1) + abs(s[n - 1].value() * s[n - 1 + lag].value())
    }
}

/// The autocorrelation sums, but for rounding, the products of the samples with
/// those the lag later.
pub proof fn lemma_lagged_products(s: Seq<F32>, lag: int, n: int)
    requires
        0 <= lag,
        0 <= n <= 0x1_0000,
        n + lag <= s.len(),
        forall|i: int| 0 <= i < s.len() ==> small(#[trigger] s[i], 0x100),
    ensures
        lagged_sum(s, lag, n).finite(),
        small(lagged_sum(s, lag, n), 0x1_0000_0000_0000),
        abs(exact_lagged(s, lag, n)) <= lagged_mass(s, lag, n),
        0 <= lagged_mass(s, lag, n) <= n * (0x1_0000 * (unit() * unit())),
        ({
            let gap = lagged_sum(s, lag, n).value() * unit() - exact_lagged(s, lag, n);
            let slack = (8 * n) * (lagged_mass(s, lag, n) + 0x200_0000 * unit());
            -slack <= 0x100_0000 * gap <= slack
        }),
    decreases n,
{
    let u = unit();
    lemma_unit();
    lemma_zeros();
    if n <= 0 {
        assert(0 * u == 0 && (8 * n) * (0 + 0x200_0000 * u) == 0 && n * (0x1_0000 * (u * u)) == 0)
            by (nonlinear_arith)
            requires
                n == 0,
        ;
    } else {
        lemma_lagged_products(s, lag, n - 1);
        let x = s[n - 1];
        let y = s[n - 1 + lag];
        assert(small(x, 0x100) && small(y, 0x100));
        let b = lagged_sum(s, lag, n - 1);
        let t = x.times(y);
        lemma_times_close(x, y, 0x100, 0x100);
        lemma_small_within(t, 2 * (0x100int * 0x100) + 1, 0x4_0000);
        lemma_plus_close(b, t, 0x1_0000_0000_0000, 0x4_0000);
        let a = b.plus(t);
        let p = x.value() * y.value();
        let m = lagged_mass(s, lag, n - 1);
        lemma_term(
            b.value(),
            t.value(),
            a.value(),
            exact_lagged(s, lag, n - 1),
            p,
            m,
            8 * (n - 1),
            u,
        );
        let uu = u * u;
        assert(abs(p) <= 0x1_0000 * uu) by (nonlinear_arith)
            requires
                -(0x100 * u) <= x.value() <= 0x100 * u,
                -(0x100 * u) <= y.value() <= 0x100 * u,
                p == x.value() * y.value(),
                uu == u * u,
                u > 0,
                abs(p) == p || abs(p) == -p,
        ;
        let big = 0x1_0000 * uu;
        assert((n - 1) * big + big == n * big) by (nonlinear_arith);
        lemma_lagged_bound(a, n, m + abs(p), exact_lagged(s, lag, n), u);
    }
}

proof fn lemma_lagged_bound(a: F32, n: int, m: int, exact: int, u: int)
    requires
        a.finite(),
        u == unit(),
        1 <= n <= 0x1_0000,
        0 <= m <= n * (0x1_0000 * (u * u)),
        abs(exact) <= m,
        ({
            let gap = a.value() * u - exact;
            let slack = (8 * n) * (m + 0x200_0000 * u);
            -slack <= 0x100_0000 * gap <= slack
        }),
    ensures
        small(a, 0x1_0000_0000_0000),
{
    let uu = u * u;
    let v = a.value() * u;
    lemma_unit();
    assert(m <= 0x1_0000_0000 * uu) by (nonlinear_arith)
        requires
            0 <= m <= n * (0x1_0000 * uu),
            1 <= n <= 0x1_0000,
            uu >= 0,
    ;
    let z = m + 0x200_0000 * u;
    assert((8 * n) * z <= 0x8_0000 * z) by (nonlinear_arith)
        requires
            1 <= n <= 0x1_0000,
            z >= 0,
    ;
    assert(u <= uu) by (nonlinear_arith)
        requires
            u >= 1,
            uu == u * u,
    ;
    assert(-(0x1_0000_0000_0000 * uu) <= v <= 0x1_0000_0000_0000 * uu);
    let top = 0x1_0000_0000_0000 * u;
    assert(top * u == 0x1_0000_0000_0000 * uu) by (nonlinear_arith)
        requires
            top == 0x1_0000_0000_0000 * u,
            uu == u * u,
    ;
    assert((-top) * u == -(top * u)) by (nonlinear_arith);
    lemma_cancel(a.value(), top, u);
    lemma_cancel(-top, a.value(), u);
}

/// The autocorrelation at a lag is a mean: but for rounding, times the number of
/// pairs it is the sum of their products.
pub proof fn lemma_autocorrelation_is_mean(s: Seq<F32>, lag: int)
    requires
        0 <= lag < s.len() <= 0x1_0000,
        forall|i: int| 0 <= i < s.len() ==> small(#[trigger] s[i], 0x100),
    ensures
        autocorrelation(s, lag).finite(),
        ({
            let n = s.len() - lag;
            let gap = autocorrelation(s, lag).value() * n - lagged_sum(s, lag, n).value();
            let slack = abs(lagged_sum(s, lag, n).value()) + unit();
            -slack <= 0x40_0000 * gap <= slack
        }),
        autocorrelation(s, s.len() as int) == F32::zero(),
{
    let n = s.len() - lag;
    let u = unit();
    lemma_unit();
    lemma_lagged_products(s, lag, n);
    let t = lagged_sum(s, lag, n);
    let d = F32::nearest_to(n);
    lemma_whole_single(n);
    let m = 0x1_0000_0000_0000int;
    assert(d.value() >= u) by (nonlinear_arith)
        requires
            d.value() == n * u,
            n >= 1,
            u > 0,
    ;
    assert(-((m * u) * d.value()) <= t.value() * u <= (m * u) * d.value()) by (nonlinear_arith)
        requires
            -(m * u) <= t.value() <= m * u,
            d.value() >= u,
            u > 0,
            m > 0,
    ;
    lemma_over_close(t, d, m);
    let r = t.over(d).value();
    lemma_close_reduced(r, t.value(), n, u);
    let rn = r * n;
    assert(abs(r) * n == rn || abs(r) * n == -rn) by (nonlinear_arith)
        requires
            rn == r * n,
            abs(r) == r || abs(r) == -r,
    ;
    assert(abs(r) * n >= 0) by (nonlinear_arith)
        requires
            abs(r) >= 0,
            n > 0,
    ;
}

proof fn lemma_crest(corr: Seq<F32>, lo: int, hi: int, n: int)
    requires
        lo <= n,
        forall|i: int| lo <= i < n ==> (#[trigger] corr[i]).finite(),
    ensures
        ({
            let (best, level) = strongest_crest(corr, lo, hi, n);
            &&& level == F32::minus_infinity() ==> best == lo && forall|k: int|
                lo <= k < n ==> !#[trigger] is_crest(corr, lo, hi, k)
            &&& level != F32::minus_infinity() ==> lo <= best < n && is_crest(corr, lo, hi, best)
                && level == corr[best] && (forall|k: int|
                lo <= k < n && #[trigger] is_crest(corr, lo, hi, k) ==> corr[k].value()
                    <= corr[best].value() && (k < best ==> corr[k].value() < corr[best].value()))
        }),
    decreases n - lo,
{
    if lo < n {
        lemma_crest(corr, lo, hi, n - 1);
        let (best, level) = strongest_crest(corr, lo, hi, n - 1);
        let x = corr[n - 1];
        assert(x.finite());
        lemma_above_bottom(x);
        lemma_order_single(x, x, x);
        if level != F32::minus_infinity() {
            assert(corr[best].finite());
            lemma_by_value_single(corr[best], x);
        }
    }
}

/// Where a lag is looked for among the crests of the autocorrelation, the highest
/// crest is taken, the first of equals.
pub proof fn lemma_highest_crest(corr: Seq<F32>, lo: int, hi: int, lag: int)
    requires
        lo <= lag <= hi,
        is_crest(corr, lo, hi, lag),
        forall|i: int| lo <= i <= hi ==> (#[trigger] corr[i]).finite(),
    ensures
        ({
            let best = strongest_crest(corr, lo, hi, hi + 1).0;
            &&& lo <= best <= hi && is_crest(corr, lo, hi, best)
            &&& corr[lag].value() <= corr[best].value()
            &&& lag < best ==> corr[lag].value() < corr[best].value()
        }),
{
    lemma_crest(corr, lo, hi, hi + 1);
}

/// The lag between beats is drawn to the higher neighbour of its crest.
pub proof fn lemma_lag_leans(corr: Seq<F32>, lag: int, lo: int, hi: int)
    requires
        0 <= lo <= lag <= hi < corr.len(),
        lag < 0x80_0000,
        forall|i: int| 0 <= i < corr.len() ==> small(#[trigger] corr[i], 0x10_0000),
    ensures
        ({
            let here = F32::nearest_to(lag);
            let r = vertex(corr, lag, lo, hi);
            if lo < lag < hi {
                let c = corr[lag].value();
                let a = corr[lag - 1].value();
                let b = corr[lag + 1].value();
                &&& 2 * c - b - a > unit() && b >= a ==> here.at_most(r)
                &&& 2 * c - b - a > unit() && b <= a ==> r.at_most(here)
            } else {
                r == here
            }
        }),
{
    let here = F32::nearest_to(lag);
    let u = unit();
    lemma_unit();
    lemma_whole_single(lag);
    if lo < lag < hi {
        let x = corr[lag];
        let a = corr[lag - 1];
        let b = corr[lag + 1];
        assert(small(x, 0x10_0000) && small(a, 0x10_0000) && small(b, 0x10_0000));
        if 2 * x.value() - b.value() - a.value() > u {
            let two = F32::nearest_to(2);
            let bend = two.times(two.times(x).minus(b).minus(a));
            lemma_parabola_leans(here, a, x, b);
            lemma_ratio_close(1, 1_000_000);
            lemma_magnitude_is_finite(bend);
            lemma_by_value_single(F32::ratio(1, 1_000_000), bend.abs());
        }
    }
}

/// Every local peak of an envelope is matched by one that is kept and at least as
/// strong.
pub proof fn lemma_strong_peaks_kept(env: Seq<F32>, threshold: F32, n: int, i: int)
    requires
        1 <= i < n < env.len() <= usize::MAX,
        forall|k: int| 0 <= k < env.len() ==> (#[trigger] env[k]).finite(),
        is_local_peak(env, threshold, i),
    ensures
        exists|k: int|
            0 <= k < peaks_before(env, threshold, n).len() && env[i].value() <= env[
                #[trigger] peaks_before(env, threshold, n)[k] as int
            ].value(),
    decreases n,
{
    lemma_peaks_apart(env, threshold, n);
    lemma_peaks_apart(env, threshold, n - 1);
    let p = peaks_before(env, threshold, n);
    let before = peaks_before(env, threshold, n - 1);
    assert(env[n - 1].finite());
    if before.len() > 0 {
        assert(env[before.last() as int].finite());
        lemma_by_value_single(env[before.last() as int], env[n - 1]);
        lemma_by_value_single(env[n - 1], env[before.last() as int]);
    }
    if i == n - 1 {
        assert(p.len() > 0);
        assert(env[i].value() <= env[p[p.len() - 1] as int].value());
    } else {
        lemma_strong_peaks_kept(env, threshold, n - 1, i);
        let k = choose|k: int|
            0 <= k < before.len() && env[i].value() <= env[#[trigger] before[k] as int].value();
        assert(env[i].value() <= env[p[k] as int].value());
    }
}

/// Of two lags that explain the same beats, half the lag is taken only where its
/// autocorrelation is clearly higher, and twice the lag only where its is.
pub proof fn lemma_lag_settles(corr: Seq<F32>, ioi: int, lo: int, hi: int)
    requires
        0 <= lo <= ioi <= hi < corr.len(),
        forall|i: int| 0 <= i < corr.len() ==> small(#[trigger] corr[i], 0x10_0000),
        corr[ioi].value() >= unit(),
    ensures
        ({
            let r = settled_lag(corr, ioi, lo, hi);
            let c = corr[ioi].value();
            let h = corr[ioi / 2].value();
            &&& r == ioi || r == ioi / 2 || r == 2 * ioi
            &&& r == ioi / 2 && r != ioi ==> lo <= r && 100 * h > 114 * c
            &&& lo <= ioi / 2 && 100 * h > 116 * c && ioi >= 2 ==> r != ioi
            &&& r == 2 * ioi && r != ioi ==> r <= hi && corr[r].value() > c
        }),
{
    let half = ioi / 2;
    let double = 2 * ioi;
    let c = corr[ioi];
    let h = corr[half];
    lemma_unit();
    assert(small(c, 0x10_0000) && small(h, 0x10_0000));
    lemma_small_within(c, 0x10_0000, 0x1000_0000);
    lemma_times_fraction(c, 115, 100);
    lemma_by_value_single(c.times(F32::ratio(115, 100)), h);
    if double <= hi {
        assert(small(corr[double], 0x10_0000));
        lemma_by_value_single(c, corr[double]);
    }
}

} // verus!

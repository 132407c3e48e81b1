//! The three-band equaliser.
use vstd::prelude::*;
use crate::float::arith::abs;
use crate::float::close::{
    lemma_half, lemma_minus_close, lemma_plus_close, lemma_ratio_close, lemma_times_fraction,
    lemma_times_whole_close, lemma_unit, small, unit,
};
use crate::float::exact::lemma_cancels_single;
use crate::float::order::{lemma_by_value_single, lemma_zero_plus, lemma_zero_times};
use crate::float::single::F32;
use super::biquad::{designed, filter_angle, gain_exponent, Biquad, FilterType, Tone};

verus! {

/// The gain in decibels of a knob: 24 down at zero, none in the middle, 6 up
/// at one.
#[verifier::allow_in_spec]
pub fn map_gain(v: F32) -> F32
    returns
        (if v.lt(F32::ratio(1, 2)) {
            v.minus(F32::ratio(1, 2)).times(F32::nearest_to(48))
        } else {
            v.minus(F32::ratio(1, 2)).times(F32::nearest_to(12))
        }),
{
    let half: F32 = F32::ratio(1, 2);
    if v.lt(half) {
        v.minus(half).times(F32::whole(48))
    } else {
        v.minus(half).times(F32::whole(12))
    }
}

/// A tenth of the way from one gain to another.
#[verifier::allow_in_spec]
pub fn approach(current: F32, target: F32) -> F32
    returns
        current.plus(target.minus(current).times(F32::ratio(1, 10))),
{
    current.plus(target.minus(current).times(F32::ratio(1, 10)))
}

/// The gain of a knob is a line on each side of the middle, and meets zero
/// there: but for rounding, 48 decibels times what lies below one half, 12 times
/// what lies above.
pub proof fn lemma_gain_is_linear(v: F32)
    requires
        small(v, 0x100),
    ensures
        map_gain(v).finite(),
        ({
            let slope = if 2 * v.value() < unit() {
                48int
            } else {
                12int
            };
            let gap = 2 * map_gain(v).value() - slope * (2 * v.value() - unit());
            let slack = slope * (2 * abs(v.value()) + unit());
            -slack <= 0x10_0000 * gap <= slack
        }),
{
    let half = F32::ratio(1, 2);
    lemma_unit();
    lemma_half();
    lemma_by_value_single(v, half);
    lemma_minus_close(v, half, 0x100, 1);
    let d = v.minus(half);
    lemma_times_whole_close(d, 48, 2 * (0x100int + 1) + 1);
    lemma_times_whole_close(d, 12, 2 * (0x100int + 1) + 1);
}

/// A step takes the gain a tenth of the way: but for rounding, ten times the new
/// gain is nine times the old one and the gain that is aimed at.
pub proof fn lemma_tenth_of_the_way(current: F32, target: F32)
    requires
        small(current, 0x10_0000),
        small(target, 0x10_0000),
    ensures
        approach(current, target).finite(),
        ({
            let c = current.value();
            let t = target.value();
            let gap = 10 * approach(current, target).value() - (9 * c + t);
            let slack = abs(c) + abs(t) + unit();
            -slack <= 0x4_0000 * gap <= slack
        }),
{
    lemma_unit();
    lemma_minus_close(target, current, 0x10_0000, 0x10_0000);
    let d = target.minus(current);
    assert(small(d, 0x1000_0000));
    lemma_times_fraction(d, 1, 10);
    let s = d.times(F32::ratio(1, 10));
    lemma_plus_close(current, s, 0x10_0000, 0x1_0000_0000_0000);
}

/// A gain that is where the knob wants it stays there.
pub proof fn lemma_reached_gain_stays(gain: F32)
    requires
        gain.finite(),
    ensures
        approach(gain, gain).finite(),
        approach(gain, gain).value() == gain.value(),
{
    lemma_cancels_single(gain);
    lemma_ratio_close(1, 10);
    lemma_zero_times(F32::ratio(1, 10));
    lemma_zero_plus(F32::zero().times(F32::ratio(1, 10)), gain);
}

/// The frequency of the low shelf, in hertz.
pub const LOW_FREQ: i32 = 200;

/// The frequency of the middle band, in hertz.
pub const MID_FREQ: i32 = 1000;

/// The frequency of the high shelf, in hertz.
pub const HIGH_FREQ: i32 = 4000;

/// The quality of the shelves.
#[verifier::allow_in_spec]
pub fn shelf_quality() -> F32
    returns
        F32::ratio(707, 1000),
{
    F32::ratio(707, 1000)
}

/// The state of the equaliser: for each channel a filter of each band, the
/// gains in decibels, and where in the stream it is.
pub struct EqSource {
    pub low_filter: Vec<Biquad>,
    pub mid_filter: Vec<Biquad>,
    pub high_filter: Vec<Biquad>,
    pub current_low: F32,
    pub current_mid: F32,
    pub current_high: F32,
    pub sample_rate: u32,
    pub channels: usize,
    pub channel_cursor: usize,
    /// Samples until the gains are looked at again.
    pub counter: usize,
}

/// The settings of the three knobs.
#[derive(Clone, Copy, Debug)]
pub struct Knobs {
    pub low: F32,
    pub mid: F32,
    pub high: F32,
}

/// The tones of the three bands.
#[derive(Clone, Copy, Debug)]
pub struct Tones {
    pub low: Tone,
    pub mid: Tone,
    pub high: Tone,
}

/// What the tone of a band is computed from: the exponent, to the base ten, of its
/// amplitude, and its angle.
#[derive(Clone, Copy, Debug, PartialEq, Eq, Structural)]
pub struct Band {
    pub exponent: F32,
    pub angle: F32,
}

/// What the tones of the three bands are computed from.
#[derive(Clone, Copy, Debug, PartialEq, Eq, Structural)]
pub struct Bands {
    pub low: Band,
    pub mid: Band,
    pub high: Band,
}

/// A band of the given gain in decibels and frequency in hertz.
#[verifier::allow_in_spec]
pub fn band_of(gain: F32, frequency: i32, sample_rate: u32) -> Band
    returns
        (Band {
            exponent: gain_exponent(gain),
            angle: filter_angle(F32::nearest_to(frequency as int), sample_rate),
        }),
{
    Band {
        exponent: gain_exponent(gain),
        angle: filter_angle(F32::whole(frequency), sample_rate),
    }
}

/// The bands of an equaliser that begins with the gains of the knobs.
#[verifier::allow_in_spec]
pub fn first_bands(knobs: Knobs, sample_rate: u32) -> Bands
    returns
        (Bands {
            low: band_of(map_gain(knobs.low), LOW_FREQ, sample_rate),
            mid: band_of(map_gain(knobs.mid), MID_FREQ, sample_rate),
            high: band_of(map_gain(knobs.high), HIGH_FREQ, sample_rate),
        }),
{
    Bands {
        low: band_of(map_gain(knobs.low), LOW_FREQ, sample_rate),
        mid: band_of(map_gain(knobs.mid), MID_FREQ, sample_rate),
        high: band_of(map_gain(knobs.high), HIGH_FREQ, sample_rate),
    }
}

/// Every filter with the coefficients of a design.
pub open spec fn all_tuned(
    filters: Seq<Biquad>,
    filter_type: FilterType,
    t: Tone,
    q: F32,
) -> Seq<Biquad> {
    filters.map_values(|f: Biquad| f.tuned(designed(filter_type, t, q)))
}

/// The filters of the low band, tuned.
pub open spec fn low_tuned(filters: Seq<Biquad>, tones: Tones) -> Seq<Biquad> {
    all_tuned(filters, FilterType::LowShelf, tones.low, shelf_quality())
}

/// The filters of the middle band, tuned.
pub open spec fn mid_tuned(filters: Seq<Biquad>, tones: Tones) -> Seq<Biquad> {
    all_tuned(filters, FilterType::Peaking, tones.mid, F32::nearest_to(1))
}

/// The filters of the high band, tuned.
pub open spec fn high_tuned(filters: Seq<Biquad>, tones: Tones) -> Seq<Biquad> {
    all_tuned(filters, FilterType::HighShelf, tones.high, shelf_quality())
}

fn tune_all(filters: &mut Vec<Biquad>, filter_type: FilterType, t: Tone, q: F32)
    ensures
        final(filters)@ == all_tuned(old(filters)@, filter_type, t, q),
{
    let ghost before = filters@;
    let mut i: usize = 0;
    while i < filters.len()
        invariant
            i <= filters@.len() == before.len(),
            forall|k: int|
                0 <= k < i ==> #[trigger] filters@[k] == before[k].tuned(
                    designed(filter_type, t, q),
                ),
            forall|k: int| i <= k < before.len() ==> #[trigger] filters@[k] == before[k],
        decreases before.len() - i,
    {
        let mut f: Biquad = filters[i];
        f.calculate(filter_type, t, q);
        filters.set(i, f);
        i = i + 1;
    }
    assert(filters@ =~= all_tuned(before, filter_type, t, q));
}

fn fresh_filters(channels: usize) -> (r: Vec<Biquad>)
    ensures
        r@ == Seq::new(channels as nat, |i: int| Biquad::new()),
{
    let mut out: Vec<Biquad> = Vec::new();
    let mut i: usize = 0;
    while i < channels
        invariant
            i <= channels,
            out@ == Seq::new(i as nat, |k: int| Biquad::new()),
        decreases channels - i,
    {
        out.push(Biquad::new());
        i = i + 1;
    }
    out
}

/// The samples until the gains are looked at again, one sample later; where
/// they were due, sixty-four frames begin.
pub open spec fn next_count(count: int, channels: int) -> int {
    if count == 0 {
        64 * channels - 1
    } else {
        count - 1
    }
}

impl EqSource {
    /// There is a filter of each band for each channel, the cursor is on a
    /// channel, and the gains are looked at within sixty-four frames.
    pub open spec fn wf(self) -> bool {
        &&& 0 < self.channels <= u16::MAX
        &&& self.low_filter@.len() == self.channels
        &&& self.mid_filter@.len() == self.channels
        &&& self.high_filter@.len() == self.channels
        &&& self.channel_cursor < self.channels
        &&& self.counter < 64 * self.channels
    }

    /// An equaliser whose gains are those of the knobs, and whose filters have the
    /// tones of the bands that it begins with.
    pub fn new(channels: u16, sample_rate: u32, knobs: Knobs, tones: Tones) -> (r: EqSource)
        ensures
            channels > 0 ==> r.wf(),
            ({
                let fresh = Seq::new(channels as nat, |i: int| Biquad::new());
                &&& r.low_filter@ == low_tuned(fresh, tones)
                &&& r.mid_filter@ == mid_tuned(fresh, tones)
                &&& r.high_filter@ == high_tuned(fresh, tones)
            }),
            r.current_low == map_gain(knobs.low),
            r.current_mid == map_gain(knobs.mid),
            r.current_high == map_gain(knobs.high),
            r.sample_rate == sample_rate,
            r.channels == channels,
            r.channel_cursor == 0,
            r.counter == 0,
    {
        let n: usize = channels as usize;
        let mut low: Vec<Biquad> = fresh_filters(n);
        let mut mid: Vec<Biquad> = fresh_filters(n);
        let mut high: Vec<Biquad> = fresh_filters(n);
        tune_all(&mut low, FilterType::LowShelf, tones.low, shelf_quality());
        tune_all(&mut mid, FilterType::Peaking, tones.mid, F32::whole(1));
        tune_all(&mut high, FilterType::HighShelf, tones.high, shelf_quality());
        EqSource {
            low_filter: low,
            mid_filter: mid,
            high_filter: high,
            current_low: map_gain(knobs.low),
            current_mid: map_gain(knobs.mid),
            current_high: map_gain(knobs.high),
            sample_rate,
            channels: n,
            channel_cursor: 0,
            counter: 0,
        }
    }

    /// The bands at the gains as they are.
    pub open spec fn bands(self) -> Bands {
        Bands {
            low: band_of(self.current_low, LOW_FREQ, self.sample_rate),
            mid: band_of(self.current_mid, MID_FREQ, self.sample_rate),
            high: band_of(self.current_high, HIGH_FREQ, self.sample_rate),
        }
    }

    /// The equaliser with its gains a tenth of the way to the knobs.
    pub open spec fn approached(self, knobs: Knobs) -> EqSource {
        EqSource {
            current_low: approach(self.current_low, map_gain(knobs.low)),
            current_mid: approach(self.current_mid, map_gain(knobs.mid)),
            current_high: approach(self.current_high, map_gain(knobs.high)),
            ..self
        }
    }

    /// Looks at the gains before the next sample, if that is due: brings them a tenth
    /// of the way to the knobs, and gives the bands whose tones are needed.
    pub fn prepare(&mut self, knobs: Knobs) -> (r: Option<Bands>)
        requires
            old(self).wf(),
        ensures
            final(self).wf(),
            if old(self).due() {
                &&& *final(self) == old(self).approached(knobs)
                &&& r == Some(old(self).approached(knobs).bands())
            } else {
                *final(self) == *old(self) && r is None
            },
    {
        if !self.due() {
            return None;
        }
        self.retarget(knobs, false);
        Some(
            Bands {
                low: band_of(self.current_low, LOW_FREQ, self.sample_rate),
                mid: band_of(self.current_mid, MID_FREQ, self.sample_rate),
                high: band_of(self.current_high, HIGH_FREQ, self.sample_rate),
            },
        )
    }

    /// The next sample, filtered, from the next one of the stream; none at its end.
    /// Where the gains were due, the filters first get the tones of their bands.
    pub fn next(&mut self, tones: Option<Tones>, input: Option<F32>) -> (r: Option<F32>)
        requires
            old(self).wf(),
            tones is Some == old(self).due(),
        ensures
            final(self).wf(),
            ({
                let c = old(self).channel_cursor as int;
                let lows = match tones {
                    Some(t) => low_tuned(old(self).low_filter@, t),
                    None => old(self).low_filter@,
                };
                let mids = match tones {
                    Some(t) => mid_tuned(old(self).mid_filter@, t),
                    None => old(self).mid_filter@,
                };
                let highs = match tones {
                    Some(t) => high_tuned(old(self).high_filter@, t),
                    None => old(self).high_filter@,
                };
                match input {
                    Some(x) => {
                        let low = lows[c].response(x);
                        let mid = mids[c].response(low);
                        &&& r == Some(highs[c].response(mid))
                        &&& final(self).low_filter@ == lows.update(c, lows[c].after(x))
                        &&& final(self).mid_filter@ == mids.update(c, mids[c].after(low))
                        &&& final(self).high_filter@ == highs.update(c, highs[c].after(mid))
                        &&& final(self).channel_cursor == (c + 1) % old(self).channels as int
                    },
                    None => {
                        &&& r is None
                        &&& final(self).low_filter@ == lows
                        &&& final(self).mid_filter@ == mids
                        &&& final(self).high_filter@ == highs
                        &&& final(self).channel_cursor == c
                    },
                }
            }),
            final(self).counter == next_count(
                old(self).counter as int,
                old(self).channels as int,
            ),
            final(self).current_low == old(self).current_low,
            final(self).current_mid == old(self).current_mid,
            final(self).current_high == old(self).current_high,
            final(self).sample_rate == old(self).sample_rate,
            final(self).channels == old(self).channels,
    {
        match tones {
            Some(t) => {
                self.update_coefficients(t);
            },
            None => {},
        }
        self.advance();
        match input {
            Some(x) => Some(self.filter(x)),
            None => None,
        }
    }

    /// Brings the gains to the knobs, at once or a tenth of the way.
    pub fn retarget(&mut self, knobs: Knobs, force: bool)
        requires
            old(self).wf(),
        ensures
            final(self).wf(),
            *final(self) == (EqSource {
                current_low: if force {
                    map_gain(knobs.low)
                } else {
                    approach(old(self).current_low, map_gain(knobs.low))
                },
                current_mid: if force {
                    map_gain(knobs.mid)
                } else {
                    approach(old(self).current_mid, map_gain(knobs.mid))
                },
                current_high: if force {
                    map_gain(knobs.high)
                } else {
                    approach(old(self).current_high, map_gain(knobs.high))
                },
                ..*old(self)
            }),
    {
        let low: F32 = map_gain(knobs.low);
        let mid: F32 = map_gain(knobs.mid);
        let high: F32 = map_gain(knobs.high);
        if force {
            self.current_low = low;
            self.current_mid = mid;
            self.current_high = high;
        } else {
            self.current_low = approach(self.current_low, low);
            self.current_mid = approach(self.current_mid, mid);
            self.current_high = approach(self.current_high, high);
        }
    }

    /// Tunes the filters of every channel.
    pub fn update_coefficients(&mut self, tones: Tones)
        requires
            old(self).wf(),
        ensures
            final(self).wf(),
            final(self).low_filter@ == low_tuned(old(self).low_filter@, tones),
            final(self).mid_filter@ == mid_tuned(old(self).mid_filter@, tones),
            final(self).high_filter@ == high_tuned(old(self).high_filter@, tones),
            final(self).current_low == old(self).current_low,
            final(self).current_mid == old(self).current_mid,
            final(self).current_high == old(self).current_high,
            final(self).sample_rate == old(self).sample_rate,
            final(self).channels == old(self).channels,
            final(self).channel_cursor == old(self).channel_cursor,
            final(self).counter == old(self).counter,
    {
        tune_all(&mut self.low_filter, FilterType::LowShelf, tones.low, shelf_quality());
        tune_all(&mut self.mid_filter, FilterType::Peaking, tones.mid, F32::whole(1));
        tune_all(&mut self.high_filter, FilterType::HighShelf, tones.high, shelf_quality());
    }

    /// Whether the gains are to be looked at before the next sample.
    #[verifier::allow_in_spec]
    pub fn due(&self) -> bool
        returns
            self.counter == 0,
    {
        self.counter == 0
    }

    /// Counts a sample; where the gains were due, sixty-four frames begin.
    pub fn advance(&mut self)
        requires
            old(self).wf(),
        ensures
            final(self).wf(),
            *final(self) == (EqSource {
                counter: next_count(
                    old(self).counter as int,
                    old(self).channels as int,
                ) as usize,
                ..*old(self)
            }),
    {
        if self.counter == 0 {
            self.counter = 64 * self.channels;
        }
        self.counter = self.counter - 1;
    }

    /// What comes out of the filters of the channel when `x` goes in.
    pub open spec fn response(self, x: F32) -> F32 {
        let c = self.channel_cursor as int;
        let low = self.low_filter@[c].response(x);
        let mid = self.mid_filter@[c].response(low);
        self.high_filter@[c].response(mid)
    }

    /// Filters a sample of the channel on which the cursor is, and moves on to
    /// the next channel.
    pub fn filter(&mut self, x: F32) -> (y: F32)
        requires
            old(self).wf(),
        ensures
            final(self).wf(),
            y == old(self).response(x),
            ({
                let c = old(self).channel_cursor as int;
                let low = old(self).low_filter@[c].response(x);
                let mid = old(self).mid_filter@[c].response(low);
                &&& final(self).low_filter@ == old(self).low_filter@.update(
                    c,
                    old(self).low_filter@[c].after(x),
                )
                &&& final(self).mid_filter@ == old(self).mid_filter@.update(
                    c,
                    old(self).mid_filter@[c].after(low),
                )
                &&& final(self).high_filter@ == old(self).high_filter@.update(
                    c,
                    old(self).high_filter@[c].after(mid),
                )
                &&& final(self).channel_cursor == (c + 1) % old(self).channels as int
            }),
            final(self).current_low == old(self).current_low,
            final(self).current_mid == old(self).current_mid,
            final(self).current_high == old(self).current_high,
            final(self).sample_rate == old(self).sample_rate,
            final(self).channels == old(self).channels,
            final(self).counter == old(self).counter,
    {
        let c: usize = self.channel_cursor;
        let mut low: Biquad = self.low_filter[c];
        let mut mid: Biquad = self.mid_filter[c];
        let mut high: Biquad = self.high_filter[c];
        let a: F32 = low.process(x);
        let b: F32 = mid.process(a);
        let y: F32 = high.process(b);
        self.low_filter.set(c, low);
        self.mid_filter.set(c, mid);
        self.high_filter.set(c, high);
        self.channel_cursor = (self.channel_cursor + 1) % self.channels;
        y
    }
}

/// The count of an equaliser whose gains were due, `k` samples later.
pub open spec fn count_after(channels: int, k: int) -> int
    decreases k,
{
    if k <= 0 {
        0
    } else {
        next_count(count_after(channels, k - 1), channels)
    }
}

/// The gains are looked at every sixty-four frames, and not in between.
pub proof fn lemma_due_every_64_frames(channels: int, k: int)
    requires
        channels > 0,
        k >= 0,
    ensures
        count_after(channels, k) == 0 <==> k % (64 * channels) == 0,
        0 <= count_after(channels, k) < 64 * channels,
{
    lemma_count(channels, k);
}

proof fn lemma_count(channels: int, k: int)
    requires
        channels > 0,
        k >= 0,
    ensures
        ({
            let p = 64 * channels;
            count_after(channels, k) == if k % p == 0 {
                0
            } else {
                p - k % p
            }
        }),
    decreases k,
{
    let p = 64 * channels;
    vstd::arithmetic::div_mod::lemma_small_mod(0, p as nat);
    vstd::arithmetic::div_mod::lemma_mod_bound(k, p);
    if k > 0 {
        lemma_count(channels, k - 1);
        let r = (k - 1) % p;
        let q = (k - 1) / p;
        vstd::arithmetic::div_mod::lemma_fundamental_div_mod(k - 1, p);
        vstd::arithmetic::div_mod::lemma_mod_bound(k - 1, p);
        if r + 1 < p {
            assert(k == q * p + (r + 1)) by (nonlinear_arith)
                requires
                    k - 1 == p * q + r,
            ;
            vstd::arithmetic::div_mod::lemma_fundamental_div_mod_converse(k, p, q, r + 1);
        } else {
            assert(k == (q + 1) * p + 0) by (nonlinear_arith)
                requires
                    k - 1 == p * q + r,
                    r + 1 == p,
            ;
            vstd::arithmetic::div_mod::lemma_fundamental_div_mod_converse(k, p, q + 1, 0);
        }
    }
}

} // verus!

//! The curve of the spectrum.
use vstd::prelude::*;
use crate::float::arith::abs;
use crate::float::close::{
    close, lemma_close_reduced, lemma_half, lemma_minus_close, lemma_over_close,
    lemma_plus_close, lemma_ratio_close, lemma_scale, lemma_small_within, lemma_times_close,
    lemma_times_fraction, lemma_times_whole_close, lemma_unit, small, unit,
};
use crate::float::exact::lemma_whole_single;
use crate::float::order::{lemma_by_value_single, lemma_times_commutes, lemma_zeros};
use crate::float::single::F32;

verus! {

/// Points of the curve.
pub const NUM_POINTS: usize = 128;

/// The lowest frequency of the curve, in hertz.
pub const LOWEST: i32 = 20;

/// The highest frequency of the curve, in hertz.
pub const HIGHEST: i32 = 20000;

/// The logarithms of the frequencies that a point of the curve reaches from
/// and to, given those of the lowest and the highest.
pub open spec fn log_band(min_log: F32, max_log: F32, i: int) -> (F32, F32) {
    let width = max_log.minus(min_log);
    (
        min_log.plus(F32::nearest_to(i).over(F32::nearest_to(127)).times(width)),
        min_log.plus(
            F32::nearest_to(i).plus(F32::nearest_to(1)).over(F32::nearest_to(128)).times(width),
        ),
    )
}

/// The logarithms of the frequencies that each point reaches from and to.
pub fn log_bands(min_log: F32, max_log: F32) -> (r: Vec<(F32, F32)>)
    ensures
        r@ == Seq::new(NUM_POINTS as nat, |i: int| log_band(min_log, max_log, i)),
{
    let width: F32 = max_log.minus(min_log);
    let mut out: Vec<(F32, F32)> = Vec::new();
    let mut i: usize = 0;
    while i < NUM_POINTS
        invariant
            i <= NUM_POINTS,
            width == max_log.minus(min_log),
            out@ == Seq::new(i as nat, |k: int| log_band(min_log, max_log, k)),
        decreases NUM_POINTS - i,
    {
        let t: F32 = F32::of_usize(i).over(F32::of_usize(NUM_POINTS - 1));
        let t_next: F32 = F32::of_usize(i).plus(F32::whole(1)).over(F32::of_usize(NUM_POINTS));
        out.push((min_log.plus(t.times(width)), min_log.plus(t_next.times(width))));
        i = i + 1;
    }
    out
}

/// The sum of `n` magnitudes from `start` on.
pub open spec fn magnitude_sum(data: Seq<F32>, start: int, n: int) -> F32
    decreases n,
{
    if n <= 0 {
        F32::zero()
    } else {
        magnitude_sum(data, start, n - 1).plus(data[start + n - 1])
    }
}

/// The first bin that a band from `f_start` on reaches.
pub open spec fn band_start(len: int, f_start: F32) -> int {
    let i = f_start.over(F32::nearest_to(22050)).times(
        F32::nearest_to(len),
    ).floor().integer_part(0, usize::MAX as int);
    if i < len - 1 {
        i
    } else {
        len - 1
    }
}

/// The bin behind the last that a band up to `f_end` reaches; a band has at
/// least one.
pub open spec fn band_end(len: int, start: int, f_end: F32) -> int {
    let i = f_end.over(F32::nearest_to(22050)).times(F32::nearest_to(len)).ceil().integer_part(
        0,
        usize::MAX as int,
    );
    if i < start + 1 {
        start + 1
    } else if i > len {
        len
    } else {
        i
    }
}

/// The mean magnitude of a band, per bin of the spectrum, a millionth at
/// least.
pub open spec fn band_level(data: Seq<F32>, f_start: F32, f_end: F32) -> F32 {
    let len = data.len() as int;
    let start = band_start(len, f_start);
    let count = band_end(len, start, f_end) - start;
    magnitude_sum(data, start, count).over(F32::nearest_to(count)).times(
        F32::nearest_to(1).over(F32::nearest_to(len)),
    ).max(F32::ratio(1, 1_000_000))
}

/// The level of a band: the number whose logarithm is drawn.
pub fn level_of_band(data: &[F32], f_start: F32, f_end: F32) -> (r: F32)
    requires
        data@.len() > 0,
    ensures
        r == band_level(data@, f_start, f_end),
{
    let len: usize = data.len();
    let nyquist: F32 = F32::whole(22050);
    let size: F32 = F32::of_usize(len);
    let low: usize = f_start.over(nyquist).times(size).floor().to_usize();
    let high: usize = f_end.over(nyquist).times(size).ceil().to_usize();
    let start: usize = if low < len - 1 {
        low
    } else {
        len - 1
    };
    let end: usize = if high < start + 1 {
        start + 1
    } else if high > len {
        len
    } else {
        high
    };
    let count: usize = end - start;
    let mut sum: F32 = F32::zero();
    let mut j: usize = 0;
    while j < count
        invariant
            j <= count,
            len == data@.len(),
            start + count <= len,
            sum == magnitude_sum(data@, start as int, j as int),
        decreases count - j,
    {
        sum = sum.plus(data[start + j]);
        j = j + 1;
    }
    let mean: F32 = sum.over(F32::of_usize(count));
    mean.times(F32::whole(1).over(size)).max(F32::ratio(1, 1_000_000))
}

/// Point `i` of the curve in a box, given the common logarithm of its level:
/// sixty decibels from the bottom to the top.
#[verifier::allow_in_spec]
pub fn curve_point(i: u32, log_level: F32, width: F32, height: F32) -> (F32, F32)
    returns
        ({
            let db = F32::nearest_to(20).times(log_level);
            let share = db.plus(F32::nearest_to(60)).over(F32::nearest_to(60)).clamp(
                F32::zero(),
                F32::nearest_to(1),
            );
            (
                F32::nearest_to(i as int).over(F32::nearest_to(127)).times(width),
                height.minus(share.times(height)),
            )
        }),
{
    let db: F32 = F32::whole(20).times(log_level);
    let share: F32 = db.plus(F32::whole(60)).over(F32::whole(60)).clamp(
        F32::zero(),
        F32::whole(1),
    );
    (
        F32::of_u64(i as u64).over(F32::whole(127)).times(width),
        height.minus(share.times(height)),
    )
}

/// The colour of the line to point `i`: from red over green to blue.
#[verifier::allow_in_spec]
pub fn line_color(i: u32) -> [F32; 3]
    returns
        ({
            let t = F32::nearest_to(i as int).over(F32::nearest_to(128));
            let half = F32::ratio(1, 2);
            if t.lt(half) {
                [
                    F32::nearest_to(1).minus(t.times(F32::nearest_to(2))),
                    t.times(F32::nearest_to(2)),
                    F32::zero(),
                ]
            } else {
                [
                    F32::zero(),
                    F32::nearest_to(1).minus(t.minus(half).times(F32::nearest_to(2))),
                    t.minus(half).times(F32::nearest_to(2)),
                ]
            }
        }),
{
    let t: F32 = F32::of_u64(i as u64).over(F32::whole(128));
    let half: F32 = F32::ratio(1, 2);
    if t.lt(half) {
        [
            F32::whole(1).minus(t.times(F32::whole(2))),
            t.times(F32::whole(2)),
            F32::zero(),
        ]
    } else {
        [
            F32::zero(),
            F32::whole(1).minus(t.minus(half).times(F32::whole(2))),
            t.minus(half).times(F32::whole(2)),
        ]
    }
}

/// A spectrum on display: the magnitudes of its bins.
pub struct Spectrum<'a> {
    pub data: &'a [F32],
}

/// A line of the curve: its ends and its colour.
#[derive(Clone, Copy, Debug)]
pub struct CurveLine {
    pub from: (F32, F32),
    pub to: (F32, F32),
    pub color: [F32; 3],
}

impl<'a> Spectrum<'a> {
    /// The level of each band, given the frequencies that the bands reach from
    /// and to; none where there are no magnitudes.
    pub open spec fn band_levels(self, edges: Seq<(F32, F32)>) -> Seq<F32> {
        if self.data@.len() > 0 {
            edges.map_values(|e: (F32, F32)| band_level(self.data@, e.0, e.1))
        } else {
            seq![]
        }
    }

    /// The lines of the curve in a box, from each point to the next, given the
    /// common logarithms of the levels.
    pub open spec fn curve(self, logs: Seq<F32>, width: F32, height: F32) -> Seq<CurveLine> {
        if self.data@.len() > 0 {
            Seq::new(
                (NUM_POINTS - 1) as nat,
                |k: int|
                    CurveLine {
                        from: curve_point(k as u32, logs[k], width, height),
                        to: curve_point((k + 1) as u32, logs[k + 1], width, height),
                        color: line_color((k + 1) as u32),
                    },
            )
        } else {
            seq![]
        }
    }

    /// The level of each band.
    pub fn levels(&self, edges: &Vec<(F32, F32)>) -> (r: Vec<F32>)
        ensures
            r@ == self.band_levels(edges@),
    {
        let mut out: Vec<F32> = Vec::new();
        if self.data.len() == 0 {
            return out;
        }
        let ghost all = self.band_levels(edges@);
        let mut i: usize = 0;
        while i < edges.len()
            invariant
                i <= edges@.len(),
                self.data@.len() > 0,
                all == self.band_levels(edges@),
                out@ == all.take(i as int),
            decreases edges@.len() - i,
        {
            out.push(level_of_band(self.data, edges[i].0, edges[i].1));
            assert(all.take(i + 1) =~= all.take(i as int).push(out@.last()));
            i = i + 1;
        }
        assert(out@ =~= all);
        out
    }

    /// The lines of the curve in a box, from red over green to blue.
    pub fn draw(&self, logs: &Vec<F32>, width: F32, height: F32) -> (r: Vec<CurveLine>)
        requires
            self.data@.len() > 0 ==> logs@.len() >= NUM_POINTS,
        ensures
            r@ == self.curve(logs@, width, height),
    {
        let mut out: Vec<CurveLine> = Vec::new();
        if self.data.len() == 0 {
            return out;
        }
        let ghost all = self.curve(logs@, width, height);
        let mut i: u32 = 1;
        while i < 128
            invariant
                1 <= i <= 128,
                self.data@.len() > 0,
                logs@.len() >= NUM_POINTS,
                all == self.curve(logs@, width, height),
                out@ == all.take(i - 1),
            decreases 128 - i,
        {
            out.push(
                CurveLine {
                    from: curve_point(i - 1, logs[i as usize - 1], width, height),
                    to: curve_point(i, logs[i as usize], width, height),
                    color: line_color(i),
                },
            );
            assert(all.take(i as int) =~= all.take(i - 1).push(out@.last()));
            i = i + 1;
        }
        assert(out@ =~= all);
        out
    }
}

/// The curve shows sixty decibels: but for rounding, a level lies as far below the top as
/// its logarithm, to the base ten, is of minus three, as a share of the height.
pub proof fn lemma_curve_shows_sixty_decibels(i: u32, log_level: F32, width: F32, height: F32)
    requires
        log_level.finite(),
        -(299 * unit()) <= 100 * log_level.value() <= -unit(),
        small(height, 0x1_0000),
        height.value() >= 0,
    ensures
        ({
            let u = unit();
            let y = curve_point(i, log_level, width, height).1;
            let gap = 3 * (y.value() * u) + height.value() * log_level.value();
            let slack = (height.value() + u) * u;
            &&& y.finite()
            &&& -slack <= 0x1_0000 * gap <= slack
        }),
{
    let u = unit();
    let g = log_level.value();
    let h = height.value();
    let sixty = F32::nearest_to(60);
    let twenty = F32::nearest_to(20);
    let one = F32::nearest_to(1);
    lemma_unit();
    lemma_zeros();
    lemma_whole_single(1);
    lemma_whole_single(20);
    lemma_whole_single(60);
    assert(small(log_level, 3));
    lemma_times_close(twenty, log_level, 20, 3);
    let db = twenty.times(log_level);
    assert((20 * u) * g == (20 * g) * u) by (nonlinear_arith);
    lemma_close_reduced(db.value(), 20 * g, 1, u);
    lemma_small_within(db, 2 * (20int * 3) + 1, 121);
    lemma_plus_close(db, sixty, 121, 60);
    let s = db.plus(sixty);
    assert(-((400 * u) * sixty.value()) <= s.value() * u <= (400 * u) * sixty.value()) by (
        nonlinear_arith)
        requires
            -(363 * u) <= s.value() <= 363 * u,
            sixty.value() == 60 * u,
            u > 0,
    ;
    lemma_over_close(s, sixty, 400);
    let q = s.over(sixty);
    assert(sixty.value() == 60 * u);
    lemma_close_reduced(q.value(), s.value(), 60, u);
    lemma_decibels(db.value(), s.value(), q.value(), g, u);
    lemma_by_value_single(q, F32::zero());
    lemma_by_value_single(one, q);
    lemma_times_close(q, height, 1, 0x1_0000);
    let p = q.times(height);
    lemma_small_within(p, 2 * (1int * 0x1_0000) + 1, 0x4_0000);
    lemma_minus_close(height, p, 0x1_0000, 0x4_0000);
    lemma_height(height.minus(p).value(), p.value(), q.value(), h, g, u);
}

proof fn lemma_decibels(db: int, s: int, q: int, g: int, u: int)
    requires
        u >= 0x1_0000_0000_0000,
        -(299 * u) <= 100 * g <= -u,
        close(db, 20 * g, 1),
        close(s, db + 60 * u, 1),
        close(q, s, 60),
    ensures
        0 < q < u,
        -u <= 0x4_0000 * (3 * q - (g + 3 * u)) <= u,
{
}

proof fn lemma_height(y: int, p: int, q: int, h: int, g: int, u: int)
    requires
        u >= 0x1_0000_0000_0000,
        h >= 0,
        0 < q < u,
        -u <= 0x4_0000 * (3 * q - (g + 3 * u)) <= u,
        close(p, q * h, u),
        close(y, h - p, 1),
    ensures
        ({
            let gap = 3 * (y * u) + h * g;
            let slack = (h + u) * u;
            -slack <= 0x1_0000 * gap <= slack
        }),
{
    let k = 0x100_0000int;
    let z = 0x80_0000int;
    let qh = q * h;
    let pu = p * u;
    let yu = y * u;
    let hu = h * u;
    let hg = h * g;
    let uu = u * u;
    assert((h + u) * u == hu + uu) by (nonlinear_arith)
        requires
            hu == h * u,
            uu == u * u,
    ;
    assert(0 <= qh <= hu && z * u <= uu) by (nonlinear_arith)
        requires
            0 < q < u,
            h >= 0,
            qh == q * h,
            hu == h * u,
            uu == u * u,
            u >= z,
    ;
    let ap = abs(p) * u;
    let ay = abs(y) * u;
    assert((ap == pu || ap == -pu) && (ay == yu || ay == -yu) && ap >= 0 && ay >= 0) by (
        nonlinear_arith)
        requires
            ap == abs(p) * u,
            ay == abs(y) * u,
            pu == p * u,
            yu == y * u,
            abs(p) == p || abs(p) == -p,
            abs(y) == y || abs(y) == -y,
            abs(p) >= 0,
            abs(y) >= 0,
            u > 0,
    ;
    assert(-(4 * (hu + uu)) <= k * (pu - qh) <= 4 * (hu + uu));
    let g2 = y - (h - p);
    lemma_scale(k * g2, abs(y) + z, u);
    assert((k * g2) * u == k * (yu - hu + pu) && (abs(y) + z) * u == ay + z * u) by (
        nonlinear_arith)
        requires
            g2 == y - (h - p),
            yu == y * u,
            hu == h * u,
            pu == p * u,
            ay == abs(y) * u,
    ;
    assert(-(16 * (hu + uu)) <= k * (yu - hu + pu) <= 16 * (hu + uu));
    lemma_scale(0x4_0000 * (3 * q - (g + 3 * u)), u, h);
    assert((0x4_0000 * (3 * q - (g + 3 * u))) * h == 0x4_0000 * (3 * qh - hg - 3 * hu) && u * h
        == hu) by (nonlinear_arith)
        requires
            qh == q * h,
            hg == h * g,
            hu == h * u,
    ;
}

/// The points of the curve run from the left edge to the right: point `i` of 127 lies, but
/// for rounding, at that share of the width.
pub proof fn lemma_curve_spans_width(i: u32, log_level: F32, width: F32, height: F32)
    requires
        i <= 127,
        small(width, 0x1_0000),
    ensures
        ({
            let x = curve_point(i, log_level, width, height).0;
            let gap = 127 * x.value() - i * width.value();
            let slack = i * abs(width.value()) + unit();
            &&& x.finite()
            &&& -slack <= 0x40_0000 * gap <= slack
        }),
{
    lemma_unit();
    lemma_small_within(width, 0x1_0000, 0x1000_0000);
    lemma_times_fraction(width, i as i32, 127);
    lemma_times_commutes(width, F32::ratio(i as i32, 127));
}

/// The line runs from red over green to blue: but for rounding, in the first half red gives
/// way to green, in the second green to blue, and the three always add up to one.
pub proof fn lemma_line_runs_to_blue(i: u32)
    requires
        i < 128,
        i != 64,
    ensures
        ({
            let u = unit();
            let c = line_color(i);
            let n = i as int;
            if n < 64 {
                &&& -u <= 0x1000 * (64 * c[0].value() - (64 - n) * u) <= u
                &&& -u <= 0x1000 * (64 * c[1].value() - n * u) <= u
                &&& c[2] == F32::zero()
            } else {
                &&& c[0] == F32::zero()
                &&& -u <= 0x1000 * (64 * c[1].value() - (128 - n) * u) <= u
                &&& -u <= 0x1000 * (64 * c[2].value() - (n - 64) * u) <= u
            }
        }),
{
    let u = unit();
    let n = i as int;
    let t = F32::ratio(i as i32, 128);
    let half = F32::ratio(1, 2);
    let one = F32::nearest_to(1);
    lemma_unit();
    lemma_half();
    lemma_whole_single(1);
    lemma_ratio_close(i as i32, 128);
    assert(0 <= n * u <= 127 * u) by (nonlinear_arith)
        requires
            0 <= n <= 127,
            u > 0,
    ;
    assert((64 - n) * u == 64 * u - n * u && (128 - n) * u == 128 * u - n * u && (n - 64) * u == n
        * u - 64 * u) by (nonlinear_arith);
    lemma_hundred_twenty_eighths(t.value(), n * u, u);
    lemma_by_value_single(t, half);
    if n < 64 {
        assert(n * u <= 63 * u) by (nonlinear_arith)
            requires
                n <= 63,
                u > 0,
        ;
        lemma_times_whole_close(t, 2, 2);
        let g = t.times(F32::nearest_to(2));
        lemma_minus_close(one, g, 1, 2 * (2int * 2) + 1);
    } else {
        assert(n * u >= 65 * u) by (nonlinear_arith)
            requires
                n >= 65,
                u > 0,
        ;
        lemma_minus_close(t, half, 2, 1);
        let d = t.minus(half);
        lemma_times_whole_close(d, 2, 7);
        let b = d.times(F32::nearest_to(2));
        lemma_minus_close(one, b, 1, 2 * (7int * 2) + 1);
    }
    let c = line_color(i);
    assert(c[0] == c[0] && c[1] == c[1] && c[2] == c[2]);
}

proof fn lemma_hundred_twenty_eighths(t: int, nu: int, u: int)
    requires
        u >= 0x1_0000_0000_0000,
        0 <= nu <= 127 * u,
        t >= 0,
        close(t, nu, 128),
    ensures
        t <= 2 * u,
        -u <= 0x1_0000 * (128 * t - nu) <= u,
{
}

} // verus!

//! Second-order filters.
use vstd::prelude::*;
use crate::float::arith::{abs, lemma_exact, of_integer, product};
use crate::float::close::{
    close, lemma_minus_close, lemma_opposite_close, lemma_plus_close, lemma_times_close,
    lemma_small_within, lemma_term, lemma_unit, small, unit,
};
use crate::float::exact::{
    lemma_cancels_single, lemma_formats, lemma_nearest_scaled, lemma_small_integer, lemma_times_one_single,
    lemma_whole_single,
};
use crate::float::order::{
    lemma_least_single, lemma_over_one, lemma_packed_single, lemma_plus_by_value, lemma_times_by_value, lemma_times_commutes, lemma_zero_plus,
    lemma_zero_times, lemma_zeros,
};
use crate::float::single::{single_format, F32};
use crate::window::pi;

verus! {

/// What a filter does: raise or lower the low end, the high end, or a band.
#[derive(Clone, Copy, Debug, PartialEq, Eq, Structural)]
pub enum FilterType {
    LowShelf,
    HighShelf,
    Peaking,
}

/// The numbers that a filter is designed from: its amplitude and the square
/// root of that, and the cosine and sine of its angle.
#[derive(Clone, Copy, Debug)]
pub struct Tone {
    pub a: F32,
    pub sqrt_a: F32,
    pub cos_w0: F32,
    pub sin_w0: F32,
}

/// The exponent, to the base ten, of the amplitude for a gain in decibels.
#[verifier::allow_in_spec]
pub fn gain_exponent(db_gain: F32) -> F32
    returns
        db_gain.over(F32::nearest_to(40)),
{
    db_gain.over(F32::whole(40))
}

/// The angle of a frequency: how far a sample takes it round.
#[verifier::allow_in_spec]
pub fn filter_angle(freq: F32, sample_rate: u32) -> F32
    returns
        F32::nearest_to(2).times(pi()).times(freq).over(F32::nearest_to(sample_rate as int)),
{
    F32::whole(2).times(pi()).times(freq).over(F32::of_u64(sample_rate as u64))
}

/// The coefficients of a filter before they are scaled.
#[derive(Clone, Copy, Debug)]
pub struct Design {
    pub b0: F32,
    pub b1: F32,
    pub b2: F32,
    pub a0: F32,
    pub a1: F32,
    pub a2: F32,
}

/// Raises or lowers the low end.
#[verifier::allow_in_spec]
pub fn low_shelf(t: Tone, alpha: F32) -> Design
    returns
        ({
            let up = t.a.plus(F32::nearest_to(1));
            let down = t.a.minus(F32::nearest_to(1));
            let slope = F32::nearest_to(2).times(t.sqrt_a).times(alpha);
            let low = up.minus(down.times(t.cos_w0));
            let high = up.plus(down.times(t.cos_w0));
            Design {
                b0: t.a.times(low.plus(slope)),
                b1: F32::nearest_to(2).times(t.a).times(down.minus(up.times(t.cos_w0))),
                b2: t.a.times(low.minus(slope)),
                a0: high.plus(slope),
                a1: F32::nearest_to(-2).times(down.plus(up.times(t.cos_w0))),
                a2: high.minus(slope),
            }
        }),
{
    let up: F32 = t.a.plus(F32::whole(1));
    let down: F32 = t.a.minus(F32::whole(1));
    let slope: F32 = F32::whole(2).times(t.sqrt_a).times(alpha);
    let low: F32 = up.minus(down.times(t.cos_w0));
    let high: F32 = up.plus(down.times(t.cos_w0));
    Design {
        b0: t.a.times(low.plus(slope)),
        b1: F32::whole(2).times(t.a).times(down.minus(up.times(t.cos_w0))),
        b2: t.a.times(low.minus(slope)),
        a0: high.plus(slope),
        a1: F32::whole(-2).times(down.plus(up.times(t.cos_w0))),
        a2: high.minus(slope),
    }
}

/// Raises or lowers the high end.
#[verifier::allow_in_spec]
pub fn high_shelf(t: Tone, alpha: F32) -> Design
    returns
        ({
            let up = t.a.plus(F32::nearest_to(1));
            let down = t.a.minus(F32::nearest_to(1));
            let slope = F32::nearest_to(2).times(t.sqrt_a).times(alpha);
            let low = up.minus(down.times(t.cos_w0));
            let high = up.plus(down.times(t.cos_w0));
            Design {
                b0: t.a.times(high.plus(slope)),
                b1: F32::nearest_to(-2).times(t.a).times(down.plus(up.times(t.cos_w0))),
                b2: t.a.times(high.minus(slope)),
                a0: low.plus(slope),
                a1: F32::nearest_to(2).times(down.minus(up.times(t.cos_w0))),
                a2: low.minus(slope),
            }
        }),
{
    let up: F32 = t.a.plus(F32::whole(1));
    let down: F32 = t.a.minus(F32::whole(1));
    let slope: F32 = F32::whole(2).times(t.sqrt_a).times(alpha);
    let low: F32 = up.minus(down.times(t.cos_w0));
    let high: F32 = up.plus(down.times(t.cos_w0));
    Design {
        b0: t.a.times(high.plus(slope)),
        b1: F32::whole(-2).times(t.a).times(down.plus(up.times(t.cos_w0))),
        b2: t.a.times(high.minus(slope)),
        a0: low.plus(slope),
        a1: F32::whole(2).times(down.minus(up.times(t.cos_w0))),
        a2: low.minus(slope),
    }
}

/// Raises or lowers a band.
#[verifier::allow_in_spec]
pub fn peaking(t: Tone, alpha: F32) -> Design
    returns
        (Design {
            b0: F32::nearest_to(1).plus(alpha.times(t.a)),
            b1: F32::nearest_to(-2).times(t.cos_w0),
            b2: F32::nearest_to(1).minus(alpha.times(t.a)),
            a0: F32::nearest_to(1).plus(alpha.over(t.a)),
            a1: F32::nearest_to(-2).times(t.cos_w0),
            a2: F32::nearest_to(1).minus(alpha.over(t.a)),
        }),
{
    Design {
        b0: F32::whole(1).plus(alpha.times(t.a)),
        b1: F32::whole(-2).times(t.cos_w0),
        b2: F32::whole(1).minus(alpha.times(t.a)),
        a0: F32::whole(1).plus(alpha.over(t.a)),
        a1: F32::whole(-2).times(t.cos_w0),
        a2: F32::whole(1).minus(alpha.over(t.a)),
    }
}

/// The design of a filter of quality `q`.
pub open spec fn designed(filter_type: FilterType, t: Tone, q: F32) -> Design {
    let alpha = t.sin_w0.over(F32::nearest_to(2).times(q));
    match filter_type {
        FilterType::LowShelf => low_shelf(t, alpha),
        FilterType::HighShelf => high_shelf(t, alpha),
        FilterType::Peaking => peaking(t, alpha),
    }
}

/// A filter: its coefficients, and the last two samples that went in and came
/// out.
#[derive(Clone, Copy, Debug)]
pub struct Biquad {
    pub b0: F32,
    pub b1: F32,
    pub b2: F32,
    pub a1: F32,
    pub a2: F32,
    pub x1: F32,
    pub x2: F32,
    pub y1: F32,
    pub y2: F32,
}

impl Biquad {
    /// A filter that changes nothing, and has heard nothing.
    #[verifier::allow_in_spec]
    pub fn new() -> Biquad
        returns
            (Biquad {
                b0: F32::nearest_to(1),
                b1: F32::zero(),
                b2: F32::zero(),
                a1: F32::zero(),
                a2: F32::zero(),
                x1: F32::zero(),
                x2: F32::zero(),
                y1: F32::zero(),
                y2: F32::zero(),
            }),
    {
        Biquad {
            b0: F32::whole(1),
            b1: F32::zero(),
            b2: F32::zero(),
            a1: F32::zero(),
            a2: F32::zero(),
            x1: F32::zero(),
            x2: F32::zero(),
            y1: F32::zero(),
            y2: F32::zero(),
        }
    }

    /// The filter with the coefficients of a design; what it has heard stays.
    pub open spec fn tuned(self, d: Design) -> Biquad {
        Biquad {
            b0: d.b0.over(d.a0),
            b1: d.b1.over(d.a0),
            b2: d.b2.over(d.a0),
            a1: d.a1.over(d.a0),
            a2: d.a2.over(d.a0),
            ..self
        }
    }

    /// Designs the filter anew.
    pub fn calculate(&mut self, filter_type: FilterType, t: Tone, q: F32)
        ensures
            *final(self) == old(self).tuned(designed(filter_type, t, q)),
    {
        let alpha: F32 = t.sin_w0.over(F32::whole(2).times(q));
        let d: Design = match filter_type {
            FilterType::LowShelf => low_shelf(t, alpha),
            FilterType::HighShelf => high_shelf(t, alpha),
            FilterType::Peaking => peaking(t, alpha),
        };
        self.b0 = d.b0.over(d.a0);
        self.b1 = d.b1.over(d.a0);
        self.b2 = d.b2.over(d.a0);
        self.a1 = d.a1.over(d.a0);
        self.a2 = d.a2.over(d.a0);
    }

    /// What comes out when `x` goes in.
    pub open spec fn response(self, x: F32) -> F32 {
        self.b0.times(x).plus(self.b1.times(self.x1)).plus(self.b2.times(self.x2)).minus(
            self.a1.times(self.y1),
        ).minus(self.a2.times(self.y2))
    }

    /// The filter after `x` has gone in.
    pub open spec fn after(self, x: F32) -> Biquad {
        Biquad { x2: self.x1, x1: x, y2: self.y1, y1: self.response(x), ..self }
    }

    /// Filters a sample.
    pub fn process(&mut self, x: F32) -> (y: F32)
        ensures
            y == old(self).response(x),
            *final(self) == old(self).after(x),
    {
        let y: F32 = self.b0.times(x).plus(self.b1.times(self.x1)).plus(
            self.b2.times(self.x2),
        ).minus(self.a1.times(self.y1)).minus(self.a2.times(self.y2));
        self.x2 = self.x1;
        self.x1 = x;
        self.y2 = self.y1;
        self.y1 = y;
        y
    }
}

/// A filter sums its last three inputs and its last two outputs, weighted: but
/// for rounding, what comes out is what the coefficients make of what went in,
/// less what they make of what came out.
pub proof fn lemma_response_weighs(f: Biquad, x: F32)
    requires
        small(f.b0, 0x100) && small(f.b1, 0x100) && small(f.b2, 0x100),
        small(f.a1, 0x100) && small(f.a2, 0x100),
        small(x, 0x100) && small(f.x1, 0x100) && small(f.x2, 0x100),
        small(f.y1, 0x100) && small(f.y2, 0x100),
    ensures
        f.response(x).finite(),
        ({
            let u = unit();
            let p0 = f.b0.value() * x.value();
            let p1 = f.b1.value() * f.x1.value();
            let p2 = f.b2.value() * f.x2.value();
            let q1 = f.a1.value() * f.y1.value();
            let q2 = f.a2.value() * f.y2.value();
            let gap = f.response(x).value() * u - (p0 + p1 + p2 - q1 - q2);
            let slack = abs(p0) + abs(p1) + abs(p2) + abs(q1) + abs(q2) + u * u;
            -slack <= 0x4_0000 * gap <= slack
        }),
{
    let u = unit();
    let k = 0x100int;
    let top = 2 * (k * k) + 1;
    lemma_unit();
    let p0 = f.b0.value() * x.value();
    let p1 = f.b1.value() * f.x1.value();
    let p2 = f.b2.value() * f.x2.value();
    let q1 = f.a1.value() * f.y1.value();
    let q2 = f.a2.value() * f.y2.value();
    lemma_times_close(f.b0, x, k, k);
    lemma_times_close(f.b1, f.x1, k, k);
    lemma_times_close(f.b2, f.x2, k, k);
    lemma_times_close(f.a1, f.y1, k, k);
    lemma_times_close(f.a2, f.y2, k, k);
    let t0 = f.b0.times(x);
    let t1 = f.b1.times(f.x1);
    let t2 = f.b2.times(f.x2);
    let t3 = f.a1.times(f.y1);
    let t4 = f.a2.times(f.y2);
    lemma_plus_close(t0, t1, top, top);
    let s1 = t0.plus(t1);
    let top1 = 2 * (top + top) + 1;
    lemma_plus_close(s1, t2, top1, top);
    let s2 = s1.plus(t2);
    let top2 = 2 * (top1 + top) + 1;
    lemma_minus_close(s2, t3, top2, top);
    let s3 = s2.minus(t3);
    let top3 = 2 * (top2 + top) + 1;
    lemma_minus_close(s3, t4, top3, top);
    let y = s3.minus(t4);
    lemma_close_negated(t3.value(), q1, u);
    lemma_close_negated(t4.value(), q2, u);
    lemma_five_terms(
        seq![t0.value(), t1.value(), t2.value(), -t3.value(), -t4.value()],
        seq![t0.value(), s1.value(), s2.value(), s3.value(), y.value()],
        seq![p0, p1, p2, -q1, -q2],
        u,
    );
    assert(f.response(x).value() == y.value());
}

/// The sum of five terms that are close to products, added one by one.
proof fn lemma_five_terms(t: Seq<int>, s: Seq<int>, p: Seq<int>, u: int)
    requires
        t.len() == 5,
        s.len() == 5,
        p.len() == 5,
        u >= 0x1000_0000_0000,
        s[0] == t[0],
        close(s[1], s[0] + t[1], 1),
        close(s[2], s[1] + t[2], 1),
        close(s[3], s[2] + t[3], 1),
        close(s[4], s[3] + t[4], 1),
        close(t[0], p[0], u),
        close(t[1], p[1], u),
        close(t[2], p[2], u),
        close(t[3], p[3], u),
        close(t[4], p[4], u),
    ensures
        ({
            let gap = s[4] * u - (p[0] + p[1] + p[2] + p[3] + p[4]);
            let slack = abs(p[0]) + abs(p[1]) + abs(p[2]) + abs(p[3]) + abs(p[4]) + u * u;
            -slack <= 0x4_0000 * gap <= slack
        }),
{
    let w = 0x200_0000 * u;
    assert(0 * u == 0);
    lemma_term(0, t[0], s[0], 0, p[0], 0, 0, u);
    let m1 = abs(p[0]);
    lemma_term(s[0], t[1], s[1], p[0], p[1], m1, 8, u);
    let e2 = p[0] + p[1];
    let m2 = m1 + abs(p[1]);
    lemma_term(s[1], t[2], s[2], e2, p[2], m2, 16, u);
    let e3 = e2 + p[2];
    let m3 = m2 + abs(p[2]);
    lemma_term(s[2], t[3], s[3], e3, p[3], m3, 24, u);
    let e4 = e3 + p[3];
    let m4 = m3 + abs(p[3]);
    lemma_term(s[3], t[4], s[4], e4, p[4], m4, 32, u);
    assert(40 * w <= 0x10 * (u * u)) by (nonlinear_arith)
        requires
            w == 0x200_0000 * u,
            u >= 0x1000_0000_0000,
    ;
}

proof fn lemma_close_negated(v: int, num: int, den: int)
    requires
        close(v, num, den),
    ensures
        close(-v, -num, den),
{
    assert((-v) * den == -(v * den)) by (nonlinear_arith);
}

/// A filter remembers the last two samples that went in and came out, and keeps its
/// coefficients.
pub proof fn lemma_remembers_two(f: Biquad, x: F32, y: F32)
    ensures
        ({
            let g = f.after(x).after(y);
            &&& g.x1 == y && g.x2 == x
            &&& g.y1 == f.after(x).response(y) && g.y2 == f.response(x)
            &&& (g.b0, g.b1, g.b2, g.a1, g.a2) == (f.b0, f.b1, f.b2, f.a1, f.a2)
        }),
{
}

/// The tone of moderate size.
pub open spec fn moderate(t: Tone, alpha: F32) -> bool {
    &&& small(t.a, 0x10)
    &&& small(t.sqrt_a, 0x10)
    &&& small(t.cos_w0, 0x10)
    &&& small(alpha, 0x100)
}

/// The high shelf is the low shelf with the frequencies turned round: with the
/// cosine negated, the coefficients of the middle taps are negated, and the
/// others are the same.
pub proof fn lemma_shelves_mirror(t: Tone, alpha: F32)
    requires
        moderate(t, alpha),
    ensures
        ({
            let high = high_shelf(t, alpha);
            let low = low_shelf((Tone { cos_w0: t.cos_w0.opposite(), ..t }), alpha);
            &&& high.b0.value() == low.b0.value()
            &&& high.b1.value() == -low.b1.value()
            &&& high.b2.value() == low.b2.value()
            &&& high.a0.value() == low.a0.value()
            &&& high.a1.value() == -low.a1.value()
            &&& high.a2.value() == low.a2.value()
        }),
{
    let c = t.cos_w0;
    let n = c.opposite();
    let one = F32::nearest_to(1);
    let two = F32::nearest_to(2);
    let back = F32::nearest_to(-2);
    lemma_unit();
    lemma_whole_single(1);
    lemma_whole_single(2);
    lemma_minus_two();
    lemma_opposite_close(c, 0x10);
    let up = t.a.plus(one);
    let down = t.a.minus(one);
    lemma_plus_close(t.a, one, 0x10, 1);
    lemma_minus_close(t.a, one, 0x10, 1);
    lemma_times_close(two, t.sqrt_a, 2, 0x10);
    lemma_times_close(two.times(t.sqrt_a), alpha, 65, 0x100);
    let slope = two.times(t.sqrt_a).times(alpha);
    let top = 0x1_0000int;
    lemma_small_within(slope, 2 * (65int * 0x100) + 1, top);
    // the products with the cosine
    let dc = down.times(c);
    let dn = down.times(n);
    let uc = up.times(c);
    let un = up.times(n);
    lemma_times_close(down, c, 35, 0x10);
    lemma_times_close(down, n, 35, 0x10);
    lemma_times_close(up, c, 35, 0x10);
    lemma_times_close(up, n, 35, 0x10);
    lemma_negated_product(down.value(), c.value());
    lemma_negated_product(up.value(), c.value());
    lemma_times_by_value(down, n, down, c);
    lemma_times_by_value(up, n, up, c);
    assert(dn.value() == -dc.value() && un.value() == -uc.value());
    // the sums
    let mid = 0x1000int;
    lemma_small_within(dc, 2 * (35int * 0x10) + 1, mid);
    lemma_small_within(dn, 2 * (35int * 0x10) + 1, mid);
    lemma_small_within(uc, 2 * (35int * 0x10) + 1, mid);
    lemma_small_within(un, 2 * (35int * 0x10) + 1, mid);
    lemma_opposite_close(dc, mid);
    lemma_opposite_close(dn, mid);
    lemma_opposite_close(uc, mid);
    lemma_opposite_close(un, mid);
    let big = 0x4000int;
    lemma_plus_close(up, dc, 35, mid);
    lemma_minus_close(up, dn, 35, mid);
    lemma_minus_close(up, dc, 35, mid);
    lemma_plus_close(up, dn, 35, mid);
    lemma_plus_by_value(up, dc, up, dn.opposite());
    lemma_plus_by_value(up, dc.opposite(), up, dn);
    let low = up.minus(dc);
    let high = up.plus(dc);
    let low_n = up.minus(dn);
    let high_n = up.plus(dn);
    assert(high.value() == low_n.value() && low.value() == high_n.value());
    assert(small(low, big) && small(high, big) && small(low_n, big) && small(high_n, big));
    lemma_opposite_close(slope, top);
    lemma_outer_taps(t.a, high, low_n, slope);
    lemma_plus_by_value(low, slope, high_n, slope);
    lemma_plus_by_value(low, slope.opposite(), high_n, slope.opposite());
    // the middle taps
    lemma_plus_close(down, uc, 35, mid);
    lemma_minus_close(down, un, 35, mid);
    lemma_minus_close(down, uc, 35, mid);
    lemma_plus_close(down, un, 35, mid);
    lemma_plus_by_value(down, uc, down, un.opposite());
    lemma_plus_by_value(down, uc.opposite(), down, un);
    let x = down.plus(uc);
    let y = down.minus(un);
    assert(x.value() == y.value());
    lemma_times_close(back, t.a, 2, 0x10);
    lemma_times_close(two, t.a, 2, 0x10);
    lemma_doubled_product(t.a.value());
    lemma_times_by_value(back, t.a, two, t.a);
    let p = back.times(t.a);
    let q = two.times(t.a);
    assert(p.value() == -q.value());
    lemma_negated_times(p.value(), x.value(), q.value(), y.value());
    lemma_times_by_value(p, x, q, y);
    let v = down.minus(uc);
    let w = down.plus(un);
    assert(v.value() == w.value());
    lemma_negated_times(two.value(), v.value(), back.value(), w.value());
    lemma_times_by_value(two, v, back, w);
}

proof fn lemma_outer_taps(a: F32, high: F32, low: F32, slope: F32)
    requires
        small(a, 0x10),
        small(high, 0x4000),
        small(low, 0x4000),
        small(slope, 0x1_0000),
        high.value() == low.value(),
    ensures
        a.times(high.plus(slope)).value() == a.times(low.plus(slope)).value(),
        a.times(high.minus(slope)).value() == a.times(low.minus(slope)).value(),
        high.plus(slope).value() == low.plus(slope).value(),
        high.minus(slope).value() == low.minus(slope).value(),
{
    lemma_opposite_close(slope, 0x1_0000);
    lemma_plus_close(high, slope, 0x4000, 0x1_0000);
    lemma_plus_close(low, slope, 0x4000, 0x1_0000);
    lemma_minus_close(high, slope, 0x4000, 0x1_0000);
    lemma_minus_close(low, slope, 0x4000, 0x1_0000);
    lemma_plus_by_value(high, slope, low, slope);
    lemma_plus_by_value(high, slope.opposite(), low, slope.opposite());
    lemma_times_by_value(a, high.plus(slope), a, low.plus(slope));
    lemma_times_by_value(a, high.minus(slope), a, low.minus(slope));
}

proof fn lemma_negated_product(a: int, b: int)
    ensures
        a * (-b) == -(a * b),
{
    assert(a * (-b) == -(a * b)) by (nonlinear_arith);
}

proof fn lemma_negated_times(a: int, b: int, c: int, d: int)
    requires
        a == -c,
        b == d,
    ensures
        a * b == -(c * d),
{
    assert(a * b == -(c * d)) by (nonlinear_arith)
        requires
            a == -c,
            b == d,
    ;
}

proof fn lemma_doubled_product(a: int)
    ensures
        (-(2 * unit())) * a == -((2 * unit()) * a),
{
    assert((-(2 * unit())) * a == -((2 * unit()) * a)) by (nonlinear_arith);
}

/// Minus two, as a number.
proof fn lemma_minus_two()
    ensures
        F32::nearest_to(-2).finite(),
        F32::nearest_to(-2).value() == -(2 * unit()),
{
    lemma_formats();
    lemma_whole_single(2);
    lemma_small_integer(single_format(), 2);
    reveal(F32::nearest_to);
    reveal(of_integer);
    reveal(F32::finite);
    lemma_packed_single(of_integer(single_format(), -2));
}

/// No gain changes nothing: at an amplitude of one, every filter weighs what goes
/// in as it weighs what comes out.
pub proof fn lemma_no_gain_is_flat(t: Tone, alpha: F32)
    requires
        moderate(t, alpha),
        t.a == F32::nearest_to(1),
    ensures
        forall|d: Design|
            #![trigger d.b0]
            d == low_shelf(t, alpha) || d == high_shelf(t, alpha) || d == peaking(t, alpha)
                ==> d.b0.value() == d.a0.value() && d.b1.value() == d.a1.value()
                && d.b2.value() == d.a2.value(),
{
    let c = t.cos_w0;
    let one = F32::nearest_to(1);
    let two = F32::nearest_to(2);
    let back = F32::nearest_to(-2);
    lemma_unit();
    lemma_whole_single(1);
    lemma_whole_single(2);
    lemma_minus_two();
    lemma_cancels_single(one);
    let up = one.plus(one);
    let down = F32::zero();
    assert(t.a.minus(one) == down);
    lemma_plus_close(one, one, 1, 1);
    lemma_times_close(two, t.sqrt_a, 2, 0x10);
    lemma_times_close(two.times(t.sqrt_a), alpha, 65, 0x100);
    let slope = two.times(t.sqrt_a).times(alpha);
    lemma_small_within(slope, 2 * (65int * 0x100) + 1, 0x1_0000);
    let dc = down.times(c);
    lemma_product_with_zero(c);
    lemma_opposite_of(dc);
    lemma_zero_plus(dc, up);
    lemma_zero_plus(dc.opposite(), up);
    let low = up.minus(dc);
    let high = up.plus(dc);
    assert(low.value() == high.value());
    lemma_outer_taps(one, low, high, slope);
    lemma_outer_taps(one, high, low, slope);
    lemma_opposite_close(slope, 0x1_0000);
    lemma_plus_close(low, slope, 0x4000, 0x1_0000);
    lemma_minus_close(low, slope, 0x4000, 0x1_0000);
    lemma_plus_close(high, slope, 0x4000, 0x1_0000);
    lemma_minus_close(high, slope, 0x4000, 0x1_0000);
    lemma_one_times(low.plus(slope));
    lemma_one_times(low.minus(slope));
    lemma_one_times(high.plus(slope));
    lemma_one_times(high.minus(slope));
    // the middle taps
    lemma_times_close(up, c, 5, 0x10);
    let uc = up.times(c);
    lemma_opposite_of(uc);
    lemma_zeros();
    lemma_zero_plus(down, uc);
    lemma_zero_plus(down, uc.opposite());
    let x = down.minus(uc);
    let y = down.plus(uc);
    lemma_least_single(two);
    lemma_least_single(back);
    lemma_times_one_single(two);
    lemma_times_one_single(back);
    assert(two.value() * x.value() == back.value() * y.value()) by (nonlinear_arith)
        requires
            two.value() == -back.value(),
            x.value() == -y.value(),
    ;
    lemma_times_by_value(two, x, back, y);
    // the peaking filter
    lemma_least_single(alpha);
    lemma_times_one_single(alpha);
    lemma_over_one(alpha);
    lemma_opposite_of(alpha);
    lemma_opposite_of(alpha.over(one));
    lemma_plus_by_value(one, alpha, one, alpha.over(one));
    lemma_plus_by_value(one, alpha.opposite(), one, alpha.over(one).opposite());
}

proof fn lemma_one_times(a: F32)
    requires
        a.finite(),
    ensures
        F32::nearest_to(1).times(a).value() == a.value(),
{
    lemma_least_single(a);
    lemma_times_one_single(a);
    lemma_times_commutes(F32::nearest_to(1), a);
}

/// A filter that changes nothing passes every sample on, whatever it has heard.
pub proof fn lemma_fresh_filter_passes(f: Biquad, x: F32)
    requires
        x.finite() && f.x1.finite() && f.x2.finite() && f.y1.finite() && f.y2.finite(),
        ({
            let new = Biquad::new();
            f.b0 == new.b0 && f.b1 == new.b1 && f.b2 == new.b2 && f.a1 == new.a1 && f.a2 == new.a2
        }),
    ensures
        f.response(x).finite(),
        f.response(x).value() == x.value(),
{
    let one = F32::nearest_to(1);
    let zero = F32::zero();
    lemma_zeros();
    lemma_whole_single(1);
    lemma_product_with_zero(f.x1);
    lemma_product_with_zero(f.x2);
    lemma_product_with_zero(f.y1);
    lemma_product_with_zero(f.y2);
    lemma_least_single(x);
    lemma_times_one_single(x);
    lemma_times_commutes(one, x);
    let s0 = one.times(x);
    lemma_zero_plus(zero.times(f.x1), s0);
    let s1 = s0.plus(zero.times(f.x1));
    lemma_zero_plus(zero.times(f.x2), s1);
    let s2 = s1.plus(zero.times(f.x2));
    lemma_opposite_of(zero.times(f.y1));
    lemma_zero_plus(zero.times(f.y1).opposite(), s2);
    let s3 = s2.minus(zero.times(f.y1));
    lemma_opposite_of(zero.times(f.y2));
    lemma_zero_plus(zero.times(f.y2).opposite(), s3);
}

proof fn lemma_opposite_of(a: F32)
    requires
        a.finite(),
    ensures
        a.opposite().finite(),
        a.opposite().value() == -a.value(),
{
    reveal(F32::negated);
    reveal(F32::finite);
}

/// Zero times a finite number is zero.
pub proof fn lemma_product_with_zero(a: F32)
    requires
        a.finite(),
    ensures
        F32::zero().times(a).finite(),
        F32::zero().times(a).value() == 0,
{
    lemma_zeros();
    lemma_times_by_value(F32::zero(), a, F32::zero(), F32::zero());
    lemma_zero_times(F32::zero());
    assert(0 * a.value() == 0);
    lemma_formats();
    reveal(F32::finite);
    reveal(F32::product);
    reveal(product);
    lemma_unit();
    lemma_exact(single_format(), 0);
    lemma_nearest_scaled(single_format(), 0, 1, unit());
    lemma_packed_single(product(single_format(), F32::zero().datum(), a.datum()));
    assert(0 * single_format().one() == 0 && 1 * single_format().one() == single_format().one());
    assert(0 * single_format().magnitude(a.datum().number) == 0);
}

} // verus!

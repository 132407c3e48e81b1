//! How close to the time it is sent to a deck lands.
use vstd::prelude::*;
use crate::float::double::{double_format, F64};
use crate::float::error::{
    large, lemma_integer_near, lemma_near_reduced, lemma_near_times, lemma_one_is_large,
    lemma_product_near, lemma_quotient_near, lemma_round_near, lemma_sum_near, natural, near,
};
use crate::float::exact::lemma_whole_double;
use crate::float::rounding::lemma_pow2_step;
use super::deck::Deck;
use super::span::{lemma_nearest_whole, lemma_span_total, nanos_of, spannable, TimeSpan};

verus! {

/// A time `there`, in nanoseconds, is half a frame from `wanted` at most, but for a
/// nanosecond and one part in `2^50` of the time that rounding may take.
pub open spec fn lands_near(there: int, wanted: int, rate: int) -> bool {
    let slack = 0x4_0000_0000_0000 * (1_000_000_000 + 2 * rate) + 2 * (rate * wanted);
    &&& 0x8_0000_0000_0000 * ((there - wanted) * rate) <= slack
    &&& 0x8_0000_0000_0000 * ((wanted - there) * rate) <= slack
}

/// The errors of the single steps add up to no more than is allowed. The steps are
/// given in units, times the frames per second, times the nanoseconds per second.
proof fn lemma_steps_add_up(
    s: int,
    n: int,
    a: int,
    b: int,
    c: int,
    d: int,
    e: int,
    f: int,
    g: int,
    p: int,
    w: int,
    v: int,
    y: int,
)
    requires
        s >= 0,
        n >= 0,
        w >= 0,
        0x1000_0000_0000_0000 * w <= y,
        0 <= v <= 1_000_000_000 * y,
        steps_near(a, s, w),
        steps_near(b, n, w),
        steps_near(c, a + b, w),
        steps_near(d, c, w),
        -v <= 2 * (e - d) <= v,
        steps_near(f, e, w),
        steps_near(g, f, w),
        -y <= 2 * (p - g) <= y,
    ensures
        0x8_0000_0000_0000 * (p - (s + n)) <= 0x4_0000_0000_0000 * (v + 2 * y) + 2 * (s + n),
        0x8_0000_0000_0000 * (s + n - p) <= 0x4_0000_0000_0000 * (v + 2 * y) + 2 * (s + n),
        2 * g <= 3 * (s + n) + 2 * v + 2 * y,
{
}

spec fn steps_near(x: int, of: int, w: int) -> bool {
    &&& 0x20_0000_0000_0000 * (x - of) <= x + 0x10_0000_0000_0000 * w
    &&& 0x20_0000_0000_0000 * (of - x) <= x + 0x10_0000_0000_0000 * w
}

/// One step, in the units in which the steps are added up.
proof fn lemma_step(x: int, of: int, den: int, k: int, w: int)
    requires
        near(x, of, den),
        k >= 0,
        den * k <= w,
    ensures
        steps_near(x * den * k, of * k, w),
{
    lemma_near_times(x, of, den, k);
}

/// The steps from a time to a frame and back, each near the exact result of the one
/// before; returns the whole number that the frame is near.
proof fn lemma_seek_steps(at: TimeSpan, rate: int) -> (e: int)
    requires
        0 < rate <= u32::MAX,
    ensures
        ({
            let one = double_format().one();
            let r = F64::nearest_to(rate);
            let a = F64::nearest_to(at.secs as int);
            let b = F64::nearest_to(at.nanos as int).over(F64::nearest_to(1_000_000_000));
            let c = a.plus(b);
            let d = c.times(r);
            let f = d.round();
            let g = f.over(r);
            &&& near(a.value(), at.secs * one, 1)
            &&& near(b.value(), at.nanos * one, 1_000_000_000)
            &&& near(c.value(), a.value() + b.value(), 1)
            &&& near(d.value(), c.value() * rate, 1)
            &&& -one <= 2 * (e * one - d.value()) <= one
            &&& near(f.value(), e * one, 1)
            &&& near(g.value(), f.value(), rate)
            &&& natural(g)
            &&& g.value() >= 0
        }),
{
    let one = double_format().one();
    let giga = 1_000_000_000int;
    let secs = at.secs as int;
    let nanos = at.nanos as int;
    lemma_pow2_step(1074);
    lemma_one_is_large();
    lemma_whole_double(giga);
    lemma_whole_double(rate);
    lemma_whole_double(nanos);
    lemma_integer_near(giga);
    lemma_integer_near(rate);
    lemma_integer_near(nanos);
    lemma_integer_near(secs);
    let r = F64::nearest_to(rate);
    let a = F64::nearest_to(secs);
    let top = 0x1_0000_0000_0000_0000int;
    assert(0 <= secs * one <= top * one) by (nonlinear_arith)
        requires
            0 <= secs <= top,
            one > 0,
    ;
    assert(a.value() <= 2 * (top * one));
    // The nanoseconds, in seconds.
    let b = F64::nearest_to(nanos).over(F64::nearest_to(giga));
    assert(0 <= (nanos * one) * one <= large() * (giga * one) && giga * one > 0) by (nonlinear_arith)
        requires
            0 <= nanos <= 0x1_0000_0000,
            giga == 1_000_000_000,
            one > 0,
            large() == 0x1_0000_0000_0000_0000_0000_0000_0000_0000 * one,
    ;
    lemma_quotient_near(F64::nearest_to(nanos), F64::nearest_to(giga));
    lemma_near_reduced(b.value(), nanos * one, giga, one);
    assert(0 <= nanos * one <= 0x1_0000_0000 * one) by (nonlinear_arith)
        requires
            0 <= nanos <= 0x1_0000_0000,
            one > 0,
    ;
    assert(b.value() <= top * one);
    // All seconds.
    let c = a.plus(b);
    lemma_sum_near(a, b);
    assert(c.value() <= 8 * (top * one));
    // The frame.
    let d = c.times(r);
    assert(0 <= c.value() * (rate * one) <= large() * one) by (nonlinear_arith)
        requires
            0 <= c.value() <= 8 * (0x1_0000_0000_0000_0000 * one),
            0 <= rate <= 0x1_0000_0000,
            one > 0,
            large() == 0x1_0000_0000_0000_0000_0000_0000_0000_0000 * one,
    ;
    lemma_product_near(c, r);
    assert(c.value() * (rate * one) == (c.value() * rate) * one) by (nonlinear_arith);
    assert(1 * one == one);
    lemma_near_reduced(d.value(), c.value() * rate, 1, one);
    assert(0 <= c.value() * rate <= 0x1_0000_0000 * (8 * (top * one))) by (nonlinear_arith)
        requires
            0 <= c.value() <= 8 * (top * one),
            0 <= rate <= 0x1_0000_0000,
    ;
    assert(d.value() <= 0x20_0000_0000 * (top * one));
    // The whole frame.
    let e = lemma_round_near(d);
    let f = d.round();
    assert(f.value() <= 0x80_0000_0000 * (top * one));
    // The time of that frame.
    let g = f.over(r);
    assert(0 <= f.value() * one <= large() * (rate * one) && rate * one > 0) by (nonlinear_arith)
        requires
            0 <= f.value() <= 0x80_0000_0000 * (0x1_0000_0000_0000_0000 * one),
            1 <= rate,
            one > 0,
            large() == 0x1_0000_0000_0000_0000_0000_0000_0000_0000 * one,
    ;
    lemma_quotient_near(f, r);
    lemma_near_reduced(g.value(), f.value(), rate, one);
    e
}

/// What the steps come to, in plain numbers.
proof fn lemma_steps_come_to(
    secs: int,
    nanos: int,
    rate: int,
    one: int,
    a: int,
    b: int,
    c: int,
    d: int,
    e: int,
    f: int,
    g: int,
    p: int,
)
    requires
        secs >= 0,
        nanos >= 0,
        rate > 0,
        one >= 0x1000_0000_0000_0000 * 1_000_000_000,
        near(a, secs * one, 1),
        near(b, nanos * one, 1_000_000_000),
        near(c, a + b, 1),
        near(d, c * rate, 1),
        -one <= 2 * (e * one - d) <= one,
        near(f, e * one, 1),
        near(g, f, rate),
        -one <= 2 * (p * one - g * 1_000_000_000) <= one,
    ensures
        ({
            let wanted = secs * 1_000_000_000 + nanos;
            let x = (rate * wanted) * one;
            let y = rate * one;
            let v = 1_000_000_000 * one;
            let p1 = (p * one) * rate;
            &&& 0x8_0000_0000_0000 * (p1 - x) <= 0x4_0000_0000_0000 * (v + 2 * y) + 2 * x
            &&& 0x8_0000_0000_0000 * (x - p1) <= 0x4_0000_0000_0000 * (v + 2 * y) + 2 * x
            &&& 2 * (g * rate * 1_000_000_000) <= 3 * x + 2 * v + 2 * y
            &&& v <= 1_000_000_000 * y
        }),
{
    let giga = 1_000_000_000int;
    let wanted = secs * giga + nanos;
    assert(secs * one >= 0 && nanos * one >= 0) by (nonlinear_arith)
        requires
            secs >= 0,
            nanos >= 0,
            one > 0,
    ;
    // All of it in the same units.
    let w = giga * rate;
    let v = giga * one;
    let y = rate * one;
    let s1 = (secs * one) * w;
    let n1 = (nanos * one) * rate;
    let a1 = a * w;
    let b1 = b * giga * rate;
    let c1 = c * w;
    let d1 = d * giga;
    let e1 = (e * one) * giga;
    let f1 = f * giga;
    let g1 = g * rate * giga;
    let p1 = (p * one) * rate;
    assert(giga <= w && w >= 0) by (nonlinear_arith)
        requires
            rate >= 1,
            giga == 1_000_000_000,
            w == giga * rate,
    ;
    lemma_step(a, secs * one, 1, w, w);
    lemma_step(b, nanos * one, giga, rate, w);
    lemma_step(c, a + b, 1, w, w);
    assert((a + b) * w == a1 + b1) by (nonlinear_arith)
        requires
            a1 == a * w,
            b1 == b * giga * rate,
            w == giga * rate,
    ;
    lemma_step(d, c * rate, 1, giga, w);
    assert(c * rate * giga == c1) by (nonlinear_arith)
        requires
            c1 == c * w,
            w == giga * rate,
    ;
    lemma_step(f, e * one, 1, giga, w);
    assert(rate * giga == w) by (nonlinear_arith)
        requires
            w == giga * rate,
    ;
    lemma_step(g, f, rate, giga, w);
    assert(g * giga * rate == g1) by (nonlinear_arith)
        requires
            g1 == g * rate * giga,
    ;
    assert(-y <= 2 * (p1 - g1) <= y) by (nonlinear_arith)
        requires
            -one <= 2 * (p * one - g * giga) <= one,
            rate >= 0,
            p1 == (p * one) * rate,
            g1 == g * giga * rate,
            y == rate * one,
    ;
    assert(-v <= 2 * (e1 - d1) <= v);
    assert(0 <= v <= giga * y && s1 >= 0 && n1 >= 0) by (nonlinear_arith)
        requires
            rate >= 1,
            one > 0,
            secs * one >= 0,
            nanos * one >= 0,
            w >= 0,
            v == giga * one,
            y == rate * one,
            giga == 1_000_000_000,
            s1 == (secs * one) * w,
            n1 == (nanos * one) * rate,
    ;
    assert(0x1000_0000_0000_0000 * w <= y) by (nonlinear_arith)
        requires
            w == giga * rate,
            giga == 1_000_000_000,
            rate >= 1,
            y == rate * one,
            one >= 0x1000_0000_0000_0000 * 1_000_000_000,
    ;
    lemma_steps_add_up(s1, n1, a1, b1, c1, d1, e1, f1, g1, p1, w, v, y);
    let x = (rate * wanted) * one;
    assert(s1 + n1 == x) by (nonlinear_arith)
        requires
            s1 == (secs * one) * w,
            n1 == (nanos * one) * rate,
            w == giga * rate,
            wanted == secs * giga + nanos,
            x == (rate * wanted) * one,
    ;
}

/// A deck that is sent to a time of its track is there, to half a frame; a deck
/// that is sent behind the end is at the end. Only times from `2^63` seconds on may
/// be out of reach.
pub proof fn lemma_seek_lands_near(deck: Deck, pos: TimeSpan)
    requires
        deck.sample_rate > 0,
    ensures
        ({
            let moved = Deck { control_cursor: deck.frame_at(pos).to_bits(), ..deck };
            let wanted = if pos.total() > deck.duration.total() {
                deck.duration.total()
            } else {
                pos.total()
            };
            match moved.position() {
                Some(there) => lands_near(there.total(), wanted, deck.sample_rate as int),
                None => wanted >= 0x8000_0000_0000_0000 * 1_000_000_000,
            }
        }),
{
    let at = if pos.total() > deck.duration.total() {
        deck.duration
    } else {
        pos
    };
    let rate = deck.sample_rate as int;
    let one = double_format().one();
    let giga = 1_000_000_000int;
    let wanted = at.total();
    let r = F64::nearest_to(rate);
    let a = F64::nearest_to(at.secs as int);
    let b = F64::nearest_to(at.nanos as int).over(F64::nearest_to(giga));
    let c = a.plus(b);
    let d = c.times(r);
    let f = d.round();
    let g = f.over(r);
    let p = nanos_of(g);
    let e = lemma_seek_steps(at, rate);
    lemma_pow2_step(1074);
    lemma_one_is_large();
    lemma_nearest_whole(g.value() * giga, one);
    lemma_steps_come_to(
        at.secs as int,
        at.nanos as int,
        rate,
        one,
        a.value(),
        b.value(),
        c.value(),
        d.value(),
        e,
        f.value(),
        g.value(),
        p,
    );
    if spannable(g) {
        lemma_span_total(g);
        lemma_in_nanoseconds(p, wanted, rate, one);
    } else if wanted < 0x8000_0000_0000_0000 * giga {
        lemma_below_bound(g.value(), wanted, rate, one);
        reveal(F64::finite);
        assert(spannable(g));
    }
}

/// The bound on the error, without the unit.
proof fn lemma_in_nanoseconds(p: int, wanted: int, rate: int, one: int)
    requires
        one > 0,
        ({
            let x = (rate * wanted) * one;
            let y = rate * one;
            let v = 1_000_000_000 * one;
            let p1 = (p * one) * rate;
            &&& 0x8_0000_0000_0000 * (p1 - x) <= 0x4_0000_0000_0000 * (v + 2 * y) + 2 * x
            &&& 0x8_0000_0000_0000 * (x - p1) <= 0x4_0000_0000_0000 * (v + 2 * y) + 2 * x
        }),
    ensures
        lands_near(p, wanted, rate),
{
    let giga = 1_000_000_000int;
    let x = (rate * wanted) * one;
    let y = rate * one;
    let v = giga * one;
    let p1 = (p * one) * rate;
    let slack = 0x4_0000_0000_0000 * (giga + 2 * rate) + 2 * (rate * wanted);
    assert(0x4_0000_0000_0000 * (v + 2 * y) + 2 * x == slack * one) by (nonlinear_arith)
        requires
            v == giga * one,
            y == rate * one,
            x == (rate * wanted) * one,
            slack == 0x4_0000_0000_0000 * (giga + 2 * rate) + 2 * (rate * wanted),
    ;
    let gap = (p - wanted) * rate;
    assert(p1 - x == gap * one) by (nonlinear_arith)
        requires
            p1 == (p * one) * rate,
            x == (rate * wanted) * one,
            gap == (p - wanted) * rate,
    ;
    assert((wanted - p) * rate == -gap) by (nonlinear_arith)
        requires
            gap == (p - wanted) * rate,
    ;
    lemma_divide(0x8_0000_0000_0000 * gap, slack, one);
    lemma_divide(0x8_0000_0000_0000 * (-gap), slack, one);
    assert((0x8_0000_0000_0000 * gap) * one == 0x8_0000_0000_0000 * (gap * one)) by (nonlinear_arith);
    assert((0x8_0000_0000_0000 * (-gap)) * one == -(0x8_0000_0000_0000 * (gap * one)))
        by (nonlinear_arith);
}

/// The time of a frame at less than `2^63` seconds is less than `2^64` seconds.
proof fn lemma_below_bound(g: int, wanted: int, rate: int, one: int)
    requires
        rate > 0,
        one > 0,
        wanted < 0x8000_0000_0000_0000 * 1_000_000_000,
        1_000_000_000 * one <= 1_000_000_000 * (rate * one),
        2 * (g * rate * 1_000_000_000) <= 3 * ((rate * wanted) * one) + 2 * (1_000_000_000 * one)
            + 2 * (rate * one),
    ensures
        g < 0x1_0000_0000_0000_0000 * one,
{
    let y = rate * one;
    let x = (rate * wanted) * one;
    let top = 0x1_0000_0000_0000_0000int;
    assert(x <= (0x8000_0000_0000_0000 * 1_000_000_000) * y && y > 0) by (nonlinear_arith)
        requires
            wanted <= 0x8000_0000_0000_0000 * 1_000_000_000,
            x == (rate * wanted) * one,
            y == rate * one,
            rate > 0,
            one > 0,
    ;
    let gr = g * rate;
    assert(gr < top * y);
    assert(g < top * one) by (nonlinear_arith)
        requires
            g * rate < top * (rate * one),
            rate > 0,
    ;
}

proof fn lemma_divide(x: int, y: int, c: int)
    requires
        c > 0,
    ensures
        x * c <= y * c ==> x <= y,
{
    assert(x > y ==> x * c > y * c) by (nonlinear_arith)
        requires
            c > 0,
    ;
}

} // verus!

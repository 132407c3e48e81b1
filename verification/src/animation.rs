//! What moves on the screen while a deck changes.
use vstd::prelude::*;
use crate::analysis::tempo::lemma_magnitude_is_finite;
use crate::float::arith::abs;
use crate::float::close::{
    close, lemma_cancel, lemma_close_reduced, lemma_half, lemma_minus_close, lemma_over_close,
    lemma_plus_close, lemma_ratio_close, lemma_scale, lemma_unit, small, unit,
};
use crate::float::exact::lemma_whole_single;
use crate::float::order::{lemma_by_value_single, lemma_least_single, lemma_order_single};
use crate::float::single::F32;

verus! {

/// Milliseconds from tick to tick.
pub const TICK_MS: i32 = 16;

/// The animations of a deck: the wipe that uncovers a new track, and the
/// counter that rolls from one tempo to another.
#[derive(Clone, Copy, Debug)]
pub struct Animation {
    pub wipe_progress: F32,
    pub wipe_animating: bool,
    pub bpm_display: F32,
    pub bpm_display_prev: F32,
    pub bpm_anim: F32,
}

/// How far a tick takes the wipe, which lasts half a second.
#[verifier::allow_in_spec]
pub fn wipe_step() -> F32
    returns
        F32::ratio(16, 1000).over(F32::ratio(1, 2)),
{
    F32::ratio(TICK_MS, 1000).over(F32::ratio(1, 2))
}

/// How far a tick takes the counter, which lasts 35 hundredths of a second.
#[verifier::allow_in_spec]
pub fn counter_step() -> F32
    returns
        F32::ratio(16, 1000).over(F32::ratio(35, 100)),
{
    F32::ratio(TICK_MS, 1000).over(F32::ratio(35, 100))
}

impl Animation {
    /// Nothing moves, and no tempo is shown.
    pub open spec fn still() -> Animation {
        Animation {
            wipe_progress: F32::zero(),
            wipe_animating: false,
            bpm_display: F32::zero(),
            bpm_display_prev: F32::zero(),
            bpm_anim: F32::nearest_to(1),
        }
    }

    /// The wipe begins.
    pub open spec fn wiping(self) -> Animation {
        Animation { wipe_progress: F32::zero(), wipe_animating: true, ..self }
    }

    /// Begins the wipe.
    pub fn start_wipe(&mut self)
        ensures
            *final(self) == old(self).wiping(),
    {
        self.wipe_progress = F32::zero();
        self.wipe_animating = true;
    }

    /// The counter begins to roll to a tempo, unless that is as good as shown.
    pub open spec fn showing(self, value: F32) -> Animation {
        if self.bpm_display.minus(value).abs().gt(F32::ratio(5, 100)) {
            Animation {
                bpm_display_prev: self.bpm_display,
                bpm_display: value,
                bpm_anim: F32::zero(),
                ..self
            }
        } else {
            self
        }
    }

    /// Shows a tempo.
    pub fn set_bpm_display(&mut self, value: F32)
        ensures
            *final(self) == old(self).showing(value),
    {
        if self.bpm_display.minus(value).abs().gt(F32::ratio(5, 100)) {
            self.bpm_display_prev = self.bpm_display;
            self.bpm_display = value;
            self.bpm_anim = F32::zero();
        }
    }

    /// The counter a tick on; it stops at one.
    pub open spec fn counted(self) -> Animation {
        if self.bpm_anim.lt(F32::nearest_to(1)) {
            Animation {
                bpm_anim: self.bpm_anim.plus(counter_step()).min(F32::nearest_to(1)),
                ..self
            }
        } else {
            self
        }
    }

    /// Moves the counter on.
    pub fn tick_bpm_anim(&mut self)
        ensures
            *final(self) == old(self).counted(),
    {
        if self.bpm_anim.lt(F32::whole(1)) {
            self.bpm_anim = self.bpm_anim.plus(counter_step()).min(F32::whole(1));
        }
    }

    /// The wipe a tick on; it stops at one.
    pub open spec fn wiped(self) -> Animation {
        let moved = self.wipe_progress.plus(wipe_step());
        if !self.wipe_animating {
            self
        } else if moved.ge(F32::nearest_to(1)) {
            Animation { wipe_progress: F32::nearest_to(1), wipe_animating: false, ..self }
        } else {
            Animation { wipe_progress: moved, ..self }
        }
    }

    /// Moves the wipe on.
    pub fn tick_wipe(&mut self)
        ensures
            *final(self) == old(self).wiped(),
    {
        if self.wipe_animating {
            self.wipe_progress = self.wipe_progress.plus(wipe_step());
            if self.wipe_progress.ge(F32::whole(1)) {
                self.wipe_progress = F32::whole(1);
                self.wipe_animating = false;
            }
        }
    }
}

impl Default for Animation {
    fn default() -> (r: Animation)
        ensures
            r == Animation::still(),
    {
        Animation {
            wipe_progress: F32::zero(),
            wipe_animating: false,
            bpm_display: F32::zero(),
            bpm_display_prev: F32::zero(),
            bpm_anim: F32::whole(1),
        }
    }
}

/// A wipe that ends is complete, and one that goes on is not; a wipe that has
/// ended stays as it is.
pub proof fn lemma_wipe_ends_complete(a: Animation)
    ensures
        a.wipe_animating && !a.wiped().wipe_animating ==> a.wiped().wipe_progress
            == F32::nearest_to(1),
        a.wiped().wipe_animating ==> !a.wiped().wipe_progress.ge(F32::nearest_to(1)),
        !a.wipe_animating ==> a.wiped() == a,
{
}

/// The counter never runs past one, and stays there.
pub proof fn lemma_counter_stops(a: Animation)
    requires
        !a.bpm_anim.gt(F32::nearest_to(1)),
    ensures
        !a.counted().bpm_anim.gt(F32::nearest_to(1)),
        !a.bpm_anim.lt(F32::nearest_to(1)) ==> a.counted() == a,
{
    let one = F32::nearest_to(1);
    lemma_order_single(one, one, one);
}

/// A tempo that is clearly another, by more than five hundredths, takes the place of the
/// one on display, which becomes the one before, and the counter starts anew; one that
/// is clearly closer changes nothing.
pub proof fn lemma_display_follows(a: Animation, value: F32)
    requires
        small(a.bpm_display, 0x1000),
        small(value, 0x1000),
    ensures
        ({
            let off = abs(a.bpm_display.value() - value.value());
            let b = a.showing(value);
            &&& 1000 * off >= 51 * unit() ==> b.bpm_display == value && b.bpm_display_prev
                == a.bpm_display && b.bpm_anim == F32::zero()
            &&& 1000 * off <= 49 * unit() ==> b == a
            &&& b.wipe_progress == a.wipe_progress && b.wipe_animating == a.wipe_animating
        }),
{
    lemma_unit();
    lemma_minus_close(a.bpm_display, value, 0x1000, 0x1000);
    let d = a.bpm_display.minus(value);
    lemma_magnitude_is_finite(d);
    lemma_ratio_close(5, 100);
    lemma_by_value_single(F32::ratio(5, 100), d.abs());
}

/// A tick of the wipe takes it on by the share that a tick is of half a second: but for
/// rounding, 32 thousandths, unless that completes it.
pub proof fn lemma_wipe_lasts_half_a_second(a: Animation)
    requires
        small(a.wipe_progress, 1),
        a.wipe_animating,
        a.wiped().wipe_animating,
    ensures
        ({
            let gap = 1000 * (a.wiped().wipe_progress.value() - a.wipe_progress.value()) - 32
                * unit();
            -unit() <= 0x400 * gap <= unit()
        }),
{
    let u = unit();
    lemma_unit();
    lemma_ratio_close(16, 1000);
    lemma_half();
    let t = F32::ratio(16, 1000);
    let h = F32::ratio(1, 2);
    lemma_tick_share(t.value(), u);
    assert(-((1 * u) * h.value()) <= t.value() * u <= (1 * u) * h.value()) by (nonlinear_arith)
        requires
            0 <= t.value(),
            2 * t.value() <= u,
            2 * h.value() == u,
            u > 0,
    ;
    lemma_over_close(t, h, 1);
    let s = t.over(h);
    lemma_doubled(s.value(), t.value(), h.value(), u);
    lemma_plus_close(a.wipe_progress, s, 1, 3);
}

proof fn lemma_tick_share(t: int, u: int)
    requires
        u >= 0x1_0000_0000_0000,
        t >= 0,
        close(t, 16 * u, 1000),
    ensures
        -u <= 0x8_0000 * (1000 * t - 16 * u) <= u,
        2 * t <= u,
{
}

proof fn lemma_doubled(s: int, t: int, h: int, u: int)
    requires
        u >= 0x1_0000_0000_0000,
        2 * h == u,
        0 <= 2 * t <= u,
        close(s, t * u, h),
    ensures
        -u <= 0x40_0000 * (s - 2 * t) <= u,
{
    assert(t * u == (2 * t) * h && 1 * h == h) by (nonlinear_arith)
        requires
            2 * h == u,
    ;
    lemma_close_reduced(s, 2 * t, 1, h);
}

/// A tick of the counter takes it on by the share that a tick is of 350 milliseconds: but
/// for rounding, 16 of 350, and never past one.
pub proof fn lemma_counter_lasts(a: Animation)
    requires
        small(a.bpm_anim, 1),
        a.bpm_anim.value() < unit(),
    ensures
        a.counted().bpm_anim.value() <= unit(),
        a.counted().bpm_anim.value() < unit() ==> ({
            let gap = 350 * (a.counted().bpm_anim.value() - a.bpm_anim.value()) - 16 * unit();
            -unit() <= 0x400 * gap <= unit()
        }),
{
    let u = unit();
    let one = F32::nearest_to(1);
    lemma_unit();
    lemma_whole_single(1);
    lemma_by_value_single(a.bpm_anim, one);
    lemma_ratio_close(16, 1000);
    lemma_ratio_close(35, 100);
    let t = F32::ratio(16, 1000);
    let p = F32::ratio(35, 100);
    lemma_tick_share(t.value(), u);
    lemma_span_share(p.value(), u);
    assert(-((1 * u) * p.value()) <= t.value() * u <= (1 * u) * p.value()) by (nonlinear_arith)
        requires
            0 <= t.value() <= p.value(),
            u > 0,
    ;
    lemma_over_close(t, p, 1);
    let s = t.over(p);
    lemma_counted(s.value(), t.value(), p.value(), u);
    lemma_plus_close(a.bpm_anim, s, 1, 3);
    let r = a.bpm_anim.plus(s);
    lemma_by_value_single(r, one);
    lemma_by_value_single(one, r);
    lemma_least_single(r);
}

proof fn lemma_span_share(p: int, u: int)
    requires
        u >= 0x1_0000_0000_0000,
        p >= 0,
        close(p, 35 * u, 100),
    ensures
        -u <= 0x4_0000 * (100 * p - 35 * u) <= u,
        50 * p >= u,
        p <= u,
{
}

proof fn lemma_counted(s: int, t: int, p: int, u: int)
    requires
        u >= 0x1_0000_0000_0000,
        0 < p <= u,
        50 * p >= u,
        0 <= t <= p,
        -u <= 0x4_0000 * (100 * p - 35 * u) <= u,
        -u <= 0x8_0000 * (1000 * t - 16 * u) <= u,
        close(s, t * u, p),
    ensures
        -u <= 0x800 * (350 * s - 16 * u) <= u,
{
    let k = 0x100_0000int;
    let sp = s * p;
    let tu = t * u;
    let uu = u * u;
    let su = s * u;
    let m = abs(s) * p;
    assert((m == sp || m == -sp) && m >= 0) by (nonlinear_arith)
        requires
            m == abs(s) * p,
            sp == s * p,
            abs(s) == s || abs(s) == -s,
            abs(s) >= 0,
            p > 0,
    ;
    assert(0 <= tu <= uu && 0x80_0000 * p <= 0x80_0000 * u && 0x1_0000_0000_0000 * u <= uu) by (
        nonlinear_arith)
        requires
            0 <= t <= u,
            p <= u,
            u >= 0x1_0000_0000_0000,
            tu == t * u,
            uu == u * u,
    ;
    assert(-(8 * uu) <= k * (sp - tu) <= 8 * uu);
    // t is 16 of 1000
    lemma_scale(0x8_0000 * (1000 * t - 16 * u), u, u);
    assert((0x8_0000 * (1000 * t - 16 * u)) * u == 0x8_0000 * (1000 * tu - 16 * uu)) by (
        nonlinear_arith)
        requires
            tu == t * u,
            uu == u * u,
    ;
    // the quotient is below one
    assert(0 <= s <= 2 * u) by {
        if s < 0 {
            assert(sp <= -p && m == -sp) by (nonlinear_arith)
                requires
                    s <= -1,
                    p > 0,
                    sp == s * p,
                    m == abs(s) * p,
                    abs(s) == -s,
            ;
        }
        if s > 2 * u {
            assert(sp >= 2 * (u * p) && m == sp) by (nonlinear_arith)
                requires
                    s >= 2 * u,
                    p > 0,
                    sp == s * p,
                    m == abs(s) * p,
                    abs(s) == s,
            ;
            assert(tu <= u * p) by (nonlinear_arith)
                requires
                    0 <= t <= p,
                    u > 0,
                    tu == t * u,
            ;
            assert(u * p >= 0x1_0000_0000_0000 * p) by (nonlinear_arith)
                requires
                    u >= 0x1_0000_0000_0000,
                    p > 0,
            ;
        }
    }
    // p is 35 of 100
    let g = 100 * p - 35 * u;
    lemma_scale(0x4_0000 * g, u, s);
    assert((0x4_0000 * g) * s == 0x4_0000 * (100 * sp - 35 * su)) by (nonlinear_arith)
        requires
            g == 100 * p - 35 * u,
            sp == s * p,
            su == s * u,
    ;
    assert(u * s == su) by (nonlinear_arith)
        requires
            su == s * u,
    ;
    assert(su <= 2 * uu) by (nonlinear_arith)
        requires
            su == s * u,
            uu == u * u,
            s <= 2 * u,
            u > 0,
    ;
    let v = 0x800 * (350 * s - 16 * u);
    assert(v * u == 0x800 * (350 * su - 16 * uu)) by (nonlinear_arith)
        requires
            v == 0x800 * (350 * s - 16 * u),
            su == s * u,
            uu == u * u,
    ;
    assert(-uu <= v * u <= uu);
    lemma_cancel(v, u, u);
    assert((-u) * u == -uu) by (nonlinear_arith)
        requires
            uu == u * u,
    ;
    lemma_cancel(-u, v, u);
}

} // verus!

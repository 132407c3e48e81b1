//! The disc that turns with the track, and the tempo on its label.
use vstd::prelude::*;
use crate::float::arith::abs;
use crate::float::close::{
    close, lemma_minus_close, lemma_scale, lemma_small_within, lemma_times_close, lemma_unit, unit,
};
use crate::float::exact::lemma_whole_single;
use crate::float::order::{lemma_by_value_single, lemma_zeros};
use crate::float::single::F32;
use crate::window::pi;

verus! {

/// A disc.
#[derive(Clone, Copy, Debug)]
pub struct RotatingDisc {
    /// The angle of the disc.
    pub rotation: F32,
    pub bpm_prev: F32,
    pub bpm: F32,
    /// How far the label has rolled from one tempo to the other, from 0 to 1.
    pub bpm_anim: F32,
    pub is_playing: bool,
}

/// How the disc and its label are drawn.
#[derive(Clone, Copy, Debug)]
pub struct DiscShape {
    pub center_x: F32,
    pub center_y: F32,
    pub radius: F32,
    pub label_radius: F32,
    pub hole_radius: F32,
    pub marker_start: F32,
    pub marker_end: F32,
}

/// How the tempo is written: whether it is at all, whether the old one and the
/// new one are, at which heights, and how opaque the new one is.
#[derive(Clone, Copy, Debug)]
pub struct LabelText {
    pub shown: bool,
    pub shows_prev: bool,
    pub shows_bpm: bool,
    pub prev_y: F32,
    pub bpm_y: F32,
    pub unit_y: F32,
    pub eased: F32,
    pub prev_alpha: F32,
    pub unit_alpha: F32,
}

impl RotatingDisc {
    /// A disc.
    #[verifier::allow_in_spec]
    pub fn new(
        rotation: F32,
        bpm_prev: F32,
        bpm: F32,
        bpm_anim: F32,
        is_playing: bool,
    ) -> RotatingDisc
        returns
            (RotatingDisc { rotation, bpm_prev, bpm, bpm_anim, is_playing }),
    {
        RotatingDisc { rotation, bpm_prev, bpm, bpm_anim, is_playing }
    }

    /// Whether the disc has to be drawn anew: it turns, or its label rolls.
    #[verifier::allow_in_spec]
    pub fn moves(self) -> bool
        returns
            self.is_playing || self.bpm_anim.lt(F32::nearest_to(1)),
    {
        self.is_playing || self.bpm_anim.lt(F32::whole(1))
    }

    /// The disc in a box.
    #[verifier::allow_in_spec]
    pub fn shape(self, width: F32, height: F32) -> DiscShape
        returns
            ({
                let radius = width.min(height).over(F32::nearest_to(2)).minus(F32::nearest_to(2));
                DiscShape {
                    center_x: width.over(F32::nearest_to(2)),
                    center_y: height.over(F32::nearest_to(2)),
                    radius,
                    label_radius: radius.times(F32::ratio(35, 100)),
                    hole_radius: radius.times(F32::ratio(5, 100)),
                    marker_start: radius.times(F32::ratio(25, 100)),
                    marker_end: radius.times(F32::ratio(75, 100)),
                }
            }),
    {
        let radius: F32 = width.min(height).over(F32::whole(2)).minus(F32::whole(2));
        DiscShape {
            center_x: width.over(F32::whole(2)),
            center_y: height.over(F32::whole(2)),
            radius,
            label_radius: radius.times(F32::ratio(35, 100)),
            hole_radius: radius.times(F32::ratio(5, 100)),
            marker_start: radius.times(F32::ratio(25, 100)),
            marker_end: radius.times(F32::ratio(75, 100)),
        }
    }

    /// The angles of the three markers on the disc.
    #[verifier::allow_in_spec]
    pub fn marker_angles(self) -> [F32; 3]
        returns
            ({
                let angle = self.rotation.times(F32::nearest_to(10));
                let third = pi().over(F32::ratio(3, 2));
                [angle, angle.plus(third), angle.minus(third)]
            }),
    {
        let angle: F32 = self.rotation.times(F32::whole(10));
        let third: F32 = pi().over(F32::ratio(3, 2));
        [angle, angle.plus(third), angle.minus(third)]
    }

    /// The tempo on the label of a disc.
    #[verifier::allow_in_spec]
    pub fn label(self, center_y: F32, label_radius: F32) -> LabelText
        returns
            ({
                let progress = self.bpm_anim.clamp(F32::zero(), F32::nearest_to(1));
                let left = F32::nearest_to(1).minus(progress);
                let eased = F32::nearest_to(1).minus(left.times(left));
                let travel = label_radius.times(F32::ratio(9, 10));
                let line = center_y.minus(label_radius.times(F32::ratio(25, 100)));
                LabelText {
                    shown: self.bpm.gt(F32::zero()) || self.bpm_prev.gt(F32::zero()),
                    shows_prev: self.bpm_prev.gt(F32::zero()) && progress.lt(F32::nearest_to(1)),
                    shows_bpm: self.bpm.gt(F32::zero()),
                    prev_y: line.minus(eased.times(travel)),
                    bpm_y: line.plus(F32::nearest_to(1).minus(eased).times(travel)),
                    unit_y: center_y.plus(label_radius.times(F32::ratio(55, 100))),
                    eased,
                    prev_alpha: F32::nearest_to(1).minus(eased),
                    unit_alpha: F32::ratio(7, 10).times(eased),
                }
            }),
    {
        let progress: F32 = self.bpm_anim.clamp(F32::zero(), F32::whole(1));
        let left: F32 = F32::whole(1).minus(progress);
        let eased: F32 = F32::whole(1).minus(left.times(left));
        let travel: F32 = label_radius.times(F32::ratio(9, 10));
        let line: F32 = center_y.minus(label_radius.times(F32::ratio(25, 100)));
        LabelText {
            shown: self.bpm.gt(F32::zero()) || self.bpm_prev.gt(F32::zero()),
            shows_prev: self.bpm_prev.gt(F32::zero()) && progress.lt(F32::whole(1)),
            shows_bpm: self.bpm.gt(F32::zero()),
            prev_y: line.minus(eased.times(travel)),
            bpm_y: line.plus(F32::whole(1).minus(eased).times(travel)),
            unit_y: center_y.plus(label_radius.times(F32::ratio(55, 100))),
            eased,
            prev_alpha: F32::whole(1).minus(eased),
            unit_alpha: F32::ratio(7, 10).times(eased),
        }
    }
}

impl DiscShape {
    /// The ends of a marker, given the cosine and sine of its angle.
    #[verifier::allow_in_spec]
    pub fn marker(self, cos: F32, sin: F32) -> ((F32, F32), (F32, F32))
        returns
            (
                (
                    self.center_x.plus(self.marker_start.times(cos)),
                    self.center_y.plus(self.marker_start.times(sin)),
                ),
                (
                    self.center_x.plus(self.marker_end.times(cos)),
                    self.center_y.plus(self.marker_end.times(sin)),
                ),
            ),
    {
        (
            (
                self.center_x.plus(self.marker_start.times(cos)),
                self.center_y.plus(self.marker_start.times(sin)),
            ),
            (
                self.center_x.plus(self.marker_end.times(cos)),
                self.center_y.plus(self.marker_end.times(sin)),
            ),
        )
    }
}

/// The label eases in: but for rounding, what is left of one is the square of what is left
/// of the progress, the new tempo shows as strongly as it has come in, and the old one as
/// strongly as that leaves.
pub proof fn lemma_label_eases(disc: RotatingDisc, center_y: F32, label_radius: F32)
    requires
        disc.bpm_anim.finite(),
        0 <= disc.bpm_anim.value() <= unit(),
    ensures
        ({
            let u = unit();
            let t = disc.label(center_y, label_radius);
            let left = u - disc.bpm_anim.value();
            let gap = (u - t.eased.value()) * u - left * left;
            &&& t.eased.finite()
            &&& -(u * u) <= 0x10_0000 * gap <= u * u
            &&& close(t.prev_alpha.value(), u - t.eased.value(), 1)
            &&& t.shows_prev ==> disc.bpm_anim.value() < u
        }),
{
    let u = unit();
    let one = F32::nearest_to(1);
    let p = disc.bpm_anim;
    lemma_unit();
    lemma_zeros();
    lemma_whole_single(1);
    lemma_by_value_single(p, F32::zero());
    lemma_by_value_single(one, p);
    lemma_by_value_single(p, one);
    lemma_minus_close(one, p, 1, 1);
    let left = one.minus(p);
    lemma_times_close(left, left, 5, 5);
    let sq = left.times(left);
    lemma_small_within(sq, 2 * (5int * 5) + 1, 51);
    lemma_minus_close(one, sq, 1, 51);
    let eased = one.minus(sq);
    lemma_small_within(eased, 2 * (1int + 51) + 1, 105);
    lemma_minus_close(one, eased, 1, 105);
    lemma_squared(left.value(), sq.value(), eased.value(), p.value(), u);
}

proof fn lemma_squared(l: int, s: int, e: int, p: int, u: int)
    requires
        u >= 0x1_0000_0000_0000,
        0 <= p <= u,
        close(l, u - p, 1),
        close(s, l * l, u),
        close(e, u - s, 1),
    ensures
        ({
            let left = u - p;
            let gap = (u - e) * u - left * left;
            -(u * u) <= 0x10_0000 * gap <= u * u
        }),
{
    let k = 0x100_0000int;
    let z = 0x80_0000int;
    let x = u - p;
    let ll = l * l;
    let xx = x * x;
    let su = s * u;
    let eu = e * u;
    let uu = u * u;
    assert((u - e) * u == uu - eu) by (nonlinear_arith)
        requires
            uu == u * u,
            eu == e * u,
    ;
    assert(0x1_0000_0000_0000 * u <= uu) by (nonlinear_arith)
        requires
            uu == u * u,
            u >= 0x1_0000_0000_0000,
    ;
    assert(0 <= l + x <= 3 * u);
    let d = l - x;
    assert(-(2 * u) <= k * d <= 2 * u);
    lemma_scale(k * d, 2 * u, l + x);
    assert((k * d) * (l + x) == k * (ll - xx)) by (nonlinear_arith)
        requires
            d == l - x,
            ll == l * l,
            xx == x * x,
    ;
    assert((2 * u) * (l + x) <= 6 * uu) by (nonlinear_arith)
        requires
            0 <= l + x <= 3 * u,
            uu == u * u,
            u > 0,
    ;
    assert(0 <= xx <= uu) by (nonlinear_arith)
        requires
            0 <= x <= u,
            xx == x * x,
            uu == u * u,
    ;
    let a_s = abs(s) * u;
    let ae = abs(e) * u;
    assert((a_s == su || a_s == -su) && (ae == eu || ae == -eu) && a_s >= 0 && ae >= 0) by (
        nonlinear_arith)
        requires
            a_s == abs(s) * u,
            ae == abs(e) * u,
            su == s * u,
            eu == e * u,
            abs(s) == s || abs(s) == -s,
            abs(e) == e || abs(e) == -e,
            abs(s) >= 0,
            abs(e) >= 0,
            u > 0,
    ;
    assert(-(4 * uu) <= k * (su - ll) <= 4 * uu);
    let g = e - (u - s);
    lemma_scale(k * g, abs(e) + z, u);
    assert((k * g) * u == k * (eu - uu + su) && (abs(e) + z) * u == ae + z * u) by (nonlinear_arith)
        requires
            g == e - (u - s),
            eu == e * u,
            su == s * u,
            uu == u * u,
            ae == abs(e) * u,
    ;
    assert(-(4 * uu) <= k * (eu - uu + su) <= 4 * uu);
}

} // verus!

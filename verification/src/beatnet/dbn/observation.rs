//! How well a state explains what is heard.
use vstd::prelude::*;
use crate::float::arith::abs;
use crate::float::close::{
    close, lemma_cancel, lemma_minus_close, lemma_ratio_close, lemma_unit, unit,
};
use crate::float::close_double as double;
use crate::float::double::F64;
use crate::float::error::{lemma_widened, near};
use crate::float::exact::{lemma_whole_double, lemma_whole_single};
use crate::float::order::{
    lemma_by_value_double, lemma_by_value_single, lemma_plus_exact_double,
};
use crate::float::single::F32;
use super::space::BarStateSpace;

verus! {

/// For each state what it expects: 0 no beat, 1 a beat, 2 a downbeat.
pub struct ObservationModel {
    pub pointers: Vec<u32>,
    pub observation_lambda: F64,
}

/// A value for each of the three things that a state can expect.
#[derive(Clone, Copy, Debug)]
pub struct Densities {
    pub rest: F64,
    pub beat: F64,
    pub downbeat: F64,
}

impl Densities {
    /// The value for a state that expects `column`.
    #[verifier::allow_in_spec]
    pub fn at(self, column: u32) -> F64
        returns
            (if column == 0 {
                self.rest
            } else if column == 1 {
                self.beat
            } else {
                self.downbeat
            }),
    {
        if column == 0 {
            self.rest
        } else if column == 1 {
            self.beat
        } else {
            self.downbeat
        }
    }
}

/// What a state expects that is `position` beats into the bar: a downbeat
/// close behind the start of the bar, a beat close behind any other beat.
pub open spec fn expected(position: F64, border: F64) -> u32 {
    if position.lt(border) {
        2
    } else if position.minus(position.floor()).lt(border) {
        1
    } else {
        0
    }
}

/// The smallest activation that is told from none.
#[verifier::allow_in_spec]
pub fn activation_floor() -> F32
    returns
        F32::ratio(1, 1_000_000),
{
    F32::ratio(1, 1_000_000)
}

/// An activation, kept away from zero and one.
pub open spec fn bounded(activation: F32) -> F64 {
    activation.clamp(activation_floor(), F32::nearest_to(1).minus(activation_floor())).to_double()
}

/// The densities of one frame: its beat and downbeat activations, and what
/// they leave, shared between the states without a beat.
pub open spec fn frame_densities(lambda: F64, frame: (F32, F32)) -> Densities {
    let beat = bounded(frame.0);
    let downbeat = bounded(frame.1);
    let rest = F64::nearest_to(1).minus(beat).minus(downbeat).clamp(
        F64::ratio(1, 1_000_000),
        F64::nearest_to(1),
    );
    Densities {
        rest: rest.over(lambda.minus(F64::nearest_to(1)).max(F64::nearest_to(1))),
        beat,
        downbeat,
    }
}

impl ObservationModel {
    /// Every state expects one of the three.
    pub open spec fn wf(self) -> bool {
        forall|s: int| 0 <= s < self.pointers@.len() ==> #[trigger] self.pointers@[s] <= 2
    }

    /// What the states of a bar expect, where a beat lasts one
    /// `observation_lambda`th of its interval.
    pub fn downbeat(space: &BarStateSpace, observation_lambda: i32) -> (r: ObservationModel)
        requires
            space.wf(),
        ensures
            r.wf(),
            r.observation_lambda == F64::nearest_to(observation_lambda as int),
            r.pointers@ == Seq::new(
                space.num_states as nat,
                |s: int|
                    expected(
                        space.state_positions@[s],
                        F64::nearest_to(1).over(F64::nearest_to(observation_lambda as int)),
                    ),
            ),
    {
        let border: F64 = F64::whole(1).over(F64::of_i32(observation_lambda));
        let mut pointers: Vec<u32> = Vec::new();
        let mut s: usize = 0;
        while s < space.num_states
            invariant
                space.wf(),
                s <= space.num_states,
                border == F64::nearest_to(1).over(F64::nearest_to(observation_lambda as int)),
                pointers@ == Seq::new(
                    s as nat,
                    |t: int| expected(space.state_positions@[t], border),
                ),
            decreases space.num_states - s,
        {
            let position: F64 = space.state_positions[s];
            let fraction: F64 = position.minus(position.floor());
            let mut pointer: u32 = 0;
            if fraction.lt(border) {
                pointer = 1;
            }
            if position.lt(border) {
                pointer = 2;
            }
            pointers.push(pointer);
            s = s + 1;
        }
        ObservationModel { pointers, observation_lambda: F64::of_i32(observation_lambda) }
    }

    /// The densities of each frame.
    pub fn densities(&self, observations: &Vec<(F32, F32)>) -> (r: Vec<Densities>)
        ensures
            r@ == observations@.map_values(
                |frame: (F32, F32)| frame_densities(self.observation_lambda, frame),
            ),
    {
        let ghost all = observations@.map_values(
            |frame: (F32, F32)| frame_densities(self.observation_lambda, frame),
        );
        let share: F64 = self.observation_lambda.minus(F64::whole(1)).max(F64::whole(1));
        let low: F32 = activation_floor();
        let high: F32 = F32::whole(1).minus(activation_floor());
        let mut out: Vec<Densities> = Vec::new();
        let mut i: usize = 0;
        while i < observations.len()
            invariant
                i <= observations@.len(),
                share == self.observation_lambda.minus(F64::nearest_to(1)).max(F64::nearest_to(1)),
                low == activation_floor(),
                high == F32::nearest_to(1).minus(activation_floor()),
                all == observations@.map_values(
                    |frame: (F32, F32)| frame_densities(self.observation_lambda, frame),
                ),
                out@ == all.take(i as int),
            decreases observations@.len() - i,
        {
            let beat: F64 = observations[i].0.clamp(low, high).to_double();
            let downbeat: F64 = observations[i].1.clamp(low, high).to_double();
            let rest: F64 = F64::whole(1).minus(beat).minus(downbeat).clamp(
                F64::ratio(1, 1_000_000),
                F64::whole(1),
            );
            out.push(Densities { rest: rest.over(share), beat, downbeat });
            assert(all.take(i + 1) =~= all.take(i as int).push(out@.last()));
            i = i + 1;
        }
        assert(all.take(i as int) =~= all);
        out
    }
}

/// An activation that is clearly neither zero nor one is taken as it is.
pub proof fn lemma_activation_is_kept(activation: F32)
    requires
        activation.finite(),
        2 * unit() <= 1_000_000 * activation.value() <= 999_998 * unit(),
    ensures
        bounded(activation) == activation.to_double(),
{
    let floor = activation_floor();
    let one = F32::nearest_to(1);
    lemma_unit();
    lemma_whole_single(1);
    lemma_ratio_close(1, 1_000_000);
    lemma_minus_close(one, floor, 1, 3);
    let top = one.minus(floor);
    lemma_by_value_single(activation, floor);
    lemma_by_value_single(top, activation);
}

/// An activation at or below zero becomes the floor, about a millionth, and one at or
/// above one becomes what the floor leaves of one.
pub proof fn lemma_activation_is_bounded(activation: F32)
    requires
        activation.finite(),
    ensures
        activation.value() <= 0 ==> bounded(activation) == activation_floor().to_double(),
        activation.value() >= unit() ==> bounded(activation) == F32::nearest_to(1).minus(
            activation_floor(),
        ).to_double(),
        close(activation_floor().value(), unit(), 1_000_000),
{
    let floor = activation_floor();
    let one = F32::nearest_to(1);
    lemma_unit();
    lemma_whole_single(1);
    lemma_ratio_close(1, 1_000_000);
    lemma_minus_close(one, floor, 1, 3);
    let top = one.minus(floor);
    lemma_by_value_single(activation, floor);
    lemma_by_value_single(top, activation);
    lemma_by_value_single(top, floor);
}

/// What the two activations leave of one is shared between the states without a beat: but
/// for rounding, the density at rest times one less than lambda is one less the beat
/// and the downbeat activation.
pub proof fn lemma_rest_is_shared(lambda: i32, frame: (F32, F32))
    requires
        2 <= lambda <= 0x1000,
        frame.0.finite(),
        frame.1.finite(),
        unit() <= 100 * frame.0.value() <= 49 * unit(),
        unit() <= 100 * frame.1.value() <= 49 * unit(),
    ensures
        ({
            let d = frame_densities(F64::nearest_to(lambda as int), frame);
            let u = double::unit();
            let left = u - d.beat.value() - d.downbeat.value();
            let gap = d.rest.value() * (lambda - 1) - left;
            &&& d.beat == frame.0.to_double()
            &&& d.downbeat == frame.1.to_double()
            &&& d.rest.finite()
            &&& -u <= 0x1_0000_0000_0000 * gap <= u
        }),
{
    let u = double::unit();
    let v = unit();
    lemma_unit();
    double::lemma_unit();
    lemma_activation_is_kept(frame.0);
    lemma_activation_is_kept(frame.1);
    let b = frame.0.to_double();
    let e = frame.1.to_double();
    lemma_widened(frame.0);
    lemma_widened(frame.1);
    lemma_share_widened(b.value(), frame.0.value(), u, v);
    lemma_share_widened(e.value(), frame.1.value(), u, v);
    let one = F64::nearest_to(1);
    lemma_whole_double(1);
    double::lemma_minus_close(one, b, 1, 1);
    let x = one.minus(b);
    double::lemma_minus_close(x, e, 5, 1);
    let y = x.minus(e);
    double::lemma_ratio_close(1, 1_000_000);
    lemma_by_value_double(y, F64::ratio(1, 1_000_000));
    lemma_by_value_double(one, y);
    let l = lambda as int;
    lemma_whole_double(l);
    lemma_whole_double(l - 1);
    let n = F64::nearest_to(l).minus(one);
    double::lemma_opposite_close(one, 1);
    assert(l * u - u == (l - 1) * u) by (nonlinear_arith);
    lemma_plus_exact_double(F64::nearest_to(l), one.opposite(), F64::nearest_to(l - 1));
    assert(n.value() >= u) by (nonlinear_arith)
        requires
            n.value() == (l - 1) * u,
            l >= 2,
            u > 0,
    ;
    lemma_by_value_double(n, one);
    lemma_by_value_double(n, n);
    let m = n.max(one);
    assert(m.value() == n.value());
    assert(-((1 * u) * m.value()) <= y.value() * u <= (1 * u) * m.value()) by (nonlinear_arith)
        requires
            0 <= y.value() <= u,
            m.value() >= u,
            u > 0,
    ;
    double::lemma_over_close(y, m, 1);
    let r = y.over(m).value();
    double::lemma_close_reduced(r, y.value(), l - 1, u);
    let rl = r * (l - 1);
    let k = abs(r) * (l - 1);
    assert((k == rl || k == -rl) && k >= 0) by (nonlinear_arith)
        requires
            k == abs(r) * (l - 1),
            rl == r * (l - 1),
            abs(r) == r || abs(r) == -r,
            abs(r) >= 0,
            l >= 2,
    ;
}

proof fn lemma_share_widened(b: int, a: int, u: int, v: int)
    requires
        u >= double::huge(),
        v > 0,
        v <= 100 * a <= 49 * v,
        near(b, a * u, v),
        b >= 0,
    ensures
        u <= 200 * b,
        1000 * b <= 491 * u,
{
    let bv = b * v;
    let au = a * u;
    let uv = u * v;
    assert(uv <= 100 * au <= 49 * uv) by (nonlinear_arith)
        requires
            v <= 100 * a <= 49 * v,
            au == a * u,
            uv == u * v,
            u > 0,
    ;
    assert(0x10_0000_0000_0000 * v * 0x1_0000 <= uv) by (nonlinear_arith)
        requires
            uv == u * v,
            v > 0,
            u >= 0x10_0000_0000_0000_0000_0000_0000,
    ;
    assert(200 * bv >= uv && 1000 * bv <= 491 * uv);
    assert((200 * b) * v == 200 * bv && (1000 * b) * v == 1000 * bv && (491 * u) * v == 491 * uv)
        by (nonlinear_arith)
        requires
            bv == b * v,
            uv == u * v,
    ;
    lemma_cancel(u, 200 * b, v);
    lemma_cancel(1000 * b, 491 * u, v);
}

} // verus!

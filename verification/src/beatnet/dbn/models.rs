//! The models of bars that tracks are decoded with.
use vstd::prelude::*;
use crate::float::double::{double_format, F64};
use crate::float::error::{
    large, lemma_integer_near, lemma_near_reduced, lemma_one_is_large, lemma_quotient_near,
    lemma_rounds_to,
};
use crate::float::exact::{lemma_whole_double, lemma_whole_times_double};
use crate::float::rounding::lemma_pow2_step;
use super::bar::{beat_before, change_exponent, change_exponents, fits};
use super::hmm::{max_interval, min_interval, NUM_TEMPI, TRANSITION_LAMBDA};
use super::space::{
    countable, enough, frames_before, intervals_between, positive, usable, whole_intervals,
    BarStateSpace,
};

verus! {

/// How many beats the bars have that are looked for.
pub fn bar_beats() -> (r: Vec<usize>)
    ensures
        r@ == seq![2usize, 3, 4],
{
    let mut v: Vec<usize> = Vec::new();
    v.push(2);
    v.push(3);
    v.push(4);
    v
}

/// The shortest interval looked for, in frames.
pub const SHORTEST: i32 = 14;

/// The longest interval looked for, in frames.
pub const LONGEST: i32 = 55;

/// The states of a beat at every tempo that is looked for.
pub const BEAT_STATES: usize = 1449;

/// Every interval from the shortest to the longest.
pub open spec fn tempo_intervals() -> Seq<i32> {
    Seq::new((LONGEST - SHORTEST + 1) as nat, |k: int| (SHORTEST + k) as i32)
}

/// A quotient of small whole numbers that is less than half away from `n`.
proof fn lemma_frames_of_tempo(bpm: int, n: int)
    requires
        0 < bpm < 1000,
        0 < n < 1000,
        2 * n * bpm - bpm < 6000 < 2 * n * bpm + bpm,
    ensures
        F64::nearest_to(60).times(F64::nearest_to(50)).over(F64::nearest_to(bpm)).round()
            .integer_part(i32::MIN as int, i32::MAX as int) == n,
{
    let one = double_format().one();
    let a = F64::nearest_to(3000);
    let b = F64::nearest_to(bpm);
    lemma_pow2_step(1074);
    lemma_one_is_large();
    lemma_whole_times_double(60, 50);
    lemma_whole_double(3000);
    lemma_whole_double(bpm);
    lemma_integer_near(3000);
    lemma_integer_near(bpm);
    assert(0 <= (3000 * one) * one <= large() * (bpm * one) && bpm * one > 0) by (nonlinear_arith)
        requires
            bpm >= 1,
            one > 0,
            large() == 0x1_0000_0000_0000_0000_0000_0000_0000_0000 * one,
    ;
    lemma_quotient_near(a, b);
    let g = a.over(b);
    let v = g.value();
    lemma_near_reduced(v, 3000 * one, bpm, one);
    // The rounding is far smaller than what is left to half a frame.
    let x = v * bpm;
    let slack = x + 0x10_0000_0000_0000 * bpm;
    assert(0x20_0000_0000_0000 * (x - 3000 * one) <= slack);
    assert(0x20_0000_0000_0000 * (3000 * one - x) <= slack);
    assert(-one < 2 * (n * one - v) < one) by (nonlinear_arith)
        requires
            x == v * bpm,
            0x20_0000_0000_0000 * (x - 3000 * one) <= x + 0x10_0000_0000_0000 * bpm,
            0x20_0000_0000_0000 * (3000 * one - x) <= x + 0x10_0000_0000_0000 * bpm,
            2 * n * bpm - bpm + 1 <= 6000,
            6001 <= 2 * n * bpm + bpm,
            0 < bpm < 1000,
            0 < n < 1000,
            one >= 0x1000_0000_0000_0000,
    ;
    lemma_rounds_to(g, n, i32::MIN as int, i32::MAX as int);
}

/// The frames of the first `n` intervals that are looked for.
proof fn lemma_tempo_frames(n: int)
    requires
        0 <= n <= tempo_intervals().len(),
    ensures
        2 * frames_before(tempo_intervals(), n) == n * (27 + n),
    decreases n,
{
    if n > 0 {
        lemma_tempo_frames(n - 1);
        assert((n - 1) * (27 + (n - 1)) + 2 * (13 + n) == n * (27 + n)) by (nonlinear_arith);
    } else {
        assert(n * (27 + n) == 0) by (nonlinear_arith)
            requires
                n == 0,
        ;
    }
}

/// Between the tempi that are looked for lie the intervals from 14 to 55 frames,
/// fewer than can be told apart, so that every whole one is used.
pub proof fn lemma_every_tempo_is_used(points: Seq<Vec<F64>>)
    ensures
        intervals_between(min_interval(), max_interval(), Some(NUM_TEMPI), points) == Some(
            tempo_intervals(),
        ),
        usable(tempo_intervals()),
        positive(tempo_intervals()),
        frames_before(tempo_intervals(), tempo_intervals().len() as int) == BEAT_STATES,
{
    lemma_frames_of_tempo(215, SHORTEST as int);
    lemma_frames_of_tempo(55, LONGEST as int);
    assert(whole_intervals(min_interval(), max_interval()) =~= tempo_intervals());
    assert(enough(Some(NUM_TEMPI), tempo_intervals().len()));
    assert(tempo_intervals().len() == 42);
    lemma_tempo_frames(42);
}

/// The states of a bar at every tempo that is looked for.
pub fn bar_space(num_beats: usize) -> (r: Option<BarStateSpace>)
    ensures
        match r {
            Some(space) => {
                &&& space.spans(tempo_intervals(), num_beats as int)
                &&& space.wf()
                &&& space.num_beats == num_beats
                &&& space.num_states == num_beats * BEAT_STATES
            },
            None => num_beats * BEAT_STATES > usize::MAX,
        },
{
    let none: Vec<Vec<F64>> = Vec::new();
    proof {
        lemma_every_tempo_is_used(none@);
        assert(tempo_intervals()[0] == SHORTEST);
        assert(countable(tempo_intervals(), num_beats as int) <==> num_beats * BEAT_STATES
            <= usize::MAX);
    }
    BarStateSpace::new(num_beats, min_interval(), max_interval(), Some(NUM_TEMPI), &none)
}

/// For each beat of a bar the exponents of the weights of the changes of tempo into
/// it.
pub fn tempo_changes(space: &BarStateSpace) -> (r: Vec<Vec<Vec<F64>>>)
    requires
        space.wf(),
    ensures
        fits(*space, r@),
        forall|b: int, i: int, j: int|
            0 <= b < space.num_beats && 0 <= i < r@[b]@.len() && 0 <= j < r@[b]@[i]@.len()
                ==> #[trigger] r@[b]@[i]@[j] == change_exponent(
                space.state_intervals@[space.last_states@[beat_before(*space, b)]@[i] as int],
                space.state_intervals@[space.first_states@[b]@[j] as int],
                F64::nearest_to(TRANSITION_LAMBDA as int),
            ),
{
    change_exponents(space, F64::whole(TRANSITION_LAMBDA))
}

} // verus!

//! The transitions of a bar: on through each beat, and from beat to beat with
//! a change of tempo.
use vstd::prelude::*;
use crate::float::arith::{abs, lemma_magnitude_order};
use crate::float::close::lemma_scale;
use crate::float::close_double::{
    close, huge, lemma_close_reduced, lemma_minus_close, lemma_opposite_close, lemma_over_close,
    lemma_plus_close, lemma_small_within, lemma_times_close, lemma_unit, small, unit,
};
use crate::float::double::{double_format, F64};
use crate::float::exact::{lemma_formats, lemma_whole_double};
use crate::float::order::{
    lemma_by_value_double, lemma_plus_sign_double, lemma_plus_values, lemma_value_bounds,
    lemma_zeros,
};
use crate::float::rounding::{lemma_magnitude_of_parts, lemma_pow2_step};
use super::space::BarStateSpace;

verus! {

/// What a tempo change must weigh to be possible: the distance from one to the
/// next larger double-precision number.
#[verifier::allow_in_spec]
pub fn threshold() -> F64
    returns
        F64::from_bits(0x3CB0_0000_0000_0000),
{
    F64::from_bits(0x3CB0_0000_0000_0000)
}

/// The exponent of the weight of a change from one interval to another.
#[verifier::allow_in_spec]
pub fn change_exponent(from: i32, to: i32, lambda: F64) -> F64
    returns
        lambda.opposite().times(
            F64::nearest_to(to as int).over(F64::nearest_to(from as int)).minus(
                F64::nearest_to(1),
            ).abs(),
        ),
{
    lambda.opposite().times(F64::of_i32(to).over(F64::of_i32(from)).minus(F64::whole(1)).abs())
}

/// A weight, or zero where it does not exceed the threshold.
pub open spec fn kept(w: F64) -> F64 {
    if w.gt(threshold()) {
        w
    } else {
        F64::zero()
    }
}

/// The sum of the first `n` weights above the threshold.
pub open spec fn kept_total(row: Seq<F64>, n: int) -> F64
    decreases n,
{
    if n <= 0 {
        F64::zero()
    } else if row[n - 1].gt(threshold()) {
        kept_total(row, n - 1).plus(row[n - 1])
    } else {
        kept_total(row, n - 1)
    }
}

/// The share of weight `j` in the sum of its row.
pub open spec fn share(row: Seq<F64>, j: int) -> F64 {
    let total = kept_total(row, row.len() as int);
    if total.gt(F64::zero()) {
        kept(row[j]).over(total)
    } else {
        kept(row[j])
    }
}

/// The probabilities of tempo changes from their weights: each row adds up
/// the weights above the threshold and gives each its share.
pub fn exponential_transition(weights: &Vec<Vec<F64>>) -> (r: Vec<Vec<F64>>)
    ensures
        r@.len() == weights@.len(),
        forall|i: int|
            0 <= i < weights@.len() ==> (#[trigger] r@[i])@ == Seq::new(
                weights@[i]@.len(),
                |j: int| share(weights@[i]@, j),
            ),
{
    let mut out: Vec<Vec<F64>> = Vec::new();
    let mut i: usize = 0;
    while i < weights.len()
        invariant
            i <= weights@.len(),
            out@.len() == i,
            forall|k: int|
                0 <= k < i ==> (#[trigger] out@[k])@ == Seq::new(
                    weights@[k]@.len(),
                    |j: int| share(weights@[k]@, j),
                ),
        decreases weights@.len() - i,
    {
        let row: Vec<F64> = shares(&weights[i]);
        out.push(row);
        i = i + 1;
    }
    out
}

/// The share of each weight in the sum of the row.
fn shares(row: &Vec<F64>) -> (r: Vec<F64>)
    ensures
        r@ == Seq::new(row@.len(), |j: int| share(row@, j)),
{
    let mut total: F64 = F64::zero();
    let mut j: usize = 0;
    while j < row.len()
        invariant
            j <= row@.len(),
            total == kept_total(row@, j as int),
        decreases row@.len() - j,
    {
        if row[j].gt(threshold()) {
            total = total.plus(row[j]);
        }
        j = j + 1;
    }
    let divide: bool = total.gt(F64::zero());
    let mut out: Vec<F64> = Vec::new();
    let mut k: usize = 0;
    while k < row.len()
        invariant
            k <= row@.len(),
            total == kept_total(row@, row@.len() as int),
            divide == total.gt(F64::zero()),
            out@ == Seq::new(k as nat, |j: int| share(row@, j)),
        decreases row@.len() - k,
    {
        let w: F64 = if row[k].gt(threshold()) {
            row[k]
        } else {
            F64::zero()
        };
        if divide {
            out.push(w.over(total));
        } else {
            out.push(w);
        }
        k = k + 1;
    }
    out
}

/// A list of transitions: where each leads, where it comes from, and how
/// likely it is.
pub struct Edges {
    pub dest: Vec<u32>,
    pub prev: Vec<u32>,
    pub probabilities: Vec<F64>,
}

impl View for Edges {
    type V = Seq<(u32, u32, F64)>;

    open spec fn view(&self) -> Seq<(u32, u32, F64)> {
        Seq::new(
            self.dest@.len(),
            |i: int| (self.dest@[i], self.prev@[i], self.probabilities@[i]),
        )
    }
}

impl Edges {
    /// The three lists belong together.
    pub open spec fn wf(self) -> bool {
        self.dest@.len() == self.prev@.len() == self.probabilities@.len()
    }

    fn push(&mut self, dest: u32, prev: u32, probability: F64)
        requires
            old(self).wf(),
        ensures
            final(self).wf(),
            final(self)@ == old(self)@.push((dest, prev, probability)),
    {
        let ghost before = self@;
        self.dest.push(dest);
        self.prev.push(prev);
        self.probabilities.push(probability);
        assert(self@ =~= before.push((dest, prev, probability)));
    }
}

/// State `s` is the first of an interval in some beat.
pub open spec fn is_first(space: BarStateSpace, s: int) -> bool {
    exists|b: int, k: int|
        0 <= b < space.num_beats && 0 <= k < space.first_states@[b]@.len()
            && #[trigger] space.first_states@[b]@[k] == s
}

/// The steps into the first `n` states that begin no interval, each certain
/// and from the state before.
pub open spec fn steps_before(space: BarStateSpace, n: int) -> Seq<(u32, u32, F64)>
    decreases n,
{
    if n <= 0 {
        seq![]
    } else if is_first(space, n - 1) {
        steps_before(space, n - 1)
    } else {
        steps_before(space, n - 1).push(((n - 1) as u32, (n - 2) as u32, F64::nearest_to(1)))
    }
}

/// The possible changes out of state `from` to the first `n` of `tos`.
pub open spec fn row_changes(row: Seq<F64>, from: usize, tos: Seq<usize>, n: int) -> Seq<
    (u32, u32, F64),
>
    decreases n,
{
    if n <= 0 {
        seq![]
    } else if share(row, n - 1).gt(F64::zero()) {
        row_changes(row, from, tos, n - 1).push((tos[n - 1] as u32, from as u32, share(row, n - 1)))
    } else {
        row_changes(row, from, tos, n - 1)
    }
}

/// The possible changes out of the first `n` of `froms` to `tos`.
pub open spec fn block_changes(
    weights: Seq<Vec<F64>>,
    froms: Seq<usize>,
    tos: Seq<usize>,
    n: int,
) -> Seq<(u32, u32, F64)>
    decreases n,
{
    if n <= 0 {
        seq![]
    } else {
        block_changes(weights, froms, tos, n - 1) + row_changes(
            weights[n - 1]@,
            froms[n - 1],
            tos,
            tos.len() as int,
        )
    }
}

/// The beat before, the last one before the first.
pub open spec fn beat_before(space: BarStateSpace, b: int) -> int {
    if b == 0 {
        space.num_beats - 1
    } else {
        b - 1
    }
}

/// The possible changes into the first `n` beats, from the end of the beat
/// before each.
pub open spec fn changes_before(
    space: BarStateSpace,
    weights: Seq<Vec<Vec<F64>>>,
    n: int,
) -> Seq<(u32, u32, F64)>
    decreases n,
{
    if n <= 0 {
        seq![]
    } else {
        changes_before(space, weights, n - 1) + block_changes(
            weights[n - 1]@,
            space.last_states@[beat_before(space, n - 1)]@,
            space.first_states@[n - 1]@,
            space.last_states@[beat_before(space, n - 1)]@.len() as int,
        )
    }
}

/// The weights of the changes into each beat form a table of the states they
/// leave by those they enter.
pub open spec fn fits(space: BarStateSpace, weights: Seq<Vec<Vec<F64>>>) -> bool {
    &&& weights.len() == space.num_beats
    &&& forall|b: int|
        0 <= b < space.num_beats ==> (#[trigger] weights[b])@.len()
            == space.last_states@[beat_before(space, b)]@.len()
    &&& forall|b: int, i: int|
        0 <= b < space.num_beats && 0 <= i < weights[b]@.len() ==> (
        #[trigger] weights[b]@[i])@.len() == space.first_states@[b]@.len()
}

/// For each beat the exponents of the weights of the changes into it.
pub fn change_exponents(space: &BarStateSpace, lambda: F64) -> (r: Vec<Vec<Vec<F64>>>)
    requires
        space.wf(),
    ensures
        fits(*space, r@),
        forall|b: int, i: int, j: int|
            0 <= b < space.num_beats && 0 <= i < r@[b]@.len() && 0 <= j < r@[b]@[i]@.len()
                ==> #[trigger] r@[b]@[i]@[j] == change_exponent(
                space.state_intervals@[space.last_states@[beat_before(*space, b)]@[i] as int],
                space.state_intervals@[space.first_states@[b]@[j] as int],
                lambda,
            ),
{
    let mut out: Vec<Vec<Vec<F64>>> = Vec::new();
    let mut b: usize = 0;
    while b < space.num_beats
        invariant
            space.wf(),
            b <= space.num_beats,
            out@.len() == b,
            forall|c: int|
                0 <= c < b ==> (#[trigger] out@[c])@.len() == space.last_states@[beat_before(
                    *space,
                    c,
                )]@.len(),
            forall|c: int, i: int|
                0 <= c < b && 0 <= i < out@[c]@.len() ==> (#[trigger] out@[c]@[i])@.len()
                    == space.first_states@[c]@.len(),
            forall|c: int, i: int, j: int|
                0 <= c < b && 0 <= i < out@[c]@.len() && 0 <= j < out@[c]@[i]@.len()
                    ==> #[trigger] out@[c]@[i]@[j] == change_exponent(
                    space.state_intervals@[space.last_states@[beat_before(*space, c)]@[i] as int],
                    space.state_intervals@[space.first_states@[c]@[j] as int],
                    lambda,
                ),
        decreases space.num_beats - b,
    {
        let before: usize = if b == 0 {
            space.num_beats - 1
        } else {
            b - 1
        };
        let froms: &Vec<usize> = &space.last_states[before];
        let tos: &Vec<usize> = &space.first_states[b];
        let mut block: Vec<Vec<F64>> = Vec::new();
        let mut i: usize = 0;
        while i < froms.len()
            invariant
                space.wf(),
                b < space.num_beats,
                before == beat_before(*space, b as int),
                froms@ == space.last_states@[before as int]@,
                tos@ == space.first_states@[b as int]@,
                i <= froms@.len(),
                block@.len() == i,
                forall|k: int| 0 <= k < i ==> (#[trigger] block@[k])@.len() == tos@.len(),
                forall|k: int, j: int|
                    0 <= k < i && 0 <= j < tos@.len() ==> #[trigger] block@[k]@[j]
                        == change_exponent(
                        space.state_intervals@[froms@[k] as int],
                        space.state_intervals@[tos@[j] as int],
                        lambda,
                    ),
            decreases froms@.len() - i,
        {
            let from: i32 = space.state_intervals[froms[i]];
            let mut row: Vec<F64> = Vec::new();
            let mut j: usize = 0;
            while j < tos.len()
                invariant
                    space.wf(),
                    b < space.num_beats,
                    tos@ == space.first_states@[b as int]@,
                    j <= tos@.len(),
                    row@.len() == j,
                    forall|k: int|
                        0 <= k < j ==> #[trigger] row@[k] == change_exponent(
                            from,
                            space.state_intervals@[tos@[k] as int],
                            lambda,
                        ),
                decreases tos@.len() - j,
            {
                row.push(change_exponent(from, space.state_intervals[tos[j]], lambda));
                j = j + 1;
            }
            block.push(row);
            i = i + 1;
        }
        out.push(block);
        b = b + 1;
    }
    out
}

/// For each state whether it is the first of an interval.
fn mark_firsts(space: &BarStateSpace) -> (r: Vec<bool>)
    requires
        space.wf(),
    ensures
        r@.len() == space.num_states,
        forall|s: int| 0 <= s < space.num_states ==> #[trigger] r@[s] == is_first(*space, s),
{
    let mut marks: Vec<bool> = Vec::new();
    let mut s: usize = 0;
    while s < space.num_states
        invariant
            s <= space.num_states,
            marks@.len() == s,
            forall|t: int| 0 <= t < s ==> !#[trigger] marks@[t],
        decreases space.num_states - s,
    {
        marks.push(false);
        s = s + 1;
    }
    let mut b: usize = 0;
    while b < space.num_beats
        invariant
            space.wf(),
            b <= space.num_beats,
            marks@.len() == space.num_states,
            forall|t: int|
                0 <= t < space.num_states && #[trigger] marks@[t] ==> is_first(*space, t),
            forall|c: int, k: int|
                0 <= c < b && 0 <= k < space.first_states@[c]@.len()
                    ==> marks@[(#[trigger] space.first_states@[c]@[k]) as int],
        decreases space.num_beats - b,
    {
        let firsts: &Vec<usize> = &space.first_states[b];
        let mut k: usize = 0;
        while k < firsts.len()
            invariant
                space.wf(),
                b < space.num_beats,
                firsts@ == space.first_states@[b as int]@,
                k <= firsts@.len(),
                marks@.len() == space.num_states,
                forall|t: int|
                    0 <= t < space.num_states && #[trigger] marks@[t] ==> is_first(*space, t),
                forall|c: int, j: int|
                    0 <= c < b && 0 <= j < space.first_states@[c]@.len()
                        ==> marks@[(#[trigger] space.first_states@[c]@[j]) as int],
                forall|j: int| 0 <= j < k ==> marks@[(#[trigger] firsts@[j]) as int],
            decreases firsts@.len() - k,
        {
            assert(space.first_states@[b as int]@[k as int] < space.num_states);
            marks.set(firsts[k], true);
            assert(is_first(*space, firsts@[k as int] as int));
            k = k + 1;
        }
        b = b + 1;
    }
    marks
}

/// The transitions of a bar, given the weights of the tempo changes.
pub fn bar_transitions(space: &BarStateSpace, weights: &Vec<Vec<Vec<F64>>>) -> (r: Edges)
    requires
        space.wf(),
        space.num_states <= u32::MAX,
        fits(*space, weights@),
    ensures
        r.wf(),
        r@ == steps_before(*space, space.num_states as int) + changes_before(
            *space,
            weights@,
            space.num_beats as int,
        ),
{
    let marks: Vec<bool> = mark_firsts(space);
    let mut edges = Edges { dest: Vec::new(), prev: Vec::new(), probabilities: Vec::new() };
    assert(edges@ =~= steps_before(*space, 0));
    let mut s: usize = 0;
    while s < space.num_states
        invariant
            space.wf(),
            s <= space.num_states <= u32::MAX,
            marks@.len() == space.num_states,
            forall|t: int| 0 <= t < space.num_states ==> #[trigger] marks@[t] == is_first(*space, t),
            edges.wf(),
            edges@ == steps_before(*space, s as int),
        decreases space.num_states - s,
    {
        if !marks[s] {
            proof {
                if s == 0 {
                    assert(space.first_states@[0]@[0] == 0);
                    assert(is_first(*space, 0));
                }
            }
            edges.push(s as u32, (s - 1) as u32, F64::whole(1));
        }
        s = s + 1;
    }
    let ghost steps = edges@;
    assert(edges@ =~= steps + changes_before(*space, weights@, 0));
    let mut b: usize = 0;
    while b < space.num_beats
        invariant
            space.wf(),
            space.num_states <= u32::MAX,
            fits(*space, weights@),
            b <= space.num_beats,
            edges.wf(),
            edges@ == steps + changes_before(*space, weights@, b as int),
        decreases space.num_beats - b,
    {
        let before: usize = if b == 0 {
            space.num_beats - 1
        } else {
            b - 1
        };
        let ghost done = edges@;
        assert(weights@[b as int]@.len() == space.last_states@[before as int]@.len());
        push_block(&mut edges, &weights[b], &space.last_states[before], &space.first_states[b]);
        assert(edges@ =~= steps + changes_before(*space, weights@, b + 1));
        b = b + 1;
    }
    edges
}

/// Appends the possible changes out of `froms` to `tos`.
fn push_block(edges: &mut Edges, weights: &Vec<Vec<F64>>, froms: &Vec<usize>, tos: &Vec<usize>)
    requires
        old(edges).wf(),
        weights@.len() == froms@.len(),
        forall|i: int| 0 <= i < weights@.len() ==> (#[trigger] weights@[i])@.len() == tos@.len(),
    ensures
        final(edges).wf(),
        final(edges)@ == old(edges)@ + block_changes(
            weights@,
            froms@,
            tos@,
            froms@.len() as int,
        ),
{
    let table: Vec<Vec<F64>> = exponential_transition(weights);
    let ghost start = edges@;
    assert(edges@ =~= start + block_changes(weights@, froms@, tos@, 0));
    let mut i: usize = 0;
    while i < froms.len()
        invariant
            i <= froms@.len() == weights@.len() == table@.len(),
            forall|k: int|
                0 <= k < weights@.len() ==> (#[trigger] weights@[k])@.len() == tos@.len(),
            forall|k: int|
                0 <= k < weights@.len() ==> (#[trigger] table@[k])@ == Seq::new(
                    weights@[k]@.len(),
                    |j: int| share(weights@[k]@, j),
                ),
            edges.wf(),
            edges@ == start + block_changes(weights@, froms@, tos@, i as int),
        decreases froms@.len() - i,
    {
        let ghost done = edges@;
        let ghost row = weights@[i as int]@;
        assert(table@[i as int]@.len() == tos@.len());
        assert(edges@ =~= done + row_changes(row, froms@[i as int], tos@, 0));
        let mut j: usize = 0;
        while j < tos.len()
            invariant
                i < froms@.len() == table@.len(),
                j <= tos@.len(),
                table@[i as int]@ == Seq::new(tos@.len(), |k: int| share(row, k)),
                edges.wf(),
                edges@ == done + row_changes(row, froms@[i as int], tos@, j as int),
            decreases tos@.len() - j,
        {
            let p: F64 = table[i][j];
            if p.gt(F64::zero()) {
                edges.push(tos[j] as u32, froms[i] as u32, p);
            }
            assert(edges@ =~= done + row_changes(row, froms@[i as int], tos@, j + 1));
            j = j + 1;
        }
        assert(edges@ =~= start + block_changes(weights@, froms@, tos@, i + 1));
        i = i + 1;
    }
}

/// The transitions lead from state to state.
pub open spec fn within(edges: Seq<(u32, u32, F64)>, num_states: int) -> bool {
    forall|i: int|
        0 <= i < edges.len() ==> (#[trigger] edges[i]).0 < num_states && edges[i].1 < num_states
}

proof fn lemma_steps_within(space: BarStateSpace, n: int)
    requires
        space.wf(),
        0 <= n <= space.num_states <= u32::MAX,
    ensures
        within(steps_before(space, n), space.num_states as int),
    decreases n,
{
    if n > 0 {
        lemma_steps_within(space, n - 1);
        if n == 1 {
            assert(space.first_states@[0]@[0] == 0);
            assert(is_first(space, 0));
        }
    }
}

proof fn lemma_row_within(row: Seq<F64>, from: usize, tos: Seq<usize>, n: int, states: int)
    requires
        0 <= n <= tos.len(),
        from < states <= u32::MAX,
        forall|k: int| 0 <= k < tos.len() ==> (#[trigger] tos[k]) < states,
    ensures
        within(row_changes(row, from, tos, n), states),
    decreases n,
{
    if n > 0 {
        lemma_row_within(row, from, tos, n - 1, states);
        assert(tos[n - 1] < states);
    }
}

proof fn lemma_block_within(
    weights: Seq<Vec<F64>>,
    froms: Seq<usize>,
    tos: Seq<usize>,
    n: int,
    states: int,
)
    requires
        0 <= n <= froms.len(),
        states <= u32::MAX,
        forall|k: int| 0 <= k < froms.len() ==> (#[trigger] froms[k]) < states,
        forall|k: int| 0 <= k < tos.len() ==> (#[trigger] tos[k]) < states,
    ensures
        within(block_changes(weights, froms, tos, n), states),
    decreases n,
{
    if n > 0 {
        lemma_block_within(weights, froms, tos, n - 1, states);
        assert(froms[n - 1] < states);
        lemma_row_within(weights[n - 1]@, froms[n - 1], tos, tos.len() as int, states);
    }
}

proof fn lemma_changes_within(space: BarStateSpace, weights: Seq<Vec<Vec<F64>>>, n: int)
    requires
        space.wf(),
        0 <= n <= space.num_beats,
        space.num_states <= u32::MAX,
    ensures
        within(changes_before(space, weights, n), space.num_states as int),
    decreases n,
{
    if n > 0 {
        lemma_changes_within(space, weights, n - 1);
        let froms = space.last_states@[beat_before(space, n - 1)]@;
        let tos = space.first_states@[n - 1]@;
        assert forall|k: int| 0 <= k < froms.len() implies (#[trigger] froms[k])
            < space.num_states by {
            assert(space.last_states@[beat_before(space, n - 1)]@[k] < space.num_states);
        }
        assert forall|k: int| 0 <= k < tos.len() implies (#[trigger] tos[k])
            < space.num_states by {
            assert(space.first_states@[n - 1]@[k] < space.num_states);
        }
        lemma_block_within(
            weights[n - 1]@,
            froms,
            tos,
            froms.len() as int,
            space.num_states as int,
        );
    }
}

/// Every transition of a bar leads from a state of the bar to another.
pub proof fn lemma_bar_transitions_within(space: BarStateSpace, weights: Seq<Vec<Vec<F64>>>)
    requires
        space.wf(),
        space.num_states <= u32::MAX,
    ensures
        within(
            steps_before(space, space.num_states as int) + changes_before(
                space,
                weights,
                space.num_beats as int,
            ),
            space.num_states as int,
        ),
{
    lemma_steps_within(space, space.num_states as int);
    lemma_changes_within(space, weights, space.num_beats as int);
}

/// The sum of the first `n` weights above the threshold, exactly, in units.
pub open spec fn exact_kept(row: Seq<F64>, n: int) -> int
    decreases n,
{
    if n <= 0 {
        0
    } else if row[n - 1].value() > threshold().value() {
        exact_kept(row, n - 1) + row[n - 1].value()
    } else {
        exact_kept(row, n - 1)
    }
}

/// Weights that are not negative, and moderate.
pub open spec fn weighs(row: Seq<F64>) -> bool {
    &&& row.len() <= 0x1_0000
    &&& forall|i: int|
        0 <= i < row.len() ==> small(#[trigger] row[i], 0x10_0000) && row[i].value() >= 0
}

proof fn lemma_threshold()
    ensures
        threshold().finite(),
        threshold().value() > 0,
{
    lemma_formats();
    reveal(F64::finite);
    lemma_magnitude_of_parts(53, 0, 0);
    lemma_pow2_step(52);
    lemma_magnitude_order(double_format(), 0, 0x3CB0_0000_0000_0000);
}

/// The sum of a row is that of the weights above the threshold, but for rounding,
/// and no such weight exceeds it.
pub proof fn lemma_row_adds_up(row: Seq<F64>, n: int)
    requires
        weighs(row),
        0 <= n <= row.len(),
    ensures
        kept_total(row, n).finite(),
        kept_total(row, n).value() >= 0,
        0 <= exact_kept(row, n) <= n * (0x10_0000 * unit()),
        ({
            let gap = kept_total(row, n).value() - exact_kept(row, n);
            let slack = 2 * (n * (exact_kept(row, n) + unit()));
            -slack <= 0x20_0000_0000_0000 * gap <= slack
        }),
        forall|j: int|
            0 <= j < n && (#[trigger] row[j]).value() > threshold().value() ==> row[j].value()
                <= kept_total(row, n).value(),
    decreases n,
{
    let u = unit();
    lemma_unit();
    lemma_zeros();
    lemma_threshold();
    if n > 0 {
        lemma_row_adds_up(row, n - 1);
        let x = row[n - 1];
        assert(small(x, 0x10_0000) && x.value() >= 0);
        lemma_by_value_double(threshold(), x);
        let t = kept_total(row, n - 1);
        let e = exact_kept(row, n - 1);
        let big = 0x10_0000 * u;
        assert((n - 1) * big + big == n * big) by (nonlinear_arith);
        assert((n - 1) * big <= 0x1_0000 * big) by (nonlinear_arith)
            requires
                n <= 0x1_0000,
                big >= 0,
        ;
        let next = exact_kept(row, n);
        let w = (n - 1) * (e + u);
        let v = (n - 1) * (next + u);
        assert(0 <= w <= 0x1_0000 * (e + u)) by (nonlinear_arith)
            requires
                1 <= n <= 0x1_0000,
                e >= 0,
                u > 0,
                w == (n - 1) * (e + u),
        ;
        assert(v + (next + u) == n * (next + u)) by (nonlinear_arith)
            requires
                v == (n - 1) * (next + u),
        ;
        assert(w <= v) by (nonlinear_arith)
            requires
                w == (n - 1) * (e + u),
                v == (n - 1) * (next + u),
                e <= next,
                n >= 1,
        ;
        assert(next + u >= 0);
        if x.value() > threshold().value() {
            let top = 0x200_0000_0000int;
            assert(small(t, top));
            lemma_plus_close(t, x, top, 0x10_0000);
            let s = t.plus(x);
            lemma_finite_is_number(t);
            lemma_finite_is_number(x);
            lemma_plus_sign_double(t, x);
            lemma_plus_sign_double(x, t);
            lemma_by_value_double(t, s);
            lemma_plus_values(t, x);
            lemma_plus_close(x, t, 0x10_0000, top);
            lemma_by_value_double(x, x.plus(t));
        }
    }
}

proof fn lemma_finite_is_number(a: F64)
    requires
        a.finite(),
    ensures
        !a.not_a_number(),
{
    lemma_formats();
    reveal(F64::finite);
    reveal(F64::not_a_number);
}

/// Each weight gets its share of the row: one at or below the threshold gets none,
/// and any other, but for rounding, what it is of the sum. A heavier weight never
/// gets less.
pub proof fn lemma_share_is_proportional(row: Seq<F64>, j: int)
    requires
        weighs(row),
        0 <= j < row.len(),
    ensures
        ({
            let total = kept_total(row, row.len() as int);
            &&& row[j].value() <= threshold().value() ==> share(row, j).value() == 0
            &&& row[j].value() > threshold().value() ==> total.value() > 0 && share(
                row,
                j,
            ).finite() && close(share(row, j).value(), row[j].value() * unit(), total.value())
        }),
{
    let n = row.len() as int;
    let total = kept_total(row, n);
    let x = row[j];
    lemma_unit();
    lemma_zeros();
    lemma_threshold();
    lemma_row_adds_up(row, n);
    assert(small(x, 0x10_0000) && x.value() >= 0);
    lemma_by_value_double(threshold(), x);
    lemma_by_value_double(F64::zero(), total);
    let u = unit();
    if x.value() > threshold().value() {
        assert(0 <= x.value() * u <= (1 * u) * total.value()) by (nonlinear_arith)
            requires
                0 <= x.value() <= total.value(),
                u > 0,
        ;
        assert(-((1 * u) * total.value()) <= 0) by (nonlinear_arith)
            requires
                0 <= total.value(),
                u > 0,
        ;
        lemma_over_close(x, total, 1);
    } else if total.value() > 0 {
        assert(0 * u == 0 && -((0 * u) * total.value()) == 0);
        lemma_over_close(F64::zero(), total, 0);
        let r = F64::zero().over(total).value();
        lemma_nothing_shared(r, total.value());
    }
}

proof fn lemma_nothing_shared(r: int, d: int)
    requires
        d > 0,
        close(r, 0, d),
    ensures
        r == 0,
{
    let rd = r * d;
    if r > 0 {
        assert(rd >= d && abs(r) * d == rd) by (nonlinear_arith)
            requires
                r >= 1,
                d > 0,
                rd == r * d,
                abs(r) == r,
        ;
    }
    if r < 0 {
        assert(rd <= -d && abs(r) * d == -rd) by (nonlinear_arith)
            requires
                r <= -1,
                d > 0,
                rd == r * d,
                abs(r) == -r,
        ;
    }
}

/// The exponent of a change of tempo is, but for rounding, minus lambda times how
/// far the new interval is off the old one, as a share of the old one.
pub proof fn lemma_change_by_share(from: i32, to: i32, lambda: F64)
    requires
        1 <= from <= 0x10_0000,
        1 <= to <= 0x10_0000,
        small(lambda, 0x10_0000),
        lambda.value() >= 0,
    ensures
        change_exponent(from, to, lambda).finite(),
        ({
            let u = unit();
            let e = change_exponent(from, to, lambda).value();
            let l = lambda.value();
            let gap = (e * u) * from + l * (abs(to - from) * u);
            let slack = (l + u) * ((to + from) * u);
            -slack <= 0x1_0000_0000_0000 * gap <= slack
        }),
{
    let u = unit();
    let f = F64::nearest_to(from as int);
    let t = F64::nearest_to(to as int);
    let one = F64::nearest_to(1);
    lemma_unit();
    lemma_whole_double(from as int);
    lemma_whole_double(to as int);
    lemma_whole_double(1);
    let m = 0x10_0000int;
    assert(f.value() > 0 && -(((m * u) * f.value())) <= t.value() * u <= (m * u) * f.value())
        by (nonlinear_arith)
        requires
            f.value() == from * u,
            t.value() == to * u,
            1 <= from,
            1 <= to <= m,
            u >= 1,
    ;
    lemma_over_close(t, f, m);
    let q = t.over(f);
    assert(t.value() * u == (to * u) * u && f.value() == from * u);
    lemma_close_reduced(q.value(), to * u, from as int, u);
    lemma_minus_close(q, one, 2 * m + 1, 1);
    let d = q.minus(one);
    lemma_magnitude_double(d);
    let x = d.abs();
    let top = 0x100_0000int;
    lemma_small_within(d, 2 * (2 * m + 1 + 1) + 1, top);
    assert(small(x, top));
    lemma_opposite_close(lambda, m);
    let l = lambda.opposite();
    lemma_times_close(l, x, m, top);
    lemma_change(
        q.value(),
        d.value(),
        l.times(x).value(),
        lambda.value(),
        from as int,
        to as int,
        u,
    );
}

proof fn lemma_magnitude_double(a: F64)
    requires
        a.finite(),
    ensures
        a.abs().finite(),
        a.abs().value() == abs(a.value()),
{
    lemma_formats();
    reveal(F64::unsigned);
    reveal(F64::finite);
    lemma_value_bounds(double_format(), a.datum());
    lemma_magnitude_order(double_format(), 0, a.datum().number);
}

proof fn lemma_change(q: int, d: int, e: int, l: int, from: int, to: int, u: int)
    requires
        u >= huge(),
        1 <= from <= 0x10_0000,
        1 <= to <= 0x10_0000,
        0 <= l <= 0x10_0000 * u,
        close(q, to * u, from),
        close(d, q - u, 1),
        close(e, (-l) * abs(d), u),
    ensures
        ({
            let gap = (e * u) * from + l * (abs(to - from) * u);
            let slack = (l + u) * ((to + from) * u);
            -slack <= 0x1_0000_0000_0000 * gap <= slack
        }),
{
    let k = 0x20_0000_0000_0000int;
    let h = 0x10_0000_0000_0000int;
    let x = abs(d);
    let tu = to * u;
    let fu = from * u;
    let qf = q * from;
    let df = d * from;
    let xf = x * from;
    let span = (to + from) * u;
    assert(span == tu + fu) by (nonlinear_arith)
        requires
            span == (to + from) * u,
            tu == to * u,
            fu == from * u,
    ;
    assert(u <= tu <= 0x10_0000 * u && u <= fu <= 0x10_0000 * u) by (nonlinear_arith)
        requires
            1 <= to <= 0x10_0000,
            1 <= from <= 0x10_0000,
            u > 0,
            tu == to * u,
            fu == from * u,
    ;
    // the interval, as a share
    let aq = abs(q) * from;
    assert(aq == qf || aq == -qf) by (nonlinear_arith)
        requires
            aq == abs(q) * from,
            qf == q * from,
            abs(q) == q || abs(q) == -q,
    ;
    assert(h * from <= u);
    assert(4 * k * (qf - tu) <= 16 * span && 4 * k * (tu - qf) <= 16 * span);
    // how far off
    assert(u * from == from * u) by (nonlinear_arith);
    let g = d - (q - u);
    let ge = x + h;
    lemma_scale(k * g, ge, from);
    assert(ge * from == xf + h * from) by (nonlinear_arith)
        requires
            ge == x + h,
            xf == x * from,
    ;
    assert((k * g) * from == k * (df - qf + fu)) by (nonlinear_arith)
        requires
            g == d - (q - u),
            df == d * from,
            qf == q * from,
            fu == u * from,
    ;
    assert(xf == df || xf == -df) by (nonlinear_arith)
        requires
            xf == x * from,
            df == d * from,
            x == d || x == -d,
    ;
    assert(xf >= 0) by (nonlinear_arith)
        requires
            xf == x * from,
            x >= 0,
            from > 0,
    ;
    let off = abs(to - from) * u;
    assert(off == tu - fu || off == fu - tu) by (nonlinear_arith)
        requires
            off == abs(to - from) * u,
            tu == to * u,
            fu == from * u,
            abs(to - from) == to - from || abs(to - from) == from - to,
    ;
    assert(off >= 0) by (nonlinear_arith)
        requires
            off == abs(to - from) * u,
            abs(to - from) >= 0,
            u > 0,
    ;
    assert(-(16 * span) <= k * (xf - off) <= 16 * span);
    assert(xf <= 2 * span);
    // the exponent
    let eu = e * u;
    let lx = l * x;
    assert((-l) * x == -lx) by (nonlinear_arith)
        requires
            lx == l * x,
    ;
    let ae = abs(e) * u;
    assert((ae == eu || ae == -eu) && ae >= 0) by (nonlinear_arith)
        requires
            ae == abs(e) * u,
            eu == e * u,
            abs(e) == e || abs(e) == -e,
            abs(e) >= 0,
            u > 0,
    ;
    assert(lx >= 0) by (nonlinear_arith)
        requires
            lx == l * x,
            l >= 0,
            x >= 0,
    ;
    let b = 2 * lx + 2 * h * u;
    assert(-b <= k * (eu + lx) <= b);
    lemma_scale(k * (eu + lx), b, from);
    let lxf = l * xf;
    assert(lx * from == lxf) by (nonlinear_arith)
        requires
            lx == l * x,
            xf == x * from,
            lxf == l * xf,
    ;
    assert((k * (eu + lx)) * from == k * (eu * from + lxf)) by (nonlinear_arith)
        requires
            lx * from == lxf,
    ;
    assert(b * from == 2 * lxf + (2 * h) * fu) by (nonlinear_arith)
        requires
            b == 2 * lx + 2 * h * u,
            lx * from == lxf,
            fu == from * u,
    ;
    lemma_scale(k * (xf - off), 16 * span, l);
    let lo = l * off;
    let ls = l * span;
    assert((k * (xf - off)) * l == k * (lxf - lo) && (16 * span) * l == 16 * ls) by (
        nonlinear_arith)
        requires
            lxf == l * xf,
            lo == l * off,
            ls == l * span,
    ;
    assert(0 <= lxf <= 2 * ls) by (nonlinear_arith)
        requires
            lxf == l * xf,
            ls == l * span,
            0 <= xf <= 2 * span,
            l >= 0,
    ;
    let us = u * span;
    assert((l + u) * span == ls + us) by (nonlinear_arith)
        requires
            ls == l * span,
            us == u * span,
    ;
    assert((2 * h) * fu <= u * fu) by (nonlinear_arith)
        requires
            fu >= 0,
            2 * h <= u,
    ;
    assert(u * fu <= us) by (nonlinear_arith)
        requires
            0 <= fu <= span,
            u >= 0,
            us == u * span,
    ;
}

} // verus!

//! The most likely course through the states of a bar.
use vstd::prelude::*;
use crate::float::double::F64;
use crate::float::order::{
    lemma_bottom_double, lemma_least_double, lemma_order_double, lemma_plus_not_above_double,
};
use super::bar::Edges;
use super::observation::{expected, Densities, ObservationModel};
use super::space::BarStateSpace;
use super::transition::{highest_of, state_count, TransitionModel};

verus! {

/// A hidden Markov model of the states of a bar.
pub struct Hmm {
    pub tm: TransitionModel,
    pub om: ObservationModel,
    pub state_space: BarStateSpace,
    /// The logarithm of the probability to start in each state.
    pub initial_log: Vec<F64>,
}

/// The slowest tempo looked for, in beats per minute.
pub const MIN_BPM: i32 = 55;

/// The fastest tempo looked for, in beats per minute.
pub const MAX_BPM: i32 = 215;

/// How many tempi are told apart.
pub const NUM_TEMPI: usize = 60;

/// How strongly a change of tempo is held against a course.
pub const TRANSITION_LAMBDA: i32 = 100;

/// Into how many parts a beat interval is divided; the first is the beat.
pub const OBSERVATION_LAMBDA: i32 = 16;

/// Frames per second.
pub const FPS: i32 = 50;

/// The frames between two beats at the fastest tempo.
#[verifier::allow_in_spec]
pub fn min_interval() -> F64
    returns
        F64::nearest_to(60).times(F64::nearest_to(50)).over(F64::nearest_to(215)),
{
    F64::whole(60).times(F64::whole(FPS)).over(F64::whole(MAX_BPM))
}

/// The frames between two beats at the slowest tempo.
#[verifier::allow_in_spec]
pub fn max_interval() -> F64
    returns
        F64::nearest_to(60).times(F64::nearest_to(50)).over(F64::nearest_to(55)),
{
    F64::whole(60).times(F64::whole(FPS)).over(F64::whole(MIN_BPM))
}

/// The transitions connect the states of the bar, and each has a logarithm.
pub open spec fn connects(space: BarStateSpace, edges: Edges, logs: Seq<F64>) -> bool {
    &&& edges.wf()
    &&& logs.len() == edges.dest@.len()
    &&& edges.dest@.len() <= u32::MAX
    &&& space.num_states <= u32::MAX
    &&& space.num_states < usize::MAX
    &&& state_count(edges.prev@) == space.num_states
    &&& forall|i: int| 0 <= i < edges.dest@.len() ==> #[trigger] edges.dest@[i] < space.num_states
}

/// The transition model of a bar, given its transitions and the logarithms of
/// their probabilities, if they connect its states.
pub fn bar_transition_model(space: &BarStateSpace, edges: &Edges, logs: &Vec<F64>) -> (r: Option<
    TransitionModel,
>)
    ensures
        match r {
            Some(m) => {
                &&& connects(*space, *edges, logs@)
                &&& m.lists(edges.dest@, edges.prev@, logs@)
                &&& m.wf()
                &&& m.pointers@.len() == space.num_states + 1
            },
            None => !connects(*space, *edges, logs@),
        },
{
    let n: usize = edges.dest.len();
    if edges.prev.len() != n || edges.probabilities.len() != n || logs.len() != n {
        return None;
    }
    if n as u64 > u32::MAX as u64 || space.num_states as u64 > u32::MAX as u64
        || space.num_states == usize::MAX {
        return None;
    }
    if highest_of(&edges.prev) as u64 + 1 != space.num_states as u64 {
        return None;
    }
    let mut i: usize = 0;
    while i < n
        invariant
            i <= n == edges.dest@.len(),
            forall|k: int| 0 <= k < i ==> #[trigger] edges.dest@[k] < space.num_states,
        decreases n - i,
    {
        if edges.dest[i] as usize >= space.num_states {
            return None;
        }
        i = i + 1;
    }
    Some(TransitionModel::make_sparse(&edges.dest, &edges.prev, logs))
}

/// The best transition found into a state: its value, and the state it leaves.
pub struct Best {
    pub value: F64,
    pub source: u32,
}

impl Hmm {
    /// The parts have the same states.
    pub open spec fn wf(self) -> bool {
        &&& self.tm.wf()
        &&& self.om.wf()
        &&& self.state_space.wf()
        &&& self.tm.pointers@.len() == self.state_space.num_states + 1
        &&& self.om.pointers@.len() == self.state_space.num_states
        &&& self.initial_log@.len() == self.state_space.num_states
        &&& self.state_space.num_states <= u32::MAX
    }

    /// The model of a bar whose states are all as likely at the start, given
    /// its transitions, the logarithms of their probabilities, and that of the
    /// number of states.
    pub fn new(space: BarStateSpace, edges: &Edges, logs: &Vec<F64>, log_count: F64) -> (r: Option<
        Hmm,
    >)
        requires
            space.wf(),
        ensures
            match r {
                Some(m) => {
                    &&& connects(space, *edges, logs@)
                    &&& m.wf()
                    &&& m.tm.lists(edges.dest@, edges.prev@, logs@)
                    &&& m.state_space == space
                    &&& m.om.observation_lambda == F64::nearest_to(OBSERVATION_LAMBDA as int)
                    &&& m.om.pointers@ == Seq::new(
                        space.num_states as nat,
                        |s: int|
                            expected(
                                space.state_positions@[s],
                                F64::nearest_to(1).over(
                                    F64::nearest_to(OBSERVATION_LAMBDA as int),
                                ),
                            ),
                    )
                    &&& m.initial_log@ == Seq::new(
                        space.num_states as nat,
                        |s: int| log_count.opposite(),
                    )
                },
                None => !connects(space, *edges, logs@),
            },
    {
        let tm: TransitionModel = match bar_transition_model(&space, edges, logs) {
            Some(tm) => tm,
            None => {
                return None;
            },
        };
        let om: ObservationModel = ObservationModel::downbeat(&space, OBSERVATION_LAMBDA);
        let mut initial_log: Vec<F64> = Vec::new();
        let mut s: usize = 0;
        while s < space.num_states
            invariant
                s <= space.num_states,
                initial_log@ == Seq::new(s as nat, |i: int| log_count.opposite()),
            decreases space.num_states - s,
        {
            initial_log.push(log_count.opposite());
            s = s + 1;
        }
        Some(Hmm { tm, om, state_space: space, initial_log })
    }

    /// What a course is worth that comes by transition `k` to state `s`, where
    /// `prev` says what the states before are worth.
    pub open spec fn arrival(self, prev: Seq<F64>, d: Densities, s: int, k: int) -> F64 {
        prev[self.tm.states@[k] as int].plus(self.tm.log_probabilities@[k]).plus(
            d.at(self.om.pointers@[s]),
        )
    }

    /// The best of the transitions into state `s` before the one with number
    /// `k`, the first of equals.
    pub open spec fn best_arrival(self, prev: Seq<F64>, d: Densities, s: int, k: int) -> Best
        decreases k - self.tm.pointers@[s],
    {
        if k <= self.tm.pointers@[s] {
            Best { value: F64::minus_infinity(), source: 0 }
        } else {
            let before = self.best_arrival(prev, d, s, k - 1);
            let value = self.arrival(prev, d, s, k - 1);
            if value.gt(before.value) {
                Best { value, source: self.tm.states@[k - 1] }
            } else {
                before
            }
        }
    }

    /// The best transition into state `s`.
    pub open spec fn best_into(self, prev: Seq<F64>, d: Densities, s: int) -> Best {
        self.best_arrival(prev, d, s, self.tm.pointers@[s + 1] as int)
    }

    /// What the best course to each state is worth after `t` frames.
    pub open spec fn values(self, d: Seq<Densities>, t: int) -> Seq<F64>
        decreases t,
    {
        if t <= 0 {
            self.initial_log@
        } else {
            Seq::new(
                self.state_space.num_states as nat,
                |s: int| self.best_into(self.values(d, t - 1), d[t - 1], s).value,
            )
        }
    }

    /// The state before `s` on the best course to it after `t` frames.
    pub open spec fn source(self, d: Seq<Densities>, t: int, s: int) -> u32 {
        self.best_into(self.values(d, t - 1), d[t - 1], s).source
    }

    /// The best course of `t` frames that ends in state `s`.
    pub open spec fn course(self, d: Seq<Densities>, t: int, s: u32) -> Seq<u32>
        decreases t,
    {
        if t <= 0 {
            seq![]
        } else {
            self.course(d, t - 1, self.source(d, t, s as int)).push(s)
        }
    }

    /// The most likely course through all frames, and the logarithm of its
    /// probability; no course where the probability is zero or no number.
    pub open spec fn decoded(self, d: Seq<Densities>) -> (Seq<u32>, F64) {
        if d.len() == 0 || self.state_space.num_states == 0 {
            (seq![], F64::minus_infinity())
        } else {
            let worth = self.values(d, d.len() as int);
            let s = last_highest(worth, worth.len() as int);
            if worth[s].finite() {
                (self.course(d, d.len() as int, s as u32), worth[s])
            } else {
                (seq![], worth[s])
            }
        }
    }

    /// One frame on: what the best course to each state is worth, and where it
    /// comes from.
    fn advance(&self, prev: &Vec<F64>, d: Densities) -> (r: (Vec<F64>, Vec<u32>))
        requires
            self.wf(),
            prev@.len() == self.state_space.num_states,
        ensures
            r.0@ == Seq::new(
                self.state_space.num_states as nat,
                |s: int| self.best_into(prev@, d, s).value,
            ),
            r.1@ == Seq::new(
                self.state_space.num_states as nat,
                |s: int| self.best_into(prev@, d, s).source,
            ),
            self.state_space.num_states > 0 ==> forall|s: int|
                0 <= s < r.1@.len() ==> #[trigger] r.1@[s] < self.state_space.num_states,
    {
        let mut values: Vec<F64> = Vec::new();
        let mut sources: Vec<u32> = Vec::new();
        let n: usize = self.state_space.num_states;
        let mut s: usize = 0;
        while s < n
            invariant
                self.wf(),
                prev@.len() == n == self.state_space.num_states,
                s <= n,
                values@ == Seq::new(s as nat, |i: int| self.best_into(prev@, d, i).value),
                sources@ == Seq::new(s as nat, |i: int| self.best_into(prev@, d, i).source),
                forall|i: int| 0 <= i < s ==> #[trigger] sources@[i] < n,
            decreases n - s,
        {
            let density: F64 = d.at(self.om.pointers[s]);
            let start: usize = self.tm.pointers[s] as usize;
            let end: usize = self.tm.pointers[s + 1] as usize;
            let mut value: F64 = F64::minus_infinity();
            let mut source: u32 = 0;
            assert(self.tm.pointers@[s as int] <= self.tm.pointers@[s + 1]);
            let mut k: usize = start;
            while k < end
                invariant
                    self.wf(),
                    prev@.len() == n == self.state_space.num_states,
                    s < n,
                    source < n,
                    density == d.at(self.om.pointers@[s as int]),
                    start == self.tm.pointers@[s as int],
                    end == self.tm.pointers@[s + 1],
                    start <= k <= end,
                    (Best { value, source }) == self.best_arrival(prev@, d, s as int, k as int),
                decreases end - k,
            {
                assert(self.tm.pointers@[s + 1] <= self.tm.states@.len());
                let from: u32 = self.tm.states[k];
                let arrival: F64 = prev[from as usize].plus(self.tm.log_probabilities[k]).plus(
                    density,
                );
                if arrival.gt(value) {
                    value = arrival;
                    source = from;
                }
                k = k + 1;
            }
            values.push(value);
            sources.push(source);
            s = s + 1;
        }
        (values, sources)
    }

    /// The most likely course through the frames, given the logarithms of
    /// their densities, and the logarithm of its probability.
    pub fn viterbi(&self, densities: &Vec<Densities>) -> (r: (Vec<u32>, F64))
        requires
            self.wf(),
        ensures
            (r.0@, r.1) == self.decoded(densities@),
            r.0@.len() == 0 || r.0@.len() == densities@.len(),
            forall|i: int| 0 <= i < r.0@.len() ==> #[trigger] r.0@[i] < self.state_space.num_states,
    {
        let n: usize = self.state_space.num_states;
        let frames: usize = densities.len();
        if frames == 0 || n == 0 {
            return (Vec::new(), F64::minus_infinity());
        }
        let mut back: Vec<Vec<u32>> = Vec::new();
        let mut worth: Vec<F64> = Vec::new();
        let mut i: usize = 0;
        while i < n
            invariant
                self.wf(),
                n == self.state_space.num_states,
                i <= n,
                worth@ == self.initial_log@.take(i as int),
            decreases n - i,
        {
            worth.push(self.initial_log[i]);
            assert(self.initial_log@.take(i + 1) =~= self.initial_log@.take(i as int).push(
                worth@.last(),
            ));
            i = i + 1;
        }
        assert(worth@ =~= self.initial_log@);
        let mut t: usize = 0;
        while t < frames
            invariant
                self.wf(),
                n == self.state_space.num_states,
                n > 0,
                frames == densities@.len(),
                t <= frames,
                worth@ == self.values(densities@, t as int),
                worth@.len() == n,
                back@.len() == t,
                forall|f: int| 0 <= f < t ==> (#[trigger] back@[f])@.len() == n,
                forall|f: int, s: int|
                    0 <= f < t && 0 <= s < n ==> #[trigger] back@[f]@[s] == self.source(
                        densities@,
                        f + 1,
                        s,
                    ),
                forall|f: int, s: int|
                    0 <= f < t && 0 <= s < n ==> #[trigger] back@[f]@[s] < n,
            decreases frames - t,
        {
            let (next, sources) = self.advance(&worth, densities[t]);
            assert(next@ =~= self.values(densities@, t + 1));
            worth = next;
            back.push(sources);
            t = t + 1;
        }
        let last: usize = last_highest_of(&worth);
        let log_prob: F64 = worth[last];
        if !log_prob.is_finite() {
            return (Vec::new(), log_prob);
        }
        let mut path: Vec<u32> = Vec::new();
        let mut state: u32 = last as u32;
        let mut f: usize = frames;
        let ghost whole = self.course(densities@, frames as int, last as u32);
        while f > 0
            invariant
                self.wf(),
                n == self.state_space.num_states,
                f <= frames == densities@.len() == back@.len(),
                state < n,
                path@.len() == frames - f,
                self.course(densities@, f as int, state) + path@.reverse() == whole,
                forall|i: int| 0 <= i < path@.len() ==> #[trigger] path@[i] < n,
                forall|g: int| 0 <= g < frames ==> (#[trigger] back@[g])@.len() == n,
                forall|g: int, s: int|
                    0 <= g < frames && 0 <= s < n ==> #[trigger] back@[g]@[s] == self.source(
                        densities@,
                        g + 1,
                        s,
                    ),
                forall|g: int, s: int|
                    0 <= g < frames && 0 <= s < n ==> #[trigger] back@[g]@[s] < n,
            decreases f,
        {
            let ghost before = path@;
            let ghost here = state;
            path.push(state);
            assert(path@.reverse() =~= seq![here] + before.reverse());
            assert(back@[f - 1]@[here as int] == self.source(densities@, f as int, here as int));
            state = back[f - 1][state as usize];
            assert(self.course(densities@, f as int, here) == self.course(
                densities@,
                f - 1,
                state,
            ).push(here));
            assert(self.course(densities@, f - 1, state) + path@.reverse() =~= whole);
            f = f - 1;
        }
        assert(path@.reverse() =~= whole);
        let r: Vec<u32> = reversed(&path);
        (r, log_prob)
    }
}

/// The states in reverse order.
fn reversed(v: &Vec<u32>) -> (r: Vec<u32>)
    ensures
        r@ == v@.reverse(),
{
    let mut out: Vec<u32> = Vec::new();
    let mut i: usize = v.len();
    while i > 0
        invariant
            i <= v@.len(),
            out@ == v@.reverse().take(v@.len() - i),
        decreases i,
    {
        i = i - 1;
        out.push(v[i]);
        assert(v@.reverse().take(v@.len() - i) =~= v@.reverse().take(v@.len() - i - 1).push(
            v@[i as int],
        ));
    }
    assert(out@ =~= v@.reverse());
    out
}

/// The index of the last highest of the first `n` values, where two that
/// cannot be compared count as equal.
pub open spec fn last_highest(v: Seq<F64>, n: int) -> int
    decreases n,
{
    if n <= 1 {
        0
    } else {
        let before = last_highest(v, n - 1);
        if v[before].gt(v[n - 1]) {
            before
        } else {
            n - 1
        }
    }
}

fn last_highest_of(v: &Vec<F64>) -> (r: usize)
    requires
        v@.len() > 0,
    ensures
        r == last_highest(v@, v@.len() as int),
        r < v@.len(),
{
    let mut best: usize = 0;
    let mut i: usize = 1;
    while i < v.len()
        invariant
            1 <= i <= v@.len(),
            best == last_highest(v@, i as int),
            best < i,
        decreases v@.len() - i,
    {
        if !v[best].gt(v[i]) {
            best = i;
        }
        i = i + 1;
    }
    best
}

impl Hmm {
    /// `r` is a course through the states along the transitions `e`.
    pub open spec fn is_route(self, r: Seq<u32>, e: Seq<int>) -> bool {
        &&& r.len() == e.len()
        &&& forall|i: int|
            0 <= i < r.len() ==> {
                &&& (#[trigger] r[i]) < self.state_space.num_states
                &&& self.tm.pointers@[r[i] as int] <= e[i] < self.tm.pointers@[r[i] + 1]
            }
        &&& forall|i: int| 1 <= i < r.len() ==> self.tm.states@[#[trigger] e[i]] == r[i - 1]
    }

    /// What the first `t` frames of a course are worth.
    pub open spec fn route_value(self, d: Seq<Densities>, r: Seq<u32>, e: Seq<int>, t: int) -> F64
        decreases t,
    {
        let before = if t <= 1 {
            self.initial_log@[self.tm.states@[e[0]] as int]
        } else {
            self.route_value(d, r, e, t - 1)
        };
        before.plus(self.tm.log_probabilities@[e[t - 1]]).plus(
            d[t - 1].at(self.om.pointers@[r[t - 1] as int]),
        )
    }

    /// The starting values are numbers.
    pub open spec fn starts_with_numbers(self) -> bool {
        forall|s: int|
            0 <= s < self.initial_log@.len() ==> !(#[trigger] self.initial_log@[s]).not_a_number()
    }

    /// The best transition so far is a number, no other one exceeds it, and it
    /// is one of them unless it is minus infinity.
    proof fn lemma_best_arrival(self, prev: Seq<F64>, d: Densities, s: int, k: int)
        requires
            self.wf(),
            0 <= s < self.state_space.num_states,
            self.tm.pointers@[s] <= k,
        ensures
            !self.best_arrival(prev, d, s, k).value.not_a_number(),
            forall|j: int|
                self.tm.pointers@[s] <= j < k ==> !self.best_arrival(prev, d, s, k).value.less(
                    #[trigger] self.arrival(prev, d, s, j),
                ),
            F64::minus_infinity().less(self.best_arrival(prev, d, s, k).value) ==> exists|j: int|
                self.tm.pointers@[s] <= j < k && #[trigger] self.arrival(prev, d, s, j)
                    == self.best_arrival(prev, d, s, k).value && self.tm.states@[j]
                    == self.best_arrival(prev, d, s, k).source,
        decreases k - self.tm.pointers@[s],
    {
        lemma_least_double(F64::minus_infinity());
        lemma_order_double(F64::minus_infinity(), F64::minus_infinity(), F64::minus_infinity());
        if k > self.tm.pointers@[s] {
            self.lemma_best_arrival(prev, d, s, k - 1);
            let before = self.best_arrival(prev, d, s, k - 1).value;
            let here = self.arrival(prev, d, s, k - 1);
            let best = self.best_arrival(prev, d, s, k).value;
            lemma_order_double(before, here, here);
            lemma_order_double(here, here, here);
            assert forall|j: int| self.tm.pointers@[s] <= j < k implies !best.less(
                #[trigger] self.arrival(prev, d, s, j),
            ) by {
                if j < k - 1 && here.gt(before) {
                    let other = self.arrival(prev, d, s, j);
                    lemma_order_double(before, here, other);
                    lemma_order_double(before, other, here);
                    lemma_order_double(here, other, other);
                }
            }
        }
    }

    /// What the courses are worth are numbers.
    proof fn lemma_values_are_numbers(self, d: Seq<Densities>, t: int)
        requires
            self.wf(),
            self.starts_with_numbers(),
            0 <= t,
        ensures
            self.values(d, t).len() == self.state_space.num_states,
            forall|s: int|
                0 <= s < self.state_space.num_states ==> !(#[trigger] self.values(
                    d,
                    t,
                )[s]).not_a_number(),
        decreases t,
    {
        if t > 0 {
            assert forall|s: int| 0 <= s < self.state_space.num_states implies !(
            #[trigger] self.values(d, t)[s]).not_a_number() by {
                assert(self.tm.pointers@[s] <= self.tm.pointers@[s + 1]);
                self.lemma_best_arrival(
                    self.values(d, t - 1),
                    d[t - 1],
                    s,
                    self.tm.pointers@[s + 1] as int,
                );
            }
        }
    }

    /// No course is worth more than the best one to where it ends.
    pub proof fn lemma_no_better_route(self, d: Seq<Densities>, r: Seq<u32>, e: Seq<int>, t: int)
        requires
            self.wf(),
            self.starts_with_numbers(),
            self.is_route(r, e),
            1 <= t <= r.len() <= d.len(),
        ensures
            !self.values(d, t)[r[t - 1] as int].less(self.route_value(d, r, e, t)),
        decreases t,
    {
        let s = r[t - 1] as int;
        let k = e[t - 1];
        let prev = self.values(d, t - 1);
        assert(self.tm.pointers@[s] <= k < self.tm.pointers@[s + 1]);
        assert(self.tm.pointers@[s + 1] <= self.tm.states@.len());
        self.lemma_best_arrival(prev, d[t - 1], s, self.tm.pointers@[s + 1] as int);
        self.lemma_values_are_numbers(d, t - 1);
        let b = prev[self.tm.states@[k] as int];
        let a = if t <= 1 {
            self.initial_log@[self.tm.states@[e[0]] as int]
        } else {
            self.route_value(d, r, e, t - 1)
        };
        if t > 1 {
            assert(self.tm.states@[e[t - 1]] == r[t - 2]);
            self.lemma_no_better_route(d, r, e, t - 1);
        } else {
            lemma_order_double(b, b, b);
        }
        let c = self.tm.log_probabilities@[k];
        let q = d[t - 1].at(self.om.pointers@[s]);
        let best = self.values(d, t)[s];
        let arrival = self.arrival(prev, d[t - 1], s, k);
        assert(!best.less(arrival));
        lemma_plus_not_above_double(a, b, c);
        lemma_least_double(best);
        if b.plus(c).not_a_number() {
            lemma_bottom_double(a.plus(c), q);
        } else {
            lemma_plus_not_above_double(a.plus(c), b.plus(c), q);
            if arrival.not_a_number() {
                lemma_bottom_double(a.plus(c), q);
            }
        }
        let route = a.plus(c).plus(q);
        lemma_bottom_double(route, q);
        lemma_order_double(best, route, arrival);
        lemma_order_double(best, arrival, route);
        lemma_order_double(arrival, route, best);
        lemma_order_double(route, arrival, best);
    }

    proof fn lemma_route_value_prefix(
        self,
        d: Seq<Densities>,
        r: Seq<u32>,
        e: Seq<int>,
        s: u32,
        k: int,
        t: int,
    )
        requires
            r.len() == e.len(),
            1 <= t <= r.len(),
        ensures
            self.route_value(d, r.push(s), e.push(k), t) == self.route_value(d, r, e, t),
        decreases t,
    {
        if t > 1 {
            self.lemma_route_value_prefix(d, r, e, s, k, t - 1);
        }
    }

    /// The best course to a state follows transitions, and is worth what the
    /// best course is.
    pub proof fn lemma_course_is_best(self, d: Seq<Densities>, t: int, s: u32) -> (e: Seq<int>)
        requires
            self.wf(),
            self.starts_with_numbers(),
            1 <= t <= d.len(),
            s < self.state_space.num_states,
            F64::minus_infinity().less(self.values(d, t)[s as int]),
        ensures
            self.course(d, t, s).len() == t,
            self.course(d, t, s).last() == s,
            self.is_route(self.course(d, t, s), e),
            self.route_value(d, self.course(d, t, s), e, t) == self.values(d, t)[s as int],
        decreases t,
    {
        let prev = self.values(d, t - 1);
        let end = self.tm.pointers@[s + 1] as int;
        assert(self.tm.pointers@[s as int] <= self.tm.pointers@[s + 1]);
        self.lemma_best_arrival(prev, d[t - 1], s as int, end);
        self.lemma_values_are_numbers(d, t - 1);
        let k = choose|j: int|
            self.tm.pointers@[s as int] <= j < end && #[trigger] self.arrival(
                prev,
                d[t - 1],
                s as int,
                j,
            ) == self.best_arrival(prev, d[t - 1], s as int, end).value && self.tm.states@[j]
                == self.best_arrival(prev, d[t - 1], s as int, end).source;
        let from = self.tm.states@[k];
        assert(from == self.source(d, t, s as int));
        assert(from < self.state_space.num_states);
        if t == 1 {
            assert(self.course(d, 0, from) =~= Seq::<u32>::empty());
            let e = seq![k];
            assert(self.course(d, 1, s) =~= seq![s]);
            assert(self.is_route(seq![s], e));
            e
        } else {
            let b = prev[from as int];
            lemma_bottom_double(b, self.tm.log_probabilities@[k]);
            lemma_bottom_double(
                b.plus(self.tm.log_probabilities@[k]),
                d[t - 1].at(self.om.pointers@[s as int]),
            );
            lemma_bottom_double(self.arrival(prev, d[t - 1], s as int, k), b);
            lemma_least_double(F64::minus_infinity());
            let before = self.lemma_course_is_best(d, t - 1, from);
            let r = self.course(d, t - 1, from);
            let e = before.push(k);
            self.lemma_route_value_prefix(d, r, before, s, k, t - 1);
            assert(self.course(d, t, s) == r.push(s));
            assert forall|i: int| 0 <= i < t implies (#[trigger] r.push(s)[i])
                < self.state_space.num_states && self.tm.pointers@[r.push(s)[i] as int] <= e[i]
                < self.tm.pointers@[r.push(s)[i] + 1] by {
                if i < t - 1 {
                    assert(r[i] < self.state_space.num_states);
                    assert(r.push(s)[i] == r[i]);
                    assert(e[i] == before[i]);
                }
            }
            assert forall|i: int| 1 <= i < t implies self.tm.states@[#[trigger] e[i]] == r.push(
                s,
            )[i - 1] by {
                if i < t - 1 {
                    assert(e[i] == before[i]);
                }
            }
            assert(self.is_route(r.push(s), e));
            e
        }
    }

    /// No course through all frames is worth more than the decoded one.
    pub proof fn lemma_decoded_is_best(self, d: Seq<Densities>, r: Seq<u32>, e: Seq<int>)
        requires
            self.wf(),
            self.starts_with_numbers(),
            self.is_route(r, e),
            r.len() == d.len() > 0,
        ensures
            !self.decoded(d).1.less(self.route_value(d, r, e, d.len() as int)),
    {
        let t = d.len() as int;
        let worth = self.values(d, t);
        self.lemma_no_better_route(d, r, e, t);
        self.lemma_values_are_numbers(d, t);
        lemma_last_highest(worth, worth.len() as int);
        let s = last_highest(worth, worth.len() as int);
        let here = worth[r[t - 1] as int];
        let other = self.route_value(d, r, e, t);
        assert(r[t - 1] < self.state_space.num_states);
        lemma_order_double(worth[s], other, here);
        lemma_order_double(here, worth[s], other);
        lemma_order_double(other, here, worth[s]);
        lemma_order_double(worth[s], here, other);
    }
}

/// Nothing exceeds the last highest of numbers.
proof fn lemma_last_highest(v: Seq<F64>, n: int)
    requires
        1 <= n <= v.len(),
        forall|i: int| 0 <= i < v.len() ==> !(#[trigger] v[i]).not_a_number(),
    ensures
        0 <= last_highest(v, n) < n,
        forall|i: int| 0 <= i < n ==> !v[last_highest(v, n)].less(#[trigger] v[i]),
    decreases n,
{
    if n == 1 {
        lemma_order_double(v[0], v[0], v[0]);
    } else {
        lemma_last_highest(v, n - 1);
        let before = last_highest(v, n - 1);
        let best = last_highest(v, n);
        assert forall|i: int| 0 <= i < n implies !v[best].less(#[trigger] v[i]) by {
            lemma_order_double(v[best], v[i], v[before]);
            lemma_order_double(v[before], v[best], v[i]);
            lemma_order_double(v[i], v[before], v[best]);
        }
    }
}

} // verus!

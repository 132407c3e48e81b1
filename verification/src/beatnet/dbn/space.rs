//! The states of a bar: where in which beat, and at which tempo.
use vstd::prelude::*;
use crate::float::double::F64;
use super::spacing::{distinct, rounded_intervals, settle_intervals};

verus! {

/// The states of one beat: for each interval, in frames, one state per frame.
pub struct BeatStateSpace {
    pub num_states: usize,
    /// How far into the beat each state is, from 0 up to 1.
    pub state_positions: Vec<F64>,
    /// The interval that each state belongs to.
    pub state_intervals: Vec<i32>,
    /// For each interval its first state.
    pub first_states: Vec<usize>,
    /// For each interval its last state.
    pub last_states: Vec<usize>,
}

/// The frames of the first `k` intervals.
pub open spec fn frames_before(intervals: Seq<i32>, k: int) -> int
    decreases k,
{
    if k <= 0 {
        0
    } else {
        frames_before(intervals, k - 1) + intervals[k - 1]
    }
}

/// The positions in a beat of `interval` frames.
pub open spec fn interval_positions(interval: i32) -> Seq<F64> {
    Seq::new(
        interval as nat,
        |j: int| F64::nearest_to(j).over(F64::nearest_to(interval as int)),
    )
}

/// The positions in beats of the first `k` intervals.
pub open spec fn positions_before(intervals: Seq<i32>, k: int) -> Seq<F64>
    decreases k,
{
    if k <= 0 {
        seq![]
    } else {
        positions_before(intervals, k - 1) + interval_positions(intervals[k - 1])
    }
}

/// For each state of the first `k` intervals, its interval.
pub open spec fn interval_of_states(intervals: Seq<i32>, k: int) -> Seq<i32>
    decreases k,
{
    if k <= 0 {
        seq![]
    } else {
        interval_of_states(intervals, k - 1) + Seq::new(
            intervals[k - 1] as nat,
            |j: int| intervals[k - 1],
        )
    }
}

/// No interval is negative, and they do not hold too many frames in all.
pub open spec fn usable(intervals: Seq<i32>) -> bool {
    &&& forall|k: int| 0 <= k < intervals.len() ==> 0 <= #[trigger] intervals[k]
    &&& frames_before(intervals, intervals.len() as int) <= i32::MAX
}

/// Every interval holds a frame, and so a state.
pub open spec fn positive(intervals: Seq<i32>) -> bool {
    forall|k: int| 0 <= k < intervals.len() ==> 1 <= #[trigger] intervals[k]
}

/// The last of so many states. Before the first state there is none: the number is
/// the one that comes before zero where numbers go round.
pub open spec fn last_of(frames: int) -> usize {
    if frames > 0 {
        (frames - 1) as usize
    } else {
        usize::MAX
    }
}

impl BeatStateSpace {
    /// The space has the states of the given intervals, one after the other.
    pub open spec fn spans(self, intervals: Seq<i32>) -> bool {
        let n = intervals.len() as int;
        &&& self.num_states == frames_before(intervals, n)
        &&& self.state_positions@ == positions_before(intervals, n)
        &&& self.state_intervals@ == interval_of_states(intervals, n)
        &&& self.first_states@ == Seq::new(
            n as nat,
            |k: int| frames_before(intervals, k) as usize,
        )
        &&& self.last_states@ == Seq::new(
            n as nat,
            |k: int| last_of(frames_before(intervals, k + 1)),
        )
    }

    /// The states of the given intervals.
    pub fn from_intervals(intervals: &Vec<i32>) -> (r: BeatStateSpace)
        requires
            usable(intervals@),
        ensures
            r.spans(intervals@),
    {
        let mut first_states: Vec<usize> = Vec::new();
        let mut last_states: Vec<usize> = Vec::new();
        let mut state_positions: Vec<F64> = Vec::new();
        let mut state_intervals: Vec<i32> = Vec::new();
        let mut frames: usize = 0;
        let mut k: usize = 0;
        while k < intervals.len()
            invariant
                usable(intervals@),
                k <= intervals@.len(),
                frames == frames_before(intervals@, k as int),
                frames <= i32::MAX,
                state_positions@ == positions_before(intervals@, k as int),
                state_intervals@ == interval_of_states(intervals@, k as int),
                first_states@ == Seq::new(
                    k as nat,
                    |i: int| frames_before(intervals@, i) as usize,
                ),
                last_states@ == Seq::new(
                    k as nat,
                    |i: int| last_of(frames_before(intervals@, i + 1)),
                ),
            decreases intervals@.len() - k,
        {
            let interval: i32 = intervals[k];
            proof {
                lemma_frames_add_up(intervals@, k + 1, intervals@.len() as int);
                lemma_frames_add_up(intervals@, 0, k as int);
            }
            first_states.push(frames);
            last_states.push(
                if frames + interval as usize > 0 {
                    frames + interval as usize - 1
                } else {
                    usize::MAX
                },
            );
            let ghost positions = state_positions@;
            let ghost owners = state_intervals@;
            let mut j: i32 = 0;
            while j < interval
                invariant
                    0 <= j <= interval,
                    state_positions@ == positions + interval_positions(interval).take(j as int),
                    state_intervals@ == owners + Seq::new(j as nat, |i: int| interval),
                decreases interval - j,
            {
                state_positions.push(F64::of_i32(j).over(F64::of_i32(interval)));
                state_intervals.push(interval);
                assert(interval_positions(interval).take(j + 1) =~= interval_positions(
                    interval,
                ).take(j as int).push(state_positions@.last()));
                j = j + 1;
            }
            assert(interval_positions(interval).take(j as int) =~= interval_positions(interval));
            frames = frames + interval as usize;
            k = k + 1;
        }
        BeatStateSpace {
            num_states: frames,
            state_positions,
            state_intervals,
            first_states,
            last_states,
        }
    }

    /// The states of the intervals between the two, in frames: of every whole one, or
    /// of those that points evenly spaced in logarithm settle on, where fewer are
    /// wanted. There is no answer where the points do not settle, or where the
    /// intervals are not usable.
    pub fn new(
        min_interval: F64,
        max_interval: F64,
        num_intervals: Option<usize>,
        points: &Vec<Vec<F64>>,
    ) -> (r: Option<BeatStateSpace>)
        ensures
            match intervals_between(min_interval, max_interval, num_intervals, points@) {
                Some(v) => match r {
                    Some(space) => space.spans(v) && usable(v),
                    None => !usable(v),
                },
                None => r is None,
            },
    {
        match usable_intervals(min_interval, max_interval, num_intervals, points) {
            Some(v) => Some(BeatStateSpace::from_intervals(&v)),
            None => None,
        }
    }
}

/// The first of the lists of points from `j` on that gives as many intervals as
/// wanted, or the number of lists.
pub open spec fn first_settled(points: Seq<Vec<F64>>, wanted: int, j: int) -> int
    decreases points.len() - j,
{
    if j >= points.len() || distinct(rounded_intervals(points[j]@)).len() >= wanted {
        j
    } else {
        first_settled(points, wanted, j + 1)
    }
}

/// The intervals that the points settle on, if they do. The lists hold as many
/// points as intervals are wanted, then one more each.
pub open spec fn settled_on(points: Seq<Vec<F64>>, wanted: int) -> Option<Seq<i32>> {
    let j = first_settled(points, wanted, 0);
    if wanted == 0 {
        Some(seq![])
    } else if j < points.len() {
        Some(distinct(rounded_intervals(points[j]@)))
    } else {
        None
    }
}

/// The intervals between the two: every whole one, or where fewer are wanted those
/// that the points settle on.
pub open spec fn intervals_between(
    min_interval: F64,
    max_interval: F64,
    num_intervals: Option<usize>,
    points: Seq<Vec<F64>>,
) -> Option<Seq<i32>> {
    let v = whole_intervals(min_interval, max_interval);
    if enough(num_intervals, v.len()) {
        Some(v)
    } else {
        settled_on(points, num_intervals->0 as int)
    }
}

/// The points that are asked for next.
#[derive(Clone, Copy, Debug, PartialEq, Eq, Structural)]
pub enum PointRequest {
    /// One point: the root of the number.
    Root(F64),
    /// So many points, evenly spaced in logarithm from the one interval to the other.
    Powers(usize),
}

/// The points that are still needed for the intervals between the two; none where
/// the intervals are settled.
pub open spec fn points_needed(
    min_interval: F64,
    max_interval: F64,
    num_intervals: Option<usize>,
    points: Seq<Vec<F64>>,
) -> Option<PointRequest> {
    match intervals_between(min_interval, max_interval, num_intervals, points) {
        Some(_) => None,
        None => {
            let count = (num_intervals->0 + points.len()) as usize;
            Some(
                if count == 1 {
                    PointRequest::Root(min_interval.times(max_interval))
                } else {
                    PointRequest::Powers(count)
                },
            )
        },
    }
}

/// The points that are to be appended to the lists, as long as the intervals are not
/// settled.
pub fn next_points(
    min_interval: F64,
    max_interval: F64,
    num_intervals: Option<usize>,
    points: &Vec<Vec<F64>>,
) -> (r: Option<PointRequest>)
    requires
        num_intervals matches Some(n) ==> n + points@.len() <= usize::MAX,
    ensures
        r == points_needed(min_interval, max_interval, num_intervals, points@),
        r matches Some(PointRequest::Powers(count)) ==> count >= 2,
{
    let (lo, hi): (i32, i32) = (min_interval.round().to_i32(), max_interval.round().to_i32());
    let count: u64 = count_between(lo, hi);
    match num_intervals {
        Some(n) => {
            if n as u64 >= count || n == 0 || settle(points, n).is_some() {
                return None;
            }
            let next: usize = n + points.len();
            if next == 1 {
                Some(PointRequest::Root(min_interval.times(max_interval)))
            } else {
                Some(PointRequest::Powers(next))
            }
        },
        None => None,
    }
}

/// How many whole numbers there are from the one to the other.
fn count_between(lo: i32, hi: i32) -> (r: u64)
    ensures
        r == if lo <= hi {
            hi - lo + 1
        } else {
            0
        },
{
    if lo <= hi {
        (hi as i64 - lo as i64 + 1) as u64
    } else {
        0
    }
}

/// The intervals that the points settle on, if they do.
fn settle(points: &Vec<Vec<F64>>, wanted: usize) -> (r: Option<Vec<i32>>)
    requires
        wanted > 0,
    ensures
        match r {
            Some(v) => settled_on(points@, wanted as int) == Some(v@),
            None => settled_on(points@, wanted as int) is None,
        },
{
    let mut j: usize = 0;
    while j < points.len()
        invariant
            wanted > 0,
            j <= points@.len(),
            first_settled(points@, wanted as int, 0) == first_settled(
                points@,
                wanted as int,
                j as int,
            ),
        decreases points@.len() - j,
    {
        match settle_intervals(&points[j], wanted) {
            Some(v) => {
                return Some(v);
            },
            None => {},
        }
        j = j + 1;
    }
    None
}

/// Whether intervals are usable.
fn is_usable(intervals: &Vec<i32>) -> (r: bool)
    ensures
        r == usable(intervals@),
{
    let mut k: usize = 0;
    while k < intervals.len()
        invariant
            k <= intervals@.len(),
            forall|i: int| 0 <= i < k ==> 0 <= #[trigger] intervals@[i],
        decreases intervals@.len() - k,
    {
        if intervals[k] < 0 {
            assert(intervals@[k as int] < 0);
            return false;
        }
        k = k + 1;
    }
    let mut frames: u32 = 0;
    let mut i: usize = 0;
    while i < intervals.len()
        invariant
            i <= intervals@.len(),
            forall|j: int| 0 <= j < intervals@.len() ==> 0 <= #[trigger] intervals@[j],
            frames == frames_before(intervals@, i as int),
            frames <= i32::MAX,
        decreases intervals@.len() - i,
    {
        frames = frames + intervals[i] as u32;
        i = i + 1;
        if frames > i32::MAX as u32 {
            proof {
                lemma_frames_add_up(intervals@, i as int, intervals@.len() as int);
            }
            return false;
        }
    }
    true
}

/// The intervals between the two, if there are such and they are usable.
fn usable_intervals(
    min_interval: F64,
    max_interval: F64,
    num_intervals: Option<usize>,
    points: &Vec<Vec<F64>>,
) -> (r: Option<Vec<i32>>)
    ensures
        match intervals_between(min_interval, max_interval, num_intervals, points@) {
            Some(v) => match r {
                Some(w) => w@ == v && usable(v),
                None => !usable(v),
            },
            None => r is None,
        },
{
    let lo: i32 = min_interval.round().to_i32();
    let hi: i32 = max_interval.round().to_i32();
    let count: u64 = count_between(lo, hi);
    match num_intervals {
        Some(n) => {
            if (n as u64) < count {
                if n == 0 {
                    return Some(Vec::new());
                }
                return match settle(points, n) {
                    Some(v) => if is_usable(&v) {
                        Some(v)
                    } else {
                        None
                    },
                    None => None,
                };
            }
        },
        None => {},
    }
    let ghost v = whole_intervals(min_interval, max_interval);
    if lo > hi {
        assert(v =~= Seq::<i32>::empty());
        return Some(Vec::new());
    }
    proof {
        lemma_range_frames(lo, hi, hi - lo + 1);
        assert(v =~= Seq::new((hi - lo + 1) as nat, |k: int| (lo + k) as i32));
    }
    if lo < 0 {
        assert(v[0] == lo);
        return None;
    }
    assert(count * (lo + hi) <= 0x1_0000_0000 * 0x1_0000_0000) by (nonlinear_arith)
        requires
            count <= 0x1_0000_0000,
            0 <= lo + hi <= 0x1_0000_0000,
    ;
    let wide: u128 = count as u128 * (lo as u128 + hi as u128);
    proof {
        assert(count * (2 * lo + count - 1) == count * (lo + hi)) by (nonlinear_arith)
            requires
                count == hi - lo + 1,
        ;
        assert(wide == count * (lo + hi));
    }
    if wide > 2 * (i32::MAX as u128) {
        return None;
    }
    let mut intervals: Vec<i32> = Vec::new();
    let mut i: i64 = lo as i64;
    while i <= hi as i64
        invariant
            0 <= lo <= hi,
            lo <= i <= hi + 1,
            v == Seq::new((hi - lo + 1) as nat, |k: int| (lo + k) as i32),
            intervals@ == v.take(i - lo),
        decreases hi + 1 - i,
    {
        intervals.push(i as i32);
        assert(v.take(i - lo + 1) =~= v.take(i - lo).push(i as i32));
        i = i + 1;
    }
    assert(intervals@ =~= v);
    Some(intervals)
}

/// No more intervals are found than wanted, where a number is wanted.
pub open spec fn enough(wanted: Option<usize>, found: nat) -> bool {
    match wanted {
        Some(n) => n >= found,
        None => true,
    }
}

/// Every whole interval between the two, rounded.
pub open spec fn whole_intervals(min_interval: F64, max_interval: F64) -> Seq<i32> {
    let lo = min_interval.round().integer_part(i32::MIN as int, i32::MAX as int);
    let hi = max_interval.round().integer_part(i32::MIN as int, i32::MAX as int);
    Seq::new(
        if lo <= hi {
            (hi - lo + 1) as nat
        } else {
            0
        },
        |k: int| (lo + k) as i32,
    )
}

/// The frames of consecutive intervals.
proof fn lemma_range_frames(lo: i32, hi: i32, n: int)
    requires
        lo <= hi,
        0 <= n <= hi - lo + 1,
    ensures
        ({
            let v = Seq::new((hi - lo + 1) as nat, |k: int| (lo + k) as i32);
            2 * frames_before(v, n) == n * (2 * lo + n - 1)
        }),
    decreases n,
{
    if n > 0 {
        lemma_range_frames(lo, hi, n - 1);
        assert((n - 1) * (2 * lo + n - 2) + 2 * (lo + n - 1) == n * (2 * lo + n - 1))
            by (nonlinear_arith);
    } else {
        assert(n * (2 * lo + n - 1) == 0) by (nonlinear_arith)
            requires
                n == 0,
        ;
    }
}

/// Frames only add up.
pub proof fn lemma_frames_add_up(intervals: Seq<i32>, j: int, k: int)
    requires
        forall|i: int| 0 <= i < intervals.len() ==> 0 <= #[trigger] intervals[i],
        0 <= j <= k <= intervals.len(),
    ensures
        frames_before(intervals, j) <= frames_before(intervals, k),
    decreases k - j,
{
    if j < k {
        lemma_frames_add_up(intervals, j, k - 1);
    }
}

/// Intervals that hold frames add some each.
pub proof fn lemma_frames_grow(intervals: Seq<i32>, j: int, k: int)
    requires
        forall|i: int| 0 <= i < intervals.len() ==> 1 <= #[trigger] intervals[i],
        0 <= j <= k <= intervals.len(),
    ensures
        frames_before(intervals, j) + (k - j) <= frames_before(intervals, k),
    decreases k - j,
{
    if j < k {
        lemma_frames_grow(intervals, j, k - 1);
    }
}

/// The states of intervals that hold frames follow one another: each has as many
/// as it has frames, and the next begins behind its last.
pub proof fn lemma_intervals_adjoin(space: BeatStateSpace, intervals: Seq<i32>, k: int)
    requires
        usable(intervals),
        positive(intervals),
        space.spans(intervals),
        0 <= k < intervals.len(),
    ensures
        space.last_states@[k] - space.first_states@[k] + 1 == intervals[k],
        k + 1 < intervals.len() ==> space.first_states@[k + 1] == space.last_states@[k] + 1,
        k == 0 ==> space.first_states@[k] == 0,
        k == intervals.len() - 1 ==> space.last_states@[k] == space.num_states - 1,
{
    lemma_frames_grow(intervals, 0, k);
    lemma_frames_grow(intervals, k, k + 1);
    lemma_frames_grow(intervals, k + 1, intervals.len() as int);
}

/// The states of a bar: those of one beat, once for each beat of the bar.
pub struct BarStateSpace {
    pub num_beats: usize,
    pub num_states: usize,
    /// How many beats into the bar each state is.
    pub state_positions: Vec<F64>,
    /// The interval that each state belongs to.
    pub state_intervals: Vec<i32>,
    /// For each beat, and each interval, its first state.
    pub first_states: Vec<Vec<usize>>,
    /// For each beat, and each interval, its last state.
    pub last_states: Vec<Vec<usize>>,
}

/// The positions in the first `b` beats of a bar.
pub open spec fn bar_positions(beat: Seq<F64>, b: int) -> Seq<F64>
    decreases b,
{
    if b <= 0 {
        seq![]
    } else {
        bar_positions(beat, b - 1) + beat.map_values(|p: F64| p.plus(F64::nearest_to(b - 1)))
    }
}

/// The intervals of the states in the first `b` beats of a bar.
pub open spec fn bar_intervals(beat: Seq<i32>, b: int) -> Seq<i32>
    decreases b,
{
    if b <= 0 {
        seq![]
    } else {
        bar_intervals(beat, b - 1) + beat
    }
}

/// The states `by` later.
pub open spec fn shifted(states: Seq<usize>, by: int) -> Seq<usize> {
    Seq::new(states.len(), |k: int| (states[k] + by) as usize)
}

impl BarStateSpace {
    /// The bar repeats the beat.
    pub open spec fn repeats(self, beat: BeatStateSpace, num_beats: int) -> bool {
        &&& self.num_beats == num_beats
        &&& self.num_states == num_beats * beat.num_states
        &&& self.state_positions@ == bar_positions(beat.state_positions@, num_beats)
        &&& self.state_intervals@ == bar_intervals(beat.state_intervals@, num_beats)
        &&& self.first_states@.len() == num_beats
        &&& self.last_states@.len() == num_beats
        &&& forall|b: int|
            0 <= b < num_beats ==> (#[trigger] self.first_states@[b])@ == shifted(
                beat.first_states@,
                b * beat.num_states,
            )
        &&& forall|b: int|
            0 <= b < num_beats ==> (#[trigger] self.last_states@[b])@ == shifted(
                beat.last_states@,
                b * beat.num_states,
            )
    }

    /// The bar has the states of the given intervals in each beat.
    pub open spec fn spans(self, intervals: Seq<i32>, num_beats: int) -> bool {
        exists|beat: BeatStateSpace|
            #[trigger] beat.spans(intervals) && self.repeats(beat, num_beats)
    }

    /// Every state has a position and an interval, each beat has its first and
    /// last states, and the bar begins with a first state.
    pub open spec fn wf(self) -> bool {
        &&& self.state_positions@.len() == self.num_states
        &&& self.state_intervals@.len() == self.num_states
        &&& self.first_states@.len() == self.num_beats
        &&& self.last_states@.len() == self.num_beats
        &&& forall|b: int, k: int|
            0 <= b < self.num_beats && 0 <= k < self.first_states@[b]@.len() ==> (
            #[trigger] self.first_states@[b]@[k]) < self.num_states
        &&& forall|b: int, k: int|
            0 <= b < self.num_beats && 0 <= k < self.last_states@[b]@.len() ==> (
            #[trigger] self.last_states@[b]@[k]) < self.num_states
        &&& self.num_states > 0 ==> self.num_beats > 0 && self.first_states@[0]@.len() > 0
            && self.first_states@[0]@[0] == 0
    }

    /// The states of a bar of `num_beats` beats. Every state has its place where every
    /// interval holds a frame.
    pub fn from_intervals(num_beats: usize, intervals: &Vec<i32>) -> (r: BarStateSpace)
        requires
            usable(intervals@),
            countable(intervals@, num_beats as int),
        ensures
            r.spans(intervals@, num_beats as int),
            positive(intervals@) ==> r.wf(),
            r.num_beats == num_beats,
            r.num_states == num_beats * frames_before(intervals@, intervals@.len() as int),
    {
        let beat: BeatStateSpace = BeatStateSpace::from_intervals(intervals);
        let mut state_positions: Vec<F64> = Vec::new();
        let mut state_intervals: Vec<i32> = Vec::new();
        let mut first_states: Vec<Vec<usize>> = Vec::new();
        let mut last_states: Vec<Vec<usize>> = Vec::new();
        let mut num_states: usize = 0;
        proof {
            assert(num_states == 0 * beat.num_states);
        }
        let mut b: usize = 0;
        while b < num_beats
            invariant
                b <= num_beats,
                usable(intervals@),
                beat.spans(intervals@),
                countable(intervals@, num_beats as int),
                num_states == b * beat.num_states,
                state_positions@ == bar_positions(beat.state_positions@, b as int),
                state_intervals@ == bar_intervals(beat.state_intervals@, b as int),
                first_states@.len() == b,
                last_states@.len() == b,
                forall|c: int|
                    0 <= c < b ==> (#[trigger] first_states@[c])@ == shifted(
                        beat.first_states@,
                        c * beat.num_states,
                    ),
                forall|c: int|
                    0 <= c < b ==> (#[trigger] last_states@[c])@ == shifted(
                        beat.last_states@,
                        c * beat.num_states,
                    ),
            decreases num_beats - b,
        {
            proof {
                lemma_beat_shifts(beat, intervals@, b as int, num_beats as int);
                assert((b + 1) * beat.num_states == num_states + beat.num_states) by (nonlinear_arith)
                    requires
                        num_states == b * beat.num_states,
                ;
                assert((b + 1) * beat.num_states <= num_beats * beat.num_states)
                    by (nonlinear_arith)
                    requires
                        b + 1 <= num_beats,
                ;
            }
            append_positions(&mut state_positions, &beat.state_positions, b);
            append_intervals(&mut state_intervals, &beat.state_intervals);
            let firsts: Vec<usize> = shift_states(&beat.first_states, num_states);
            let lasts: Vec<usize> = shift_states(&beat.last_states, num_states);
            first_states.push(firsts);
            last_states.push(lasts);
            num_states = num_states + beat.num_states;
            b = b + 1;
        }
        let r = BarStateSpace {
            num_beats,
            num_states,
            state_positions,
            state_intervals,
            first_states,
            last_states,
        };
        proof {
            assert(r.repeats(beat, num_beats as int));
            if positive(intervals@) {
                lemma_bar_wf(r, beat, intervals@);
            }
        }
        r
    }

    /// The states of a bar over the intervals between the two, in frames: over every
    /// whole one, or over those that points evenly spaced in logarithm settle on, where
    /// fewer are wanted. There is no answer where the points do not settle, where the
    /// intervals are not usable, or where the states cannot be counted.
    pub fn new(
        num_beats: usize,
        min_interval: F64,
        max_interval: F64,
        num_intervals: Option<usize>,
        points: &Vec<Vec<F64>>,
    ) -> (r: Option<BarStateSpace>)
        ensures
            match intervals_between(min_interval, max_interval, num_intervals, points@) {
                Some(v) => match r {
                    Some(space) => {
                        &&& usable(v)
                        &&& countable(v, num_beats as int)
                        &&& space.spans(v, num_beats as int)
                        &&& positive(v) ==> space.wf()
                        &&& space.num_beats == num_beats
                        &&& space.num_states == num_beats * frames_before(v, v.len() as int)
                    },
                    None => !usable(v) || !countable(v, num_beats as int),
                },
                None => r is None,
            },
    {
        let intervals: Vec<i32> = match usable_intervals(
            min_interval,
            max_interval,
            num_intervals,
            points,
        ) {
            Some(v) => v,
            None => {
                return None;
            },
        };
        let frames: usize = total_frames(&intervals);
        match num_beats.checked_mul(frames) {
            Some(_) => {},
            None => {
                return None;
            },
        }
        if num_beats > 1 && frames > 0 && intervals[0] < 1 {
            return None;
        }
        Some(BarStateSpace::from_intervals(num_beats, &intervals))
    }
}

/// The states of so many beats can be counted. An interval without a frame in front
/// has no last state, and none that is counted from a later beat.
pub open spec fn countable(intervals: Seq<i32>, num_beats: int) -> bool {
    let frames = frames_before(intervals, intervals.len() as int);
    &&& num_beats * frames <= usize::MAX
    &&& num_beats <= 1 || frames == 0 || intervals[0] >= 1
}

/// The frames of all intervals.
fn total_frames(intervals: &Vec<i32>) -> (r: usize)
    requires
        usable(intervals@),
    ensures
        r == frames_before(intervals@, intervals@.len() as int),
{
    let mut frames: usize = 0;
    let mut k: usize = 0;
    while k < intervals.len()
        invariant
            usable(intervals@),
            k <= intervals@.len(),
            frames == frames_before(intervals@, k as int),
        decreases intervals@.len() - k,
    {
        proof {
            lemma_frames_add_up(intervals@, k + 1, intervals@.len() as int);
            lemma_frames_add_up(intervals@, 0, k as int);
        }
        frames = frames + intervals[k] as usize;
        k = k + 1;
    }
    frames
}

/// Appends the positions of beat `b`.
fn append_positions(out: &mut Vec<F64>, beat: &Vec<F64>, b: usize)
    ensures
        final(out)@ == old(out)@ + beat@.map_values(|p: F64| p.plus(F64::nearest_to(b as int))),
{
    let offset: F64 = F64::of_usize(b);
    let ghost all = beat@.map_values(|p: F64| p.plus(F64::nearest_to(b as int)));
    let ghost start = out@;
    let mut i: usize = 0;
    while i < beat.len()
        invariant
            i <= beat@.len(),
            offset == F64::nearest_to(b as int),
            all == beat@.map_values(|p: F64| p.plus(F64::nearest_to(b as int))),
            out@ == start + all.take(i as int),
        decreases beat@.len() - i,
    {
        out.push(beat[i].plus(offset));
        assert(all.take(i + 1) =~= all.take(i as int).push(all[i as int]));
        i = i + 1;
    }
    assert(all.take(i as int) =~= all);
}

/// Appends the intervals of a beat.
fn append_intervals(out: &mut Vec<i32>, beat: &Vec<i32>)
    ensures
        final(out)@ == old(out)@ + beat@,
{
    let ghost start = out@;
    let mut i: usize = 0;
    while i < beat.len()
        invariant
            i <= beat@.len(),
            out@ == start + beat@.take(i as int),
        decreases beat@.len() - i,
    {
        out.push(beat[i]);
        assert(beat@.take(i + 1) =~= beat@.take(i as int).push(beat@[i as int]));
        i = i + 1;
    }
    assert(beat@.take(i as int) =~= beat@);
}

/// The states `by` later.
fn shift_states(states: &Vec<usize>, by: usize) -> (r: Vec<usize>)
    requires
        forall|k: int| 0 <= k < states@.len() ==> #[trigger] states@[k] + by <= usize::MAX,
    ensures
        r@ == shifted(states@, by as int),
{
    let mut out: Vec<usize> = Vec::new();
    let mut i: usize = 0;
    while i < states.len()
        invariant
            i <= states@.len(),
            forall|k: int| 0 <= k < states@.len() ==> #[trigger] states@[k] + by <= usize::MAX,
            out@ == shifted(states@, by as int).take(i as int),
        decreases states@.len() - i,
    {
        out.push(states[i] + by);
        assert(shifted(states@, by as int).take(i + 1) =~= shifted(states@, by as int).take(
            i as int,
        ).push(out@.last()));
        i = i + 1;
    }
    assert(out@ =~= shifted(states@, by as int));
    out
}

proof fn lemma_positions_count(intervals: Seq<i32>, k: int)
    requires
        forall|i: int| 0 <= i < intervals.len() ==> 0 <= #[trigger] intervals[i],
        0 <= k <= intervals.len(),
    ensures
        positions_before(intervals, k).len() == frames_before(intervals, k),
        interval_of_states(intervals, k).len() == frames_before(intervals, k),
    decreases k,
{
    if k > 0 {
        lemma_positions_count(intervals, k - 1);
    }
}

/// The states of a beat can be counted from the start of beat `b`.
proof fn lemma_beat_shifts(beat: BeatStateSpace, intervals: Seq<i32>, b: int, num_beats: int)
    requires
        usable(intervals),
        beat.spans(intervals),
        countable(intervals, num_beats),
        0 <= b < num_beats,
    ensures
        b * beat.num_states + beat.num_states <= usize::MAX,
        forall|k: int|
            0 <= k < beat.first_states@.len() ==> #[trigger] beat.first_states@[k] + b
                * beat.num_states <= usize::MAX,
        forall|k: int|
            0 <= k < beat.last_states@.len() ==> #[trigger] beat.last_states@[k] + b
                * beat.num_states <= usize::MAX,
{
    let n = beat.num_states as int;
    assert(0 <= b * n && b * n + n <= num_beats * n) by (nonlinear_arith)
        requires
            0 <= b < num_beats,
            n >= 0,
    ;
    assert(b == 0 || n == 0 ==> b * n == 0) by (nonlinear_arith);
    assert forall|k: int| 0 <= k < beat.first_states@.len() implies #[trigger] beat.first_states@[k]
        + b * n <= usize::MAX by {
        lemma_frames_add_up(intervals, 0, k);
        lemma_frames_add_up(intervals, k, intervals.len() as int);
    }
    assert forall|k: int| 0 <= k < beat.last_states@.len() implies #[trigger] beat.last_states@[k]
        + b * n <= usize::MAX by {
        lemma_frames_add_up(intervals, k + 1, intervals.len() as int);
        lemma_frames_add_up(intervals, 1, k + 1);
        lemma_frames_add_up(intervals, 0, k + 1);
        assert(frames_before(intervals, 0) == 0);
        assert(frames_before(intervals, 1) == intervals[0]);
        assert(beat.last_states@[k] == last_of(frames_before(intervals, k + 1)));
    }
}

/// The states of a beat lie within it.
proof fn lemma_beat_bounds(beat: BeatStateSpace, intervals: Seq<i32>)
    requires
        usable(intervals),
        positive(intervals),
        beat.spans(intervals),
    ensures
        beat.state_positions@.len() == beat.num_states,
        beat.state_intervals@.len() == beat.num_states,
        beat.first_states@.len() == intervals.len(),
        beat.last_states@.len() == intervals.len(),
        forall|k: int|
            0 <= k < intervals.len() ==> (#[trigger] beat.first_states@[k]) < beat.num_states,
        forall|k: int|
            0 <= k < intervals.len() ==> (#[trigger] beat.last_states@[k]) < beat.num_states,
        intervals.len() > 0 ==> beat.first_states@[0] == 0,
        intervals.len() == 0 ==> beat.num_states == 0,
{
    lemma_positions_count(intervals, intervals.len() as int);
    assert forall|k: int| 0 <= k < intervals.len() implies (#[trigger] beat.first_states@[k])
        < beat.num_states && beat.last_states@[k] < beat.num_states by {
        lemma_frames_grow(intervals, 0, k);
        lemma_frames_grow(intervals, k, k + 1);
        lemma_frames_grow(intervals, k + 1, intervals.len() as int);
    }
    assert forall|k: int| 0 <= k < intervals.len() implies (#[trigger] beat.last_states@[k])
        < beat.num_states by {
        assert(beat.first_states@[k] < beat.num_states);
    }
}

proof fn lemma_bar_count(beat: BeatStateSpace, b: int)
    requires
        b >= 0,
        beat.state_positions@.len() == beat.num_states,
        beat.state_intervals@.len() == beat.num_states,
    ensures
        bar_positions(beat.state_positions@, b).len() == b * beat.num_states,
        bar_intervals(beat.state_intervals@, b).len() == b * beat.num_states,
    decreases b,
{
    if b > 0 {
        lemma_bar_count(beat, b - 1);
        assert((b - 1) * beat.num_states + beat.num_states == b * beat.num_states)
            by (nonlinear_arith);
    } else {
        assert(b * beat.num_states == 0) by (nonlinear_arith)
            requires
                b == 0,
        ;
    }
}

proof fn lemma_bar_wf(bar: BarStateSpace, beat: BeatStateSpace, intervals: Seq<i32>)
    requires
        usable(intervals),
        positive(intervals),
        beat.spans(intervals),
        bar.repeats(beat, bar.num_beats as int),
    ensures
        bar.wf(),
{
    lemma_beat_bounds(beat, intervals);
    lemma_bar_count(beat, bar.num_beats as int);
    let n = beat.num_states;
    assert forall|b: int, k: int|
        0 <= b < bar.num_beats && 0 <= k < bar.first_states@[b]@.len() implies (
    #[trigger] bar.first_states@[b]@[k]) < bar.num_states by {
        assert(beat.first_states@[k] < n);
        assert(b * n >= 0 && b * n + n <= bar.num_beats * n) by (nonlinear_arith)
            requires
                0 <= b < bar.num_beats,
        ;
    }
    assert forall|b: int, k: int|
        0 <= b < bar.num_beats && 0 <= k < bar.last_states@[b]@.len() implies (
    #[trigger] bar.last_states@[b]@[k]) < bar.num_states by {
        assert(beat.last_states@[k] < n);
        assert(b * n >= 0 && b * n + n <= bar.num_beats * n) by (nonlinear_arith)
            requires
                0 <= b < bar.num_beats,
        ;
    }
    if bar.num_states > 0 {
        assert(bar.num_beats > 0) by {
            if bar.num_beats == 0 {
                assert(0 * n == 0);
            }
        }
        if intervals.len() == 0 {
            assert(bar.num_beats * 0 == 0);
        }
        assert(bar.first_states@[0]@ == shifted(beat.first_states@, 0 * n));
        assert(0 * n == 0);
    }
}

} // verus!

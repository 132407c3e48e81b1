//! From activations to beats, and from beats to a tempo.
use vstd::prelude::*;
use crate::beatnet::decode::{snap_tempo, snapped};
use crate::float::close::{close, lemma_over_close, lemma_ratio_close, lemma_unit, unit};
use crate::float::close_double as double;
use crate::float::double::F64;
use crate::float::exact::lemma_whole_single;
use crate::float::order::{
    lemma_by_value_single,
    lemma_bottom_double, lemma_order_double, lemma_order_single, lemma_positive_and_finite, lemma_positive_bits, lemma_ratio_is_positive,
    lemma_ratio_not_negative, lemma_round_in_range, lemma_times_into,
};
use crate::float::single::F32;
use crate::signal::{climb, first_largest, lemma_climb_is_first_largest};
use crate::sorting::{lemma_sorted_holds, sort_ascending, sorted};
use super::hmm::{Hmm, FPS, MAX_BPM, MIN_BPM};
use super::observation::Densities;

verus! {

/// A beat: when it is, in seconds, and its number in the bar; the downbeat
/// has number 1.
#[derive(Clone, Copy, Debug)]
pub struct BeatEvent {
    pub time: F32,
    pub beat_number: u32,
}

/// One of the two activations reaches the threshold.
pub open spec fn active(frame: (F32, F32), threshold: F32) -> bool {
    frame.0.ge(threshold) || frame.1.ge(threshold)
}

/// The first active frame at or behind `i`; the number of frames if none is.
pub open spec fn first_active(act: Seq<(F32, F32)>, threshold: F32, i: int) -> int
    decreases act.len() - i,
{
    if i >= act.len() || active(act[i], threshold) {
        i
    } else {
        first_active(act, threshold, i + 1)
    }
}

/// One more than the last active frame before `n`; zero if none is.
pub open spec fn last_active(act: Seq<(F32, F32)>, threshold: F32, n: int) -> int
    decreases n,
{
    if n <= 0 || active(act[n - 1], threshold) {
        n
    } else {
        last_active(act, threshold, n - 1)
    }
}

/// The frames from the first to the last active one, and where they begin.
pub open spec fn active_part(act: Seq<(F32, F32)>, threshold: F32) -> (Seq<(F32, F32)>, int) {
    let first = first_active(act, threshold, 0);
    let last = last_active(act, threshold, act.len() as int);
    if first < last {
        (act.subrange(first, last), first)
    } else {
        (seq![], 0)
    }
}

proof fn lemma_first_active(act: Seq<(F32, F32)>, threshold: F32, i: int)
    requires
        0 <= i <= act.len(),
    ensures
        i <= first_active(act, threshold, i) <= act.len(),
        forall|k: int|
            i <= k < first_active(act, threshold, i) ==> !active(#[trigger] act[k], threshold),
        first_active(act, threshold, i) < act.len() ==> active(
            act[first_active(act, threshold, i)],
            threshold,
        ),
    decreases act.len() - i,
{
    if i < act.len() && !active(act[i], threshold) {
        lemma_first_active(act, threshold, i + 1);
    }
}

proof fn lemma_last_active(act: Seq<(F32, F32)>, threshold: F32, n: int)
    requires
        0 <= n <= act.len(),
    ensures
        0 <= last_active(act, threshold, n) <= n,
        last_active(act, threshold, n) > 0 ==> active(
            act[last_active(act, threshold, n) - 1],
            threshold,
        ),
        forall|k: int|
            last_active(act, threshold, n) <= k < n ==> !active(#[trigger] act[k], threshold),
    decreases n,
{
    if n > 0 && !active(act[n - 1], threshold) {
        lemma_last_active(act, threshold, n - 1);
    }
}

/// Every active frame lies in the active part, and where that is not empty it
/// begins and ends with one.
pub proof fn lemma_active_part(act: Seq<(F32, F32)>, threshold: F32)
    ensures
        ({
            let (part, first) = active_part(act, threshold);
            &&& 0 <= first && first + part.len() <= act.len()
            &&& part == act.subrange(first, first + part.len())
            &&& forall|k: int|
                0 <= k < act.len() && active(#[trigger] act[k], threshold) ==> first <= k < first
                    + part.len()
            &&& part.len() > 0 ==> active(part[0], threshold) && active(part.last(), threshold)
        }),
{
    let n = act.len() as int;
    let first = first_active(act, threshold, 0);
    let last = last_active(act, threshold, n);
    lemma_first_active(act, threshold, 0);
    lemma_last_active(act, threshold, n);
    assert forall|k: int| 0 <= k < act.len() && active(#[trigger] act[k], threshold) implies first
        <= k < last by {}
    if first >= last {
        assert(act.subrange(0, 0) =~= Seq::<(F32, F32)>::empty());
    }
}

/// The frames from the first to the last active one, and where they begin.
pub fn threshold_activations(act: &Vec<(F32, F32)>, threshold: F32) -> (r: (
    Vec<(F32, F32)>,
    usize,
))
    ensures
        (r.0@, r.1 as int) == active_part(act@, threshold),
        r.1 + r.0@.len() <= act@.len(),
{
    let n: usize = act.len();
    let mut first: usize = 0;
    while first < n && !(act[first].0.ge(threshold) || act[first].1.ge(threshold))
        invariant
            first <= n == act@.len(),
            first_active(act@, threshold, 0) == first_active(act@, threshold, first as int),
        decreases n - first,
    {
        first = first + 1;
    }
    let mut last: usize = n;
    while last > 0 && !(act[last - 1].0.ge(threshold) || act[last - 1].1.ge(threshold))
        invariant
            last <= n == act@.len(),
            last_active(act@, threshold, n as int) == last_active(act@, threshold, last as int),
        decreases last,
    {
        last = last - 1;
    }
    let mut part: Vec<(F32, F32)> = Vec::new();
    if last <= first {
        return (part, 0);
    }
    let mut i: usize = first;
    while i < last
        invariant
            first <= i <= last <= n == act@.len(),
            part@ == act@.subrange(first as int, i as int),
        decreases last - i,
    {
        part.push(act[i]);
        assert(act@.subrange(first as int, i + 1) =~= act@.subrange(first as int, i as int).push(
            act@[i as int],
        ));
        i = i + 1;
    }
    (part, first)
}

/// Whether each state of a course expects a beat.
pub open spec fn beat_marks(hmm: Hmm, path: Seq<u32>) -> Seq<bool> {
    path.map_values(|s: u32| hmm.om.pointers@[s as int] >= 1)
}

/// The number in the bar of the beat that a position lies in.
pub open spec fn number_at(position: F64) -> u32 {
    let whole = position.floor().integer_part(0, u32::MAX as int);
    if whole < u32::MAX {
        (whole + 1) as u32
    } else {
        u32::MAX
    }
}

/// The numbers of the beats that the states of a course lie in.
pub open spec fn beat_numbers(hmm: Hmm, path: Seq<u32>) -> Seq<u32> {
    path.map_values(|s: u32| number_at(hmm.state_space.state_positions@[s as int]))
}

/// The larger activation of each frame.
pub open spec fn levels(act: Seq<(F32, F32)>) -> Seq<F32> {
    act.map_values(|a: (F32, F32)| a.0.max(a.1))
}

/// The end of the run of marks that frame `i` lies in.
pub open spec fn run_end(marks: Seq<bool>, i: int) -> int
    decreases marks.len() - i,
{
    if i < marks.len() && marks[i] {
        run_end(marks, i + 1)
    } else {
        i
    }
}

proof fn lemma_run_end(marks: Seq<bool>, i: int)
    requires
        0 <= i <= marks.len(),
    ensures
        i <= run_end(marks, i) <= marks.len(),
        i < marks.len() && marks[i] ==> i < run_end(marks, i),
        forall|k: int| i <= k < run_end(marks, i) ==> #[trigger] marks[k],
    decreases marks.len() - i,
{
    if i < marks.len() && marks[i] {
        lemma_run_end(marks, i + 1);
    }
}

/// From frame `i` on, the loudest frame of each run of marks.
pub open spec fn loudest_frames(marks: Seq<bool>, level: Seq<F32>, i: int) -> Seq<int>
    decreases marks.len() - i,
    when 0 <= i
    via loudest_frames_decreases
{
    if i >= marks.len() {
        seq![]
    } else if marks[i] {
        let end = run_end(marks, i);
        seq![climb(level, i, end).0] + loudest_frames(marks, level, end)
    } else {
        loudest_frames(marks, level, i + 1)
    }
}

#[via_fn]
proof fn loudest_frames_decreases(marks: Seq<bool>, level: Seq<F32>, i: int) {
    if i < marks.len() {
        lemma_run_end(marks, i);
    }
}

/// The frames from `i` on in which the number of the beat changes.
pub open spec fn number_changes(numbers: Seq<u32>, i: int) -> Seq<int>
    decreases numbers.len() - i,
{
    if i >= numbers.len() {
        seq![]
    } else if numbers[i] != numbers[i - 1] {
        seq![i] + number_changes(numbers, i + 1)
    } else {
        number_changes(numbers, i + 1)
    }
}

/// The time of a frame, in seconds.
pub open spec fn time_of(frame: int) -> F32 {
    F32::nearest_to(frame).over(F32::nearest_to(FPS as int))
}

/// The beat in frame `f` of a part that begins with frame `first`.
pub open spec fn beat_at(numbers: Seq<u32>, first: int, f: int) -> BeatEvent {
    BeatEvent {
        time: time_of(f + first),
        beat_number: numbers[f],
    }
}

/// The frames of the beats on a course.
pub open spec fn beat_frames_on(
    hmm: Hmm,
    path: Seq<u32>,
    act: Seq<(F32, F32)>,
    correct: bool,
) -> Seq<int> {
    if correct {
        loudest_frames(beat_marks(hmm, path), levels(act), 0)
    } else {
        number_changes(beat_numbers(hmm, path), 1)
    }
}

/// The beats on a course: where corrected, the loudest frame of each stretch
/// that expects a beat, and otherwise each frame that begins another beat.
pub open spec fn beats_on(
    hmm: Hmm,
    path: Seq<u32>,
    act: Seq<(F32, F32)>,
    first: int,
    correct: bool,
) -> Seq<BeatEvent> {
    beat_frames_on(hmm, path, act, correct).map_values(
        |f: int| beat_at(beat_numbers(hmm, path), first, f),
    )
}

proof fn lemma_climb_bounds(s: Seq<F32>, lo: int, hi: int)
    requires
        lo < hi,
    ensures
        lo <= climb(s, lo, hi).0 < hi,
    decreases hi - lo,
{
    reveal_with_fuel(climb, 2);
    if hi - lo > 1 {
        lemma_climb_bounds(s, lo, hi - 1);
    }
}

/// The corrected beats lie in frames that expect one, each later than the one
/// before.
pub proof fn lemma_loudest_frames_ascend(marks: Seq<bool>, level: Seq<F32>, i: int)
    requires
        0 <= i <= marks.len(),
    ensures
        forall|k: int|
            0 <= k < loudest_frames(marks, level, i).len() ==> {
                let f = #[trigger] loudest_frames(marks, level, i)[k];
                i <= f < marks.len() && marks[f]
            },
        forall|j: int, k: int|
            0 <= j < k < loudest_frames(marks, level, i).len() ==> loudest_frames(
                marks,
                level,
                i,
            )[j] < loudest_frames(marks, level, i)[k],
    decreases marks.len() - i,
{
    if i < marks.len() {
        lemma_run_end(marks, i);
        if marks[i] {
            let end = run_end(marks, i);
            lemma_climb_bounds(level, i, end);
            lemma_loudest_frames_ascend(marks, level, end);
            let rest = loudest_frames(marks, level, end);
            let all = loudest_frames(marks, level, i);
            assert(all == seq![climb(level, i, end).0] + rest);
            assert forall|k: int| 0 <= k < all.len() implies {
                let f = #[trigger] all[k];
                i <= f < marks.len() && marks[f]
            } by {
                if k > 0 {
                    assert(all[k] == rest[k - 1]);
                }
            }
            assert forall|j: int, k: int| 0 <= j < k < all.len() implies all[j] < all[k] by {
                assert(all[k] == rest[k - 1]);
                if j > 0 {
                    assert(all[j] == rest[j - 1]);
                }
            }
        } else {
            lemma_loudest_frames_ascend(marks, level, i + 1);
            let rest = loudest_frames(marks, level, i + 1);
            assert(loudest_frames(marks, level, i) == rest);
            assert forall|k: int| 0 <= k < rest.len() implies {
                let f = #[trigger] rest[k];
                i <= f < marks.len() && marks[f]
            } by {}
        }
    }
}

/// The loudest frame of each run of marks.
fn pick_loudest(marks: &Vec<bool>, level: &Vec<F32>) -> (r: Vec<usize>)
    requires
        marks@.len() <= level@.len(),
    ensures
        r@.map_values(|f: usize| f as int) == loudest_frames(marks@, level@, 0),
        forall|k: int| 0 <= k < r@.len() ==> #[trigger] r@[k] < marks@.len(),
{
    let mut out: Vec<usize> = Vec::new();
    let ghost all = loudest_frames(marks@, level@, 0);
    let mut i: usize = 0;
    assert(out@.map_values(|f: usize| f as int) + loudest_frames(marks@, level@, 0) =~= all);
    while i < marks.len()
        invariant
            i <= marks@.len() <= level@.len(),
            out@.map_values(|f: usize| f as int) + loudest_frames(marks@, level@, i as int) == all,
            forall|k: int| 0 <= k < out@.len() ==> #[trigger] out@[k] < marks@.len(),
        decreases marks@.len() - i,
    {
        if marks[i] {
            let mut end: usize = i;
            while end < marks.len() && marks[end]
                invariant
                    i <= end <= marks@.len(),
                    i < end || marks@[i as int],
                    run_end(marks@, i as int) == run_end(marks@, end as int),
                decreases marks@.len() - end,
            {
                end = end + 1;
            }
            proof {
                lemma_run_end(marks@, i as int);
            }
            let (best, _value) = first_largest(level.as_slice(), i, end);
            let ghost before = out@.map_values(|f: usize| f as int);
            let ghost rest = loudest_frames(marks@, level@, end as int);
            out.push(best);
            proof {
                assert(loudest_frames(marks@, level@, i as int) == seq![best as int] + rest);
                assert(out@.map_values(|f: usize| f as int) =~= before.push(best as int));
                assert(before.push(best as int) + rest =~= before + (seq![best as int] + rest));
            }
            i = end;
        } else {
            i = i + 1;
        }
    }
    assert(out@.map_values(|f: usize| f as int) =~= all);
    out
}

/// The frames in which the number of the beat changes.
fn pick_changes(numbers: &Vec<u32>) -> (r: Vec<usize>)
    ensures
        r@.map_values(|f: usize| f as int) == number_changes(numbers@, 1),
        forall|k: int| 0 <= k < r@.len() ==> #[trigger] r@[k] < numbers@.len(),
{
    let mut out: Vec<usize> = Vec::new();
    let ghost all = number_changes(numbers@, 1);
    assert(out@.map_values(|f: usize| f as int) + number_changes(numbers@, 1) =~= all);
    let mut i: usize = 1;
    while i < numbers.len()
        invariant
            1 <= i,
            out@.map_values(|f: usize| f as int) + number_changes(numbers@, i as int) == all,
            forall|k: int| 0 <= k < out@.len() ==> #[trigger] out@[k] < numbers@.len(),
        decreases numbers@.len() - i,
    {
        if numbers[i] != numbers[i - 1] {
            let ghost before = out@.map_values(|f: usize| f as int);
            let ghost rest = number_changes(numbers@, i + 1);
            out.push(i);
            proof {
                assert(out@.map_values(|f: usize| f as int) =~= before.push(i as int));
                assert(before.push(i as int) + rest =~= before + (seq![i as int] + rest));
            }
        }
        i = i + 1;
    }
    assert(out@.map_values(|f: usize| f as int) =~= all);
    out
}

/// The beats on a course through the frames of a part that begins with frame
/// `first`.
pub fn extract_beats(
    hmm: &Hmm,
    path: &Vec<u32>,
    activations: &Vec<(F32, F32)>,
    first: usize,
    correct: bool,
) -> (r: Vec<BeatEvent>)
    requires
        hmm.wf(),
        forall|i: int|
            0 <= i < path@.len() ==> #[trigger] path@[i] < hmm.state_space.num_states,
        correct ==> path@.len() <= activations@.len(),
        first + path@.len() <= usize::MAX,
    ensures
        r@ == beats_on(*hmm, path@, activations@, first as int, correct),
{
    let n: usize = path.len();
    let mut numbers: Vec<u32> = Vec::new();
    let mut marks: Vec<bool> = Vec::new();
    let mut i: usize = 0;
    while i < n
        invariant
            hmm.wf(),
            forall|k: int|
                0 <= k < path@.len() ==> #[trigger] path@[k] < hmm.state_space.num_states,
            i <= n == path@.len(),
            numbers@ == beat_numbers(*hmm, path@).take(i as int),
            marks@ == beat_marks(*hmm, path@).take(i as int),
        decreases n - i,
    {
        let s: usize = path[i] as usize;
        let whole: u32 = hmm.state_space.state_positions[s].floor().to_u32();
        numbers.push(if whole < u32::MAX {
            whole + 1
        } else {
            whole
        });
        marks.push(hmm.om.pointers[s] >= 1);
        assert(beat_numbers(*hmm, path@).take(i + 1) =~= beat_numbers(*hmm, path@).take(
            i as int,
        ).push(numbers@.last()));
        assert(beat_marks(*hmm, path@).take(i + 1) =~= beat_marks(*hmm, path@).take(i as int).push(
            marks@.last(),
        ));
        i = i + 1;
    }
    assert(numbers@ =~= beat_numbers(*hmm, path@));
    assert(marks@ =~= beat_marks(*hmm, path@));
    let frames: Vec<usize> = if correct {
        let mut level: Vec<F32> = Vec::new();
        let mut j: usize = 0;
        while j < activations.len()
            invariant
                j <= activations@.len(),
                level@ == levels(activations@).take(j as int),
            decreases activations@.len() - j,
        {
            level.push(activations[j].0.max(activations[j].1));
            assert(levels(activations@).take(j + 1) =~= levels(activations@).take(j as int).push(
                level@.last(),
            ));
            j = j + 1;
        }
        assert(level@ =~= levels(activations@));
        pick_loudest(&marks, &level)
    } else {
        pick_changes(&numbers)
    };
    let ghost which = beat_frames_on(*hmm, path@, activations@, correct);
    let mut out: Vec<BeatEvent> = Vec::new();
    let mut k: usize = 0;
    while k < frames.len()
        invariant
            k <= frames@.len(),
            first + path@.len() <= usize::MAX,
            numbers@.len() == path@.len(),
            numbers@ == beat_numbers(*hmm, path@),
            forall|j: int| 0 <= j < frames@.len() ==> #[trigger] frames@[j] < numbers@.len(),
            frames@.map_values(|f: usize| f as int) == which,
            which == beat_frames_on(*hmm, path@, activations@, correct),
            out@ == beats_on(*hmm, path@, activations@, first as int, correct).take(k as int),
        decreases frames@.len() - k,
    {
        let f: usize = frames[k];
        assert(which[k as int] == f);
        out.push(
            BeatEvent {
                time: F32::of_usize(f + first).over(F32::whole(FPS)),
                beat_number: numbers[f],
            },
        );
        assert(beats_on(*hmm, path@, activations@, first as int, correct).take(k + 1) =~= beats_on(
            *hmm,
            path@,
            activations@,
            first as int,
            correct,
        ).take(k as int).push(out@.last()));
        k = k + 1;
    }
    assert(frames@.len() == which.len());
    assert(out@ =~= beats_on(*hmm, path@, activations@, first as int, correct));
    out
}

/// The beat and downbeat activations of each frame.
pub open spec fn paired(beat: Seq<F32>, downbeat: Seq<F32>) -> Seq<(F32, F32)> {
    Seq::new(beat.len(), |i: int| (beat[i], downbeat[i]))
}

/// The part of the activations in which something is heard.
pub open spec fn heard(beat: Seq<F32>, downbeat: Seq<F32>) -> (Seq<(F32, F32)>, int) {
    active_part(paired(beat, downbeat), F32::ratio(5, 100))
}

/// The part of the activations in which something is heard, and where it
/// begins.
pub fn heard_part(beat: &[F32], downbeat: &[F32]) -> (r: (Vec<(F32, F32)>, usize))
    requires
        beat@.len() == downbeat@.len(),
    ensures
        (r.0@, r.1 as int) == heard(beat@, downbeat@),
        r.1 + r.0@.len() <= beat@.len(),
{
    let mut act: Vec<(F32, F32)> = Vec::new();
    let mut i: usize = 0;
    while i < beat.len()
        invariant
            i <= beat@.len() == downbeat@.len(),
            act@ == paired(beat@, downbeat@).take(i as int),
        decreases beat@.len() - i,
    {
        act.push((beat[i], downbeat[i]));
        assert(paired(beat@, downbeat@).take(i + 1) =~= paired(beat@, downbeat@).take(
            i as int,
        ).push(act@.last()));
        i = i + 1;
    }
    assert(act@ =~= paired(beat@, downbeat@));
    threshold_activations(&act, F32::ratio(5, 100))
}

/// Which of the first `n` models finds the most likely course, how likely it
/// is, and the course.
pub open spec fn best_course(hmms: Seq<Hmm>, d: Seq<Vec<Densities>>, n: int) -> (
    int,
    F64,
    Seq<u32>,
)
    decreases n,
{
    if n <= 0 {
        (0, F64::minus_infinity(), seq![])
    } else {
        let before = best_course(hmms, d, n - 1);
        let (path, log) = hmms[n - 1].decoded(d[n - 1]@);
        if log.gt(before.1) {
            (n - 1, log, path)
        } else {
            before
        }
    }
}

/// The beats of the most likely course that one of the models finds.
pub open spec fn beats_heard(
    beat: Seq<F32>,
    downbeat: Seq<F32>,
    hmms: Seq<Hmm>,
    d: Seq<Vec<Densities>>,
) -> Seq<BeatEvent> {
    let (part, first) = heard(beat, downbeat);
    let (i, _log, path) = best_course(hmms, d, hmms.len() as int);
    if part.len() == 0 || path.len() == 0 {
        seq![]
    } else {
        beats_on(hmms[i], path, part, first, true)
    }
}

/// The beats in the activations. Each model comes with the logarithms of its
/// densities for the part in which something is heard.
pub fn track_beats(
    beat: &[F32],
    downbeat: &[F32],
    hmms: &Vec<Hmm>,
    densities: &Vec<Vec<Densities>>,
) -> (r: Vec<BeatEvent>)
    requires
        beat@.len() == downbeat@.len(),
        hmms@.len() == densities@.len(),
        forall|i: int| 0 <= i < hmms@.len() ==> (#[trigger] hmms@[i]).wf(),
        forall|i: int|
            0 <= i < hmms@.len() ==> (#[trigger] densities@[i])@.len() == heard(
                beat@,
                downbeat@,
            ).0.len(),
    ensures
        r@ == beats_heard(beat@, downbeat@, hmms@, densities@),
{
    let frames: usize = beat.len();
    let (part, first) = heard_part(beat, downbeat);
    if part.len() == 0 {
        return Vec::new();
    }
    assert(first + part@.len() <= frames);
    let mut best_path: Vec<u32> = Vec::new();
    let mut best_log: F64 = F64::minus_infinity();
    let mut best: usize = 0;
    let mut i: usize = 0;
    while i < hmms.len()
        invariant
            i <= hmms@.len() == densities@.len(),
            forall|k: int| 0 <= k < hmms@.len() ==> (#[trigger] hmms@[k]).wf(),
            forall|k: int|
                0 <= k < hmms@.len() ==> (#[trigger] densities@[k])@.len() == part@.len(),
            (best as int, best_log, best_path@) == best_course(hmms@, densities@, i as int),
            best_path@.len() > 0 ==> best < hmms@.len() && best_path@.len() == part@.len(),
            best_path@.len() > 0 ==> forall|k: int|
                0 <= k < best_path@.len() ==> #[trigger] best_path@[k]
                    < hmms@[best as int].state_space.num_states,
        decreases hmms@.len() - i,
    {
        assert(hmms@[i as int].wf());
        assert(densities@[i as int]@.len() == part@.len());
        let (path, log) = hmms[i].viterbi(&densities[i]);
        if log.gt(best_log) {
            best_log = log;
            best_path = path;
            best = i;
        }
        i = i + 1;
    }
    if best_path.len() == 0 {
        return Vec::new();
    }
    assert(hmms@[best as int].wf());
    extract_beats(&hmms[best], &best_path, &part, first, true)
}

/// What the course found so far is among the first `n` models.
proof fn lemma_best_course(hmms: Seq<Hmm>, d: Seq<Vec<Densities>>, n: int)
    requires
        0 <= n <= hmms.len(),
    ensures
        ({
            let (i, log, path) = best_course(hmms, d, n);
            &&& !log.not_a_number()
            &&& forall|k: int|
                0 <= k < n ==> !log.less((#[trigger] hmms[k]).decoded(d[k]@).1)
            &&& log == F64::minus_infinity() ==> path.len() == 0
            &&& log != F64::minus_infinity() ==> 0 <= i < n && (path, log)
                == hmms[i].decoded(d[i]@) && forall|k: int|
                0 <= k < i ==> (#[trigger] hmms[k]).decoded(d[k]@).1.not_a_number()
                    || hmms[k].decoded(d[k]@).1.less(log)
        }),
    decreases n,
{
    if n == 0 {
        lemma_bottom_double(F64::minus_infinity(), F64::zero());
        reveal(F64::not_a_number);
    } else {
        lemma_best_course(hmms, d, n - 1);
        let before = best_course(hmms, d, n - 1).1;
        let log = hmms[n - 1].decoded(d[n - 1]@).1;
        lemma_bottom_double(before, F64::zero());
        lemma_bottom_double(log, F64::zero());
        lemma_order_double(F64::minus_infinity(), before, log);
        assert forall|k: int| 0 <= k < n implies !best_course(hmms, d, n).1.less(
            (#[trigger] hmms[k]).decoded(d[k]@).1,
        ) by {
            let other = hmms[k].decoded(d[k]@).1;
            lemma_bottom_double(other, F64::zero());
            lemma_order_double(before, log, other);
            lemma_order_double(log, other, log);
        }
        assert forall|k: int| 0 <= k < n - 1 && before.less(log) implies (#[trigger] hmms[k]).decoded(
            d[k]@,
        ).1.not_a_number() || hmms[k].decoded(d[k]@).1.less(log) by {
            let other = hmms[k].decoded(d[k]@).1;
            lemma_order_double(other, before, log);
            lemma_order_double(before, other, log);
        }
    }
}

/// The most likely course wins: the beats are those of a model whose course no
/// other model's course exceeds in likelihood, the first of equals. Where no
/// model finds a course that can be, there are no beats.
pub proof fn lemma_likeliest_model_wins(
    beat: Seq<F32>,
    downbeat: Seq<F32>,
    hmms: Seq<Hmm>,
    d: Seq<Vec<Densities>>,
)
    ensures
        ({
            let r = beats_heard(beat, downbeat, hmms, d);
            let (part, first) = heard(beat, downbeat);
            ||| r.len() == 0 && (part.len() == 0 || forall|k: int|
                0 <= k < hmms.len() ==> !F64::minus_infinity().less(
                    (#[trigger] hmms[k]).decoded(d[k]@).1,
                ))
            ||| exists|i: int|
                {
                    let likely = (#[trigger] hmms[i]).decoded(d[i]@).1;
                    let path = hmms[i].decoded(d[i]@).0;
                    &&& 0 <= i < hmms.len()
                    &&& F64::minus_infinity().less(likely)
                    &&& forall|k: int|
                        0 <= k < hmms.len() ==> !likely.less((#[trigger] hmms[k]).decoded(d[k]@).1)
                    &&& forall|k: int|
                        0 <= k < i ==> (#[trigger] hmms[k]).decoded(d[k]@).1.not_a_number()
                            || hmms[k].decoded(d[k]@).1.less(likely)
                    &&& r == if path.len() == 0 {
                        seq![]
                    } else {
                        beats_on(hmms[i], path, part, first, true)
                    }
                }
        }),
{
    let n = hmms.len() as int;
    lemma_best_course(hmms, d, n);
    let (i, log, path) = best_course(hmms, d, n);
    if log == F64::minus_infinity() {
    } else if heard(beat, downbeat).0.len() > 0 {
        lemma_bottom_double(log, F64::zero());
        assert(hmms[i].decoded(d[i]@) == (path, log));
    }
}

/// The gap is one between beats at a tempo that is looked for.
pub open spec fn plausible(gap: F32) -> bool {
    gap.gt(F32::ratio(60, MAX_BPM)) && gap.lt(F32::ratio(60, MIN_BPM))
}

/// The gap behind beat `i`.
pub open spec fn gap_at(beats: Seq<BeatEvent>, i: int) -> F32 {
    beats[i + 1].time.minus(beats[i].time)
}

/// The bit patterns of the plausible ones of the first `n` gaps.
pub open spec fn plausible_gaps(beats: Seq<BeatEvent>, n: int) -> Seq<usize>
    decreases n,
{
    if n <= 0 {
        seq![]
    } else if plausible(gap_at(beats, n - 1)) {
        plausible_gaps(beats, n - 1).push(gap_at(beats, n - 1).to_bits() as usize)
    } else {
        plausible_gaps(beats, n - 1)
    }
}

/// The index of the first of the beats from `i` on that is a downbeat, or the
/// number of beats.
pub open spec fn first_downbeat(beats: Seq<BeatEvent>, i: int) -> int
    decreases beats.len() - i,
{
    if i >= beats.len() || beats[i].beat_number == 1 {
        i
    } else {
        first_downbeat(beats, i + 1)
    }
}

/// The tempo of the beats, from the median of their plausible gaps, and when
/// the first bar begins.
pub open spec fn tempo_of_beats(beats: Seq<BeatEvent>) -> Option<(F32, F32)> {
    let gaps = sorted(plausible_gaps(beats, beats.len() - 1));
    if beats.len() < 4 || gaps.len() < 3 {
        None
    } else {
        let median = F32::from_bits(gaps[gaps.len() as int / 2] as u32);
        let down = first_downbeat(beats, 0);
        Some(
            (
                snapped(F32::nearest_to(60).over(median)),
                if down < beats.len() {
                    beats[down].time
                } else {
                    beats[0].time
                },
            ),
        )
    }
}

/// The bit patterns of plausible gaps are ordered as the gaps are: sorting the
/// one sorts the other.
pub proof fn lemma_gaps_sort_by_bits(a: F32, b: F32)
    requires
        plausible(a),
        plausible(b),
    ensures
        a.less(b) <==> a.to_bits() < b.to_bits(),
{
    lemma_ratio_not_negative(60, MAX_BPM as int);
    lemma_order_single(F32::zero(), F32::ratio(60, MAX_BPM), a);
    lemma_order_single(F32::zero(), F32::ratio(60, MAX_BPM), b);
    lemma_positive_bits(a, b);
}

/// Every plausible gap that is kept is one.
proof fn lemma_gaps_are_plausible(beats: Seq<BeatEvent>, n: int)
    ensures
        forall|x: usize| #[trigger]
            plausible_gaps(beats, n).contains(x) ==> plausible(F32::from_bits(x as u32)),
    decreases n,
{
    let gaps = plausible_gaps(beats, n);
    if n > 0 {
        lemma_gaps_are_plausible(beats, n - 1);
        let before = plausible_gaps(beats, n - 1);
        assert forall|x: usize| #[trigger] gaps.contains(x) implies plausible(
            F32::from_bits(x as u32),
        ) by {
            let k = choose|k: int| 0 <= k < gaps.len() && gaps[k] == x;
            if k < before.len() {
                assert(before[k] == x);
                assert(before.contains(x));
            } else {
                let g = gap_at(beats, n - 1);
                assert(x == g.to_bits() as usize);
                assert(F32::from_bits(x as u32) == g);
            }
        }
    }
}

/// The tempo of beats is one that is looked for: at least 55 and at most 215 beats to
/// the minute.
pub proof fn lemma_tempo_in_range(beats: Seq<BeatEvent>)
    ensures
        tempo_of_beats(beats) matches Some((bpm, _)) ==> F32::nearest_to(MIN_BPM as int).at_most(
            bpm,
        ) && bpm.at_most(F32::nearest_to(MAX_BPM as int)) && bpm.finite() && !bpm.le(F32::zero()),
{
    if tempo_of_beats(beats) is Some {
        let found = plausible_gaps(beats, beats.len() - 1);
        let gaps = sorted(found);
        let bits = gaps[gaps.len() as int / 2];
        let median = F32::from_bits(bits as u32);
        lemma_sorted_holds(found);
        lemma_gaps_are_plausible(beats, beats.len() - 1);
        assert(found.contains(bits));
        lemma_times_into(median, 60, MIN_BPM as int, MAX_BPM as int);
        let bpm = F32::nearest_to(60).over(median);
        lemma_round_in_range(bpm, MIN_BPM as int, MAX_BPM as int);
        lemma_positive_and_finite(snapped(bpm), MIN_BPM as int, MAX_BPM as int);
    }
}

/// The frames of two activations are quiet: nothing is heard in them.
pub open spec fn quiet(beat: Seq<F32>, downbeat: Seq<F32>) -> bool {
    beat.len() == downbeat.len() && forall|i: int|
        0 <= i < beat.len() ==> !active(
            (#[trigger] beat[i], downbeat[i]),
            F32::ratio(5, 100),
        )
}

/// Frames without any activation are quiet.
pub proof fn lemma_zeros_are_quiet(n: nat)
    ensures
        quiet(Seq::new(n, |i: int| F32::zero()), Seq::new(n, |i: int| F32::zero())),
{
    let t = F32::ratio(5, 100);
    lemma_ratio_is_positive(5, 100);
    lemma_order_single(F32::zero(), t, t);
    lemma_order_single(t, F32::zero(), t);
    assert(!active((F32::zero(), F32::zero()), t));
}

/// The first active frame behind quiet ones.
proof fn lemma_first_behind(act: Seq<(F32, F32)>, threshold: F32, i: int, k: int)
    requires
        0 <= i <= k <= act.len(),
        forall|j: int| i <= j < k ==> !active(#[trigger] act[j], threshold),
    ensures
        first_active(act, threshold, i) == first_active(act, threshold, k),
    decreases k - i,
{
    if i < k {
        lemma_first_behind(act, threshold, i + 1, k);
    }
}

/// The last active frame before quiet ones.
proof fn lemma_last_before(act: Seq<(F32, F32)>, threshold: F32, n: int, k: int)
    requires
        0 <= k <= n <= act.len(),
        forall|j: int| k <= j < n ==> !active(#[trigger] act[j], threshold),
    ensures
        last_active(act, threshold, n) == last_active(act, threshold, k),
    decreases n - k,
{
    if k < n {
        lemma_last_before(act, threshold, n - 1, k);
    }
}

/// The first active frame of a part of the frames that `wide` holds from `k` on.
proof fn lemma_first_within(
    act: Seq<(F32, F32)>,
    wide: Seq<(F32, F32)>,
    threshold: F32,
    k: int,
    i: int,
)
    requires
        0 <= i <= act.len(),
        0 <= k,
        k + act.len() <= wide.len(),
        forall|j: int| 0 <= j < act.len() ==> #[trigger] act[j] == wide[k + j],
        first_active(act, threshold, i) < act.len(),
    ensures
        first_active(wide, threshold, k + i) == k + first_active(act, threshold, i),
    decreases act.len() - i,
{
    if i < act.len() {
        assert(act[i] == wide[k + i]);
        if !active(act[i], threshold) {
            lemma_first_within(act, wide, threshold, k, i + 1);
        }
    }
}

/// The last active frame of a part of the frames that `wide` holds from `k` on.
proof fn lemma_last_within(
    act: Seq<(F32, F32)>,
    wide: Seq<(F32, F32)>,
    threshold: F32,
    k: int,
    n: int,
)
    requires
        0 <= n <= act.len(),
        0 <= k,
        k + act.len() <= wide.len(),
        forall|j: int| 0 <= j < act.len() ==> #[trigger] act[j] == wide[k + j],
        last_active(act, threshold, n) > 0,
    ensures
        last_active(wide, threshold, k + n) == k + last_active(act, threshold, n),
    decreases n,
{
    if n > 0 {
        assert(act[n - 1] == wide[k + (n - 1)]);
        if !active(act[n - 1], threshold) {
            lemma_last_within(act, wide, threshold, k, n - 1);
        }
    }
}

/// Quiet frames around others move the part in which something is heard, and change
/// nothing else of it.
proof fn lemma_quiet_moves_part(
    head: Seq<(F32, F32)>,
    act: Seq<(F32, F32)>,
    tail: Seq<(F32, F32)>,
    threshold: F32,
)
    requires
        forall|j: int| 0 <= j < head.len() ==> !active(#[trigger] head[j], threshold),
        forall|j: int| 0 <= j < tail.len() ==> !active(#[trigger] tail[j], threshold),
    ensures
        ({
            let (part, first) = active_part(act, threshold);
            let (wide_part, wide_first) = active_part(head + act + tail, threshold);
            &&& wide_part == part
            &&& part.len() > 0 ==> wide_first == first + head.len()
            &&& part.len() == 0 ==> wide_first == 0
        }),
{
    let wide = head + act + tail;
    let k = head.len() as int;
    let n = act.len() as int;
    let first = first_active(act, threshold, 0);
    let last = last_active(act, threshold, n);
    lemma_first_active(act, threshold, 0);
    lemma_last_active(act, threshold, n);
    assert forall|j: int| 0 <= j < k implies !active(#[trigger] wide[j], threshold) by {
        assert(wide[j] == head[j]);
    }
    assert forall|j: int| 0 <= j < n implies #[trigger] act[j] == wide[k + j] by {}
    assert forall|j: int| k + n <= j < wide.len() implies !active(#[trigger] wide[j], threshold) by {
        assert(wide[j] == tail[j - k - n]);
    }
    lemma_first_behind(wide, threshold, 0, k);
    lemma_last_before(wide, threshold, wide.len() as int, k + n);
    if first < last {
        lemma_first_within(act, wide, threshold, k, 0);
        lemma_last_within(act, wide, threshold, k, n);
        assert(wide.subrange(k + first, k + last) =~= act.subrange(first, last));
    } else {
        // Nothing is active at all.
        assert forall|j: int| 0 <= j < wide.len() implies !active(#[trigger] wide[j], threshold) by {
            if k <= j < k + n {
                assert(wide[j] == act[j - k]);
                if active(act[j - k], threshold) {
                    assert(first <= j - k < last);
                }
            }
        }
        lemma_first_active(wide, threshold, 0);
        lemma_last_active(wide, threshold, wide.len() as int);
    }
}

/// Silence before a track only moves its beats, by as many frames as it lasts, and
/// silence behind it changes nothing: the models see the same part, and each beat
/// keeps its number.
pub proof fn lemma_silence_only_shifts(
    head: (Seq<F32>, Seq<F32>),
    beat: Seq<F32>,
    downbeat: Seq<F32>,
    tail: (Seq<F32>, Seq<F32>),
    hmms: Seq<Hmm>,
    d: Seq<Vec<Densities>>,
)
    requires
        beat.len() == downbeat.len(),
        quiet(head.0, head.1),
        quiet(tail.0, tail.1),
    ensures
        ({
            let before = beats_heard(beat, downbeat, hmms, d);
            let after = beats_heard(
                head.0 + beat + tail.0,
                head.1 + downbeat + tail.1,
                hmms,
                d,
            );
            &&& heard(head.0 + beat + tail.0, head.1 + downbeat + tail.1).0 == heard(
                beat,
                downbeat,
            ).0
            &&& after.len() == before.len()
            &&& forall|i: int|
                0 <= i < before.len() ==> {
                    &&& (#[trigger] after[i]).beat_number == before[i].beat_number
                    &&& exists|frame: int|
                        before[i].time == #[trigger] time_of(frame) && after[i].time == time_of(
                            frame + head.0.len(),
                        )
                }
        }),
{
    let t = F32::ratio(5, 100);
    let a = paired(head.0, head.1);
    let b = paired(beat, downbeat);
    let c = paired(tail.0, tail.1);
    assert(paired(head.0 + beat + tail.0, head.1 + downbeat + tail.1) =~= a + b + c);
    assert forall|j: int| 0 <= j < a.len() implies !active(#[trigger] a[j], t) by {
        assert(!active((head.0[j], head.1[j]), t));
    }
    assert forall|j: int| 0 <= j < c.len() implies !active(#[trigger] c[j], t) by {
        assert(!active((tail.0[j], tail.1[j]), t));
    }
    lemma_quiet_moves_part(a, b, c, t);
    let before = beats_heard(beat, downbeat, hmms, d);
    let after = beats_heard(head.0 + beat + tail.0, head.1 + downbeat + tail.1, hmms, d);
    let (part, first) = heard(beat, downbeat);
    let (which, _log, path) = best_course(hmms, d, hmms.len() as int);
    if part.len() > 0 && path.len() > 0 {
        let frames = beat_frames_on(hmms[which], path, part, true);
        assert(before.len() == frames.len() && after.len() == frames.len());
        assert forall|i: int| 0 <= i < before.len() implies (#[trigger] after[i]).beat_number
            == before[i].beat_number && exists|frame: int|
            before[i].time == #[trigger] time_of(frame) && after[i].time == time_of(
                frame + head.0.len(),
            ) by {
            let frame = frames[i] + first;
            assert(before[i].time == time_of(frame));
            assert(frames[i] + (first + head.0.len()) == frame + head.0.len());
        }
    }
}

/// Beats per minute and the time of the first bar in seconds, from at least
/// four beats with at least three plausible gaps.
pub fn bpm_offset_from_beats(beats: &Vec<BeatEvent>) -> (r: Option<(F32, F32)>)
    ensures
        r == tempo_of_beats(beats@),
{
    let n: usize = beats.len();
    if n < 4 {
        return None;
    }
    let shortest: F32 = F32::ratio(60, MAX_BPM);
    let longest: F32 = F32::ratio(60, MIN_BPM);
    let mut gaps: Vec<usize> = Vec::new();
    let mut i: usize = 0;
    while i < n - 1
        invariant
            4 <= n == beats@.len(),
            i <= n - 1,
            shortest == F32::ratio(60, MAX_BPM),
            longest == F32::ratio(60, MIN_BPM),
            gaps@ == plausible_gaps(beats@, i as int),
        decreases n - i,
    {
        let gap: F32 = beats[i + 1].time.minus(beats[i].time);
        if gap.gt(shortest) && gap.lt(longest) {
            gaps.push(gap.to_bits() as usize);
        }
        i = i + 1;
    }
    let ghost unsorted = gaps@;
    sort_ascending(&mut gaps);
    proof {
        unsorted.to_multiset_ensures();
        gaps@.to_multiset_ensures();
    }
    if gaps.len() < 3 {
        return None;
    }
    let median: F32 = F32::from_bits(gaps[gaps.len() / 2] as u32);
    let bpm: F32 = snap_tempo(F32::whole(60).over(median));
    let mut down: usize = 0;
    while down < n && beats[down].beat_number != 1
        invariant
            n == beats@.len(),
            down <= n,
            first_downbeat(beats@, 0) == first_downbeat(beats@, down as int),
        decreases n - down,
    {
        down = down + 1;
    }
    let offset: F32 = if down < n {
        beats[down].time
    } else {
        beats[0].time
    };
    Some((bpm, offset))
}

proof fn lemma_first_downbeat(beats: Seq<BeatEvent>, i: int)
    requires
        0 <= i <= beats.len(),
    ensures
        ({
            let d = first_downbeat(beats, i);
            &&& i <= d <= beats.len()
            &&& d < beats.len() ==> beats[d].beat_number == 1
            &&& forall|k: int| i <= k < d ==> (#[trigger] beats[k]).beat_number != 1
        }),
    decreases beats.len() - i,
{
    if i < beats.len() && beats[i].beat_number != 1 {
        lemma_first_downbeat(beats, i + 1);
    }
}

/// The first bar begins at the first beat with number one, and at the first beat where
/// none has it.
pub proof fn lemma_first_bar(beats: Seq<BeatEvent>, d: int)
    requires
        0 <= d < beats.len(),
        tempo_of_beats(beats) is Some,
    ensures
        beats[d].beat_number == 1 && (forall|k: int|
            0 <= k < d ==> (#[trigger] beats[k]).beat_number != 1) ==> tempo_of_beats(beats).unwrap().1
            == beats[d].time,
        (forall|k: int| 0 <= k < beats.len() ==> (#[trigger] beats[k]).beat_number != 1)
            ==> tempo_of_beats(beats).unwrap().1 == beats[0].time,
{
    lemma_first_downbeat(beats, 0);
    let f = first_downbeat(beats, 0);
    if f < d {
        assert(beats[f].beat_number == 1);
    }
    if d < f {
        assert(beats[d].beat_number != 1);
    }
    if f < beats.len() {
        assert(beats[f].beat_number == 1);
    }
}

/// The tempo is that of the median gap: no more than half of the plausible gaps are
/// shorter, no more than half are longer, and the tempo before it is snapped is, but for
/// rounding, sixty over that gap. Gives the gap and that tempo.
pub proof fn lemma_tempo_is_of_median(beats: Seq<BeatEvent>) -> (r: (F32, F32))
    requires
        tempo_of_beats(beats) is Some,
    ensures
        ({
            let (gap, bpm) = r;
            let gaps = plausible_gaps(beats, beats.len() - 1);
            let n = gaps.len() as int;
            &&& plausible(gap)
            &&& gaps.contains(gap.to_bits() as usize)
            &&& forall|k: int| 0 <= k <= n / 2 ==> #[trigger] sorted(gaps)[k] <= gap.to_bits()
            &&& forall|k: int| n / 2 <= k < n ==> #[trigger] sorted(gaps)[k] >= gap.to_bits()
            &&& tempo_of_beats(beats).unwrap().0 == snapped(bpm)
            &&& gap.finite() && gap.value() > 0
            &&& close(bpm.value(), (60 * unit()) * unit(), gap.value())
        }),
{
    let found = plausible_gaps(beats, beats.len() - 1);
    let gaps = sorted(found);
    let bits = gaps[gaps.len() as int / 2];
    let gap = F32::from_bits(bits as u32);
    let u = unit();
    lemma_unit();
    lemma_sorted_holds(found);
    lemma_gaps_are_plausible(beats, beats.len() - 1);
    assert(found.contains(bits));
    lemma_ratio_close(60, MAX_BPM);
    lemma_ratio_close(60, MIN_BPM);
    lemma_between_is_finite(F32::ratio(60, MAX_BPM), gap, F32::ratio(60, MIN_BPM));
    lemma_by_value_single(F32::ratio(60, MAX_BPM), gap);
    lemma_whole_single(60);
    let sixty = F32::nearest_to(60);
    assert(4 * gap.value() >= u);
    assert(-((0x100 * u) * gap.value()) <= sixty.value() * u <= (0x100 * u) * gap.value()) by (
        nonlinear_arith)
        requires
            sixty.value() == 60 * u,
            4 * gap.value() >= u,
            u > 0,
    ;
    lemma_over_close(sixty, gap, 0x100);
    let j = choose|j: int| 0 <= j < found.len() && found[j] == bits;
    lemma_gaps_fit(beats, beats.len() - 1, j);
    assert(gap.to_bits() as usize == bits);
    assert forall|k: int| 0 <= k <= gaps.len() as int / 2 implies #[trigger] sorted(found)[k]
        <= gap.to_bits() by {
        assert(gaps[k] <= gaps[gaps.len() as int / 2]);
    }
    assert forall|k: int| gaps.len() as int / 2 <= k < gaps.len() implies #[trigger] sorted(
        found,
    )[k] >= gap.to_bits() by {
        assert(gaps[gaps.len() as int / 2] <= gaps[k]);
    }
    (gap, sixty.over(gap))
}

proof fn lemma_gaps_fit(beats: Seq<BeatEvent>, n: int, j: int)
    requires
        0 <= j < plausible_gaps(beats, n).len(),
    ensures
        plausible_gaps(beats, n)[j] <= u32::MAX,
    decreases n,
{
    if n > 0 && j < plausible_gaps(beats, n - 1).len() {
        lemma_gaps_fit(beats, n - 1, j);
    }
}

proof fn lemma_between_is_finite(a: F32, x: F32, b: F32)
    requires
        a.finite(),
        b.finite(),
        a.less(x),
        x.less(b),
    ensures
        x.finite(),
{
    let f = crate::float::single::single_format();
    crate::float::exact::lemma_formats();
    reveal(F32::finite);
    reveal(F32::less);
    reveal(crate::float::arith::less);
    crate::float::order::lemma_value_bounds(f, a.datum());
    crate::float::order::lemma_value_bounds(f, b.datum());
    crate::float::order::lemma_value_bounds(f, x.datum());
}

/// Fifty frames last a second: but for rounding, the time of a frame is its number over
/// fifty.
pub proof fn lemma_frames_last(frame: int)
    requires
        0 <= frame < 0x100_0000,
    ensures
        close(time_of(frame).value(), frame * unit(), 50),
{
    lemma_ratio_close(frame as i32, FPS as i32);
}

/// A beat is the loudest of its stretch: of the frames around it that expect a beat
/// without a break, none is louder, and none before it is as loud.
pub proof fn lemma_beat_is_loudest(marks: Seq<bool>, level: Seq<F32>, i: int, k: int, g: int)
    requires
        0 <= i <= marks.len() <= level.len(),
        i == 0 || i == marks.len() || !marks[i - 1],
        forall|j: int| 0 <= j < level.len() ==> (#[trigger] level[j]).finite(),
        0 <= k < loudest_frames(marks, level, i).len(),
        0 <= g < marks.len(),
        ({
            let f = loudest_frames(marks, level, i)[k];
            forall|j: int| g <= j <= f || f <= j <= g ==> #[trigger] marks[j]
        }),
    ensures
        ({
            let f = loudest_frames(marks, level, i)[k];
            &&& i <= f < marks.len()
            &&& level[g].value() <= level[f].value()
            &&& g < f ==> level[g].value() < level[f].value()
        }),
    decreases marks.len() - i,
{
    let all = loudest_frames(marks, level, i);
    if i < marks.len() {
        if marks[i] {
            let end = run_end(marks, i);
            let rest = loudest_frames(marks, level, end);
            lemma_run_end(marks, i);
            lemma_run_stops(marks, i);
            if k == 0 {
                lemma_climb_is_first_largest(level, i, end);
                let f = climb(level, i, end).0;
                assert(all[0] == f);
                if g < i {
                    assert(marks[i - 1]);
                }
                if g >= end {
                    assert(marks[end]);
                }
            } else {
                assert(all[k] == rest[k - 1]);
                if end < marks.len() {
                    assert(!marks[end]);
                    assert(rest == loudest_frames(marks, level, end + 1));
                    lemma_beat_is_loudest(marks, level, end + 1, k - 1, g);
                }
            }
        } else {
            lemma_beat_is_loudest(marks, level, i + 1, k, g);
        }
    }
}

proof fn lemma_run_stops(marks: Seq<bool>, i: int)
    requires
        0 <= i <= marks.len(),
    ensures
        run_end(marks, i) < marks.len() ==> !marks[run_end(marks, i)],
    decreases marks.len() - i,
{
    if i < marks.len() && marks[i] {
        lemma_run_stops(marks, i + 1);
    }
}

/// A place in the bar lies in the beat whose number is one more than the whole beats
/// before it.
pub proof fn lemma_beats_count_from_one(position: F64, k: int)
    requires
        position.finite(),
        0 <= k < 0x1000_0000,
        k * double::unit() <= position.value() < (k + 1) * double::unit(),
    ensures
        number_at(position) == k + 1,
{
    double::lemma_floor_of(position, k, 0, u32::MAX as int);
}

} // verus!

use enfuse::beatnet::dbn::bar::{
    bar_transitions, change_exponents, exponential_transition, threshold, Edges,
};
use enfuse::beatnet::dbn::beats::{
    bpm_offset_from_beats, extract_beats, heard_part, threshold_activations, track_beats,
    BeatEvent,
};
use enfuse::beatnet::dbn::hmm::{
    bar_transition_model, max_interval, min_interval, Hmm, TRANSITION_LAMBDA,
};
use enfuse::beatnet::dbn::models::{bar_beats, bar_space, tempo_changes, BEAT_STATES};
use enfuse::beatnet::dbn::observation::{Densities, ObservationModel};
use enfuse::beatnet::dbn::space::{next_points, BarStateSpace, BeatStateSpace, PointRequest};
use enfuse::beatnet::dbn::spacing::{settle_intervals, spacing_exponents};
use enfuse::beatnet::dbn::transition::TransitionModel;
use enfuse::beatnet::detect::{detect_bpm, tempo_of_activations};
use enfuse::beatnet::features::FRAME_SIZE;
use enfuse::beatnet::infer::Activations;
use enfuse::float::double::F64;
use enfuse::float::single::F32;

const FPS: f64 = 50.0;

fn f(x: f32) -> F32 {
    F32::from_bits(x.to_bits())
}

fn n(x: F32) -> f32 {
    f32::from_bits(x.to_bits())
}

fn d(x: f64) -> F64 {
    F64::from_bits(x.to_bits())
}

fn m(x: F64) -> f64 {
    f64::from_bits(x.to_bits())
}

fn all(v: &[f32]) -> Vec<F32> {
    v.iter().map(|&x| f(x)).collect()
}

fn logs(probabilities: &[F64]) -> Vec<F64> {
    probabilities.iter().map(|&p| d(m(p).ln())).collect()
}

fn model_of(space: BarStateSpace) -> Hmm {
    let mut weights = change_exponents(&space, F64::whole(TRANSITION_LAMBDA));
    for beat in weights.iter_mut() {
        for row in beat.iter_mut() {
            for w in row.iter_mut() {
                *w = d(m(*w).exp());
            }
        }
    }
    let edges = bar_transitions(&space, &weights);
    let log_probs = logs(&edges.probabilities);
    let count = d((space.num_states as f64).ln());
    Hmm::new(space, &edges, &log_probs, count).expect("connected")
}

fn model(num_beats: usize) -> Hmm {
    model_of(bar_space(num_beats).expect("countable"))
}

fn log_densities(hmm: &Hmm, part: &Vec<(F32, F32)>) -> Vec<Densities> {
    hmm.om
        .densities(part)
        .iter()
        .map(|x| Densities {
            rest: d(m(x.rest).ln()),
            beat: d(m(x.beat).ln()),
            downbeat: d(m(x.downbeat).ln()),
        })
        .collect()
}

fn track(beat: &[f32], down: &[f32]) -> Vec<BeatEvent> {
    let (beat, down) = (all(beat), all(down));
    let (part, _) = heard_part(&beat, &down);
    let hmms = vec![model(2), model(3), model(4)];
    let densities: Vec<Vec<Densities>> = hmms.iter().map(|h| log_densities(h, &part)).collect();
    track_beats(&beat, &down, &hmms, &densities)
}

#[test]
fn dbn_recovers_synthetic_pulse_tempo() {
    let bpm = 128.0f32;
    let seconds = 20.0f32;
    let count = (seconds * FPS as f32) as usize;
    let period = FPS as f32 * 60.0 / bpm;
    let mut beat = vec![0.01f32; count];
    let mut down = vec![0.01f32; count];
    let mut t = period * 0.3;
    let mut k = 0usize;
    while (t as usize) + 1 < count {
        let i = t.round() as usize;
        beat[i] = 0.85;
        if k % 4 == 0 {
            down[i] = 0.9;
            beat[i] = 0.2;
        }
        k += 1;
        t += period;
    }

    let events = track(&beat, &down);
    assert!(events.len() > 8, "too few beats: {}", events.len());
    let (got, _) = bpm_offset_from_beats(&events).expect("bpm");
    let got = n(got);
    assert!((got - bpm).abs() < 3.0, "expected ~{bpm}, got {got}");
}

#[test]
fn bar_state_space_sizes() {
    let (low, high) = (d(60.0 * FPS / 215.0), d(60.0 * FPS / 55.0));
    let ss = BarStateSpace::new(4, low, high, Some(60), &vec![]).unwrap();
    assert!(ss.num_states > 100);
    assert_eq!(ss.first_states.len(), 4);
}

#[test]
fn intervals_of_the_default_tempi() {
    assert_eq!(m(min_interval()), 60.0 * 50.0 / 215.0);
    assert_eq!(m(max_interval()), 60.0 * 50.0 / 55.0);
    let beat = BeatStateSpace::new(min_interval(), max_interval(), Some(60), &vec![]).unwrap();
    // 14 to 55 frames.
    assert_eq!(beat.num_states, (14..=55).sum::<usize>());
    assert_eq!(beat.first_states.len(), 42);
}

#[test]
fn states_of_a_beat_follow_one_another() {
    let beat = BeatStateSpace::new(d(2.0), d(4.0), None, &vec![]).unwrap();
    assert_eq!(beat.num_states, 9);
    assert_eq!(beat.first_states, vec![0, 2, 5]);
    assert_eq!(beat.last_states, vec![1, 4, 8]);
    assert_eq!(beat.state_intervals, vec![2, 2, 3, 3, 3, 4, 4, 4, 4]);
    let positions: Vec<f64> = beat.state_positions.iter().map(|&p| m(p)).collect();
    assert_eq!(positions, vec![0.0, 0.5, 0.0, 1.0 / 3.0, 2.0 / 3.0, 0.0, 0.25, 0.5, 0.75]);
    let bar = BarStateSpace::from_intervals(2, &vec![2, 3]);
    assert_eq!(bar.num_states, 10);
    assert_eq!(bar.first_states, vec![vec![0, 2], vec![5, 7]]);
    assert_eq!(bar.last_states, vec![vec![1, 4], vec![6, 9]]);
    assert_eq!(m(bar.state_positions[6]), 1.5);
}

/// The points that are asked for, until the intervals are settled.
fn all_points(low: f64, high: f64, wanted: usize) -> Vec<Vec<F64>> {
    let mut points: Vec<Vec<F64>> = Vec::new();
    while let Some(request) = next_points(d(low), d(high), Some(wanted), &points) {
        points.push(match request {
            PointRequest::Root(x) => vec![d(m(x).sqrt())],
            PointRequest::Powers(count) => {
                assert_eq!(count, wanted + points.len());
                spacing_exponents(d(low.log2()), d(high.log2()), count)
                    .iter()
                    .map(|&e| d(2f64.powf(m(e))))
                    .collect()
            }
        });
    }
    points
}

/// The intervals of a space, by the usual arithmetic.
fn native_intervals(low: f64, high: f64, n: usize) -> Vec<i32> {
    let mut num_log = n;
    loop {
        let mut vals: Vec<i32> = Vec::new();
        if num_log == 1 {
            vals.push((low * high).sqrt().round() as i32);
        } else {
            for i in 0..num_log {
                let t = i as f64 / (num_log - 1) as f64;
                let log_v = low.log2() + t * (high.log2() - low.log2());
                vals.push(2f64.powf(log_v).round() as i32);
            }
        }
        vals.sort_unstable();
        vals.dedup();
        if vals.len() >= n {
            return vals;
        }
        num_log += 1;
    }
}

#[test]
fn fewer_intervals_are_spaced_in_logarithm() {
    for (low, high) in [(2.0, 40.0), (13.95, 54.5), (1.0, 9.0), (5.0, 6.0)] {
        for n in 0..=10usize {
            let whole = (high as f64).round() as usize - (low as f64).round() as usize + 1;
            if n >= whole {
                assert!(next_points(d(low), d(high), Some(n), &vec![]).is_none());
                continue;
            }
            let points = all_points(low, high, n);
            let want = native_intervals(low, high, n);
            let space = BeatStateSpace::new(d(low), d(high), Some(n), &points).unwrap();
            assert_eq!(space.num_states, want.iter().sum::<i32>() as usize);
            let got: Vec<i32> =
                space.first_states.iter().map(|&s| space.state_intervals[s]).collect();
            assert_eq!(got, want, "{low} {high} {n}");
            let bar = BarStateSpace::new(3, d(low), d(high), Some(n), &points).unwrap();
            assert_eq!(bar.num_states, 3 * space.num_states);
        }
    }
    // 2 to 40 frames in three: the ends, and the one in the middle of their logarithms.
    assert_eq!(native_intervals(2.0, 40.0, 3), vec![2, 9, 40]);
    assert_eq!(next_points(d(4.0), d(16.0), Some(1), &vec![]), Some(PointRequest::Root(d(64.0))));
    assert_eq!(next_points(d(4.0), d(16.0), Some(3), &vec![]), Some(PointRequest::Powers(3)));
    assert!(next_points(d(4.0), d(16.0), None, &vec![]).is_none());
    // Without points nothing is settled.
    assert!(BeatStateSpace::new(d(2.0), d(40.0), Some(3), &vec![]).is_none());
}

#[test]
fn an_interval_without_a_frame_has_no_states() {
    let beat = BeatStateSpace::new(d(0.0), d(4.0), None, &vec![]).unwrap();
    assert_eq!(beat.num_states, 10);
    assert_eq!(beat.first_states, vec![0, 0, 1, 3, 6]);
    assert_eq!(beat.last_states, vec![usize::MAX, 0, 2, 5, 9]);
    let bar = BarStateSpace::new(1, d(0.0), d(4.0), None, &vec![]).unwrap();
    assert_eq!(bar.last_states, vec![vec![usize::MAX, 0, 2, 5, 9]]);
    assert_eq!(BarStateSpace::new(3, d(0.0), d(0.0), None, &vec![]).unwrap().num_states, 0);
    // In a later beat its last state cannot be counted.
    assert!(BarStateSpace::new(4, d(0.0), d(4.0), None, &vec![]).is_none());
    let between = BeatStateSpace::from_intervals(&vec![2, 0, 3]);
    assert_eq!(between.last_states, vec![1, 1, 4]);
}

#[test]
fn unusable_intervals_have_no_space() {
    assert!(BeatStateSpace::new(d(-1.0), d(4.0), None, &vec![]).is_none());
    assert!(BeatStateSpace::new(d(1.0), d(1e9), None, &vec![]).is_none());
    assert_eq!(BeatStateSpace::new(d(5.0), d(4.0), None, &vec![]).unwrap().num_states, 0);
    assert!(BarStateSpace::new(4, d(-1.0), d(4.0), None, &vec![]).is_none());
    assert!(BarStateSpace::new(usize::MAX, d(2.0), d(4.0), None, &vec![]).is_none());
}

#[test]
fn bars_are_looked_for_at_every_tempo() {
    assert_eq!(bar_beats(), vec![2, 3, 4]);
    for num_beats in bar_beats() {
        let space = bar_space(num_beats).unwrap();
        assert_eq!(space.num_states, num_beats * BEAT_STATES);
        assert_eq!(space.state_intervals[0], 14);
        assert_eq!(space.state_intervals[space.num_states - 1], 55);
        let changes = tempo_changes(&space);
        assert_eq!(m(changes[0][0][1]), -100.0 * (15.0f64 / 14.0 - 1.0).abs());
    }
}

#[test]
fn silence_only_shifts_the_beats() {
    let act = pulses(25, 16);
    let plain = track(
        &act.beat.iter().map(|&x| n(x)).collect::<Vec<f32>>(),
        &act.downbeat.iter().map(|&x| n(x)).collect::<Vec<f32>>(),
    );
    let around = |v: &Vec<F32>| -> Vec<f32> {
        let mut out = vec![0.0f32; 37];
        out.extend(v.iter().map(|&x| n(x)));
        out.extend(vec![0.0f32; 51]);
        out
    };
    let moved = track(&around(&act.beat), &around(&act.downbeat));
    assert!(plain.len() > 8);
    assert_eq!(moved.len(), plain.len());
    for (a, b) in plain.iter().zip(moved.iter()) {
        assert_eq!(a.beat_number, b.beat_number);
        let frame = (n(a.time) * 50.0).round();
        assert_eq!(n(b.time), (frame + 37.0) / 50.0);
    }
}

#[test]
fn evenly_spaced_in_logarithm() {
    let exponents = spacing_exponents(d(4.0f64.log2()), d(16.0f64.log2()), 3);
    let powers: Vec<F64> = exponents.iter().map(|&e| d(2f64.powf(m(e)))).collect();
    assert_eq!(settle_intervals(&powers, 3), Some(vec![4, 8, 16]));
    assert_eq!(settle_intervals(&powers, 4), None);
    let close: Vec<F64> = [2.0, 2.2, 1.9, 3.0].iter().map(|&x| d(x)).collect();
    assert_eq!(settle_intervals(&close, 2), Some(vec![2, 3]));
    assert_eq!(settle_intervals(&close, 3), None);
}

#[test]
fn transitions_are_gathered_by_destination() {
    let dest = vec![2u32, 0, 2, 1, 2];
    let prev = vec![1u32, 2, 0, 0, 1];
    let weights: Vec<F64> = (0..5).map(|i| d(i as f64)).collect();
    let model = TransitionModel::make_sparse(&dest, &prev, &weights);
    assert_eq!(model.num_states(), 3);
    assert_eq!(model.pointers, vec![0, 1, 2, 5]);
    assert_eq!(model.states, vec![2, 0, 0, 1, 1]);
    let order: Vec<f64> = model.log_probabilities.iter().map(|&x| m(x)).collect();
    // Transition 0 and transition 4 are equal and keep their order.
    assert_eq!(order, vec![1.0, 3.0, 2.0, 0.0, 4.0]);
    let empty = TransitionModel::make_sparse(&vec![], &vec![], &vec![]);
    assert_eq!(empty.pointers, vec![0, 0]);
}

#[test]
fn tempo_changes_share_their_row() {
    assert_eq!(m(threshold()), f64::EPSILON);
    let weights = vec![vec![d(1.0), d(0.25), d(1e-20)], vec![d(0.0), d(0.0), d(0.0)]];
    let shares = exponential_transition(&weights);
    let got: Vec<f64> = shares[0].iter().map(|&x| m(x)).collect();
    assert_eq!(got, vec![0.8, 0.2, 0.0]);
    assert!(shares[1].iter().all(|&x| m(x) == 0.0));
}

#[test]
fn bar_of_two_beats_has_its_transitions() {
    let space = BarStateSpace::from_intervals(2, &vec![2, 3]);
    let exponents = change_exponents(&space, d(100.0));
    assert_eq!(m(exponents[0][0][1]), -100.0 * (3.0f64 / 2.0 - 1.0).abs());
    let weights = vec![
        vec![vec![d(1.0), d(0.0)], vec![d(0.0), d(1.0)]],
        vec![vec![d(1.0), d(1.0)], vec![d(0.0), d(1.0)]],
    ];
    let edges = bar_transitions(&space, &weights);
    // On through the intervals, then around to the first beat, then to the second.
    assert_eq!(edges.dest, vec![1, 3, 4, 6, 8, 9, 0, 2, 5, 7, 7]);
    assert_eq!(edges.prev, vec![0, 2, 3, 5, 7, 8, 6, 9, 1, 1, 4]);
    let p: Vec<f64> = edges.probabilities.iter().map(|&x| m(x)).collect();
    assert_eq!(p, vec![1.0, 1.0, 1.0, 1.0, 1.0, 1.0, 1.0, 1.0, 0.5, 0.5, 1.0]);
    for (&a, &b) in edges.dest.iter().zip(&edges.prev) {
        assert!((a as usize) < space.num_states && (b as usize) < space.num_states);
    }
    assert!(bar_transition_model(&space, &edges, &logs(&edges.probabilities)).is_some());
    let broken = Edges { dest: vec![10], prev: vec![9], probabilities: vec![d(1.0)] };
    assert!(bar_transition_model(&space, &broken, &vec![d(0.0)]).is_none());
    let short = Edges { dest: vec![1], prev: vec![0], probabilities: vec![d(1.0)] };
    assert!(bar_transition_model(&space, &short, &vec![d(0.0)]).is_none());
}

#[test]
fn states_expect_beats_behind_their_start() {
    let space = BarStateSpace::from_intervals(2, &vec![32]);
    let om = ObservationModel::downbeat(&space, 16);
    assert_eq!(m(om.observation_lambda), 16.0);
    for (s, &p) in om.pointers.iter().enumerate() {
        let want = match s {
            0 | 1 => 2,
            32 | 33 => 1,
            _ => 0,
        };
        assert_eq!(p, want, "state {s}");
    }
    let frame = om.densities(&vec![(f(0.25), f(0.5))])[0];
    assert_eq!(m(frame.beat), 0.25);
    assert_eq!(m(frame.downbeat), 0.5);
    assert_eq!(m(frame.rest), 0.25 / 15.0);
    let edge = om.densities(&vec![(f(2.0), f(0.0))])[0];
    assert_eq!(m(edge.beat), (1.0f32 - 1e-6f32) as f64);
    assert_eq!(m(edge.downbeat), 1e-6f32 as f64);
    assert_eq!(m(edge.rest), 1e-6 / 15.0);
}

/// Every course through the states, and what it is worth.
fn best_by_trying(hmm: &Hmm, dens: &[Densities]) -> f64 {
    fn go(hmm: &Hmm, dens: &[Densities], t: usize, state: usize, value: f64, best: &mut f64) {
        if t == dens.len() {
            *best = best.max(value);
            return;
        }
        for next in 0..hmm.tm.num_states() {
            for k in hmm.tm.pointers[next] as usize..hmm.tm.pointers[next + 1] as usize {
                if hmm.tm.states[k] as usize == state {
                    let q = m(dens[t].at(hmm.om.pointers[next]));
                    let v = value + m(hmm.tm.log_probabilities[k]) + q;
                    go(hmm, dens, t + 1, next, v, best);
                }
            }
        }
    }
    let mut best = f64::NEG_INFINITY;
    for s in 0..hmm.tm.num_states() {
        go(hmm, dens, 0, s, m(hmm.initial_log[s]), &mut best);
    }
    best
}

#[test]
fn decoded_course_follows_transitions_and_is_best() {
    let hmm = model_of(BarStateSpace::from_intervals(2, &vec![2, 3]));
    let part: Vec<(F32, F32)> = [(0.1, 0.8), (0.05, 0.1), (0.7, 0.1), (0.2, 0.1), (0.1, 0.6)]
        .iter()
        .map(|&(a, b)| (f(a), f(b)))
        .collect();
    let dens = log_densities(&hmm, &part);
    let (path, value) = hmm.viterbi(&dens);
    assert_eq!(path.len(), 5);
    for w in path.windows(2) {
        let into = w[1] as usize;
        let from = &hmm.tm.states
            [hmm.tm.pointers[into] as usize..hmm.tm.pointers[into + 1] as usize];
        assert!(from.contains(&w[0]));
    }
    assert_eq!(m(value), best_by_trying(&hmm, &dens));
    let (none, worth) = hmm.viterbi(&vec![]);
    assert!(none.is_empty());
    assert_eq!(m(worth), f64::NEG_INFINITY);
}

#[test]
fn only_the_active_part_counts() {
    let act: Vec<(F32, F32)> = [(0.0, 0.0), (0.5, 0.0), (0.0, 0.0), (0.0, 0.05), (0.01, 0.0)]
        .iter()
        .map(|&(a, b)| (f(a), f(b)))
        .collect();
    let (part, first) = threshold_activations(&act, f(0.05));
    assert_eq!((part.len(), first), (3, 1));
    assert_eq!(n(part[2].1), 0.05);
    let (part, first) = threshold_activations(&act, f(0.9));
    assert_eq!((part.len(), first), (0, 0));
    assert!(track(&[0.0; 8], &[0.0; 8]).is_empty());
}

#[test]
fn beats_are_the_loudest_frames_of_their_stretch() {
    let hmm = model_of(BarStateSpace::from_intervals(2, &vec![32]));
    // From the end of the first beat into the second, and into the next bar.
    let path: Vec<u32> = vec![31, 32, 33, 34, 63, 0, 1, 2];
    let act: Vec<(F32, F32)> = [0.1, 0.3, 0.9, 0.2, 0.1, 0.4, 0.2, 0.1]
        .iter()
        .map(|&a| (f(a), f(0.0)))
        .collect();
    let beats = extract_beats(&hmm, &path, &act, 10, true);
    let got: Vec<(f32, u32)> = beats.iter().map(|b| (n(b.time), b.beat_number)).collect();
    assert_eq!(got, vec![(12.0 / 50.0, 2), (15.0 / 50.0, 1)]);
    let beats = extract_beats(&hmm, &path, &act, 10, false);
    let got: Vec<(f32, u32)> = beats.iter().map(|b| (n(b.time), b.beat_number)).collect();
    assert_eq!(got, vec![(11.0 / 50.0, 2), (15.0 / 50.0, 1)]);
    assert!(extract_beats(&hmm, &vec![], &act, 0, true).is_empty());
}

#[test]
fn tempo_of_beats_is_that_of_the_median_gap() {
    let beat = |t: f32, number: u32| BeatEvent { time: f(t), beat_number: number };
    let even = vec![beat(0.5, 4), beat(1.0, 1), beat(1.5, 2), beat(2.0, 3), beat(4.0, 1)];
    let (bpm, offset) = bpm_offset_from_beats(&even).unwrap();
    assert_eq!((n(bpm), n(offset)), (120.0, 1.0));
    let no_downbeat = vec![beat(0.5, 2), beat(1.0, 3), beat(1.5, 4), beat(2.0, 2)];
    assert_eq!(n(bpm_offset_from_beats(&no_downbeat).unwrap().1), 0.5);
    assert!(bpm_offset_from_beats(&even[..3].to_vec()).is_none());
    let far = vec![beat(0.0, 1), beat(3.0, 2), beat(6.0, 3), beat(9.0, 4)];
    assert!(bpm_offset_from_beats(&far).is_none());
    let mixed = vec![beat(0.0, 1), beat(0.6, 2), beat(1.0, 3), beat(1.5, 4), beat(2.0, 1)];
    // Gaps of about 0.6, 0.4, 0.5 and 0.5: the upper median of four is the larger 0.5.
    assert_eq!(n(bpm_offset_from_beats(&mixed).unwrap().0), 120.0);
}

/// Pulses every `period` frames, the first of four stronger as a downbeat.
fn pulses(period: usize, count: usize) -> Activations {
    let frames = period * count;
    let mut beat = vec![f(0.01); frames];
    let mut downbeat = vec![f(0.01); frames];
    for k in 0..count {
        let at = 3 + period * k;
        beat[at] = f(if k % 4 == 0 { 0.2 } else { 0.85 });
        if k % 4 == 0 {
            downbeat[at] = f(0.9);
        }
    }
    Activations { beat, downbeat, non_beat: vec![f(0.0); frames] }
}

fn weighed(act: &Activations, hmms: &[Hmm]) -> Vec<Vec<Densities>> {
    let (part, _) = heard_part(&act.beat, &act.downbeat);
    hmms.iter().map(|h| log_densities(h, &part)).collect()
}

#[test]
fn tempo_of_a_track_needs_activations_and_length() {
    let act = pulses(25, 32);
    let hmms = vec![model(2), model(3), model(4)];
    let densities = weighed(&act, &hmms);
    let found = tempo_of_activations(&act, &hmms, &densities).expect("tempo");
    assert_eq!(n(found.bpm), 120.0);
    assert_eq!(n(found.beat_offset), 3.0 / 50.0);
    let long = vec![f(0.0); 2 * FRAME_SIZE];
    let again = detect_bpm(&long, 44100, 1, Some(act.clone()), &hmms, &densities).expect("tempo");
    assert_eq!(again.bpm, found.bpm);
    assert_eq!(again.beat_offset, found.beat_offset);
    assert!(detect_bpm(&long[..10], 44100, 1, Some(act), &hmms, &densities).is_none());
    assert!(detect_bpm(&long, 44100, 1, None, &hmms, &densities).is_none());
    let silent =
        Activations { beat: vec![f(0.0); 9], downbeat: vec![f(0.0); 9], non_beat: vec![] };
    let densities = weighed(&silent, &hmms);
    assert!(tempo_of_activations(&silent, &hmms, &densities).is_none());
}

#[test]
fn fast_tracks_keep_their_tempo() {
    // Beats 14 frames apart: more than 200 to the minute.
    let act = pulses(14, 60);
    let hmms = vec![model(2), model(3), model(4)];
    let densities = weighed(&act, &hmms);
    assert_eq!(n(tempo_of_activations(&act, &hmms, &densities).expect("tempo").bpm), 214.0);
}

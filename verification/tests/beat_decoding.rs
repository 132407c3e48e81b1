use enfuse::beatnet::decode::{
    autocorr_at, decode_bpm_offset, estimate_tempo, median_ioi_lag, min_peak_distance, peak_pick,
    refine_offset_with_downbeat, snap_tempo, track_beats_dp,
};
use enfuse::beatnet::features::fps;
use enfuse::beatnet::infer::Activations;
use enfuse::float::single::F32;

const FPS: f32 = 50.0;

fn f(x: f32) -> F32 {
    F32::from_bits(x.to_bits())
}

fn n(x: F32) -> f32 {
    f32::from_bits(x.to_bits())
}

fn all(v: &[f32]) -> Vec<F32> {
    v.iter().map(|&x| f(x)).collect()
}

fn pulse_train(bpm: f32, seconds: f32, fps: f32) -> Vec<f32> {
    let n = (seconds * fps) as usize;
    let period = fps * 60.0 / bpm;
    let mut env = vec![0.02f32; n];
    let mut t = period * 0.25;
    while (t as usize) < n {
        let i = t.round() as usize;
        if i < n {
            env[i] = 1.0;
            if i + 1 < n {
                env[i + 1] = 0.4;
            }
        }
        t += period;
    }
    env
}

fn assert_tempo_near(bpm_true: f32, tol: f32) {
    let env = pulse_train(bpm_true, 16.0, FPS);
    let (bpm, _) = estimate_tempo(&all(&env), f(FPS)).expect("tempo");
    let bpm = n(bpm);
    assert!((bpm - bpm_true).abs() < tol, "expected ~{bpm_true} BPM, got {bpm}");
}

#[test]
fn estimate_tempo_across_range() {
    for &bpm in &[90.0, 100.0, 120.0, 128.0, 140.0, 160.0, 174.0] {
        assert_tempo_near(bpm, 4.0);
    }
}

#[test]
fn estimate_tempo_not_pulled_to_130_from_160() {
    let mut env = pulse_train(160.0, 16.0, FPS);
    let distractor = pulse_train(130.0, 16.0, FPS);
    for (e, d) in env.iter_mut().zip(distractor.iter()) {
        *e += d * 0.35;
    }
    let (bpm, _) = estimate_tempo(&all(&env), f(FPS)).expect("tempo");
    let bpm = n(bpm);
    assert!((bpm - 160.0).abs() < 5.0, "expected ~160, got {bpm}");
}

#[test]
fn estimate_tempo_not_locked_to_70_or_140() {
    assert_tempo_near(110.0, 5.0);
    assert_tempo_near(95.0, 5.0);
}

#[test]
fn frame_rate_and_shortest_distance() {
    assert_eq!(n(fps()), 50.0);
    assert_eq!(min_peak_distance(), 15);
}

#[test]
fn no_tempo_without_enough_frames() {
    assert!(estimate_tempo(&[], f(FPS)).is_none());
    assert!(estimate_tempo(&all(&[1.0, 0.0]), f(FPS)).is_none());
}

#[test]
fn autocorrelation_of_known_values() {
    let s = all(&[1.0, 2.0, 3.0, 4.0]);
    // (1*3 + 2*4) / 2
    assert_eq!(n(autocorr_at(&s, 2)), 5.5);
    assert_eq!(n(autocorr_at(&s, 0)), 7.5);
    assert_eq!(n(autocorr_at(&s, 4)), 0.0);
}

#[test]
fn peaks_are_apart_and_the_higher_one_stays() {
    let mut env = vec![0.0f32; 80];
    env[10] = 1.0;
    env[18] = 2.0;
    env[40] = 1.5;
    env[60] = 1.5;
    env[66] = 1.5;
    assert_eq!(peak_pick(&all(&env)), vec![18, 40, 60]);
    for w in peak_pick(&all(&env)).windows(2) {
        assert!(w[1] - w[0] >= min_peak_distance());
    }
}

#[test]
fn median_interval_of_regular_peaks() {
    let mut env = vec![0.0f32; 200];
    for k in 0..8 {
        env[5 + 24 * k] = 1.0;
    }
    assert_eq!(median_ioi_lag(&all(&env), 15, 60), Some(24));
    assert_eq!(median_ioi_lag(&all(&env), 30, 60), None);
}

#[test]
fn beats_of_a_pulse_train_are_followed() {
    let mut act = vec![0.01f32; 120];
    for k in 0..5 {
        act[3 + 25 * k] = 1.0;
    }
    assert_eq!(track_beats_dp(&all(&act), f(25.0)), vec![3, 28, 53, 78, 103]);
    assert_eq!(track_beats_dp(&[], f(25.0)), Vec::<usize>::new());
}

/// The score of a list of beats, added from the first one on.
fn chain_score(act: &[f32], period: f32, beats: &[usize]) -> f32 {
    let mut score = act[beats[0]];
    for w in beats.windows(2) {
        let step = (w[1] - w[0]) as f32;
        let penalty = -((step - period).abs() / period) * 0.1;
        score = score + act[w[1]] + penalty;
    }
    score
}

#[test]
fn no_other_chain_of_beats_scores_higher_in_a_regular_train() {
    let mut act = vec![0.0f32; 60];
    for k in 0..3 {
        act[2 + 20 * k] = 1.0;
    }
    let best = track_beats_dp(&all(&act), f(20.0));
    assert_eq!(best, vec![2, 22, 42]);
    let top = chain_score(&act, 20.0, &best);
    for other in [vec![3, 22, 42], vec![2, 23, 43], vec![2, 21, 41]] {
        assert!(chain_score(&act, 20.0, &other) <= top);
    }
}

#[test]
fn downbeat_nearby_moves_the_offset() {
    let mut downbeat = vec![0.0f32; 100];
    downbeat[30] = 0.9;
    let act = Activations {
        beat: all(&vec![0.1f32; 100]),
        downbeat: all(&downbeat),
        non_beat: all(&vec![0.0f32; 100]),
    };
    let moved = refine_offset_with_downbeat(&act, f(0.5), f(20.0));
    assert_eq!(n(moved), 0.6);
    let none = Activations { beat: Vec::new(), downbeat: Vec::new(), non_beat: Vec::new() };
    assert_eq!(n(refine_offset_with_downbeat(&none, f(0.5), f(20.0))), 0.5);
}

#[test]
fn only_the_frames_searched_need_a_beat() {
    let mut downbeat = vec![f(0.0); 100];
    downbeat[28] = f(1.0);
    downbeat[90] = f(5.0);
    let act = Activations { beat: vec![f(0.0); 40], downbeat, non_beat: vec![] };
    // Frames 15 to 35 around frame 25.
    assert_eq!(n(refine_offset_with_downbeat(&act, f(0.5), f(20.0))), 28.0 / 50.0);
}

#[test]
fn tempo_snaps_within_three_tenths() {
    assert_eq!(n(snap_tempo(f(127.8))), 128.0);
    assert_eq!(n(snap_tempo(f(127.5))), 127.5);
    assert_eq!(n(snap_tempo(f(128.2))), 128.0);
}

#[test]
fn activations_decode_to_tempo_and_offset() {
    let beat = pulse_train(120.0, 16.0, FPS);
    let mut downbeat = vec![0.01f32; beat.len()];
    for k in 0..8 {
        let i = 6 + 100 * k;
        if i < downbeat.len() {
            downbeat[i] = 0.9;
        }
    }
    let act = Activations {
        beat: all(&beat),
        downbeat: all(&downbeat),
        non_beat: all(&vec![0.0f32; beat.len()]),
    };
    let (bpm, offset) = decode_bpm_offset(&act).expect("decoded");
    assert_eq!(n(bpm), 120.0);
    assert_eq!(n(offset), 6.0 / 50.0);
    let none = Activations { beat: Vec::new(), downbeat: Vec::new(), non_beat: Vec::new() };
    assert!(none.is_empty());
    assert!(decode_bpm_offset(&none).is_none());
}

use enfuse::analysis::spectrum::compute_spectrum;
use enfuse::analysis::tempo::{
    calculate_onset_envelope, compressed, detect_bpm, detect_bpm_spectral_flux, detect_first_beat,
    estimate_tempo, onset_frame_count, padded_len, power_spectrum, BpmResult, LagSearch, HOP_SIZE,
    NUM_BINS,
};
use enfuse::analysis::waveform::{
    analyze_waveform, dominant_pitch, pitch_color, window_count, FFT_WINDOW, STRIDE,
};
use enfuse::float::single::F32;
use rustfft::num_complex::Complex;
use rustfft::FftPlanner;

fn f(x: f32) -> F32 {
    F32::from_bits(x.to_bits())
}

fn n(x: F32) -> f32 {
    f32::from_bits(x.to_bits())
}

fn all(v: &[f32]) -> Vec<F32> {
    v.iter().map(|&x| f(x)).collect()
}

fn back(v: &[F32]) -> Vec<f32> {
    v.iter().map(|&x| n(x)).collect()
}

fn rgb(c: [F32; 3]) -> [f32; 3] {
    [n(c[0]), n(c[1]), n(c[2])]
}

#[test]
fn low_pitches_are_red_and_high_ones_violet() {
    assert_eq!(rgb(pitch_color(f(5.91))), [1.0, 0.0, 0.0]);
    assert_eq!(rgb(pitch_color(f(0.0))), [1.0, 0.0, 0.0]);
    // Beyond the range: three quarters round.
    assert_eq!(rgb(pitch_color(f(20.0))), [0.5, 0.0, 1.0]);
    for step in 0..80 {
        let log = 5.5 + step as f32 * 0.1;
        let normalized = (log - 5.91f32) / (12.29f32 - 5.91f32);
        let hue = normalized.clamp(0.0, 1.0) * 270.0;
        let h = hue / 60.0;
        let i = h.floor() as i32;
        let t = h - i as f32;
        let q = 1.0 - t;
        let want = match i % 6 {
            0 => [1.0, t, 0.0],
            1 => [q, 1.0, 0.0],
            2 => [0.0, 1.0, t],
            3 => [0.0, q, 1.0],
            4 => [t, 0.0, 1.0],
            _ => [1.0, 0.0, q],
        };
        assert_eq!(rgb(pitch_color(f(log))), want);
    }
}

#[test]
fn pitch_is_the_mean_around_the_peak() {
    let mut magnitudes = vec![f(0.0); FFT_WINDOW / 2];
    magnitudes[100] = f(4.0);
    magnitudes[110] = f(1.0);
    let width = 44100.0f32 / 4096.0;
    let want = (100.0 * width * 4.0 + 110.0 * width * 1.0) / 5.0;
    assert_eq!(n(dominant_pitch(&magnitudes, 44100)), want);
    // Silence falls back to the lowest bin, which is below 60 hertz.
    assert_eq!(n(dominant_pitch(&vec![f(0.0); FFT_WINDOW / 2], 44100)), 60.0);
    let mut high = vec![f(0.0); FFT_WINDOW / 2];
    high[1500] = f(1.0);
    assert_eq!(n(dominant_pitch(&high, 44100)), 5000.0);
    assert_eq!(n(dominant_pitch(&high, 0)), 60.0);
}

#[test]
fn outline_has_a_point_every_stride() {
    let samples: Vec<F32> = (0..10_000).map(|i| f(i as f32)).collect();
    assert_eq!(window_count(&samples), 3);
    let colors = [
        [f(1.0), f(0.0), f(0.0)],
        [f(0.0), f(1.0), f(0.0)],
        [f(0.0), f(0.0), f(1.0)],
    ];
    let points = analyze_waveform(&samples, &colors);
    assert_eq!(points.len(), (10_000 + STRIDE - 1) / STRIDE);
    for (k, p) in points.iter().enumerate() {
        assert_eq!(n(p.amplitude), (STRIDE * k) as f32);
        let window = (STRIDE * k / 2048).min(2);
        assert_eq!(rgb(p.color)[window], 1.0);
    }
    let short = analyze_waveform(&samples[..100], &[]);
    assert_eq!(short.len(), 2);
    assert_eq!(rgb(short[0].color), [0.5, 0.5, 0.5]);
    assert!(analyze_waveform(&[], &[]).is_empty());
}

#[test]
fn appending_keeps_the_points_of_whole_windows() {
    let samples: Vec<F32> = (0..10000).map(|i| f((i % 977) as f32)).collect();
    let color = |w: usize| [f(w as f32), f(0.0), f(1.0)];
    let outline = |len: usize| {
        let count = window_count(&samples[..len]);
        let colors: Vec<[F32; 3]> = (0..count).map(color).collect();
        (count, analyze_waveform(&samples[..len], &colors))
    };
    let (windows, before) = outline(7000);
    let (_, after) = outline(10000);
    assert_eq!(windows, 2);
    for k in 0..32 * windows {
        assert_eq!(before[k].amplitude, after[k].amplitude);
        assert_eq!(before[k].color, after[k].color);
    }
    // Behind them the last colour gives way to that of a new window.
    assert_ne!(before[32 * windows].color, after[32 * windows].color);
}

#[test]
fn colors_are_pure() {
    for log in [-1e30f32, -0.0, 5.91, 6.0, 7.5, 9.2, 10.0, 11.7, 12.29, 1e30, f32::INFINITY] {
        let color = rgb(pitch_color(f(log)));
        assert_eq!(color.iter().copied().fold(f32::MIN, f32::max), 1.0);
        assert_eq!(color.iter().copied().fold(f32::MAX, f32::min), 0.0);
    }
}

#[test]
fn onsets_count_growth_only() {
    let mut one = vec![f(0.0); NUM_BINS];
    one[3] = f(2.0);
    let mut two = vec![f(0.0); NUM_BINS];
    two[3] = f(1.0);
    two[9] = f(0.5);
    assert_eq!(back(&calculate_onset_envelope(&vec![one, two])), vec![2.0, 0.5]);
    assert_eq!(back(&compressed(&all(&[0.0, 2.0]))), vec![1.0, 3.0]);
    assert_eq!(onset_frame_count(&vec![f(0.0); 2048]), 0);
    assert_eq!(onset_frame_count(&vec![f(0.0); 2049]), 1);
    assert_eq!(onset_frame_count(&vec![f(0.0); 2048 + 1024]), 2);
}

#[test]
fn padding_reaches_twice_the_length() {
    for n in [0usize, 1, 2, 3, 100, 512, 513] {
        assert_eq!(padded_len(n), (n * 2).next_power_of_two());
    }
    assert_eq!(back(&power_spectrum(&all(&[3.0, 0.0]), &all(&[4.0, 2.0]))), vec![25.0, 4.0]);
}

fn autocorrelation(env: &[F32]) -> Vec<F32> {
    let len = padded_len(env.len());
    let mut planner = FftPlanner::new();
    let mut buffer: Vec<Complex<f32>> = env.iter().map(|&x| Complex::new(n(x), 0.0)).collect();
    buffer.resize(len, Complex::new(0.0, 0.0));
    planner.plan_fft_forward(len).process(&mut buffer);
    let re: Vec<F32> = buffer.iter().map(|c| f(c.re)).collect();
    let im: Vec<F32> = buffer.iter().map(|c| f(c.im)).collect();
    let mut power: Vec<Complex<f32>> =
        power_spectrum(&re, &im).iter().map(|&p| Complex::new(n(p), 0.0)).collect();
    planner.plan_fft_inverse(len).process(&mut power);
    power.iter().map(|c| f(c.re)).collect()
}

#[test]
fn flux_finds_the_tempo_of_regular_onsets() {
    let rate = 44100.0f32 / HOP_SIZE as f32;
    let period = rate * 60.0 / 120.0;
    let mut env = vec![f(0.01); 1200];
    let mut t = 5.0f32;
    while (t as usize) < env.len() {
        env[t.round() as usize % 1200] = f(1.0);
        t += period;
    }
    let corr = autocorrelation(&env);
    let found = detect_bpm_spectral_flux(&env, &corr, 44100);
    assert!((n(found.bpm) - 120.0).abs() < 1.5, "got {}", n(found.bpm));
    assert_eq!(n(found.beat_offset), n(detect_first_beat(&env, found.bpm, 44100, HOP_SIZE)));
    let fallback = detect_bpm(None, &env, &corr, 44100);
    assert_eq!(fallback.bpm, found.bpm);
    let neural = BpmResult { bpm: f(99.0), beat_offset: f(0.25) };
    assert_eq!(n(detect_bpm(Some(neural), &env, &corr, 44100).bpm), 99.0);
    let (bpm, level) = estimate_tempo(&all(&[0.0; 64]), 32, 44100, HOP_SIZE);
    assert_eq!((n(bpm), n(level)), (0.0, 0.0));
    let silent = detect_bpm_spectral_flux(&[], &all(&[0.0]), 44100);
    assert_eq!((n(silent.bpm), n(silent.beat_offset)), (0.0, 0.0));
    assert_eq!(n(BpmResult::default().bpm), 0.0);
}

#[test]
fn first_beat_is_the_last_strongest_of_two_beats() {
    let mut env = vec![0.0f32; 400];
    env[10] = 0.5;
    env[20] = 0.9;
    env[30] = 0.9;
    env[300] = 5.0;
    let want = 30.0 * 512.0 / 44100.0;
    assert_eq!(n(detect_first_beat(&all(&env), f(120.0), 44100, 512)), want);
    assert_eq!(n(detect_first_beat(&all(&env), f(0.0), 44100, 512)), 0.0);
    assert_eq!(n(detect_first_beat(&[], f(120.0), 44100, 512)), 0.0);
}

#[test]
fn relatives_of_a_lag_are_weighed() {
    let mut corr = vec![0.0f32; 256];
    corr[40] = 1.0;
    corr[80] = 3.0;
    let corr = all(&corr);
    let search = LagSearch {
        corr: &corr,
        scale: f(1.0),
        n: 200,
        min_lag: 10,
        max_lag: 100,
        rate: f(86.0),
    };
    // 3 / 120 at twice the lag beats 1 / 160.
    assert_eq!(n(search.resolve_tempo_lag(f(40.0))), 80.0);
    let narrow = LagSearch { max_lag: 79, ..search };
    assert_eq!(n(narrow.resolve_tempo_lag(f(40.0))), 40.0);
}

#[test]
fn no_tempo_is_favoured_among_relatives() {
    // At rate 8, lag 4 is 120 beats per minute and lag 2 is 240.
    let mut corr = vec![0.0f32; 9];
    corr[2] = 1001.0 * 6.0;
    corr[4] = 1000.0 * 4.0;
    let corr = all(&corr);
    let search =
        LagSearch { corr: &corr, scale: f(1.0), n: 8, min_lag: 1, max_lag: 4, rate: f(8.0) };
    assert_eq!(n(search.resolve_tempo_lag(f(2.0))), 2.0);
    assert_eq!(n(search.resolve_tempo_lag(f(4.0))), 2.0);
}

#[test]
fn half_of_a_spectrum_is_shown() {
    assert_eq!(back(&compute_spectrum(&all(&[1.0, 2.0, 3.0, 4.0, 5.0]))), vec![1.0, 2.0]);
    assert!(compute_spectrum(&[]).is_empty());
}

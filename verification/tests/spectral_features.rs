use enfuse::beatnet::detect::feature_input;
use enfuse::beatnet::features::{
    band_energies, frame_count, log_spect_features, resample_to, to_mono, windowed_frame, FEAT_DIM,
    FRAME_SIZE, HOP_SIZE, NUM_BANDS, NUM_FFT_BINS, SAMPLE_RATE,
};
use enfuse::beatnet::filterbank::{
    band_octaves, band_range, build_log_filterbank, fft_bin_frequencies,
    frequencies_to_unique_bins, log_frequencies, triangular_filter, FMAX, FMIN, FREF,
};
use enfuse::beatnet::infer::{feature_frames, run_crnn, split_activations};
use enfuse::float::single::F32;
use enfuse::window::{hann_window, pi, taper, window_angles};
use rustfft::num_complex::Complex;
use rustfft::FftPlanner;

fn f(x: f32) -> F32 {
    F32::from_bits(x.to_bits())
}

fn n(x: F32) -> f32 {
    f32::from_bits(x.to_bits())
}

fn all(v: &[f32]) -> Vec<F32> {
    v.iter().map(|&x| f(x)).collect()
}

fn back(v: &[F32]) -> Vec<f32> {
    v.iter().map(|&x| n(x)).collect()
}

fn window(size: usize) -> Vec<F32> {
    let cosines: Vec<F32> = window_angles(size).iter().map(|&a| f(n(a).cos())).collect();
    hann_window(&cosines)
}

fn powers() -> Vec<F32> {
    let low = (FMIN as f32 / FREF as f32).log2();
    let high = (FMAX as f32 / FREF as f32).log2();
    let (left, right) = band_range(f(low), f(high));
    band_octaves(left, right).iter().map(|&o| f(2f32.powf(n(o)))).collect()
}

fn filterbank() -> Vec<F32> {
    build_log_filterbank(&powers()).expect("all bands")
}

fn features_of(mono: &[F32]) -> Option<Vec<F32>> {
    let frames = frame_count(mono);
    let bank = filterbank();
    let taper = window(FRAME_SIZE);
    let fft = FftPlanner::new().plan_fft_forward(FRAME_SIZE);
    let mut log_spec = Vec::new();
    for i in 0..frames {
        let frame = windowed_frame(mono, &taper, i);
        let mut buffer: Vec<Complex<f32>> =
            frame.iter().map(|&x| Complex::new(n(x), 0.0)).collect();
        fft.process(&mut buffer);
        let magnitudes: Vec<F32> =
            buffer[..NUM_FFT_BINS].iter().map(|c| f(c.norm())).collect();
        for e in band_energies(&bank, &magnitudes) {
            log_spec.push(f(n(e).log10()));
        }
    }
    log_spect_features(mono, &log_spec)
}

#[test]
fn filterbank_has_expected_shape() {
    let fb = filterbank();
    assert_eq!(fb.len(), NUM_FFT_BINS * NUM_BANDS);
    // Each band is area-normalized, about 1.
    for b in 0..NUM_BANDS {
        let mut sum = 0.0f32;
        for k in 0..NUM_FFT_BINS {
            sum += n(fb[k * NUM_BANDS + b]);
        }
        assert!((sum - 1.0).abs() < 1e-3, "band {b} sum={sum}");
    }
}

#[test]
fn feature_dim_is_272() {
    let sr = SAMPLE_RATE;
    // One second of silence.
    let samples = vec![f(0.0); sr as usize];
    let feats = features_of(&samples).unwrap();
    assert_eq!(FEAT_DIM, 272);
    assert_eq!(feats.len() % FEAT_DIM, 0);
    assert_eq!(
        feats.len() / FEAT_DIM,
        ((sr as usize) as f64 / HOP_SIZE as f64).ceil() as usize
    );
}

#[test]
fn no_samples_have_no_features() {
    assert!(features_of(&[]).is_none());
}

#[test]
fn channels_are_averaged() {
    let s = all(&[1.0, 3.0, -1.0, 2.0, 9.0]);
    assert_eq!(back(&to_mono(&s, 2)), vec![2.0, 0.5]);
    assert_eq!(back(&to_mono(&s, 1)), back(&s));
    assert_eq!(back(&to_mono(&s, 0)), back(&s));
    assert_eq!(back(&to_mono(&s, 3)), vec![1.0]);
}

#[test]
fn resampling_interpolates() {
    let s = all(&[0.0, 1.0, 2.0, 3.0]);
    assert_eq!(back(&resample_to(&s, 2, 4)), vec![0.0, 0.5, 1.0, 1.5, 2.0, 2.5, 3.0, 3.0]);
    assert_eq!(back(&resample_to(&s, 4, 2)), vec![0.0, 2.0]);
    assert_eq!(back(&resample_to(&s, 8, 8)), back(&s));
    assert!(resample_to(&s, 0, 8).is_empty());
    assert!(resample_to(&[], 4, 8).is_empty());
    assert_eq!(back(&resample_to(&s[..1], 4, 1)), vec![0.0]);
}

#[test]
fn resampling_agrees_with_native_arithmetic() {
    let native: Vec<f32> = (0..500).map(|i| ((i * 37 % 101) as f32 - 50.0) / 61.0).collect();
    for (from, to) in [(44100u32, 22050u32), (48000, 22050), (8000, 22050)] {
        let ratio = to as f64 / from as f64;
        let len = ((native.len() as f64) * ratio).round().max(1.0) as usize;
        let mut want = Vec::new();
        for i in 0..len {
            let src = i as f64 / ratio;
            let i0 = src.floor() as usize;
            let frac = (src - i0 as f64) as f32;
            want.push(if i0 >= native.len() - 1 {
                native[native.len() - 1]
            } else {
                native[i0] * (1.0 - frac) + native[i0 + 1] * frac
            });
        }
        assert_eq!(back(&resample_to(&all(&native), from, to)), want);
    }
}

#[test]
fn window_tapers_to_both_ends() {
    assert_eq!(n(pi()), std::f32::consts::PI);
    let w = back(&window(5));
    assert_eq!(w[0], 0.0);
    assert!((w[2] - 1.0).abs() < 1e-6);
    assert!(w[4].abs() < 1e-6);
    let angles = back(&window_angles(5));
    assert_eq!(angles[1], 2.0 * std::f32::consts::PI * 1.0 / 4.0);
    assert_eq!(back(&taper(&all(&[9.0, 2.0, 3.0]), 1, &all(&[0.5, 2.0]))), vec![1.0, 6.0]);
}

#[test]
fn frames_are_centred_and_padded() {
    let mono: Vec<F32> = (0..1000).map(|i| f(i as f32 + 1.0)).collect();
    let ones = vec![f(1.0); FRAME_SIZE];
    let first = back(&windowed_frame(&mono, &ones, 0));
    assert_eq!(first.len(), FRAME_SIZE);
    assert_eq!(first[704], 0.0);
    assert_eq!(first[705], 1.0);
    let second = back(&windowed_frame(&mono, &ones, 1));
    assert_eq!(second[705], 442.0);
    assert_eq!(second[1410], 0.0);
    assert_eq!(frame_count(&mono), 3);
}

#[test]
fn bands_weigh_the_magnitudes() {
    let bank = filterbank();
    let mut magnitudes = vec![f(0.0); NUM_FFT_BINS];
    magnitudes[100] = f(2.0);
    let bands = back(&band_energies(&bank, &magnitudes));
    for b in 0..NUM_BANDS {
        assert_eq!(bands[b], 1.0 + 2.0 * n(bank[100 * NUM_BANDS + b]));
    }
}

#[test]
fn features_show_growth_only() {
    let mut log_spec = vec![f(0.0); 3 * NUM_BANDS];
    log_spec[NUM_BANDS] = f(2.0);
    log_spec[2 * NUM_BANDS] = f(0.5);
    let mono = vec![f(0.0); 3 * HOP_SIZE];
    let feats = back(&log_spect_features(&mono, &log_spec).unwrap());
    assert_eq!(feats[NUM_BANDS], 0.0);
    assert_eq!(feats[FEAT_DIM], 2.0);
    assert_eq!(feats[FEAT_DIM + NUM_BANDS], 2.0);
    assert_eq!(feats[2 * FEAT_DIM], 0.5);
    assert_eq!(feats[2 * FEAT_DIM + NUM_BANDS], 0.0);
}

#[test]
fn bins_are_the_closest_and_unique() {
    assert_eq!(back(&fft_bin_frequencies(3, 12)), vec![0.0, 2.0, 4.0]);
    let bins = all(&[0.0, 2.0, 4.0, 6.0]);
    let freqs = all(&[0.1, 0.2, 1.0, 2.9, 3.1, 100.0]);
    assert_eq!(frequencies_to_unique_bins(&freqs, &bins), vec![0, 1, 2, 3]);
    let centres = back(&log_frequencies(&powers()));
    assert!(centres.iter().all(|&c| c >= 30.0 && c <= 17000.0));
    assert!(build_log_filterbank(&all(&[1.0, 2.0])).is_none());
}

#[test]
fn triangle_rises_and_falls() {
    let (start, data) = triangular_filter(3, 5, 7, false);
    assert_eq!(start, 3);
    assert_eq!(back(&data), vec![0.0, 0.5, 1.0, 0.5]);
    let (_, data) = triangular_filter(3, 5, 7, true);
    assert_eq!(back(&data), vec![0.0, 0.25, 0.5, 0.25]);
    let (_, data) = triangular_filter(4, 4, 4, true);
    assert!(data.is_empty());
}

#[test]
fn network_answers_are_split_by_class() {
    let data = all(&[0.1, 0.2, 0.3, 0.4, 0.5, 0.6]);
    let act = split_activations(&data, 2).unwrap();
    assert_eq!(back(&act.beat), vec![0.1, 0.2]);
    assert_eq!(back(&act.downbeat), vec![0.3, 0.4]);
    assert_eq!(back(&act.non_beat), vec![0.5, 0.6]);
    let whole: Vec<F32> = [act.beat, act.downbeat, act.non_beat].concat();
    assert_eq!(whole, data);
    assert!(split_activations(&data, 3).is_none());
    let features = vec![f(0.0); 2 * FEAT_DIM];
    assert_eq!(feature_frames(&features), Some(2));
    assert_eq!(feature_frames(&features[1..]), None);
    assert_eq!(feature_frames(&[]), None);
    assert!(run_crnn(&features, Some(data.clone())).is_some());
    assert!(run_crnn(&features, None).is_none());
    assert!(run_crnn(&features[1..], Some(data.clone())).is_none());
    assert!(run_crnn(&features[FEAT_DIM..], Some(data)).is_none());
}

#[test]
fn short_tracks_are_not_asked_about() {
    assert!(feature_input(&[], 44100, 2).is_none());
    assert!(feature_input(&vec![f(0.0); 5000], 0, 1).is_none());
    assert!(feature_input(&vec![f(0.0); 2000], 44100, 1).is_none());
    assert_eq!(feature_input(&vec![f(0.0); 2 * FRAME_SIZE], 44100, 1).unwrap().len(), FRAME_SIZE);
}

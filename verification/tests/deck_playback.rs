use enfuse::audio::biquad::{
    filter_angle, gain_exponent, high_shelf, low_shelf, peaking, Biquad, FilterType, Tone,
};
use enfuse::audio::deck::{Click, Deck, DeckData, SinkCommand, NO_BEAT};
use enfuse::analysis::tempo::BpmResult;
use enfuse::audio::decode::{notify_interval, progress, track_length, TrackReader};
use enfuse::audio::eq::{
    approach, first_bands, map_gain, shelf_quality, Band, Bands, EqSource, Knobs, Tones,
};
use enfuse::audio::scratch::ScratchSource;
use enfuse::audio::span::TimeSpan;
use enfuse::float::double::F64;
use enfuse::float::single::F32;
use std::sync::Arc;
use std::time::Duration;

fn f(x: f32) -> F32 {
    F32::from_bits(x.to_bits())
}

fn n(x: F32) -> f32 {
    f32::from_bits(x.to_bits())
}

fn d(x: f64) -> F64 {
    F64::from_bits(x.to_bits())
}

fn m(x: F64) -> f64 {
    f64::from_bits(x.to_bits())
}

fn span(t: Duration) -> TimeSpan {
    TimeSpan { secs: t.as_secs(), nanos: t.subsec_nanos() }
}

fn track(seconds: usize) -> DeckData {
    let sample_rate = 1000u32;
    let samples: Vec<F32> = (0..seconds * 2000).map(|i| f(i as f32)).collect();
    DeckData {
        duration: track_length(samples.len(), 2, sample_rate).unwrap(),
        samples,
        waveform: Vec::new(),
        channels: 2,
        sample_rate,
        bpm: f(120.0),
        beat_offset: f(0.0),
        path: "a.wav".to_string(),
    }
}

#[test]
fn seconds_become_spans_as_durations_do() {
    let mut values = vec![
        0.0, -0.0, 1.0, 0.5, 1e-9, 0.4e-9, 0.5e-9, 1.5e-9, 2.5e-9, 0.999e-9, 2.7, 3e10,
        1.0000000005, 59.9999999995, 1e-300, 123456.789, 4503599627370497.5, 1e19, 0.1, 0.2, 0.3,
    ];
    let mut x = 0x9e3779b97f4a7c15u64;
    for _ in 0..2000 {
        x = x.wrapping_mul(6364136223846793005).wrapping_add(1442695040888963407);
        values.push((x >> 11) as f64 / (1u64 << 40) as f64);
        values.push((x >> 20) as f64 * 0.5e-9);
    }
    for v in values {
        let want = span(Duration::from_secs_f64(v));
        assert_eq!(TimeSpan::from_secs(d(v)), Some(want), "{v}");
        let t = Duration::from_secs_f64(v);
        assert_eq!(m(want.as_secs_double()), t.as_secs_f64(), "{v}");
        assert_eq!(n(want.as_secs_single()), t.as_secs_f32(), "{v}");
    }
    for bad in [-1.0, -1e-300, f64::NAN, f64::INFINITY, 1.9e19, f64::NEG_INFINITY] {
        assert_eq!(TimeSpan::from_secs(d(bad)), None, "{bad}");
    }
}

#[test]
fn spans_compare_and_subtract() {
    let long = span(Duration::from_millis(1500));
    let short = span(Duration::from_millis(700));
    assert!(long.longer_than(short));
    assert!(!short.longer_than(long));
    assert!(!long.longer_than(long));
    assert_eq!(long.since(short), span(Duration::from_millis(800)));
    assert_eq!(short.since(long), TimeSpan::zero());
}

#[test]
fn length_and_progress_of_a_track() {
    assert_eq!(track_length(88200, 2, 44100), Some(span(Duration::from_secs(1))));
    assert_eq!(track_length(88200, 0, 44100), Some(TimeSpan::zero()));
    assert_eq!(track_length(88200, 2, 0), Some(TimeSpan::zero()));
    assert_eq!(notify_interval(44100), 4410);
    assert_eq!(notify_interval(500), 100);
    let two = Some(span(Duration::from_secs(2)));
    assert_eq!(n(progress(44100, two, 44100, 2)), 0.25);
    assert_eq!(n(progress(1_000_000, two, 44100, 2)), 1.0);
    assert_eq!(n(progress(10, None, 44100, 2)), 0.0);
}

#[test]
fn a_track_is_read_with_reports_in_between() {
    let mut reader = TrackReader::new(2, 1000, Some(span(Duration::from_millis(500))));
    let mut reports = Vec::new();
    for i in 0..1000 {
        if let Some(p) = reader.feed(Some(f(i as f32))) {
            reports.push((i, n(p)));
        }
    }
    let want: Vec<(i32, f32)> = (1..=10).map(|k| (100 * k - 1, (100 * k) as f32 / 1000.0)).collect();
    assert_eq!(reports, want);
    assert_eq!(reader.feed(None).map(n), Some(1.0));
    let tempo = BpmResult { bpm: f(99.0), beat_offset: f(0.25) };
    let data = reader.finish(Vec::new(), tempo, "a.wav".to_string()).unwrap();
    assert_eq!(data.samples.len(), 1000);
    assert_eq!(n(data.samples[7]), 7.0);
    assert_eq!(data.duration, span(Duration::from_millis(500)));
    assert_eq!((n(data.bpm), n(data.beat_offset)), (99.0, 0.25));
    assert_eq!((data.channels, data.sample_rate, data.path.as_str()), (2, 1000, "a.wav"));
    let mut unknown = TrackReader::new(1, 0, None);
    assert_eq!(unknown.feed(None).map(n), Some(0.0));
    let empty = unknown.finish(Vec::new(), BpmResult::default(), String::new()).unwrap();
    assert_eq!(empty.duration, TimeSpan::zero());
}

#[test]
fn a_deck_is_at_the_second_it_was_sent_to() {
    for rate in [1u32, 22050, 44100, 48000, 96000] {
        let mut deck = Deck::new();
        deck.sample_rate = rate;
        deck.duration = span(Duration::from_secs(4000));
        for second in [0u64, 1, 7, 59, 613, 3999, 4000] {
            deck.seek_to(span(Duration::from_secs(second)));
            assert_eq!(deck.get_position(), Some(span(Duration::from_secs(second))));
        }
    }
}

#[test]
fn a_new_deck_is_empty() {
    let deck = Deck::new();
    assert!(!deck.is_playing && !deck.has_sink && deck.samples.is_empty());
    assert_eq!((deck.channels, deck.sample_rate), (2, 44100));
    assert_eq!(n(deck.volume), 1.0);
    assert_eq!(n(F32::from_bits(deck.low)), 0.5);
    assert_eq!(deck.last_beat_index, NO_BEAT);
}

#[test]
fn sinks_are_started_resumed_paused_and_stopped() {
    let mut deck = Deck::new();
    assert_eq!(deck.play(), SinkCommand::Nothing);
    assert!(deck.is_playing && !deck.has_sink);
    assert_eq!(deck.load_data(track(2)), SinkCommand::Nothing);
    assert!(!deck.is_playing);
    assert_eq!(deck.file_path.as_deref(), Some("a.wav"));
    deck.set_speed(f(1.25));
    assert_eq!(deck.play(), SinkCommand::Start);
    assert_eq!(deck.control_speed, 1.25f32.to_bits());
    assert_eq!(deck.pause(), SinkCommand::Pause);
    assert!(!deck.is_playing);
    assert_eq!(deck.play(), SinkCommand::Resume);
    assert_eq!(deck.set_volume(f(0.5)), SinkCommand::SetVolume(f(0.5)));
    deck.set_scratch_speed(f(-2.0));
    assert_eq!(deck.control_speed, (-2.0f32).to_bits());
    assert_eq!(n(deck.user_speed), 1.25);
    deck.seek_to(span(Duration::from_secs(1)));
    assert_eq!(deck.stop(), SinkCommand::Stop);
    assert_eq!(deck.control_cursor, 0);
    assert!(!deck.has_sink);
    assert_eq!(deck.stop(), SinkCommand::Nothing);
    assert_eq!(deck.pause(), SinkCommand::Nothing);
    assert_eq!(n(deck.effective_bpm()), 150.0);
}

#[test]
fn seeking_lands_within_half_a_frame() {
    for rate in [1u32, 7, 8000, 44100, 96000] {
        let mut deck = Deck::new();
        let mut data = track(2);
        data.sample_rate = rate;
        data.duration = span(Duration::from_millis(3_661_234));
        let _ = deck.load_data(data);
        for nanos in [0u64, 1, 11_337, 999_999_999, 1_500_000_001, 3_600_000_000_123, 9_000_000_000_000]
        {
            deck.seek_to(span(Duration::from_nanos(nanos)));
            let there = deck.get_position().unwrap();
            let there = there.secs as f64 * 1e9 + there.nanos as f64;
            let wanted = nanos.min(3_661_234_000_000) as f64;
            assert!((there - wanted).abs() <= 0.5e9 / rate as f64 + 2.0, "{rate} {nanos}");
        }
    }
}

#[test]
fn seeking_stays_in_the_track() {
    let mut deck = Deck::new();
    deck.load_data(track(2));
    deck.seek_to(span(Duration::from_millis(1500)));
    assert_eq!(m(F64::from_bits(deck.control_cursor)), 1500.0);
    assert_eq!(deck.get_position(), Some(span(Duration::from_millis(1500))));
    deck.seek_to(span(Duration::from_secs(50)));
    assert_eq!(deck.get_position(), Some(span(Duration::from_secs(2))));
    deck.control_cursor = (-1.0f64).to_bits();
    assert_eq!(deck.get_position(), None);
    deck.sample_rate = 0;
    assert_eq!(deck.get_position(), Some(TimeSpan::zero()));
    let mut other = Deck::new();
    other.control_cursor = 77.0f64.to_bits();
    other.load_data(track(1));
    assert_eq!(other.get_position(), Some(TimeSpan::zero()));
}

#[test]
fn knobs_hold_their_bits() {
    let mut deck = Deck::new();
    deck.set_low(f(0.1));
    deck.set_mid(f(0.2));
    deck.set_high(f(0.3));
    assert_eq!((deck.low, deck.mid, deck.high), (
        0.1f32.to_bits(),
        0.2f32.to_bits(),
        0.3f32.to_bits(),
    ));
}

#[test]
fn every_beat_clicks_once() {
    let mut deck = Deck::new();
    deck.load_data(track(10));
    deck.play();
    assert_eq!(deck.tick_metronome(), None);
    deck.toggle_metronome();
    let mut clicks = Vec::new();
    for millis in 0..2400u64 {
        deck.control_cursor = (millis as f64).to_bits();
        if let Some(click) = deck.tick_metronome() {
            clicks.push((millis, n(click.frequency)));
            assert_eq!(deck.tick_metronome(), None);
        }
    }
    // 120 beats a minute, 33 milliseconds ahead; the third of four is high.
    assert_eq!(
        clicks,
        vec![(0, 880.0), (467, 880.0), (967, 1200.0), (1467, 880.0), (1967, 880.0)]
    );
    deck.pause();
    deck.control_cursor = 5000.0f64.to_bits();
    assert_eq!(deck.tick_metronome(), None);
    deck.play();
    deck.control_cursor = (-5.0f64).to_bits();
    assert_eq!(deck.tick_metronome(), None);
    assert!(matches!(Some(Click { frequency: f(1.0) }), Some(_)));
    deck.toggle_metronome();
    assert!(!deck.metronome_enabled);
    assert_eq!(deck.last_beat_index, NO_BEAT);
}

#[test]
fn scratching_reads_frames_and_stays_in_the_track() {
    let samples = Arc::new((0..8).map(|i| f(i as f32)).collect::<Vec<F32>>());
    let mut source = ScratchSource::new(samples.clone(), 2, 44100);
    let mut cursor = 0.0f64.to_bits();
    let mut heard = Vec::new();
    for _ in 0..12 {
        let (sample, moved) = source.next(cursor, 1.0f32.to_bits());
        heard.push(n(sample));
        if let Some(c) = moved {
            cursor = c;
        }
    }
    // The last frame is repeated.
    assert_eq!(heard, vec![0.0, 1.0, 2.0, 3.0, 4.0, 5.0, 6.0, 7.0, 6.0, 7.0, 6.0, 7.0]);
    for speed in [-100.0f32, 100.0, 0.5, -0.25, 0.0] {
        for place in [0.0f64, 1.5, 3.0, 4.0] {
            let mut s = ScratchSource::new(samples.clone(), 2, 44100);
            s.channel_cursor = 1;
            let (_, moved) = s.next(place.to_bits(), speed.to_bits());
            let place = f64::from_bits(moved.unwrap());
            assert!((0.0..=3.0).contains(&place));
        }
    }
    let (silence, moved) = source.next((-0.5f64).to_bits(), 1.0f32.to_bits());
    assert_eq!((n(silence), moved), (0.0, None));
    let (silence, moved) = source.next(4.5f64.to_bits(), 1.0f32.to_bits());
    assert_eq!((n(silence), moved), (0.0, None));
    let (at_end, _) = source.next(4.0f64.to_bits(), 1.0f32.to_bits());
    assert_eq!(n(at_end), 0.0);
}

#[test]
fn gains_of_the_knobs() {
    assert_eq!(n(map_gain(f(0.0))), -24.0);
    assert_eq!(n(map_gain(f(0.5))), 0.0);
    assert_eq!(n(map_gain(f(1.0))), 6.0);
    assert_eq!(n(approach(f(0.0), f(10.0))), 1.0);
    assert_eq!(n(gain_exponent(f(-24.0))), -0.6);
    assert_eq!(n(shelf_quality()), 0.707);
    let angle = n(filter_angle(f(200.0), 44100));
    assert_eq!(angle, 2.0 * std::f32::consts::PI * 200.0 / 44100.0);
}

fn tone(db: f32, freq: f32, rate: u32) -> Tone {
    let a = 10f32.powf(n(gain_exponent(f(db))));
    let w0 = n(filter_angle(f(freq), rate));
    Tone { a: f(a), sqrt_a: f(a.sqrt()), cos_w0: f(w0.cos()), sin_w0: f(w0.sin()) }
}

struct Native {
    b: [f32; 3],
    a: [f32; 2],
    x: [f32; 2],
    y: [f32; 2],
}

impl Native {
    fn new(kind: FilterType, t: Tone, q: f32) -> Native {
        let (a, sqrt_a, cos_w0) = (n(t.a), n(t.sqrt_a), n(t.cos_w0));
        let alpha = n(t.sin_w0) / (2.0 * q);
        let (ap, am) = (a + 1.0, a - 1.0);
        let (b0, b1, b2, a0, a1, a2) = match kind {
            FilterType::LowShelf => (
                a * (ap - am * cos_w0 + 2.0 * sqrt_a * alpha),
                2.0 * a * (am - ap * cos_w0),
                a * (ap - am * cos_w0 - 2.0 * sqrt_a * alpha),
                ap + am * cos_w0 + 2.0 * sqrt_a * alpha,
                -2.0 * (am + ap * cos_w0),
                ap + am * cos_w0 - 2.0 * sqrt_a * alpha,
            ),
            FilterType::HighShelf => (
                a * (ap + am * cos_w0 + 2.0 * sqrt_a * alpha),
                -2.0 * a * (am + ap * cos_w0),
                a * (ap + am * cos_w0 - 2.0 * sqrt_a * alpha),
                ap - am * cos_w0 + 2.0 * sqrt_a * alpha,
                2.0 * (am - ap * cos_w0),
                ap - am * cos_w0 - 2.0 * sqrt_a * alpha,
            ),
            FilterType::Peaking => (
                1.0 + alpha * a,
                -2.0 * cos_w0,
                1.0 - alpha * a,
                1.0 + alpha / a,
                -2.0 * cos_w0,
                1.0 - alpha / a,
            ),
        };
        Native {
            b: [b0 / a0, b1 / a0, b2 / a0],
            a: [a1 / a0, a2 / a0],
            x: [0.0; 2],
            y: [0.0; 2],
        }
    }

    fn process(&mut self, x: f32) -> f32 {
        let y = self.b[0] * x + self.b[1] * self.x[0] + self.b[2] * self.x[1]
            - self.a[0] * self.y[0]
            - self.a[1] * self.y[1];
        self.x = [x, self.x[0]];
        self.y = [y, self.y[0]];
        y
    }
}

#[test]
fn filters_agree_with_native_arithmetic() {
    for kind in [FilterType::LowShelf, FilterType::HighShelf, FilterType::Peaking] {
        for db in [-24.0f32, -3.0, 0.0, 6.0] {
            let t = tone(db, 1000.0, 44100);
            let mut native = Native::new(kind, t, 0.707);
            let mut filter = Biquad::new();
            assert_eq!(n(filter.process(f(0.0))), 0.0);
            filter.calculate(kind, t, f(0.707));
            for i in 0..200 {
                let x = ((i * 29 % 97) as f32 - 48.0) / 50.0;
                assert_eq!(n(filter.process(f(x))).to_bits(), native.process(x).to_bits());
            }
        }
    }
    let flat = tone(0.0, 1000.0, 44100);
    let design = peaking(flat, f(0.1));
    assert_eq!((design.b0, design.b1, design.b2), (design.a0, design.a1, design.a2));
    assert_eq!(low_shelf(flat, f(0.1)).b0, low_shelf(flat, f(0.1)).a0);
    assert_eq!(high_shelf(flat, f(0.1)).b2, high_shelf(flat, f(0.1)).a2);
}

#[test]
fn a_new_filter_passes_samples() {
    let mut filter = Biquad::new();
    for x in [0.5f32, -1.0, 0.25] {
        assert_eq!(n(filter.process(f(x))), x);
    }
}

/// The tones of bands, by the usual arithmetic.
fn tones_of(bands: Bands) -> Tones {
    let tone_of = |band: Band| {
        let a = 10f32.powf(n(band.exponent));
        let w0 = n(band.angle);
        Tone { a: f(a), sqrt_a: f(a.sqrt()), cos_w0: f(w0.cos()), sin_w0: f(w0.sin()) }
    };
    Tones { low: tone_of(bands.low), mid: tone_of(bands.mid), high: tone_of(bands.high) }
}

#[test]
fn equaliser_takes_channels_in_turn_and_is_due_every_64_frames() {
    let knobs = Knobs { low: f(0.5), mid: f(0.5), high: f(1.0) };
    let tones = Tones {
        low: tone(0.0, 200.0, 44100),
        mid: tone(0.0, 1000.0, 44100),
        high: tone(6.0, 4000.0, 44100),
    };
    let mut eq = EqSource::new(2, 44100, knobs, tones);
    assert_eq!(n(eq.current_high), 6.0);
    let mut native: Vec<[Native; 3]> = (0..2)
        .map(|_| {
            [
                Native::new(FilterType::LowShelf, tones.low, 0.707),
                Native::new(FilterType::Peaking, tones.mid, 1.0),
                Native::new(FilterType::HighShelf, tones.high, 0.707),
            ]
        })
        .collect();
    for k in 0..300usize {
        assert_eq!(eq.due(), k % 128 == 0);
        eq.advance();
        let x = ((k * 31 % 83) as f32 - 41.0) / 45.0;
        let ch = k % 2;
        assert_eq!(eq.channel_cursor, ch);
        let mut want = x;
        for filter in native[ch].iter_mut() {
            want = filter.process(want);
        }
        assert_eq!(n(eq.filter(f(x))).to_bits(), want.to_bits());
    }
    eq.retarget(Knobs { low: f(0.0), mid: f(0.5), high: f(0.5) }, false);
    assert_eq!(n(eq.current_low), 0.0 + (-24.0f32 - 0.0) * 0.1);
    eq.retarget(Knobs { low: f(0.0), mid: f(0.5), high: f(0.5) }, true);
    assert_eq!(n(eq.current_low), -24.0);
}

#[test]
fn bands_have_their_gains_and_frequencies() {
    let knobs = Knobs { low: f(0.0), mid: f(0.25), high: f(1.0) };
    let bands = first_bands(knobs, 48000);
    let angle = |freq: f32| 2.0 * std::f32::consts::PI * freq / 48000f32;
    assert_eq!((n(bands.low.exponent), n(bands.low.angle)), (-24.0 / 40.0, angle(200.0)));
    assert_eq!((n(bands.mid.exponent), n(bands.mid.angle)), (-12.0 / 40.0, angle(1000.0)));
    assert_eq!((n(bands.high.exponent), n(bands.high.angle)), (6.0 / 40.0, angle(4000.0)));
}

#[test]
fn equaliser_follows_the_knobs_step_by_step() {
    let start = Knobs { low: f(0.5), mid: f(0.5), high: f(0.5) };
    let later = Knobs { low: f(0.0), mid: f(1.0), high: f(0.25) };
    let rate = 44100;
    let mut eq = EqSource::new(1, rate, start, tones_of(first_bands(start, rate)));
    let mut other = EqSource::new(1, rate, start, tones_of(first_bands(start, rate)));
    for k in 0..200usize {
        let x = f((k % 7) as f32 / 7.0);
        let bands = eq.prepare(later);
        assert_eq!(bands.is_some(), k % 64 == 0);
        let got = eq.next(bands.map(tones_of), Some(x));
        if other.due() {
            other.retarget(later, false);
            other.update_coefficients(tones_of(bands.unwrap()));
        }
        other.advance();
        assert_eq!(got, Some(other.filter(x)));
    }
    assert_eq!(eq.current_low, other.current_low);
    let mut gain = 0.0f32;
    for _ in 0..4 {
        gain += (-24.0 - gain) * 0.1;
    }
    assert_eq!(n(eq.current_low), gain);
    // At the end of the stream only the count moves on.
    let cursor = eq.channel_cursor;
    let count = eq.counter;
    assert_eq!(eq.next(None, None), None);
    assert_eq!((eq.channel_cursor, eq.counter), (cursor, count - 1));
}

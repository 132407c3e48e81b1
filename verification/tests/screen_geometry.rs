use enfuse::analysis::waveform::WaveformPoint;
use enfuse::app::{App, Message};
use enfuse::audio::deck::Deck;
use enfuse::audio::span::TimeSpan;
use enfuse::float::single::F32;
use enfuse::ui::deck_view::{
    deck_panel, disc_rotation, outline_message, played, scene, status, tempo_to_show, Status,
};
use enfuse::ui::disc::RotatingDisc;
use enfuse::ui::knob::{
    start_angle, sweep, Accent, Grip, Knob, KnobAction, KnobEvent, KnobState,
};
use enfuse::ui::spectrum::{
    curve_point, level_of_band, line_color, log_bands, Spectrum, NUM_POINTS,
};
use enfuse::ui::waveform::{Waveform, WaveformEvent, WaveformOutput, WaveformState};
use enfuse::ui::wipe::{
    band_at, below_one, block_seed, edge_share, fineness, hash_f01, scramble, solid_left,
    WipeOverlay, BAND_COUNT,
};

const PI: f32 = std::f32::consts::PI;

fn f(x: f32) -> F32 {
    F32::from_bits(x.to_bits())
}

fn n(x: F32) -> f32 {
    f32::from_bits(x.to_bits())
}

#[test]
fn knobs_turn_by_dragging() {
    assert_eq!(n(Knob::new(f(7.0)).value), 1.0);
    assert_eq!(n(Knob::new(f(-7.0)).value), 0.0);
    let knob = Knob::new(f(0.5));
    assert_eq!(n(knob.angle()), PI * 0.75 + 0.5 * (PI * 1.5));
    assert_eq!(n(start_angle()), PI * 0.75);
    assert_eq!(n(sweep()), PI * 1.5);
    let mut state = KnobState::default();
    assert_eq!(knob.update(&mut state, KnobEvent::Moved(f(3.0))), KnobAction::Ignore);
    assert_eq!(knob.update(&mut state, KnobEvent::Released), KnobAction::Ignore);
    let away = KnobEvent::Pressed(false, Some(f(1.0)));
    assert_eq!(knob.update(&mut state, away), KnobAction::Ignore);
    assert!(!state.dragging);
    let over = KnobEvent::Pressed(true, Some(f(100.0)));
    assert_eq!(knob.update(&mut state, over), KnobAction::Capture);
    assert!(state.dragging);
    let want = 0.5f32 + (100.0f32 - 80.0) * 0.006;
    assert_eq!(knob.update(&mut state, KnobEvent::Moved(f(80.0))), KnobAction::Publish(f(want)));
    assert_eq!(n(state.last_y), 80.0);
    assert_eq!(knob.update(&mut state, KnobEvent::Moved(f(80.1))), KnobAction::Capture);
    assert_eq!(knob.update(&mut state, KnobEvent::Moved(f(9000.0))), KnobAction::Publish(f(0.0)));
    assert_eq!(knob.update(&mut state, KnobEvent::Released), KnobAction::Capture);
    assert_eq!(knob.update(&mut state, KnobEvent::Other), KnobAction::Ignore);
}

#[test]
fn knobs_turn_by_scrolling() {
    let knob = Knob::new(f(0.98));
    let mut state = KnobState::default();
    let up = KnobEvent::Scrolled(true, f(3.0));
    assert_eq!(knob.update(&mut state, up), KnobAction::Publish(f(1.0)));
    let away = KnobEvent::Scrolled(false, f(3.0));
    assert_eq!(knob.update(&mut state, away), KnobAction::Ignore);
    let full = Knob::new(f(1.0));
    assert_eq!(full.update(&mut state, up), KnobAction::Ignore);
    assert_eq!(state.mouse_interaction(true), Grip::Grab);
    assert_eq!(state.mouse_interaction(false), Grip::Free);
    assert_eq!(state.accent(false), Accent::Idle);
    assert_eq!(state.accent(true), Accent::Hovered);
    let dragged = KnobState { dragging: true, last_y: f(0.0) };
    assert_eq!(dragged.mouse_interaction(false), Grip::Grabbing);
    assert_eq!(dragged.accent(true), Accent::Dragged);
}

#[test]
fn knob_is_drawn_in_its_box() {
    let shape = Knob::new(f(0.5)).draw(f(44.0), f(60.0), f(0.0), f(-1.0));
    assert_eq!((n(shape.center_x), n(shape.center_y), n(shape.radius)), (22.0, 30.0, 20.0));
    assert_eq!(n(shape.arc_radius), 20.0 * 0.78f32);
    assert!(shape.shows_value);
    assert_eq!((n(shape.inner_x), n(shape.inner_y)), (22.0, 25.0));
    assert_eq!((n(shape.outer_x), n(shape.outer_y)), (22.0, 17.0));
    assert_eq!(n(shape.cap_radius), 20.0 * 0.12f32);
    assert!(!Knob::new(f(0.0)).draw(f(1.0), f(1.0), f(0.0), f(0.0)).shows_value);
}

fn points(count: usize) -> Vec<WaveformPoint> {
    (0..count)
        .map(|i| WaveformPoint {
            amplitude: f((i % 7) as f32 / 7.0 - 0.5),
            color: [f(i as f32), f(0.0), f(1.0)],
        })
        .collect()
}

fn at(millis: u64) -> TimeSpan {
    TimeSpan { secs: millis / 1000, nanos: (millis % 1000) as u32 * 1_000_000 }
}

#[test]
fn dragging_the_outline_scratches() {
    let w = Waveform::new(points(10), f(0.5), f(120.0), f(0.0), 44100, f(1.0));
    let mut state = WaveformState::default();
    let idle = w.update(&mut state, WaveformEvent::Moved(at(5)), Some(f(1.0)));
    assert_eq!(idle, (false, None));
    let press = w.update(&mut state, WaveformEvent::Pressed(at(1000)), Some(f(100.0)));
    assert_eq!(press, (true, Some(WaveformOutput::Scratch(f(0.0)))));
    let soon = w.update(&mut state, WaveformEvent::Moved(at(1001)), Some(f(110.0)));
    assert_eq!(soon, (false, None));
    let moved = w.update(&mut state, WaveformEvent::Moved(at(1100)), Some(f(90.0)));
    let run = 128.0f32 * 1.0 * (120.0 / 60.0);
    let want = -((90.0f32 - 100.0) / 0.1f32) * (1.0 / run);
    assert_eq!(moved, (true, Some(WaveformOutput::Scratch(f(want)))));
    assert_eq!(state, WaveformState::Dragging { last_x: f(90.0), last_time: at(1100) });
    let released = w.update(&mut state, WaveformEvent::Released, Some(f(90.0)));
    assert_eq!(released, (true, Some(WaveformOutput::Released)));
    assert_eq!(state, WaveformState::Idle);
    assert_eq!(w.update(&mut state, WaveformEvent::Other, Some(f(90.0))), (false, None));
    let empty = Waveform::new(Vec::new(), f(0.0), f(0.0), f(0.0), 44100, f(0.0));
    let press = empty.update(&mut state, WaveformEvent::Pressed(at(0)), Some(f(0.0)));
    assert_eq!(press, (true, None));
    assert_eq!(n(empty.scratch_speed(f(1.0), f(1.0))), -0.005);
}

#[test]
fn a_mouse_beside_the_outline_is_ignored() {
    let w = Waveform::new(points(10), f(0.5), f(120.0), f(0.0), 44100, f(1.0));
    let dragging = WaveformState::Dragging { last_x: f(1.0), last_time: at(0) };
    for before in [WaveformState::Idle, dragging] {
        for event in [
            WaveformEvent::Scrolled(f(5.0)),
            WaveformEvent::Pressed(at(100)),
            WaveformEvent::Released,
            WaveformEvent::Moved(at(100)),
            WaveformEvent::Other,
        ] {
            let mut state = before;
            assert_eq!(w.update(&mut state, event, None), (false, None));
            assert_eq!(state, before);
        }
    }
}

#[test]
fn scrolling_the_outline_zooms() {
    let w = Waveform::new(points(10), f(0.5), f(120.0), f(0.0), 44100, f(1.0));
    let mut state = WaveformState::Idle;
    let up = w.update(&mut state, WaveformEvent::Scrolled(f(5.0)), Some(f(1.0)));
    assert_eq!(up, (true, Some(WaveformOutput::Zoom(f(1.0 + 5.0 * 0.02)))));
    let far = w.update(&mut state, WaveformEvent::Scrolled(f(5000.0)), Some(f(1.0)));
    assert_eq!(far, (true, Some(WaveformOutput::Zoom(f(5.0)))));
    assert_eq!(w.update(&mut state, WaveformEvent::Scrolled(f(0.01)), Some(f(1.0))), (false, None));
}

#[test]
fn outline_and_grid_agree_with_native_arithmetic() {
    for (pos, bpm, offset, zoom) in
        [(0.3f32, 128.0f32, 0.7f32, 1.0f32), (0.0, 174.0, 0.1, 0.4), (0.99, 0.0, 0.0, 2.0)]
    {
        let data = points(5000);
        let amplitudes: Vec<f32> = data.iter().map(|p| n(p.amplitude)).collect();
        let w = Waveform::new(data, f(pos), f(bpm), f(offset), 44100, f(zoom));
        let (width, height) = (800.0f32, 100.0f32);
        let count = 5000f32;
        let current = pos * count;
        let center = width / 2.0;
        let step = if bpm > 0.0 {
            let per_beat = (60.0 / bpm) * 44100f32 / 64.0;
            (per_beat / (128.0 * zoom)) * 1.0
        } else {
            0.75 / zoom
        };
        let scale = 1.0 / step;
        let visible = (width / 2.0 / scale).ceil() as usize + 2;
        let first = (current as isize - visible as isize).max(0) as usize;
        let last = (current as usize + visible).min(4999);
        let plot = w.draw_outline(f(width), f(height));
        assert_eq!(plot.len(), last - first + 1);
        for (k, p) in plot.iter().enumerate() {
            let i = first + k;
            assert_eq!(n(p.x), center + (i as f32 - current) * scale);
            assert_eq!(n(p.y), (height / 2.0) - (amplitudes[i] * (height / 2.0)));
            assert_eq!(n(p.color[0]), i as f32);
        }
        let grid = w.draw_grid(f(width));
        if bpm > 0.0 {
            let per_beat = (60.0 / bpm) * 44100f32 / 64.0;
            let off = offset * 44100f32 / 64.0;
            let start = ((current - visible as f32 - off) / per_beat).ceil() as i32;
            let end = ((current + visible as f32 - off) / per_beat).floor() as i32;
            assert_eq!(grid.len(), (end - start + 1) as usize);
            for (k, line) in grid.iter().enumerate() {
                let beat = start + k as i32;
                let x = center + (off + beat as f32 * per_beat - current) * scale;
                assert_eq!(line.bar, beat.rem_euclid(4) == 0);
                let thick = if line.bar { 2.0 } else { 1.0 };
                assert_eq!(n(line.width), thick);
                assert_eq!(n(line.left), x - thick / 2.0);
            }
        } else {
            assert!(grid.is_empty());
        }
    }
    let empty = Waveform::new(Vec::new(), f(0.0), f(120.0), f(0.0), 44100, f(1.0));
    assert!(empty.draw_outline(f(10.0), f(10.0)).is_empty());
    assert!(empty.draw_grid(f(10.0)).is_empty());
}

#[test]
fn spectrum_bands_are_averaged() {
    let bands = log_bands(f(20f32.ln()), f(20000f32.ln()));
    assert_eq!(bands.len(), NUM_POINTS);
    assert_eq!(n(bands[0].0), 20f32.ln());
    let width = 20000f32.ln() - 20f32.ln();
    assert_eq!(n(bands[5].1), 20f32.ln() + (6.0f32 / 128.0) * width);
    let data: Vec<F32> = (0..512).map(|i| f(i as f32)).collect();
    // Bins 46 to 49, and a 512th of their mean.
    let level = n(level_of_band(&data, f(2000.0), f(2120.0)));
    assert_eq!(level, ((46.0 + 47.0 + 48.0 + 49.0) / 4.0f32) * (1.0 / 512.0));
    let top = n(level_of_band(&data, f(1e9), f(1e9)));
    assert_eq!(top, 511.0 * (1.0 / 512.0f32));
    assert_eq!(n(level_of_band(&vec![f(0.0)], f(20.0), f(30.0))), 1e-6);
    let (x, y) = curve_point(127, f(-1.5), f(300.0), f(80.0));
    assert_eq!((n(x), n(y)), (300.0, 40.0));
    let (_, y) = curve_point(0, f(-6.0), f(300.0), f(80.0));
    assert_eq!(n(y), 80.0);
    assert_eq!(line_color(32), [f(0.5), f(0.5), f(0.0)]);
    assert_eq!(line_color(96), [f(0.0), f(0.5), f(0.5)]);
}

#[test]
fn spectrum_curve_joins_its_points() {
    let data: Vec<F32> = (0..512).map(|i| f((i % 9) as f32)).collect();
    let edges: Vec<(F32, F32)> = log_bands(f(20f32.ln()), f(20000f32.ln()))
        .iter()
        .map(|&(a, b)| (f(n(a).exp()), f(n(b).exp())))
        .collect();
    let spectrum = Spectrum { data: &data };
    let levels = spectrum.levels(&edges);
    assert_eq!(levels.len(), NUM_POINTS);
    assert_eq!(levels[40], level_of_band(&data, edges[40].0, edges[40].1));
    let logs: Vec<F32> = levels.iter().map(|&l| f(n(l).log10())).collect();
    let lines = spectrum.draw(&logs, f(400.0), f(120.0));
    assert_eq!(lines.len(), NUM_POINTS - 1);
    for (k, line) in lines.iter().enumerate() {
        assert_eq!(line.from, curve_point(k as u32, logs[k], f(400.0), f(120.0)));
        assert_eq!(line.to, curve_point(k as u32 + 1, logs[k + 1], f(400.0), f(120.0)));
        assert_eq!(line.color, line_color(k as u32 + 1));
    }
    let empty = Spectrum { data: &[] };
    assert!(empty.levels(&edges).is_empty());
    assert!(empty.draw(&Vec::new(), f(1.0), f(1.0)).is_empty());
}

#[test]
fn wipe_uncovers_from_the_left() {
    fn native(mut x: u32) -> f32 {
        x ^= x >> 16;
        x = x.wrapping_mul(0x45d9f3b);
        x ^= x >> 16;
        x = x.wrapping_mul(0x45d9f3b);
        x ^= x >> 16;
        x as f32 / u32::MAX as f32
    }
    for x in [0u32, 1, 7, 12345, 0xdeadbeef, u32::MAX] {
        assert_eq!(n(hash_f01(x)), native(x));
    }
    // A hash that would round up to one stays below it.
    assert_eq!(native(1490398082), 1.0);
    assert_eq!(hash_f01(1490398082), below_one());
    assert!(n(hash_f01(1490398082)) < 1.0);
    assert_eq!(scramble(1), 0x45d9f3b);
    assert_eq!(
        block_seed(5, 7, 9),
        5u32.wrapping_mul(15485863).wrapping_add(7 * 7919).wrapping_add(9 * 104729)
    );
    assert_eq!((0..6).map(fineness).collect::<Vec<u32>>(), vec![32, 16, 8, 4, 2, 1]);
    assert_eq!(n(WipeOverlay { progress: f(0.25) }.left()), 0.75);
    for progress in [0.0f32, 0.4, 1.0] {
        let cubed = (1.0 - progress) * (1.0 - progress) * (1.0 - progress);
        let eased = 1.0 - cubed;
        let t = (-0.5f32 - 0.01) + eased * (1.0 + 0.5 * 2.0 + 0.02);
        let edge = edge_share(f(cubed));
        assert_eq!(n(edge), t);
        let (width, height) = (200.0f32, 60.0f32);
        assert_eq!(n(solid_left(edge, f(width))), t * width + 0.5 * width);
        for band in 0..6u32 {
            let b = band_at(band, edge, f(width), f(height));
            let band_width = 0.5 * width * 2.0 / 4.0;
            let left = (t * width - 0.5 * width) + band as f32 * band_width;
            let right = left + band_width;
            let size = width / 10.0 / fineness(band) as f32;
            let mut want = Vec::new();
            for row in 0..(height / size).ceil() as u32 {
                for col in (left / size).floor() as u32..(right / size).ceil() as u32 {
                    let (x, y) = (col as f32 * size, row as f32 * size);
                    if x < left || x >= right || x >= width || y >= height {
                        continue;
                    }
                    let rand = native(block_seed(band, row, col));
                    if t < x / width + (rand - 0.5) * 0.5 * 2.0 {
                        want.push((x, y, size + 1.0));
                    }
                }
            }
            let got: Vec<(f32, f32, f32)> =
                b.draw().iter().map(|k| (n(k.x), n(k.y), n(k.size))).collect();
            assert_eq!(got, want);
        }
        let shape = WipeOverlay { progress: f(progress) }.draw(f(cubed), f(width), f(height));
        let start = t * width + 0.5 * width;
        let solid = shape.solid.map(|(left, rest)| (n(left), n(rest)));
        assert_eq!(solid, if start < width { Some((start, width - start)) } else { None });
        let mut blocks = Vec::new();
        for band in 0..BAND_COUNT {
            blocks.extend(band_at(band, edge, f(width), f(height)).draw());
        }
        assert_eq!(shape.blocks, blocks);
    }
}

#[test]
fn disc_turns_and_its_label_rolls() {
    let disc = RotatingDisc::new(f(0.3), f(100.0), f(120.0), f(0.5), false);
    assert!(disc.moves());
    assert!(!RotatingDisc::new(f(0.3), f(0.0), f(0.0), f(1.0), false).moves());
    let shape = disc.shape(f(160.0), f(164.0));
    assert_eq!((n(shape.radius), n(shape.center_y)), (78.0, 82.0));
    assert_eq!(n(shape.label_radius), 78.0 * 0.35f32);
    assert_eq!(n(shape.hole_radius), 78.0 * 0.05f32);
    let angles = disc.marker_angles();
    assert_eq!(n(angles[0]), 0.3f32 * 10.0);
    assert_eq!(n(angles[1]), 0.3f32 * 10.0 + PI / 1.5);
    assert_eq!(n(angles[2]), 0.3f32 * 10.0 - PI / 1.5);
    let (start, end) = shape.marker(f(1.0), f(0.0));
    assert_eq!(n(start.0), 80.0 + 78.0 * 0.25f32);
    assert_eq!(n(end.0), 80.0 + 78.0 * 0.75f32);
    assert_eq!(n(end.1), 82.0);
    let label = disc.label(f(82.0), f(20.0));
    assert!(label.shown && label.shows_prev && label.shows_bpm);
    assert_eq!(n(label.eased), 0.75);
    assert_eq!(n(label.prev_y), 82.0 - 20.0 * 0.25 - 0.75 * (20.0 * 0.9f32));
    assert_eq!(n(label.bpm_y), 82.0 - 20.0 * 0.25 + 0.25 * (20.0 * 0.9f32));
    assert_eq!(n(label.prev_alpha), 0.25);
    assert_eq!(n(label.unit_alpha), 0.7f32 * 0.75);
}

#[test]
fn what_is_shown_of_a_deck() {
    assert_eq!(status(true, true), Status::Loading);
    assert_eq!(status(false, true), Status::Playing);
    assert_eq!(status(false, false), Status::Stopped);
    let mut deck = Deck::new();
    assert_eq!(played(&deck).map(|x| f64::from_bits(x.to_bits())), Some(0.0));
    assert!(tempo_to_show(&deck).is_none());
    deck.duration = at(4000);
    deck.sample_rate = 1000;
    deck.control_cursor = 1000.0f64.to_bits();
    deck.bpm = f(120.0);
    assert_eq!(played(&deck).map(|x| f64::from_bits(x.to_bits())), Some(0.25));
    assert_eq!(tempo_to_show(&deck).map(n), Some(120.0));
    deck.control_cursor = (-1000.0f64).to_bits();
    assert!(played(&deck).is_none());
    assert_eq!(n(disc_rotation(f(0.25))), 0.25 * PI * 20.0);
    assert!(matches!(
        outline_message(1, WaveformOutput::Released),
        Message::DeckScratch(1, v) if n(v) == 1.0
    ));
    assert!(matches!(
        outline_message(0, WaveformOutput::Seek(f(0.5))),
        Message::DeckSeek(0, v) if n(v) == 0.5
    ));
    assert!(matches!(
        outline_message(0, WaveformOutput::Zoom(f(2.0))),
        Message::DeckZoom(0, v) if n(v) == 2.0
    ));
}

#[test]
fn panel_and_scene_of_a_deck() {
    let mut app = App::new();
    app.mixer.decks[1].duration = at(4000);
    app.mixer.decks[1].sample_rate = 1000;
    app.mixer.decks[1].control_cursor = 1000.0f64.to_bits();
    app.mixer.decks[1].bpm = f(120.0);
    app.mixer.decks[1].waveform = points(3);
    let quiet = deck_panel(1, &app.mixer.decks[1], &app.mixer.states[1]);
    assert_eq!((quiet.title, quiet.button, quiet.status), ("DECK B", "PLAY", "Stopped"));
    assert!(matches!(quiet.press, Message::DeckPlay(1)));
    assert_eq!((quiet.metronome, quiet.tempo), ("METRO OFF", Some(f(120.0))));
    assert_eq!(quiet.reading, None);
    app.update(Message::DeckPlay(1));
    app.update(Message::DeckMetronome(1));
    app.update(Message::FilePicked(1, Some("next".to_string())));
    app.update(Message::DeckProgress(1, f(0.5)));
    let busy = deck_panel(1, &app.mixer.decks[1], &app.mixer.states[1]);
    assert_eq!((busy.button, busy.status, busy.metronome), ("PAUSE", "Loading...", "METRO ON"));
    assert!(matches!(busy.press, Message::DeckPause(1)));
    assert_eq!(busy.reading, Some(f(0.5)));
    assert_eq!((busy.eq_high, busy.speed), (f(0.5), f(1.0)));
    let empty = deck_panel(0, &app.mixer.decks[0], &app.mixer.states[0]);
    assert_eq!((empty.title, empty.tempo), ("DECK A", None));
    app.update(Message::DeckZoom(1, f(3.0)));
    app.animations[1].start_wipe();
    let shown = scene(&app, 1).unwrap();
    assert_eq!(shown.outline.data.len(), 3);
    assert_eq!((n(shown.outline.pos), n(shown.outline.zoom)), (0.25, 3.0));
    assert_eq!(shown.outline.sample_rate, 44100);
    assert_eq!(n(shown.disc.rotation), 0.25 * PI * 20.0);
    assert!(shown.disc.is_playing);
    assert_eq!(shown.wipe.map(|w| n(w.progress)), Some(0.0));
    assert!(scene(&app, 0).unwrap().wipe.is_none());
    app.mixer.decks[1].control_cursor = f64::NAN.to_bits();
    assert!(scene(&app, 1).is_none());
}

#[test]
fn zoom_stays_in_its_range() {
    let w = Waveform::new(points(10), f(0.5), f(120.0), f(0.0), 44100, f(1.0));
    let mut state = WaveformState::Idle;
    for y in [-1e9f32, -100.0, -1.0, 1.0, 1e9] {
        match w.update(&mut state, WaveformEvent::Scrolled(f(y)), Some(f(1.0))) {
            (true, Some(WaveformOutput::Zoom(z))) => assert!((0.2..=5.0).contains(&n(z))),
            other => panic!("{other:?}"),
        }
    }
}

use enfuse::animation::{counter_step, wipe_step, Animation};
use enfuse::app::{App, Message};
use enfuse::audio::deck::{DeckData, SinkCommand};
use enfuse::audio::monitor::{absorb, drain, mix_decks, open_tap, SpySource, KEPT, RING_SIZE};
use enfuse::audio::span::TimeSpan;
use enfuse::float::single::F32;
use enfuse::leg::{
    loaded_message, outline_message, progress_message, side_panel, DixApp, Message as Side,
};
use enfuse::midi::{choose_port, find_last, find_part, hex};
use enfuse::mixer::{fade, faded, Action};
use enfuse::ui::waveform::WaveformOutput;
use std::collections::VecDeque;

fn f(x: f32) -> F32 {
    F32::from_bits(x.to_bits())
}

fn n(x: F32) -> f32 {
    f32::from_bits(x.to_bits())
}

fn track(bpm: f32) -> DeckData {
    DeckData {
        samples: vec![f(0.25); 4000],
        waveform: Vec::new(),
        channels: 2,
        sample_rate: 1000,
        duration: TimeSpan { secs: 2, nanos: 0 },
        bpm: f(bpm),
        beat_offset: f(0.5),
        path: "track".to_string(),
    }
}

fn silent_tick() -> Message {
    Message::Tick(vec![Vec::new(), Vec::new()])
}

#[test]
fn crossfader_spares_its_own_side() {
    for v in [-1.0f32, -0.5, 0.0, 0.5, 1.0] {
        let want_a = if v > 0.0 { 1.0 - v } else { 1.0 };
        let want_b = if v < 0.0 { 1.0 + v } else { 1.0 };
        assert_eq!(n(fade(f(v), 0)), want_a);
        assert_eq!(n(fade(f(v), 1)), want_b);
        assert_eq!(faded(f(v), 0), v > 0.0);
        assert_eq!(faded(f(v), 1), v < 0.0);
    }
    let mut app = App::new();
    app.update(Message::VolumeChanged(1, f(0.5)));
    app.update(Message::CrossfaderChanged(f(1.0)));
    assert_eq!(n(app.mixer.decks[0].volume), 0.0);
    assert_eq!(n(app.mixer.decks[1].volume), 0.5);
    app.update(Message::CrossfaderChanged(f(-1.0)));
    assert_eq!(n(app.mixer.decks[0].volume), 1.0);
    assert_eq!(n(app.mixer.decks[1].volume), 0.0);
}

#[test]
fn crossfader_only_takes_away() {
    let mut app = App::new();
    for volume in [0.0f32, 0.3, 0.99, 1.0, 5.0] {
        for id in 0..2 {
            app.update(Message::VolumeChanged(id, f(volume)));
        }
        for step in -10..=10 {
            app.update(Message::CrossfaderChanged(f(step as f32 / 10.0)));
            for id in 0..2 {
                let out = n(app.mixer.decks[id].volume);
                assert!(out >= 0.0 && out <= volume);
            }
        }
    }
}

#[test]
fn loading_plays_wipes_and_shows_the_tempo() {
    let mut app = App::new();
    assert!(matches!(app.update(Message::DeckLoad(0))[..], [Action::PickFile(0)]));
    app.update(Message::FilePicked(0, Some("track".to_string())));
    assert_eq!(app.mixer.states[0].loading.as_deref(), Some("track"));
    // One file at a time.
    assert!(app.update(Message::DeckLoad(0)).is_empty());
    app.update(Message::FilePicked(0, Some("other".to_string())));
    assert_eq!(app.mixer.states[0].loading.as_deref(), Some("track"));
    app.update(Message::DeckProgress(0, f(0.5)));
    assert_eq!(n(app.mixer.states[0].progress), 0.5);
    let actions = app.update(Message::DeckLoaded(0, Ok(track(124.0))));
    assert!(matches!(
        actions[..],
        [
            Action::Sink(0, SinkCommand::Nothing),
            Action::Sink(0, SinkCommand::Start),
            Action::Sink(0, SinkCommand::SetVolume(_)),
            Action::Sink(1, SinkCommand::Nothing),
        ]
    ));
    assert!(app.mixer.states[0].loading.is_none());
    assert!(app.mixer.decks[0].is_playing);
    assert!(app.animations[0].wipe_animating);
    assert_eq!(n(app.animations[0].bpm_display), 124.0);
    assert!(app.needs_ticks());
    let again = app.update(Message::DeckLoaded(0, Ok(track(90.0))));
    assert!(matches!(again[0], Action::Sink(0, SinkCommand::Stop)));
}

#[test]
fn failed_loading_is_reported_and_changes_no_deck() {
    let mut app = App::new();
    app.update(Message::DeckLoaded(1, Ok(track(100.0))));
    app.update(Message::FilePicked(1, Some("x".to_string())));
    let actions = app.update(Message::DeckLoaded(1, Err("no such file".to_string())));
    match &actions[0] {
        Action::Report(1, text) => assert_eq!(text, "no such file"),
        other => panic!("{other:?}"),
    }
    assert!(app.mixer.states[1].loading.is_none());
    assert!(app.mixer.decks[1].is_playing);
    assert_eq!(n(app.mixer.decks[1].bpm), 100.0);
    app.update(Message::FilePicked(1, None));
    assert!(app.mixer.states[1].loading.is_none());
}

#[test]
fn controls_reach_their_deck_alone() {
    let mut app = App::new();
    app.update(Message::DeckLoaded(0, Ok(track(120.0))));
    app.update(Message::DeckSpeed(0, f(1.1)));
    assert_eq!(n(app.mixer.decks[0].user_speed), 1.1);
    assert_eq!(n(app.animations[0].bpm_display), 120.0 * 1.1f32);
    assert_eq!(n(app.animations[0].bpm_display_prev), 120.0);
    app.update(Message::DeckZoom(0, f(2.0)));
    app.update(Message::DeckHigh(0, f(0.9)));
    app.update(Message::DeckMid(0, f(0.8)));
    app.update(Message::DeckLow(0, f(0.7)));
    assert_eq!(n(app.mixer.states[0].eq_high), 0.9);
    assert_eq!(app.mixer.decks[0].high, 0.9f32.to_bits());
    assert_eq!(app.mixer.decks[0].mid, 0.8f32.to_bits());
    assert_eq!(app.mixer.decks[0].low, 0.7f32.to_bits());
    app.update(Message::DeckScratch(0, f(-3.0)));
    assert_eq!(app.mixer.decks[0].control_speed, (-3.0f32).to_bits());
    app.update(Message::DeckSeek(0, f(0.5)));
    assert_eq!(f64::from_bits(app.mixer.decks[0].control_cursor), 1000.0);
    app.update(Message::DeckSeek(0, f(-1.0)));
    assert_eq!(f64::from_bits(app.mixer.decks[0].control_cursor), 1000.0);
    app.update(Message::DeckMetronome(0));
    assert!(app.mixer.decks[0].metronome_enabled);
    assert!(matches!(
        app.update(Message::DeckPause(0))[..],
        [Action::Sink(0, SinkCommand::Pause)]
    ));
    assert!(matches!(
        app.update(Message::DeckPlay(0))[..],
        [Action::Sink(0, SinkCommand::Resume)]
    ));
    let other = &app.mixer.decks[1];
    assert!(!other.is_playing && !other.metronome_enabled && other.samples.is_empty());
    assert_eq!(n(app.mixer.states[1].zoom_level), 1.0);
    assert_eq!(n(app.animations[1].bpm_display), 0.0);
}

#[test]
fn beat_matching_asks_only_a_deck_with_a_beat() {
    let mut app = App::new();
    assert!(app.update(Message::DeckBeatMatch(1)).is_empty());
    app.update(Message::DeckLoaded(0, Ok(track(120.0))));
    match &app.update(Message::DeckBeatMatch(1))[..] {
        [Action::BeatMatch(1, bpm, speed, offset, Some(pos))] => {
            assert_eq!((n(*bpm), n(*speed), n(*offset)), (120.0, 1.0, 0.5));
            assert_eq!(*pos, TimeSpan::zero());
        },
        other => panic!("{other:?}"),
    }
    app.mixer.decks[1].bpm = f(60.0);
    app.update(Message::BeatMatched(1));
    assert_eq!(n(app.animations[1].bpm_display), 60.0);
}

#[test]
fn a_tick_moves_everything_on() {
    let mut app = App::new();
    app.update(Message::DeckLoaded(0, Ok(track(120.0))));
    app.update(Message::DeckMetronome(0));
    let actions = app.update(Message::Tick(vec![vec![f(1.0); 3], vec![f(2.0); 2]]));
    assert!(matches!(actions[..], [Action::Show]));
    assert_eq!(app.mix.len(), 1024);
    let mix: Vec<f32> = app.mix[..4].iter().map(|&x| n(x)).collect();
    assert_eq!(mix, vec![3.0, 3.0, 1.0, 0.0]);
    app.mixer.decks[0].control_cursor = 600.0f64.to_bits();
    let actions = app.update(silent_tick());
    assert!(matches!(actions[..], [Action::Show, Action::Sound(_)]));
    app.update(Message::Spectrum(vec![f(5.0), f(6.0), f(7.0), f(8.0)]));
    let shown: Vec<f32> = app.spectrum_display.iter().map(|&x| n(x)).collect();
    assert_eq!(shown, vec![5.0, 6.0]);
    match &app.update(Message::Midi(vec![1, 2]))[..] {
        [Action::Note(bytes)] => assert_eq!(bytes, &vec![1, 2]),
        other => panic!("{other:?}"),
    }
}

#[test]
fn animations_run_to_their_end_and_stop() {
    assert_eq!(n(wipe_step()), 16.0f32 / 1000.0 / 0.5);
    assert_eq!(n(counter_step()), 16.0f32 / 1000.0 / 0.35);
    let mut app = App::new();
    app.update(Message::DeckLoaded(0, Ok(track(120.0))));
    app.update(Message::DeckPause(0));
    let mut ticks = 0;
    while app.needs_ticks() {
        app.update(silent_tick());
        ticks += 1;
        assert!(ticks < 100);
    }
    assert!(ticks >= 31 && ticks <= 33, "{ticks}");
    assert_eq!(n(app.animations[0].wipe_progress), 1.0);
    assert_eq!(n(app.animations[0].bpm_anim), 1.0);
    let mut a = Animation::default();
    a.set_bpm_display(f(0.04));
    assert_eq!(n(a.bpm_display), 0.0);
    a.set_bpm_display(f(0.06));
    assert_eq!(n(a.bpm_anim), 0.0);
    a.start_wipe();
    a.tick_wipe();
    a.tick_bpm_anim();
    assert_eq!(a.wipe_progress, wipe_step());
    assert_eq!(a.bpm_anim, counter_step());
}

#[test]
fn sides_are_decks() {
    let mut app = DixApp::new();
    app.update(Side::VolumeBChanged(f(0.25)));
    assert_eq!(n(app.app.mixer.decks[1].volume), 0.25);
    assert!(matches!(app.update(Side::DeckBLoad)[..], [Action::PickFile(1)]));
    app.update(Side::DeckBPicked(Some("b".to_string())));
    app.update(Side::DeckBLoaded(Ok(track(100.0))));
    assert!(app.needs_ticks());
    app.update(Side::DeckBPause);
    assert!(!app.needs_ticks());
    app.update(Side::DeckAMetronome);
    assert!(app.app.mixer.decks[0].metronome_enabled);
    app.update(Side::CrossfaderChanged(f(-0.5)));
    assert_eq!(n(app.app.mixer.decks[1].volume), 0.125);
    app.update(Side::DeckBSeek(f(1.0)));
    assert_eq!(f64::from_bits(app.app.mixer.decks[1].control_cursor), 2000.0);
    app.update(Side::DeckASpeed(f(0.8)));
    assert_eq!(n(app.app.mixer.decks[0].user_speed), 0.8);
    app.update(Side::Tick(vec![vec![f(1.0)], vec![]]));
    assert_eq!(n(app.app.mix[0]), 1.0);
}

#[test]
fn sides_have_messages_of_their_own() {
    let x = f(0.25);
    assert!(matches!(outline_message(0, WaveformOutput::Seek(x)), Side::DeckASeek(p) if p == x));
    assert!(matches!(outline_message(1, WaveformOutput::Seek(x)), Side::DeckBSeek(p) if p == x));
    assert!(matches!(outline_message(0, WaveformOutput::Zoom(x)), Side::DeckAZoom(z) if z == x));
    assert!(matches!(outline_message(1, WaveformOutput::Zoom(x)), Side::DeckBZoom(z) if z == x));
    let scratch = WaveformOutput::Scratch(x);
    assert!(matches!(outline_message(0, scratch), Side::DeckAScratch(v) if v == x));
    assert!(matches!(outline_message(1, scratch), Side::DeckBScratch(v) if v == x));
    let released = WaveformOutput::Released;
    assert!(matches!(outline_message(0, released), Side::DeckAScratch(v) if n(v) == 1.0));
    assert!(matches!(outline_message(1, released), Side::DeckBScratch(v) if n(v) == 1.0));
    assert!(matches!(progress_message(0, x), Side::DeckAProgress(p) if p == x));
    assert!(matches!(progress_message(1, x), Side::DeckBProgress(p) if p == x));
    let failed = || Err("no track".to_string());
    assert!(matches!(loaded_message(0, failed()), Side::DeckALoaded(Err(_))));
    assert!(matches!(loaded_message(1, failed()), Side::DeckBLoaded(Err(_))));
}

#[test]
fn a_side_shows_its_deck() {
    let mut app = DixApp::new();
    let panel = side_panel(1, &app.app.mixer.decks[1], &app.app.mixer.states[1]);
    assert_eq!((panel.title, panel.button, panel.status), ("DECK B", "PLAY", "Stopped"));
    assert!(matches!(panel.press, Side::DeckBPlay));
    assert!(matches!(panel.load, Side::DeckBLoad));
    assert!(matches!(panel.toggle, Side::DeckBMetronome));
    assert_eq!(panel.metronome, "🔔 OFF");
    assert!(panel.tempo.is_none() && panel.reading.is_none());
    app.update(Side::DeckAMetronome);
    app.update(Side::DeckALoad);
    app.update(Side::DeckAPicked(Some("a".to_string())));
    app.update(Side::DeckAProgress(f(0.25)));
    let panel = side_panel(0, &app.app.mixer.decks[0], &app.app.mixer.states[0]);
    assert_eq!((panel.title, panel.status), ("DECK A", "Loading..."));
    assert_eq!(panel.reading.map(n), Some(0.25));
    assert_eq!(panel.metronome, "🔔 ON");
    app.update(Side::DeckALoaded(Ok(track(100.0))));
    app.update(Side::DeckASpeed(f(0.5)));
    app.update(Side::DeckAPlay);
    let panel = side_panel(0, &app.app.mixer.decks[0], &app.app.mixer.states[0]);
    assert_eq!((panel.button, panel.status), ("PAUSE", "Playing"));
    assert!(matches!(panel.press, Side::DeckAPause));
    // The tempo of the track, whatever its speed.
    assert_eq!((panel.tempo.map(n), n(panel.speed)), (Some(100.0), 0.5));
}

#[test]
fn a_tap_passes_samples_on_and_keeps_their_order() {
    let (producer, mut consumer) = open_tap();
    let mut spy = SpySource::new(producer);
    for i in 0..10 {
        assert_eq!(spy.next(Some(f(i as f32))), Some(f(i as f32)));
    }
    assert_eq!(spy.next(None), None);
    let heard: Vec<f32> = drain(&mut consumer).iter().map(|&x| n(x)).collect();
    assert_eq!(heard, (0..10).map(|i| i as f32).collect::<Vec<f32>>());
    assert!(drain(&mut consumer).is_empty());
    // What does not fit is passed on all the same, and lost to the tap.
    for i in 0..RING_SIZE + 5 {
        assert_eq!(spy.next(Some(f(i as f32))), Some(f(i as f32)));
    }
    let heard = drain(&mut consumer);
    assert_eq!(heard.len(), RING_SIZE);
    assert_eq!(n(heard[RING_SIZE - 1]), (RING_SIZE - 1) as f32);
}

#[test]
fn the_last_samples_are_kept_and_mixed() {
    let mut kept = VecDeque::new();
    let fresh: Vec<F32> = (0..3000).map(|i| f(i as f32)).collect();
    absorb(&mut kept, &fresh);
    assert_eq!(kept.len(), KEPT);
    assert_eq!(n(kept[0]), 952.0);
    absorb(&mut kept, &vec![f(-1.0)]);
    assert_eq!(kept.len(), KEPT);
    assert_eq!(n(kept[KEPT - 1]), -1.0);
    let short: VecDeque<F32> = vec![f(1.0), f(2.0)].into();
    let mix = mix_decks(&vec![kept, short], &vec![f(0.5), f(2.0)]);
    assert_eq!(mix.len(), 1024);
    // Of 2048 samples from 953 on, the last 1024 begin with 1977.
    assert_eq!(n(mix[0]), 1977.0 * 0.5 + 1.0 * 2.0);
    assert_eq!(n(mix[1]), 1978.0 * 0.5 + 2.0 * 2.0);
    assert_eq!(n(mix[2]), 1979.0 * 0.5);
}

fn strings(v: &[&str]) -> Vec<String> {
    v.iter().map(|s| s.to_string()).collect()
}

#[test]
fn the_last_port_of_the_controller_is_chosen() {
    assert_eq!(choose_port(&strings(&["Through", "ddj-flx4 1", "ddj-flx4 2", "Synth"])), Some(2));
    assert_eq!(choose_port(&strings(&["My Flx 4 pad"])), Some(0));
    assert_eq!(choose_port(&strings(&["Synth", "FLX5"])), None);
    assert_eq!(choose_port(&[].to_vec()), None);
    assert_eq!(find_last(&strings(&["abc", "xbz", "q"]), &strings(&["b", "k"])), Some(1));
    // Only the names in upper case are compared.
    assert_eq!(find_last(&strings(&["abc"]), &strings(&["B"])), None);
    assert!(find_part("größe", "öß"));
    assert!(!find_part("ab", "abc"));
    assert!(find_part("ab", ""));
}

#[test]
fn bytes_are_written_in_hexadecimal() {
    assert_eq!(hex(&vec![0x90, 0x0a, 0xff]), "90 0A FF");
    assert_eq!(hex(&vec![7]), "07");
    assert_eq!(hex(&vec![]), "");
    let every: Vec<u8> = (0..=255).collect();
    let want = every.iter().map(|b| format!("{b:02X}")).collect::<Vec<_>>().join(" ");
    assert_eq!(hex(&every), want);
}

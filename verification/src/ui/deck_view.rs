//! What is shown of a deck.
use vstd::prelude::*;
use crate::analysis::waveform::WaveformPoint;
use crate::animation::Animation;
use crate::app::{App, Message};
use crate::audio::deck::{Deck, DECK_COUNT};
use crate::float::double::F64;
use crate::float::single::F32;
use crate::mixer::DeckState;
use crate::window::pi;
use super::disc::RotatingDisc;
use super::waveform::{Waveform, WaveformOutput};
use super::wipe::WipeOverlay;

verus! {

/// What a deck is doing.
#[derive(Clone, Copy, Debug, PartialEq, Eq, Structural)]
pub enum Status {
    Loading,
    Playing,
    Stopped,
}

/// What a deck is doing.
#[verifier::allow_in_spec]
pub fn status(is_loading: bool, is_playing: bool) -> Status
    returns
        (if is_loading {
            Status::Loading
        } else if is_playing {
            Status::Playing
        } else {
            Status::Stopped
        }),
{
    if is_loading {
        Status::Loading
    } else if is_playing {
        Status::Playing
    } else {
        Status::Stopped
    }
}

/// The share of the track that is behind, zero where the track has no length;
/// none where the place is not a time.
pub open spec fn share_played(deck: Deck) -> Option<F64> {
    let length = deck.duration.as_secs_double();
    if length.gt(F64::zero()) {
        match deck.position() {
            Some(pos) => Some(pos.as_secs_double().over(length)),
            None => None,
        }
    } else {
        Some(F64::zero())
    }
}

/// The share of the track that is behind.
pub fn played(deck: &Deck) -> (r: Option<F64>)
    ensures
        r == share_played(*deck),
{
    let length: F64 = deck.duration.as_secs_double();
    if !length.gt(F64::zero()) {
        return Some(F64::zero());
    }
    match deck.get_position() {
        Some(pos) => Some(pos.as_secs_double().over(length)),
        None => None,
    }
}

/// The angle of the disc: ten turns from the beginning of a track to its end.
#[verifier::allow_in_spec]
pub fn disc_rotation(share: F32) -> F32
    returns
        share.times(pi()).times(F32::nearest_to(20)),
{
    share.times(pi()).times(F32::whole(20))
}

/// The tempo to write for a deck: the one at its speed, none where it has none.
pub fn tempo_to_show(deck: &Deck) -> (r: Option<F32>)
    ensures
        r == if deck.bpm.gt(F32::zero()) {
            Some(deck.effective_bpm())
        } else {
            None
        },
{
    if deck.bpm.gt(F32::zero()) {
        Some(deck.effective_bpm())
    } else {
        None
    }
}

/// What the outline of a deck asks for; a record that is let go plays on at
/// normal speed.
pub open spec fn message_of(id: usize, output: WaveformOutput) -> Message {
    match output {
        WaveformOutput::Seek(share) => Message::DeckSeek(id, share),
        WaveformOutput::Scratch(speed) => Message::DeckScratch(id, speed),
        WaveformOutput::Zoom(zoom) => Message::DeckZoom(id, zoom),
        WaveformOutput::Released => Message::DeckScratch(id, F32::nearest_to(1)),
    }
}

/// What the outline of a deck asks for.
pub fn outline_message(id: usize, output: WaveformOutput) -> (r: Message)
    ensures
        r == message_of(id, output),
{
    match output {
        WaveformOutput::Seek(share) => Message::DeckSeek(id, share),
        WaveformOutput::Scratch(speed) => Message::DeckScratch(id, speed),
        WaveformOutput::Zoom(zoom) => Message::DeckZoom(id, zoom),
        WaveformOutput::Released => Message::DeckScratch(id, F32::whole(1)),
    }
}

/// What the panel of a deck says and offers.
pub struct DeckPanel {
    pub title: &'static str,
    /// The button that plays or pauses, and what pressing it means.
    pub button: &'static str,
    pub press: Message,
    pub status: &'static str,
    pub metronome: &'static str,
    /// The tempo to write, if there is one.
    pub tempo: Option<F32>,
    pub speed: F32,
    /// How far reading has come, while a file is being read; else a file can be
    /// asked for.
    pub reading: Option<F32>,
    pub eq_high: F32,
    pub eq_mid: F32,
    pub eq_low: F32,
}

/// What a deck is doing, in a word.
pub open spec fn status_text(status: Status) -> Seq<char> {
    match status {
        Status::Loading => "Loading..."@,
        Status::Playing => "Playing"@,
        Status::Stopped => "Stopped"@,
    }
}

/// The panel of a deck.
pub fn deck_panel(id: usize, deck: &Deck, state: &DeckState) -> (r: DeckPanel)
    ensures
        r.title@ == if id == 0 {
            "DECK A"@
        } else {
            "DECK B"@
        },
        r.button@ == if deck.is_playing {
            "PAUSE"@
        } else {
            "PLAY"@
        },
        r.press == if deck.is_playing {
            Message::DeckPause(id)
        } else {
            Message::DeckPlay(id)
        },
        r.status@ == status_text(status(state.loading is Some, deck.is_playing)),
        r.metronome@ == if deck.metronome_enabled {
            "METRO ON"@
        } else {
            "METRO OFF"@
        },
        r.tempo == if deck.bpm.gt(F32::zero()) {
            Some(deck.effective_bpm())
        } else {
            None
        },
        r.speed == deck.user_speed,
        r.reading == if state.loading is Some {
            Some(state.progress)
        } else {
            None
        },
        r.eq_high == state.eq_high,
        r.eq_mid == state.eq_mid,
        r.eq_low == state.eq_low,
{
    DeckPanel {
        title: if id == 0 {
            "DECK A"
        } else {
            "DECK B"
        },
        button: if deck.is_playing {
            "PAUSE"
        } else {
            "PLAY"
        },
        press: if deck.is_playing {
            Message::DeckPause(id)
        } else {
            Message::DeckPlay(id)
        },
        status: match status(state.loading.is_some(), deck.is_playing) {
            Status::Loading => "Loading...",
            Status::Playing => "Playing",
            Status::Stopped => "Stopped",
        },
        metronome: if deck.metronome_enabled {
            "METRO ON"
        } else {
            "METRO OFF"
        },
        tempo: tempo_to_show(deck),
        speed: deck.user_speed,
        reading: if state.loading.is_some() {
            Some(state.progress)
        } else {
            None
        },
        eq_high: state.eq_high,
        eq_mid: state.eq_mid,
        eq_low: state.eq_low,
    }
}

/// The sample rate that outlines are drawn for.
pub const OUTLINE_RATE: u32 = 44100;

/// What moves on the screen for a deck.
pub struct Scene {
    pub outline: Waveform,
    pub disc: RotatingDisc,
    /// The wipe over the deck, while it runs.
    pub wipe: Option<WipeOverlay>,
}

/// The points of an outline.
fn copy_points(points: &Vec<WaveformPoint>) -> (r: Vec<WaveformPoint>)
    ensures
        r@ == points@,
{
    let mut out: Vec<WaveformPoint> = Vec::new();
    let mut i: usize = 0;
    while i < points.len()
        invariant
            i <= points@.len(),
            out@ == points@.take(i as int),
        decreases points@.len() - i,
    {
        out.push(points[i]);
        assert(points@.take(i + 1) =~= points@.take(i as int).push(points@[i as int]));
        i = i + 1;
    }
    assert(out@ =~= points@);
    out
}

/// What moves on the screen for a deck. There is no answer where its place is not
/// a time.
pub fn scene(app: &App, id: usize) -> (r: Option<Scene>)
    requires
        app.wf(),
        id < DECK_COUNT,
    ensures
        match share_played(app.mixer.decks@[id as int]) {
            Some(share) => {
                let deck = app.mixer.decks@[id as int];
                let moving = app.animations@[id as int];
                let pos = share.to_single();
                &&& r matches Some(s)
                &&& s.outline.data@ == deck.waveform@
                &&& s.outline.pos == pos
                &&& s.outline.bpm == deck.bpm
                &&& s.outline.beat_offset == deck.beat_offset
                &&& s.outline.sample_rate == OUTLINE_RATE
                &&& s.outline.zoom == app.mixer.states@[id as int].zoom_level
                &&& s.disc == RotatingDisc::new(
                    disc_rotation(pos),
                    moving.bpm_display_prev,
                    moving.bpm_display,
                    moving.bpm_anim,
                    deck.is_playing,
                )
                &&& s.wipe == if moving.wipe_animating {
                    Some(WipeOverlay { progress: moving.wipe_progress })
                } else {
                    None
                }
            },
            None => r is None,
        },
{
    let deck: &Deck = &app.mixer.decks[id];
    let moving: Animation = app.animations[id];
    match played(deck) {
        Some(share) => {
            let pos: F32 = share.to_single();
            let outline: Waveform = Waveform::new(
                copy_points(&deck.waveform),
                pos,
                deck.bpm,
                deck.beat_offset,
                OUTLINE_RATE,
                app.mixer.states[id].zoom_level,
            );
            let disc: RotatingDisc = RotatingDisc::new(
                disc_rotation(pos),
                moving.bpm_display_prev,
                moving.bpm_display,
                moving.bpm_anim,
                deck.is_playing,
            );
            let wipe: Option<WipeOverlay> = if moving.wipe_animating {
                Some(WipeOverlay { progress: moving.wipe_progress })
            } else {
                None
            };
            Some(Scene { outline, disc, wipe })
        },
        None => None,
    }
}

} // verus!

//! The mixer with a message of its own for each side, and nothing moving.
use vstd::prelude::*;
use crate::app::{in_range, App, Message as Event};
use crate::audio::deck::{Deck, DeckData, DECK_COUNT};
use crate::float::single::F32;
use crate::mixer::{fresh_deck, Action, DeckState};
use crate::ui::deck_view::{message_of, status, status_text, Status};
use crate::ui::waveform::WaveformOutput;

verus! {

/// What can happen, by side: `A` is the deck on the left, `B` the one on the
/// right.
#[derive(Debug)]
pub enum Message {
    /// A tick, with the samples of each deck that have been heard since.
    Tick(Vec<Vec<F32>>),
    DeckAPlay,
    DeckAPause,
    DeckALoad,
    DeckAPicked(Option<String>),
    DeckAProgress(F32),
    DeckALoaded(Result<DeckData, String>),
    DeckASpeed(F32),
    DeckBPlay,
    DeckBPause,
    DeckBLoad,
    DeckBPicked(Option<String>),
    DeckBProgress(F32),
    DeckBLoaded(Result<DeckData, String>),
    DeckBSpeed(F32),
    DeckAZoom(F32),
    DeckBZoom(F32),
    DeckAHigh(F32),
    DeckAMid(F32),
    DeckALow(F32),
    DeckBHigh(F32),
    DeckBMid(F32),
    DeckBLow(F32),
    VolumeAChanged(F32),
    VolumeBChanged(F32),
    CrossfaderChanged(F32),
    DeckASeek(F32),
    DeckBSeek(F32),
    DeckAScratch(F32),
    DeckBScratch(F32),
    DeckAMetronome,
    DeckBMetronome,
    /// The magnitudes of the mix on display.
    Spectrum(Vec<F32>),
}

impl Message {
    /// The event that a message stands for.
    pub open spec fn event(self) -> Event {
        match self {
            Message::Tick(fresh) => Event::Tick(fresh),
            Message::DeckAPlay => Event::DeckPlay(0),
            Message::DeckAPause => Event::DeckPause(0),
            Message::DeckALoad => Event::DeckLoad(0),
            Message::DeckAPicked(path) => Event::FilePicked(0, path),
            Message::DeckAProgress(p) => Event::DeckProgress(0, p),
            Message::DeckALoaded(result) => Event::DeckLoaded(0, result),
            Message::DeckASpeed(v) => Event::DeckSpeed(0, v),
            Message::DeckBPlay => Event::DeckPlay(1),
            Message::DeckBPause => Event::DeckPause(1),
            Message::DeckBLoad => Event::DeckLoad(1),
            Message::DeckBPicked(path) => Event::FilePicked(1, path),
            Message::DeckBProgress(p) => Event::DeckProgress(1, p),
            Message::DeckBLoaded(result) => Event::DeckLoaded(1, result),
            Message::DeckBSpeed(v) => Event::DeckSpeed(1, v),
            Message::DeckAZoom(z) => Event::DeckZoom(0, z),
            Message::DeckBZoom(z) => Event::DeckZoom(1, z),
            Message::DeckAHigh(v) => Event::DeckHigh(0, v),
            Message::DeckAMid(v) => Event::DeckMid(0, v),
            Message::DeckALow(v) => Event::DeckLow(0, v),
            Message::DeckBHigh(v) => Event::DeckHigh(1, v),
            Message::DeckBMid(v) => Event::DeckMid(1, v),
            Message::DeckBLow(v) => Event::DeckLow(1, v),
            Message::VolumeAChanged(v) => Event::VolumeChanged(0, v),
            Message::VolumeBChanged(v) => Event::VolumeChanged(1, v),
            Message::CrossfaderChanged(v) => Event::CrossfaderChanged(v),
            Message::DeckASeek(p) => Event::DeckSeek(0, p),
            Message::DeckBSeek(p) => Event::DeckSeek(1, p),
            Message::DeckAScratch(v) => Event::DeckScratch(0, v),
            Message::DeckBScratch(v) => Event::DeckScratch(1, v),
            Message::DeckAMetronome => Event::DeckMetronome(0),
            Message::DeckBMetronome => Event::DeckMetronome(1),
            Message::Spectrum(magnitudes) => Event::Spectrum(magnitudes),
        }
    }

    fn into_event(self) -> (r: Event)
        ensures
            r == self.event(),
    {
        match self {
            Message::Tick(fresh) => Event::Tick(fresh),
            Message::DeckAPlay => Event::DeckPlay(0),
            Message::DeckAPause => Event::DeckPause(0),
            Message::DeckALoad => Event::DeckLoad(0),
            Message::DeckAPicked(path) => Event::FilePicked(0, path),
            Message::DeckAProgress(p) => Event::DeckProgress(0, p),
            Message::DeckALoaded(result) => Event::DeckLoaded(0, result),
            Message::DeckASpeed(v) => Event::DeckSpeed(0, v),
            Message::DeckBPlay => Event::DeckPlay(1),
            Message::DeckBPause => Event::DeckPause(1),
            Message::DeckBLoad => Event::DeckLoad(1),
            Message::DeckBPicked(path) => Event::FilePicked(1, path),
            Message::DeckBProgress(p) => Event::DeckProgress(1, p),
            Message::DeckBLoaded(result) => Event::DeckLoaded(1, result),
            Message::DeckBSpeed(v) => Event::DeckSpeed(1, v),
            Message::DeckAZoom(z) => Event::DeckZoom(0, z),
            Message::DeckBZoom(z) => Event::DeckZoom(1, z),
            Message::DeckAHigh(v) => Event::DeckHigh(0, v),
            Message::DeckAMid(v) => Event::DeckMid(0, v),
            Message::DeckALow(v) => Event::DeckLow(0, v),
            Message::DeckBHigh(v) => Event::DeckHigh(1, v),
            Message::DeckBMid(v) => Event::DeckMid(1, v),
            Message::DeckBLow(v) => Event::DeckLow(1, v),
            Message::VolumeAChanged(v) => Event::VolumeChanged(0, v),
            Message::VolumeBChanged(v) => Event::VolumeChanged(1, v),
            Message::CrossfaderChanged(v) => Event::CrossfaderChanged(v),
            Message::DeckASeek(p) => Event::DeckSeek(0, p),
            Message::DeckBSeek(p) => Event::DeckSeek(1, p),
            Message::DeckAScratch(v) => Event::DeckScratch(0, v),
            Message::DeckBScratch(v) => Event::DeckScratch(1, v),
            Message::DeckAMetronome => Event::DeckMetronome(0),
            Message::DeckBMetronome => Event::DeckMetronome(1),
            Message::Spectrum(magnitudes) => Event::Spectrum(magnitudes),
        }
    }
}

/// What the outline of a side asks for; a record that is let go plays on at
/// normal speed.
pub fn outline_message(id: usize, output: WaveformOutput) -> (r: Message)
    requires
        id < DECK_COUNT,
    ensures
        r.event() == message_of(id, output),
        r == match output {
            WaveformOutput::Seek(p) => if id == 0 {
                Message::DeckASeek(p)
            } else {
                Message::DeckBSeek(p)
            },
            WaveformOutput::Scratch(v) => if id == 0 {
                Message::DeckAScratch(v)
            } else {
                Message::DeckBScratch(v)
            },
            WaveformOutput::Zoom(z) => if id == 0 {
                Message::DeckAZoom(z)
            } else {
                Message::DeckBZoom(z)
            },
            WaveformOutput::Released => if id == 0 {
                Message::DeckAScratch(F32::nearest_to(1))
            } else {
                Message::DeckBScratch(F32::nearest_to(1))
            },
        },
{
    let left: bool = id == 0;
    match output {
        WaveformOutput::Seek(p) if left => Message::DeckASeek(p),
        WaveformOutput::Seek(p) => Message::DeckBSeek(p),
        WaveformOutput::Scratch(v) if left => Message::DeckAScratch(v),
        WaveformOutput::Scratch(v) => Message::DeckBScratch(v),
        WaveformOutput::Zoom(z) if left => Message::DeckAZoom(z),
        WaveformOutput::Zoom(z) => Message::DeckBZoom(z),
        WaveformOutput::Released if left => Message::DeckAScratch(F32::whole(1)),
        WaveformOutput::Released => Message::DeckBScratch(F32::whole(1)),
    }
}

/// How far reading for a side has come.
pub fn progress_message(id: usize, share: F32) -> (r: Message)
    requires
        id < DECK_COUNT,
    ensures
        r.event() == Event::DeckProgress(id, share),
        r == if id == 0 {
            Message::DeckAProgress(share)
        } else {
            Message::DeckBProgress(share)
        },
{
    if id == 0 {
        Message::DeckAProgress(share)
    } else {
        Message::DeckBProgress(share)
    }
}

/// What reading for a side has come to.
pub fn loaded_message(id: usize, result: Result<DeckData, String>) -> (r: Message)
    requires
        id < DECK_COUNT,
    ensures
        r.event() == Event::DeckLoaded(id, result),
        r == if id == 0 {
            Message::DeckALoaded(result)
        } else {
            Message::DeckBLoaded(result)
        },
{
    if id == 0 {
        Message::DeckALoaded(result)
    } else {
        Message::DeckBLoaded(result)
    }
}

/// What the panel of a side says and offers.
pub struct SidePanel {
    pub title: &'static str,
    /// The button that plays or pauses, and what pressing it means.
    pub button: &'static str,
    pub press: Message,
    /// What asking for a file means.
    pub load: Message,
    pub status: &'static str,
    /// The button of the metronome, and what pressing it means.
    pub metronome: &'static str,
    pub toggle: Message,
    /// The tempo of the track, if it has one.
    pub tempo: Option<F32>,
    pub speed: F32,
    /// How far reading has come, while a file is being read; else a file can be
    /// asked for.
    pub reading: Option<F32>,
    pub eq_high: F32,
    pub eq_mid: F32,
    pub eq_low: F32,
}

/// The panel of a side.
pub fn side_panel(id: usize, deck: &Deck, state: &DeckState) -> (r: SidePanel)
    requires
        id < DECK_COUNT,
    ensures
        r.title@ == if id == 0 {
            "DECK A"@
        } else {
            "DECK B"@
        },
        r.button@ == if deck.is_playing {
            "PAUSE"@
        } else {
            "PLAY"@
        },
        r.press == if id == 0 {
            if deck.is_playing {
                Message::DeckAPause
            } else {
                Message::DeckAPlay
            }
        } else {
            if deck.is_playing {
                Message::DeckBPause
            } else {
                Message::DeckBPlay
            }
        },
        r.press.event() == if deck.is_playing {
            Event::DeckPause(id)
        } else {
            Event::DeckPlay(id)
        },
        r.load == if id == 0 {
            Message::DeckALoad
        } else {
            Message::DeckBLoad
        },
        r.status@ == status_text(status(state.loading is Some, deck.is_playing)),
        r.metronome@ == if deck.metronome_enabled {
            "🔔 ON"@
        } else {
            "🔔 OFF"@
        },
        r.toggle == if id == 0 {
            Message::DeckAMetronome
        } else {
            Message::DeckBMetronome
        },
        r.tempo == if deck.bpm.gt(F32::zero()) {
            Some(deck.bpm)
        } else {
            None
        },
        r.speed == deck.user_speed,
        r.reading == if state.loading is Some {
            Some(state.progress)
        } else {
            None
        },
        r.eq_high == state.eq_high,
        r.eq_mid == state.eq_mid,
        r.eq_low == state.eq_low,
{
    let left: bool = id == 0;
    let playing: bool = deck.is_playing;
    SidePanel {
        title: if left {
            "DECK A"
        } else {
            "DECK B"
        },
        button: if playing {
            "PAUSE"
        } else {
            "PLAY"
        },
        press: if left && playing {
            Message::DeckAPause
        } else if left {
            Message::DeckAPlay
        } else if playing {
            Message::DeckBPause
        } else {
            Message::DeckBPlay
        },
        load: if left {
            Message::DeckALoad
        } else {
            Message::DeckBLoad
        },
        status: match status(state.loading.is_some(), playing) {
            Status::Loading => "Loading...",
            Status::Playing => "Playing",
            Status::Stopped => "Stopped",
        },
        metronome: if deck.metronome_enabled {
            "🔔 ON"
        } else {
            "🔔 OFF"
        },
        toggle: if left {
            Message::DeckAMetronome
        } else {
            Message::DeckBMetronome
        },
        tempo: if deck.bpm.gt(F32::zero()) {
            Some(deck.bpm)
        } else {
            None
        },
        speed: deck.user_speed,
        reading: if state.loading.is_some() {
            Some(state.progress)
        } else {
            None
        },
        eq_high: state.eq_high,
        eq_mid: state.eq_mid,
        eq_low: state.eq_low,
    }
}

/// The mixer, addressed by side.
pub struct DixApp {
    pub app: App,
}

impl DixApp {
    /// Two empty decks.
    pub fn new() -> (r: DixApp)
        ensures
            r.app.wf(),
            r.app.mixer.crossfader == F32::zero(),
            forall|id: int|
                0 <= id < DECK_COUNT ==> (#[trigger] r.app.mixer.states@[id])
                    == DeckState::initial(),
            forall|id: int|
                0 <= id < DECK_COUNT ==> fresh_deck(#[trigger] r.app.mixer.decks@[id]),
            forall|id: int|
                0 <= id < DECK_COUNT ==> (#[trigger] r.app.mixer@.kept[id]) == Seq::<F32>::empty(),
            r.app.spectrum_display@ == Seq::<F32>::empty(),
    {
        DixApp { app: App::new() }
    }

    /// Takes a message in, and says what it asks for.
    pub fn update(&mut self, message: Message) -> (r: Vec<Action>)
        requires
            old(self).app.wf(),
            in_range(message.event()),
        ensures
            final(self).app.wf(),
            final(self).app@ == old(self).app@.updated(message.event()),
            r@ == old(self).app@.actions(message.event()),
    {
        self.app.update(message.into_event())
    }

    /// Whether ticks are needed: something plays.
    pub fn needs_ticks(&self) -> (r: bool)
        requires
            self.app.wf(),
        ensures
            r == (self.app.mixer.decks@[0].is_playing || self.app.mixer.decks@[1].is_playing),
    {
        self.app.mixer.decks[0].is_playing || self.app.mixer.decks[1].is_playing
    }
}

} // verus!

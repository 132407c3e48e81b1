//! What happens on every event.
use vstd::prelude::*;
use crate::analysis::spectrum::compute_spectrum;
use crate::animation::Animation;
use crate::audio::deck::{Deck, DeckData, SinkCommand, DECK_COUNT};
use crate::audio::span::TimeSpan;
use crate::float::single::F32;
use crate::mixer::{fade, Action, DeckState, Mixer, MixerView};

verus! {

/// What can happen. Deck 0 is the one on the left, deck 1 the one on the
/// right.
#[derive(Debug)]
pub enum Message {
    /// A tick, with the samples of each deck that have been heard since.
    Tick(Vec<Vec<F32>>),
    DeckPlay(usize),
    DeckPause(usize),
    /// A file is wanted for a deck.
    DeckLoad(usize),
    /// A file was picked for a deck, or none.
    FilePicked(usize, Option<String>),
    DeckProgress(usize, F32),
    DeckLoaded(usize, Result<DeckData, String>),
    DeckSpeed(usize, F32),
    DeckZoom(usize, F32),
    DeckHigh(usize, F32),
    DeckMid(usize, F32),
    DeckLow(usize, F32),
    VolumeChanged(usize, F32),
    CrossfaderChanged(F32),
    /// A deck goes to a share of its track.
    DeckSeek(usize, F32),
    DeckScratch(usize, F32),
    DeckMetronome(usize),
    /// A deck is to be brought in time with the other one.
    DeckBeatMatch(usize),
    /// A deck was brought in time.
    BeatMatched(usize),
    /// Bytes from a controller.
    Midi(Vec<u8>),
    /// The magnitudes of the mix on display.
    Spectrum(Vec<F32>),
}

/// The state behind the screen.
pub struct App {
    pub mixer: Mixer,
    pub animations: Vec<Animation>,
    /// The last mix.
    pub mix: Vec<F32>,
    pub spectrum_display: Vec<F32>,
}

/// The state behind the screen.
pub ghost struct AppView {
    pub mixer: MixerView,
    pub animations: Seq<Animation>,
    pub mix: Seq<F32>,
    pub spectrum: Seq<F32>,
}

impl View for App {
    type V = AppView;

    open spec fn view(&self) -> AppView {
        AppView {
            mixer: self.mixer@,
            animations: self.animations@,
            mix: self.mix@,
            spectrum: self.spectrum_display@,
        }
    }
}

/// The message speaks of a deck that there is.
pub open spec fn in_range(message: Message) -> bool {
    match message {
        Message::Tick(fresh) => fresh@.len() == DECK_COUNT,
        Message::DeckPlay(id) => id < DECK_COUNT,
        Message::DeckPause(id) => id < DECK_COUNT,
        Message::DeckLoad(id) => id < DECK_COUNT,
        Message::FilePicked(id, _) => id < DECK_COUNT,
        Message::DeckProgress(id, _) => id < DECK_COUNT,
        Message::DeckLoaded(id, _) => id < DECK_COUNT,
        Message::DeckSpeed(id, _) => id < DECK_COUNT,
        Message::DeckZoom(id, _) => id < DECK_COUNT,
        Message::DeckHigh(id, _) => id < DECK_COUNT,
        Message::DeckMid(id, _) => id < DECK_COUNT,
        Message::DeckLow(id, _) => id < DECK_COUNT,
        Message::VolumeChanged(id, _) => id < DECK_COUNT,
        Message::DeckSeek(id, _) => id < DECK_COUNT,
        Message::DeckScratch(id, _) => id < DECK_COUNT,
        Message::DeckMetronome(id) => id < DECK_COUNT,
        Message::DeckBeatMatch(id) => id < DECK_COUNT,
        Message::BeatMatched(id) => id < DECK_COUNT,
        _ => true,
    }
}

impl AppView {
    /// There are two decks, and two animations.
    pub open spec fn wf(self) -> bool {
        self.mixer.wf() && self.animations.len() == DECK_COUNT
    }

    pub open spec fn with_mixer(self, mixer: MixerView) -> AppView {
        AppView { mixer, ..self }
    }

    pub open spec fn with_state(self, id: usize, state: DeckState) -> AppView {
        self.with_mixer(self.mixer.with_state(id as int, state))
    }

    pub open spec fn with_deck(self, id: usize, deck: Deck) -> AppView {
        self.with_mixer(self.mixer.with_deck(id as int, deck))
    }

    pub open spec fn with_animation(self, id: usize, animation: Animation) -> AppView {
        AppView { animations: self.animations.update(id as int, animation), ..self }
    }

    /// The tempo of a deck at its speed is shown.
    pub open spec fn tempo_shown(self, id: usize) -> AppView {
        self.with_animation(
            id,
            self.animations[id as int].showing(self.mixer.decks[id as int].effective_bpm()),
        )
    }

    /// A tick on: the wipes, the display, the counters, the metronomes.
    pub open spec fn ticked(self, fresh: Seq<Vec<F32>>) -> AppView {
        let heard = self.mixer.after_hearing(fresh);
        AppView {
            mixer: heard.metronomes_ticked(),
            animations: self.animations.map_values(|a: Animation| a.wiped().counted()),
            mix: heard.mix(),
            spectrum: self.spectrum,
        }
    }

    /// The state after an event.
    pub open spec fn updated(self, message: Message) -> AppView {
        let state = |id: usize| self.mixer.states[id as int];
        let deck = |id: usize| self.mixer.decks[id as int];
        match message {
            Message::Tick(fresh) => self.ticked(fresh@),
            Message::DeckPlay(id) => self.with_deck(id, deck(id).played()),
            Message::DeckPause(id) => self.with_deck(id, Deck { is_playing: false, ..deck(id) }),
            Message::DeckLoad(_) => self,
            Message::FilePicked(id, path) => match path {
                Some(p) => if state(id).loading is None {
                    self.with_state(
                        id,
                        DeckState { loading: Some(p), progress: F32::zero(), ..state(id) },
                    )
                } else {
                    self
                },
                None => self,
            },
            Message::DeckProgress(id, p) => self.with_state(
                id,
                DeckState { progress: p, ..state(id) },
            ),
            Message::DeckLoaded(id, result) => {
                let loaded = self.with_mixer(self.mixer.track_loaded(id as int, result));
                loaded.with_animation(id, loaded.animations[id as int].wiping()).tempo_shown(id)
            },
            Message::DeckSpeed(id, speed) => self.with_deck(
                id,
                Deck { user_speed: speed, control_speed: speed.to_bits(), ..deck(id) },
            ).tempo_shown(id),
            Message::DeckZoom(id, zoom) => self.with_state(
                id,
                DeckState { zoom_level: zoom, ..state(id) },
            ),
            Message::DeckHigh(id, v) => self.with_state(
                id,
                DeckState { eq_high: v, ..state(id) },
            ).with_deck(id, Deck { high: v.to_bits(), ..deck(id) }),
            Message::DeckMid(id, v) => self.with_state(
                id,
                DeckState { eq_mid: v, ..state(id) },
            ).with_deck(id, Deck { mid: v.to_bits(), ..deck(id) }),
            Message::DeckLow(id, v) => self.with_state(
                id,
                DeckState { eq_low: v, ..state(id) },
            ).with_deck(id, Deck { low: v.to_bits(), ..deck(id) }),
            Message::VolumeChanged(id, v) => self.with_mixer(
                self.mixer.with_state(
                    id as int,
                    DeckState { volume: v, ..state(id) },
                ).volumes_applied(),
            ),
            Message::CrossfaderChanged(v) => self.with_mixer(
                (MixerView { crossfader: v, ..self.mixer }).volumes_applied(),
            ),
            Message::DeckSeek(id, share) => self.with_mixer(self.mixer.sought(id as int, share)),
            Message::DeckScratch(id, speed) => self.with_deck(
                id,
                Deck { control_speed: speed.to_bits(), ..deck(id) },
            ),
            Message::DeckMetronome(id) => self.with_deck(id, deck(id).metronome_toggled()),
            Message::DeckBeatMatch(_) => self,
            Message::BeatMatched(id) => self.tempo_shown(id),
            Message::Midi(_) => self,
            Message::Spectrum(magnitudes) => AppView {
                spectrum: magnitudes@.take(magnitudes@.len() as int / 2),
                ..self
            },
        }
    }

    /// The other deck has a beat to keep time with.
    pub open spec fn leads(self, id: int) -> bool {
        !self.mixer.decks[id].bpm.le(F32::zero()) && self.mixer.decks[id].samples@.len() > 0
    }

    /// What an event asks for.
    pub open spec fn actions(self, message: Message) -> Seq<Action> {
        let deck = |id: usize| self.mixer.decks[id as int];
        match message {
            Message::Tick(fresh) => seq![Action::Show] + self.mixer.after_hearing(
                fresh@,
            ).clicks_before(DECK_COUNT as int),
            Message::DeckPlay(id) => seq![Action::Sink(id, deck(id).play_command())],
            Message::DeckPause(id) => seq![Action::Sink(id, deck(id).pause_command())],
            Message::DeckLoad(id) => if self.mixer.states[id as int].loading is None {
                seq![Action::PickFile(id)]
            } else {
                seq![]
            },
            Message::DeckLoaded(id, result) => self.mixer.loaded_actions(id as int, result),
            Message::VolumeChanged(id, v) => self.mixer.with_state(
                id as int,
                DeckState { volume: v, ..self.mixer.states[id as int] },
            ).volume_actions(),
            Message::CrossfaderChanged(v) => (MixerView {
                crossfader: v,
                ..self.mixer
            }).volume_actions(),
            Message::DeckBeatMatch(id) => {
                let other = deck((1 - id) as usize);
                if self.leads(1 - id) {
                    seq![
                        Action::BeatMatch(
                            id,
                            other.bpm,
                            other.user_speed,
                            other.beat_offset,
                            other.position(),
                        ),
                    ]
                } else {
                    seq![]
                }
            },
            Message::Midi(bytes) => seq![Action::Note(bytes)],
            _ => seq![],
        }
    }
}

impl App {
    /// There are two decks, and two animations.
    pub open spec fn wf(self) -> bool {
        self@.wf()
    }

    /// Two empty decks, nothing moving.
    pub fn new() -> (r: App)
        ensures
            r.wf(),
            r.mixer.crossfader == F32::zero(),
            forall|id: int|
                0 <= id < DECK_COUNT ==> (#[trigger] r.mixer.states@[id]) == DeckState::initial(),
            forall|id: int|
                0 <= id < DECK_COUNT ==> crate::mixer::fresh_deck(#[trigger] r.mixer.decks@[id]),
            forall|id: int|
                0 <= id < DECK_COUNT ==> (#[trigger] r.animations@[id]) == Animation::still(),
            forall|id: int|
                0 <= id < DECK_COUNT ==> (#[trigger] r.mixer@.kept[id]) == Seq::<F32>::empty(),
            r.spectrum_display@ == Seq::<F32>::empty(),
            r.mix@ == Seq::<F32>::empty(),
    {
        let mut animations: Vec<Animation> = Vec::new();
        let mut i: usize = 0;
        while i < DECK_COUNT
            invariant
                i <= DECK_COUNT,
                animations@.len() == i,
                forall|id: int| 0 <= id < i ==> (#[trigger] animations@[id]) == Animation::still(),
            decreases DECK_COUNT - i,
        {
            animations.push(Animation::default());
            i = i + 1;
        }
        App { mixer: Mixer::new(), animations, mix: Vec::new(), spectrum_display: Vec::new() }
    }

    /// Moves the wipes and the counters on.
    fn tick_animations(&mut self)
        requires
            old(self).wf(),
        ensures
            final(self)@ == (AppView {
                animations: old(self).animations@.map_values(|a: Animation| a.wiped().counted()),
                ..old(self)@
            }),
    {
        let ghost before = self@;
        let mut i: usize = 0;
        while i < DECK_COUNT
            invariant
                i <= DECK_COUNT,
                before.wf(),
                self.mixer@ == before.mixer,
                self.mix@ == before.mix,
                self.spectrum_display@ == before.spectrum,
                self.animations@.len() == DECK_COUNT,
                forall|k: int|
                    0 <= k < i ==> (#[trigger] self.animations@[k])
                        == before.animations[k].wiped().counted(),
                forall|k: int|
                    i <= k < DECK_COUNT ==> (#[trigger] self.animations@[k])
                        == before.animations[k],
            decreases DECK_COUNT - i,
        {
            let mut a: Animation = self.animations[i];
            a.tick_wipe();
            a.tick_bpm_anim();
            self.animations.set(i, a);
            i = i + 1;
        }
        assert(self.animations@ =~= before.animations.map_values(
            |a: Animation| a.wiped().counted(),
        ));
    }

    /// Shows the tempo of a deck at its speed.
    fn show_tempo(&mut self, id: usize)
        requires
            old(self).wf(),
            id < DECK_COUNT,
        ensures
            final(self)@ == old(self)@.tempo_shown(id),
    {
        let ghost before = self@;
        let bpm: F32 = self.mixer.decks[id].effective_bpm();
        self.animations[id].set_bpm_display(bpm);
        assert(self.animations@ =~= before.tempo_shown(id).animations);
    }

    /// Whether ticks are needed: something plays, or something moves.
    pub fn needs_ticks(&self) -> (r: bool)
        requires
            self.wf(),
        ensures
            r == exists|id: int|
                0 <= id < DECK_COUNT && (#[trigger] self.mixer.decks@[id].is_playing
                    || self.animations@[id].wipe_animating || self.animations@[id].bpm_anim.lt(
                    F32::nearest_to(1),
                )),
    {
        let mut i: usize = 0;
        while i < DECK_COUNT
            invariant
                i <= DECK_COUNT,
                self.wf(),
                forall|id: int|
                    0 <= id < i ==> !(#[trigger] self.mixer.decks@[id].is_playing
                        || self.animations@[id].wipe_animating || self.animations@[id].bpm_anim.lt(
                        F32::nearest_to(1),
                    )),
            decreases DECK_COUNT - i,
        {
            if self.mixer.decks[i].is_playing || self.animations[i].wipe_animating
                || self.animations[i].bpm_anim.lt(F32::whole(1)) {
                assert(self.mixer.decks@[i as int].is_playing
                    || self.animations@[i as int].wipe_animating
                    || self.animations@[i as int].bpm_anim.lt(F32::nearest_to(1)));
                return true;
            }
            i = i + 1;
        }
        false
    }
}

impl App {
    /// A tick: what has been heard goes to the display, and everything that
    /// moves moves on.
    fn tick(&mut self, fresh: &Vec<Vec<F32>>) -> (r: Vec<Action>)
        requires
            old(self).wf(),
            fresh@.len() == DECK_COUNT,
        ensures
            final(self)@ == old(self)@.ticked(fresh@),
            r@ == seq![Action::Show] + old(self).mixer@.after_hearing(fresh@).clicks_before(
                DECK_COUNT as int,
            ),
    {
        let ghost before = self@;
        self.tick_animations();
        self.mix = self.mixer.hear(fresh);
        let mut out: Vec<Action> = Vec::new();
        out.push(Action::Show);
        let mut clicks: Vec<Action> = self.mixer.tick_metronomes();
        out.append(&mut clicks);
        assert(self@ == before.ticked(fresh@));
        out
    }

    /// Puts a track that has been read on its deck.
    fn deck_loaded(&mut self, id: usize, result: Result<DeckData, String>) -> (r: Vec<Action>)
        requires
            old(self).wf(),
            id < DECK_COUNT,
        ensures
            final(self)@ == old(self)@.updated(Message::DeckLoaded(id, result)),
            r@ == old(self)@.mixer.loaded_actions(id as int, result),
    {
        let ghost before = self@;
        let ghost outcome = result;
        let out: Vec<Action> = self.mixer.track_read(id, result);
        let ghost loaded = before.with_mixer(before.mixer.track_loaded(id as int, outcome));
        assert(self@ == loaded);
        self.animations[id].start_wipe();
        assert(self.animations@ =~= loaded.with_animation(
            id,
            loaded.animations[id as int].wiping(),
        ).animations);
        self.show_tempo(id);
        out
    }

    /// Sets the speed of a deck.
    fn deck_speed(&mut self, id: usize, speed: F32)
        requires
            old(self).wf(),
            id < DECK_COUNT,
        ensures
            final(self)@ == old(self)@.updated(Message::DeckSpeed(id, speed)),
    {
        let ghost before = self@;
        self.mixer.decks[id].set_speed(speed);
        proof {
            let deck = before.mixer.decks[id as int];
            assert(self.mixer.decks@ =~= before.with_deck(
                id,
                Deck { user_speed: speed, control_speed: speed.to_bits(), ..deck },
            ).mixer.decks);
        }
        self.show_tempo(id);
    }

    /// Turns a knob of a deck.
    fn turn_knob(&mut self, id: usize, knob: Knob, v: F32)
        requires
            old(self).wf(),
            id < DECK_COUNT,
        ensures
            final(self)@ == old(self)@.updated(
                match knob {
                    Knob::High => Message::DeckHigh(id, v),
                    Knob::Mid => Message::DeckMid(id, v),
                    Knob::Low => Message::DeckLow(id, v),
                },
            ),
    {
        let ghost before = self@;
        let ghost message = match knob {
            Knob::High => Message::DeckHigh(id, v),
            Knob::Mid => Message::DeckMid(id, v),
            Knob::Low => Message::DeckLow(id, v),
        };
        match knob {
            Knob::High => {
                self.mixer.states[id].eq_high = v;
                self.mixer.decks[id].set_high(v);
            },
            Knob::Mid => {
                self.mixer.states[id].eq_mid = v;
                self.mixer.decks[id].set_mid(v);
            },
            Knob::Low => {
                self.mixer.states[id].eq_low = v;
                self.mixer.decks[id].set_low(v);
            },
        }
        assert(self.mixer.states@ =~= before.updated(message).mixer.states);
        assert(self.mixer.decks@ =~= before.updated(message).mixer.decks);
    }

    /// Asks for a deck to be brought in time with the other one, if that has a
    /// beat.
    fn beat_match(&self, id: usize) -> (r: Vec<Action>)
        requires
            self.wf(),
            id < DECK_COUNT,
        ensures
            r@ == self@.actions(Message::DeckBeatMatch(id)),
    {
        let mut out: Vec<Action> = Vec::new();
        let other: usize = 1 - id;
        let bpm: F32 = self.mixer.decks[other].bpm;
        if bpm.le(F32::zero()) || self.mixer.decks[other].samples.len() == 0 {
            return out;
        }
        let speed: F32 = self.mixer.decks[other].user_speed;
        let offset: F32 = self.mixer.decks[other].beat_offset;
        let position: Option<TimeSpan> = self.mixer.decks[other].get_position();
        out.push(Action::BeatMatch(id, bpm, speed, offset, position));
        out
    }

    /// Takes an event in, and says what it asks for.
    pub fn update(&mut self, message: Message) -> (r: Vec<Action>)
        requires
            old(self).wf(),
            in_range(message),
        ensures
            final(self).wf(),
            final(self)@ == old(self)@.updated(message),
            r@ == old(self)@.actions(message),
    {
        let ghost before = self@;
        let ghost event = message;
        let mut out: Vec<Action> = Vec::new();
        match message {
            Message::Tick(fresh) => {
                out = self.tick(&fresh);
            },
            Message::DeckPlay(id) => {
                let command: SinkCommand = self.mixer.decks[id].play();
                out.push(Action::Sink(id, command));
                assert(self.mixer.decks@ =~= before.updated(event).mixer.decks);
            },
            Message::DeckPause(id) => {
                let command: SinkCommand = self.mixer.decks[id].pause();
                out.push(Action::Sink(id, command));
                assert(self.mixer.decks@ =~= before.updated(event).mixer.decks);
            },
            Message::DeckLoad(id) => {
                if self.mixer.states[id].loading.is_none() {
                    out.push(Action::PickFile(id));
                }
            },
            Message::FilePicked(id, path) => {
                self.mixer.file_picked(id, path);
            },
            Message::DeckProgress(id, p) => {
                self.mixer.states[id].progress = p;
                assert(self.mixer.states@ =~= before.updated(event).mixer.states);
            },
            Message::DeckLoaded(id, result) => {
                out = self.deck_loaded(id, result);
            },
            Message::DeckSpeed(id, speed) => {
                self.deck_speed(id, speed);
            },
            Message::DeckZoom(id, zoom) => {
                self.mixer.states[id].zoom_level = zoom;
                assert(self.mixer.states@ =~= before.updated(event).mixer.states);
            },
            Message::DeckHigh(id, v) => {
                self.turn_knob(id, Knob::High, v);
            },
            Message::DeckMid(id, v) => {
                self.turn_knob(id, Knob::Mid, v);
            },
            Message::DeckLow(id, v) => {
                self.turn_knob(id, Knob::Low, v);
            },
            Message::VolumeChanged(id, v) => {
                out = self.mixer.set_volume(id, v);
            },
            Message::CrossfaderChanged(v) => {
                out = self.mixer.set_crossfader(v);
            },
            Message::DeckSeek(id, share) => {
                self.mixer.seek(id, share);
            },
            Message::DeckScratch(id, speed) => {
                self.mixer.decks[id].set_scratch_speed(speed);
                assert(self.mixer.decks@ =~= before.updated(event).mixer.decks);
            },
            Message::DeckMetronome(id) => {
                self.mixer.decks[id].toggle_metronome();
                assert(self.mixer.decks@ =~= before.updated(event).mixer.decks);
            },
            Message::DeckBeatMatch(id) => {
                out = self.beat_match(id);
            },
            Message::BeatMatched(id) => {
                self.show_tempo(id);
            },
            Message::Midi(bytes) => {
                out.push(Action::Note(bytes));
            },
            Message::Spectrum(magnitudes) => {
                self.spectrum_display = compute_spectrum(magnitudes.as_slice());
            },
        }
        assert(out@ =~= before.actions(event));
        assert(self@ == before.updated(event));
        out
    }
}

/// The deck that a message is for, if it is for one.
pub open spec fn addressee(message: Message) -> Option<usize> {
    match message {
        Message::DeckPlay(id) => Some(id),
        Message::DeckPause(id) => Some(id),
        Message::DeckLoad(id) => Some(id),
        Message::FilePicked(id, _) => Some(id),
        Message::DeckProgress(id, _) => Some(id),
        Message::DeckLoaded(id, _) => Some(id),
        Message::DeckSpeed(id, _) => Some(id),
        Message::DeckZoom(id, _) => Some(id),
        Message::DeckHigh(id, _) => Some(id),
        Message::DeckMid(id, _) => Some(id),
        Message::DeckLow(id, _) => Some(id),
        Message::VolumeChanged(id, _) => Some(id),
        Message::DeckSeek(id, _) => Some(id),
        Message::DeckScratch(id, _) => Some(id),
        Message::DeckMetronome(id) => Some(id),
        Message::DeckBeatMatch(id) => Some(id),
        Message::BeatMatched(id) => Some(id),
        _ => None,
    }
}

/// A message for one deck leaves the other alone: its controls and animations
/// stay, and of the deck itself at most the volume is set again.
#[verifier::rlimit(60)]
#[verifier::spinoff_prover]
pub proof fn lemma_other_deck_stays(v: AppView, message: Message, id: usize)
    requires
        v.wf(),
        in_range(message),
        addressee(message) == Some(id),
    ensures
        ({
            let other = 1 - id;
            let after = v.updated(message);
            &&& after.mixer.states[other] == v.mixer.states[other]
            &&& after.animations[other] == v.animations[other]
            &&& after.mixer.kept == v.mixer.kept
            &&& after.mixer.crossfader == v.mixer.crossfader
            &&& after.mixer.decks[other] == (Deck {
                volume: after.mixer.decks[other].volume,
                ..v.mixer.decks[other]
            })
        }),
{
}

/// A track that cannot be read leaves both decks playing as they did: only the
/// reading ends, and the volumes are set again.
pub proof fn lemma_failed_load_keeps_playing(v: AppView, id: usize, message: String, d: int)
    requires
        v.wf(),
        id < DECK_COUNT,
        0 <= d < DECK_COUNT,
    ensures
        ({
            let after = v.updated(Message::DeckLoaded(id, Err(message)));
            &&& after.mixer.decks[d] == (Deck {
                volume: after.mixer.decks[d].volume,
                ..v.mixer.decks[d]
            })
            &&& after.mixer.states[id as int].loading is None
        }),
{
}

/// A file that is being read is not given up for another: until it has been
/// read, none is asked for and none is taken.
pub proof fn lemma_one_file_at_a_time(v: AppView, id: usize, path: Option<String>)
    requires
        v.wf(),
        id < DECK_COUNT,
        v.mixer.states[id as int].loading is Some,
    ensures
        v.actions(Message::DeckLoad(id)) == Seq::<Action>::empty(),
        v.updated(Message::FilePicked(id, path)) == v,
{
}

/// A knob of the equaliser turns its own band, on the deck and on its control, and no other.
pub proof fn lemma_knobs_turn_their_band(v: AppView, id: usize, x: F32)
    requires
        v.wf(),
        id < DECK_COUNT,
    ensures
        ({
            let d = v.mixer.decks[id as int];
            let s = v.mixer.states[id as int];
            let high = v.updated(Message::DeckHigh(id, x)).mixer;
            let mid = v.updated(Message::DeckMid(id, x)).mixer;
            let low = v.updated(Message::DeckLow(id, x)).mixer;
            let i = id as int;
            &&& F32::from_bits(high.decks[i].high) == x && high.states[i].eq_high == x
            &&& high.decks[i].mid == d.mid && high.decks[i].low == d.low
            &&& high.states[i].eq_mid == s.eq_mid && high.states[i].eq_low == s.eq_low
            &&& F32::from_bits(mid.decks[i].mid) == x && mid.states[i].eq_mid == x
            &&& mid.decks[i].high == d.high && mid.decks[i].low == d.low
            &&& mid.states[i].eq_high == s.eq_high && mid.states[i].eq_low == s.eq_low
            &&& F32::from_bits(low.decks[i].low) == x && low.states[i].eq_low == x
            &&& low.decks[i].high == d.high && low.decks[i].mid == d.mid
            &&& low.states[i].eq_high == s.eq_high && low.states[i].eq_mid == s.eq_mid
        }),
{
}

/// Scratching leaves the speed that the deck comes back to; setting the speed sets both.
pub proof fn lemma_scratch_keeps_speed(v: AppView, id: usize, x: F32)
    requires
        v.wf(),
        id < DECK_COUNT,
    ensures
        ({
            let i = id as int;
            let scratched = v.updated(Message::DeckScratch(id, x)).mixer.decks[i];
            let sped = v.updated(Message::DeckSpeed(id, x)).mixer.decks[i];
            &&& F32::from_bits(scratched.control_speed) == x
            &&& scratched.user_speed == v.mixer.decks[i].user_speed
            &&& F32::from_bits(sped.control_speed) == x && sped.user_speed == x
        }),
{
}

/// A deck that is paused stays where it is, and one whose volume is set is as loud as the
/// crossfader lets it be.
pub proof fn lemma_controls_land(v: AppView, id: usize, x: F32)
    requires
        v.wf(),
        id < DECK_COUNT,
    ensures
        ({
            let i = id as int;
            let d = v.mixer.decks[i];
            let paused = v.updated(Message::DeckPause(id)).mixer.decks[i];
            let loud = v.updated(Message::VolumeChanged(id, x)).mixer;
            let faded = v.updated(Message::CrossfaderChanged(x)).mixer;
            &&& !paused.is_playing && paused.control_cursor == d.control_cursor
            &&& v.updated(Message::DeckPlay(id)).mixer.decks[i].control_cursor == d.control_cursor
            &&& loud.states[i].volume == x
            &&& loud.decks[i].volume == x.times(fade(v.mixer.crossfader, id))
            &&& faded.crossfader == x
            &&& faded.decks[i].volume == v.mixer.states[i].volume.times(fade(x, id))
            &&& v.updated(Message::DeckProgress(id, x)).mixer.states[i].progress == x
            &&& v.updated(Message::DeckZoom(id, x)).mixer.states[i].zoom_level == x
        }),
{
}

/// The knobs of a deck.
#[derive(Clone, Copy)]
enum Knob {
    High,
    Mid,
    Low,
}

} // verus!

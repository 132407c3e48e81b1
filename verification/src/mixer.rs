//! Two decks, a volume for each, and a crossfader between them.
use vstd::prelude::*;
use std::collections::VecDeque;
use crate::analysis::waveform::WaveformPoint;
use crate::audio::deck::{Click, Deck, DeckData, SinkCommand, DECK_COUNT, NO_BEAT};
use crate::audio::monitor::{absorb, contents, mix_decks, mixed_decks, tail, KEPT};
use crate::audio::span::{span_of, TimeSpan};
use crate::float::close::{
    close, lemma_minus_close, lemma_plus_close, lemma_unit, small, unit,
};
use crate::float::double::F64;
use crate::float::exact::{
    lemma_cancels_single, lemma_one_is_positive, lemma_times_one_single, lemma_times_zero_single,
    lemma_whole_single,
};
use crate::float::order::{
    lemma_by_value_single, lemma_least_single, lemma_opposite_single, lemma_order_single,
    lemma_rest_single, lemma_share_single, lemma_zeros,
};
use crate::float::single::F32;

verus! {

/// The controls of a deck.
#[derive(Clone, Debug)]
pub struct DeckState {
    pub volume: F32,
    /// The file that is being read, if one is.
    pub loading: Option<String>,
    pub progress: F32,
    pub zoom_level: F32,
    pub eq_high: F32,
    pub eq_mid: F32,
    pub eq_low: F32,
}

impl DeckState {
    /// The controls at the start: full volume, no zoom, all knobs in the
    /// middle.
    pub open spec fn initial() -> DeckState {
        DeckState {
            volume: F32::nearest_to(1),
            loading: None,
            progress: F32::zero(),
            zoom_level: F32::nearest_to(1),
            eq_high: F32::ratio(1, 2),
            eq_mid: F32::ratio(1, 2),
            eq_low: F32::ratio(1, 2),
        }
    }
}

impl Default for DeckState {
    fn default() -> (r: DeckState)
        ensures
            r == DeckState::initial(),
    {
        DeckState {
            volume: F32::whole(1),
            loading: None,
            progress: F32::zero(),
            zoom_level: F32::whole(1),
            eq_high: F32::ratio(1, 2),
            eq_mid: F32::ratio(1, 2),
            eq_low: F32::ratio(1, 2),
        }
    }
}

/// What is to be done outside.
#[derive(Debug)]
pub enum Action {
    /// Command the sink of a deck.
    Sink(usize, SinkCommand),
    /// Sound a click.
    Sound(Click),
    /// Ask for a file for a deck.
    PickFile(usize),
    /// Say that a track could not be read.
    Report(usize, String),
    /// Show the spectrum of the mix.
    Show,
    /// Bring a deck in time with a beat: its tempo, the speed it is played at,
    /// where it begins, and the time in its track.
    BeatMatch(usize, F32, F32, F32, Option<TimeSpan>),
    /// Note what came in from a controller.
    Note(Vec<u8>),
}

/// The decks and the controls of the mixer.
pub struct Mixer {
    pub states: Vec<DeckState>,
    pub decks: Vec<Deck>,
    /// The last samples heard of each deck.
    pub kept: Vec<VecDeque<F32>>,
    /// From -1, the first deck alone, to 1, the second.
    pub crossfader: F32,
}

/// The decks and the controls.
pub ghost struct MixerView {
    pub states: Seq<DeckState>,
    pub decks: Seq<Deck>,
    pub kept: Seq<Seq<F32>>,
    pub crossfader: F32,
}

impl View for Mixer {
    type V = MixerView;

    open spec fn view(&self) -> MixerView {
        MixerView {
            states: self.states@,
            decks: self.decks@,
            kept: contents(self.kept@),
            crossfader: self.crossfader,
        }
    }
}

/// What the crossfader leaves of the first deck, right of the middle, and of
/// the second, left of it; all of both in the middle.
#[verifier::allow_in_spec]
pub fn fade(crossfader: F32, id: usize) -> F32
    returns
        (if id == 0 && crossfader.gt(F32::zero()) {
            F32::nearest_to(1).minus(crossfader)
        } else if id == 1 && crossfader.lt(F32::zero()) {
            F32::nearest_to(1).plus(crossfader)
        } else {
            F32::nearest_to(1)
        }),
{
    if id == 0 && crossfader.gt(F32::zero()) {
        F32::whole(1).minus(crossfader)
    } else if id == 1 && crossfader.lt(F32::zero()) {
        F32::whole(1).plus(crossfader)
    } else {
        F32::whole(1)
    }
}

/// Whether the crossfader takes anything of a deck.
#[verifier::allow_in_spec]
pub fn faded(crossfader: F32, id: usize) -> bool
    returns
        (id == 0 && crossfader.gt(F32::zero())) || (id == 1 && crossfader.lt(F32::zero())),
{
    (id == 0 && crossfader.gt(F32::zero())) || (id == 1 && crossfader.lt(F32::zero()))
}

impl MixerView {
    /// There are two decks.
    pub open spec fn wf(self) -> bool {
        &&& self.states.len() == DECK_COUNT
        &&& self.decks.len() == DECK_COUNT
        &&& self.kept.len() == DECK_COUNT
    }

    /// The mixer with other controls for a deck.
    pub open spec fn with_state(self, id: int, state: DeckState) -> MixerView {
        MixerView { states: self.states.update(id, state), ..self }
    }

    /// The mixer with a deck changed.
    pub open spec fn with_deck(self, id: int, deck: Deck) -> MixerView {
        MixerView { decks: self.decks.update(id, deck), ..self }
    }

    /// The volume that a deck is played at.
    pub open spec fn output_volume(self, id: int) -> F32 {
        self.states[id].volume.times(fade(self.crossfader, id as usize))
    }

    /// The mixer with every deck at its volume.
    pub open spec fn volumes_applied(self) -> MixerView {
        MixerView {
            decks: Seq::new(
                self.decks.len(),
                |id: int| Deck { volume: self.output_volume(id), ..self.decks[id] },
            ),
            ..self
        }
    }

    /// The commands that bring every sink to its volume.
    pub open spec fn volume_actions(self) -> Seq<Action> {
        Seq::new(
            self.decks.len(),
            |id: int|
                Action::Sink(
                    id as usize,
                    if self.decks[id].has_sink {
                        SinkCommand::SetVolume(self.output_volume(id))
                    } else {
                        SinkCommand::Nothing
                    },
                ),
        )
    }
}

impl Mixer {
    /// There are two decks.
    pub open spec fn wf(self) -> bool {
        self@.wf()
    }

    /// Two empty decks, the crossfader in the middle.
    pub fn new() -> (r: Mixer)
        ensures
            r.wf(),
            r.crossfader == F32::zero(),
            forall|id: int|
                0 <= id < DECK_COUNT ==> (#[trigger] r.states@[id]) == DeckState::initial(),
            forall|id: int| 0 <= id < DECK_COUNT ==> fresh_deck(#[trigger] r.decks@[id]),
            forall|id: int|
                0 <= id < DECK_COUNT ==> (#[trigger] r@.kept[id]) == Seq::<F32>::empty(),
    {
        let mut states: Vec<DeckState> = Vec::new();
        let mut decks: Vec<Deck> = Vec::new();
        let mut kept: Vec<VecDeque<F32>> = Vec::new();
        let mut i: usize = 0;
        while i < DECK_COUNT
            invariant
                i <= DECK_COUNT,
                states@.len() == i,
                decks@.len() == i,
                kept@.len() == i,
                forall|id: int| 0 <= id < i ==> (#[trigger] states@[id]) == DeckState::initial(),
                forall|id: int| 0 <= id < i ==> fresh_deck(#[trigger] decks@[id]),
                forall|id: int| 0 <= id < i ==> (#[trigger] kept@[id])@ == Seq::<F32>::empty(),
            decreases DECK_COUNT - i,
        {
            states.push(DeckState::default());
            decks.push(Deck::new());
            kept.push(VecDeque::new());
            i = i + 1;
        }
        Mixer { states, decks, kept, crossfader: F32::zero() }
    }

    /// Brings every deck to its volume.
    pub fn apply_volumes(&mut self) -> (r: Vec<Action>)
        requires
            old(self).wf(),
        ensures
            final(self)@ == old(self)@.volumes_applied(),
            r@ == old(self)@.volume_actions(),
    {
        let ghost before = self@;
        let mut out: Vec<Action> = Vec::new();
        let mut id: usize = 0;
        while id < DECK_COUNT
            invariant
                id <= DECK_COUNT,
                before.wf(),
                self.states@ == before.states,
                contents(self.kept@) == before.kept,
                self.crossfader == before.crossfader,
                self.decks@.len() == before.decks.len(),
                forall|k: int|
                    0 <= k < id ==> (#[trigger] self.decks@[k])
                        == before.volumes_applied().decks[k],
                forall|k: int|
                    id <= k < DECK_COUNT ==> (#[trigger] self.decks@[k]) == before.decks[k],
                out@ == before.volume_actions().take(id as int),
            decreases DECK_COUNT - id,
        {
            let volume: F32 = self.states[id].volume.times(fade(self.crossfader, id));
            let command: SinkCommand = self.decks[id].set_volume(volume);
            out.push(Action::Sink(id, command));
            assert(before.volume_actions().take(id + 1) =~= before.volume_actions().take(
                id as int,
            ).push(out@.last()));
            id = id + 1;
        }
        assert(self.decks@ =~= before.volumes_applied().decks);
        assert(out@ =~= before.volume_actions());
        out
    }
}

impl MixerView {
    /// The mixer after a track has been read, or could not be.
    pub open spec fn track_loaded(self, id: int, result: Result<DeckData, String>) -> MixerView {
        let idle = self.with_state(id, DeckState { loading: None, ..self.states[id] });
        let with_track = match result {
            Ok(data) => idle.with_deck(id, self.decks[id].loaded(data).played()),
            Err(_) => idle,
        };
        with_track.volumes_applied()
    }

    /// What a track that has been read, or could not be, asks for.
    pub open spec fn loaded_actions(self, id: int, result: Result<DeckData, String>) -> Seq<
        Action,
    > {
        match result {
            Ok(data) => {
                let loaded = self.decks[id].loaded(data);
                seq![
                    Action::Sink(id as usize, self.decks[id].stop_command()),
                    Action::Sink(id as usize, loaded.play_command()),
                ] + self.with_deck(id, loaded.played()).volume_actions()
            },
            Err(message) => seq![Action::Report(id as usize, message)] + self.volume_actions(),
        }
    }

    /// The mixer after a deck has gone to a share of its track.
    pub open spec fn sought(self, id: int, share: F32) -> MixerView {
        let seconds = self.decks[id].duration.as_secs_double().times(share.to_double());
        match span_of(seconds) {
            Some(pos) => self.with_deck(
                id,
                Deck {
                    control_cursor: self.decks[id].frame_at(pos).to_bits(),
                    ..self.decks[id]
                },
            ),
            None => self,
        }
    }

    /// The mixer after a tick of every metronome.
    pub open spec fn metronomes_ticked(self) -> MixerView {
        MixerView {
            decks: Seq::new(self.decks.len(), |id: int| self.decks[id].ticked().0),
            ..self
        }
    }

    /// The clicks of the first `n` decks.
    pub open spec fn clicks_before(self, n: int) -> Seq<Action>
        decreases n,
    {
        if n <= 0 {
            seq![]
        } else {
            match self.decks[n - 1].ticked().1 {
                Some(click) => self.clicks_before(n - 1).push(Action::Sound(click)),
                None => self.clicks_before(n - 1),
            }
        }
    }

    /// The mixer after new samples of every deck have been heard.
    pub open spec fn after_hearing(self, fresh: Seq<Vec<F32>>) -> MixerView {
        MixerView {
            kept: Seq::new(
                self.kept.len(),
                |id: int| tail(self.kept[id] + fresh[id]@, KEPT as int),
            ),
            ..self
        }
    }

    /// The volume that a deck has in the mix on display.
    pub open spec fn mix_volume(self, id: int) -> F32 {
        if faded(self.crossfader, id as usize) {
            self.states[id].volume.times(fade(self.crossfader, id as usize))
        } else {
            self.states[id].volume
        }
    }

    /// The mix on display.
    pub open spec fn mix(self) -> Seq<F32> {
        mixed_decks(
            self.kept,
            Seq::new(DECK_COUNT as nat, |id: int| self.mix_volume(id)),
            DECK_COUNT as int,
        )
    }
}

impl Mixer {
    /// Sets the volume of a deck.
    pub fn set_volume(&mut self, id: usize, volume: F32) -> (r: Vec<Action>)
        requires
            old(self).wf(),
            id < DECK_COUNT,
        ensures
            ({
                let turned = old(self)@.with_state(
                    id as int,
                    DeckState { volume, ..old(self).states@[id as int] },
                );
                &&& final(self)@ == turned.volumes_applied()
                &&& r@ == turned.volume_actions()
            }),
    {
        let ghost before = self@;
        self.states[id].volume = volume;
        proof {
            assert(self@.states =~= before.with_state(
                id as int,
                DeckState { volume, ..before.states[id as int] },
            ).states);
        }
        self.apply_volumes()
    }

    /// Moves the crossfader.
    pub fn set_crossfader(&mut self, crossfader: F32) -> (r: Vec<Action>)
        requires
            old(self).wf(),
        ensures
            ({
                let moved = MixerView { crossfader, ..old(self)@ };
                &&& final(self)@ == moved.volumes_applied()
                &&& r@ == moved.volume_actions()
            }),
    {
        self.crossfader = crossfader;
        self.apply_volumes()
    }

    /// Takes a file for a deck that is not reading one.
    pub fn file_picked(&mut self, id: usize, path: Option<String>)
        requires
            old(self).wf(),
            id < DECK_COUNT,
        ensures
            final(self)@ == match path {
                Some(p) => if old(self).states@[id as int].loading is None {
                    old(self)@.with_state(
                        id as int,
                        DeckState {
                            loading: Some(p),
                            progress: F32::zero(),
                            ..old(self).states@[id as int]
                        },
                    )
                } else {
                    old(self)@
                },
                None => old(self)@,
            },
    {
        match path {
            Some(p) => {
                if self.states[id].loading.is_none() {
                    let ghost before = self@;
                    let ghost text = p;
                    self.states[id].loading = Some(p);
                    self.states[id].progress = F32::zero();
                    proof {
                        assert(self@.states =~= before.with_state(
                            id as int,
                            DeckState {
                                loading: Some(text),
                                progress: F32::zero(),
                                ..before.states[id as int]
                            },
                        ).states);
                    }
                }
            },
            None => {},
        }
    }

    /// Puts a track that has been read on its deck and plays it, or says that
    /// it could not be read.
    pub fn track_read(&mut self, id: usize, result: Result<DeckData, String>) -> (r: Vec<Action>)
        requires
            old(self).wf(),
            id < DECK_COUNT,
        ensures
            final(self)@ == old(self)@.track_loaded(id as int, result),
            r@ == old(self)@.loaded_actions(id as int, result),
    {
        let ghost before = self@;
        let ghost outcome = result;
        self.states[id].loading = None;
        let ghost idle = before.with_state(
            id as int,
            DeckState { loading: None, ..before.states[id as int] },
        );
        assert(self@.states =~= idle.states);
        assert(self@ == idle);
        let mut out: Vec<Action> = Vec::new();
        match result {
            Ok(data) => {
                let stop: SinkCommand = self.decks[id].load_data(data);
                let play: SinkCommand = self.decks[id].play();
                out.push(Action::Sink(id, stop));
                out.push(Action::Sink(id, play));
                proof {
                    let loaded = before.decks[id as int].loaded(outcome->Ok_0);
                    assert(self@.decks =~= idle.with_deck(id as int, loaded.played()).decks);
                    assert(self@ == idle.with_deck(id as int, loaded.played()));
                    assert(self@.volume_actions() =~= before.with_deck(
                        id as int,
                        loaded.played(),
                    ).volume_actions()) by {
                        lemma_same_volumes(
                            before.with_deck(id as int, loaded.played()),
                            id as int,
                        );
                    }
                }
            },
            Err(message) => {
                out.push(Action::Report(id, message));
                proof {
                    lemma_same_volumes(before, id as int);
                    assert(self@.volume_actions() =~= before.volume_actions());
                }
            },
        }
        let mut volumes: Vec<Action> = self.apply_volumes();
        out.append(&mut volumes);
        assert(out@ =~= before.loaded_actions(id as int, outcome));
        out
    }

    /// Sends a deck to a share of its track; one that is no time is ignored.
    pub fn seek(&mut self, id: usize, share: F32)
        requires
            old(self).wf(),
            id < DECK_COUNT,
        ensures
            final(self)@ == old(self)@.sought(id as int, share),
    {
        let ghost before = self@;
        let seconds: F64 = self.decks[id].duration.as_secs_double().times(share.to_double());
        match TimeSpan::from_secs(seconds) {
            Some(pos) => {
                self.decks[id].seek_to(pos);
                assert(self@.decks =~= before.sought(id as int, share).decks);
            },
            None => {},
        }
    }

    /// Lets every metronome tick.
    pub fn tick_metronomes(&mut self) -> (r: Vec<Action>)
        requires
            old(self).wf(),
        ensures
            final(self)@ == old(self)@.metronomes_ticked(),
            r@ == old(self)@.clicks_before(DECK_COUNT as int),
    {
        let ghost before = self@;
        let mut out: Vec<Action> = Vec::new();
        let mut id: usize = 0;
        while id < DECK_COUNT
            invariant
                id <= DECK_COUNT,
                before.wf(),
                self.states@ == before.states,
                contents(self.kept@) == before.kept,
                self.crossfader == before.crossfader,
                self.decks@.len() == before.decks.len(),
                forall|k: int|
                    0 <= k < id ==> (#[trigger] self.decks@[k]) == before.decks[k].ticked().0,
                forall|k: int|
                    id <= k < DECK_COUNT ==> (#[trigger] self.decks@[k]) == before.decks[k],
                out@ == before.clicks_before(id as int),
            decreases DECK_COUNT - id,
        {
            match self.decks[id].tick_metronome() {
                Some(click) => {
                    out.push(Action::Sound(click));
                },
                None => {},
            }
            id = id + 1;
        }
        assert(self.decks@ =~= before.metronomes_ticked().decks);
        out
    }

    /// Hears new samples of every deck, and gives the mix to display.
    pub fn hear(&mut self, fresh: &Vec<Vec<F32>>) -> (r: Vec<F32>)
        requires
            old(self).wf(),
            fresh@.len() == DECK_COUNT,
        ensures
            final(self)@ == old(self)@.after_hearing(fresh@),
            r@ == old(self)@.after_hearing(fresh@).mix(),
    {
        let ghost before = self@;
        let mut id: usize = 0;
        while id < DECK_COUNT
            invariant
                id <= DECK_COUNT == fresh@.len(),
                before.wf(),
                self.states@ == before.states,
                self.decks@ == before.decks,
                self.crossfader == before.crossfader,
                self.kept@.len() == before.kept.len(),
                forall|k: int|
                    0 <= k < id ==> (#[trigger] self.kept@[k])@ == tail(
                        before.kept[k] + fresh@[k]@,
                        KEPT as int,
                    ),
                forall|k: int|
                    id <= k < DECK_COUNT ==> (#[trigger] self.kept@[k])@ == before.kept[k],
            decreases DECK_COUNT - id,
        {
            absorb(&mut self.kept[id], &fresh[id]);
            id = id + 1;
        }
        assert(contents(self.kept@) =~= before.after_hearing(fresh@).kept);
        let ghost heard = self@;
        let mut volumes: Vec<F32> = Vec::new();
        let mut d: usize = 0;
        while d < DECK_COUNT
            invariant
                d <= DECK_COUNT,
                heard.wf(),
                self@ == heard,
                volumes@ == Seq::new(d as nat, |k: int| heard.mix_volume(k)),
            decreases DECK_COUNT - d,
        {
            let mut volume: F32 = self.states[d].volume;
            if faded(self.crossfader, d) {
                volume = volume.times(fade(self.crossfader, d));
            }
            volumes.push(volume);
            d = d + 1;
        }
        mix_decks(&self.kept, &volumes)
    }
}

/// What a deck is reading does not bear on the volumes.
proof fn lemma_same_volumes(v: MixerView, id: int)
    requires
        v.wf(),
        0 <= id < DECK_COUNT,
    ensures
        v.with_state(id, DeckState { loading: None, ..v.states[id] }).volume_actions()
            == v.volume_actions(),
{
    assert(v.with_state(id, DeckState { loading: None, ..v.states[id] }).volume_actions()
        =~= v.volume_actions());
}

/// The crossfader spares the deck on its own side, and both in the middle.
pub proof fn lemma_crossfader_spares(v: MixerView, id: int)
    requires
        0 <= id < DECK_COUNT,
        !faded(v.crossfader, id as usize),
        !v.states[id].volume.not_a_number(),
    ensures
        v.output_volume(id) == v.states[id].volume,
        v.mix_volume(id) == v.states[id].volume,
{
    lemma_times_one_single(v.states[id].volume);
}

/// At its right end the crossfader silences the first deck, at its left end
/// the second.
pub proof fn lemma_crossfader_silences(v: MixerView, id: int)
    requires
        0 <= id < DECK_COUNT,
        v.crossfader == if id == 0 {
            F32::nearest_to(1)
        } else {
            F32::nearest_to(1).opposite()
        },
        v.states[id].volume.finite(),
    ensures
        v.output_volume(id).equals(F32::zero()),
{
    let one = F32::nearest_to(1);
    lemma_whole_single(1);
    lemma_cancels_single(one);
    lemma_one_is_positive();
    lemma_times_zero_single(v.states[id].volume);
}

/// The crossfader only takes away: a volume comes out no higher than it is set,
/// and never below zero.
pub proof fn lemma_crossfader_attenuates(v: MixerView, id: int)
    requires
        0 <= id < DECK_COUNT,
        F32::nearest_to(1).opposite().le(v.crossfader),
        v.crossfader.le(F32::nearest_to(1)),
        v.states[id].volume.finite(),
        F32::zero().le(v.states[id].volume),
    ensures
        F32::zero().le(v.output_volume(id)),
        v.output_volume(id).le(v.states[id].volume),
        F32::zero().le(v.mix_volume(id)),
        v.mix_volume(id).le(v.states[id].volume),
{
    let one = F32::nearest_to(1);
    let volume = v.states[id].volume;
    let c = v.crossfader;
    lemma_whole_single(1);
    lemma_one_is_positive();
    lemma_opposite_single(c);
    lemma_order_single(F32::zero(), c, one);
    lemma_order_single(c, F32::zero(), one);
    lemma_order_single(F32::zero(), one, one);
    lemma_order_single(one, one, one);
    lemma_order_single(volume, volume, one);
    lemma_least_single(volume);
    if id == 0 && c.gt(F32::zero()) {
        lemma_rest_single(c);
    } else if id == 1 && c.lt(F32::zero()) {
        lemma_rest_single(c.opposite());
    }
    lemma_share_single(volume, fade(c, id as usize));
}

/// A deck as it comes: empty, not playing, at full volume and normal speed, all
/// knobs in the middle.
pub open spec fn fresh_deck(deck: Deck) -> bool {
    &&& !deck.has_sink
    &&& !deck.is_playing
    &&& deck.samples@ == Seq::<F32>::empty()
    &&& deck.waveform@ == Seq::<WaveformPoint>::empty()
    &&& deck.channels == 2
    &&& deck.sample_rate == 44100
    &&& deck.duration == TimeSpan::zero()
    &&& deck.bpm == F32::zero()
    &&& deck.beat_offset == F32::zero()
    &&& deck.file_path is None
    &&& deck.volume == F32::nearest_to(1)
    &&& deck.user_speed == F32::nearest_to(1)
    &&& deck.control_cursor == 0
    &&& deck.control_speed == F32::nearest_to(1).to_bits()
    &&& deck.low == F32::ratio(1, 2).to_bits()
    &&& deck.mid == F32::ratio(1, 2).to_bits()
    &&& deck.high == F32::ratio(1, 2).to_bits()
    &&& !deck.metronome_enabled
    &&& deck.last_beat_index == NO_BEAT
}

/// The crossfader fades in a line: a deck that it turns away from keeps, but for
/// rounding, what the crossfader leaves of one; the other deck keeps all.
pub proof fn lemma_fade_is_linear(crossfader: F32, id: usize)
    requires
        small(crossfader, 1),
        id < DECK_COUNT,
    ensures
        ({
            let c = crossfader.value();
            let f = fade(crossfader, id);
            &&& id == 0 && c > 0 ==> close(f.value(), unit() - c, 1)
            &&& id == 1 && c < 0 ==> close(f.value(), unit() + c, 1)
            &&& id == 0 && c <= 0 || id == 1 && c >= 0 ==> f == F32::nearest_to(1)
        }),
{
    let one = F32::nearest_to(1);
    lemma_unit();
    lemma_zeros();
    lemma_whole_single(1);
    lemma_by_value_single(F32::zero(), crossfader);
    lemma_by_value_single(crossfader, F32::zero());
    lemma_minus_close(one, crossfader, 1, 1);
    lemma_plus_close(one, crossfader, 1, 1);
}

} // verus!

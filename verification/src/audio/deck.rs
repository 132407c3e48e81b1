//! A deck: the track on it, and how it is played.
use vstd::prelude::*;
use std::sync::Arc;
use crate::analysis::waveform::WaveformPoint;
use crate::float::arith::{abs, Direction};
use crate::float::close::{
    close, lemma_floor_of, lemma_minus_close, lemma_over_close, lemma_plus_close,
    lemma_ratio_close, lemma_times_close, lemma_unit, small, unit,
};
use crate::float::double::F64;
use crate::float::exact::{
    lemma_whole_integral_double, lemma_whole_over_double, lemma_whole_plus_zero_double,
    lemma_whole_single, lemma_whole_times_double, lemma_zero_over_double,
};
use crate::float::order::{lemma_by_value_single, lemma_zeros};
use crate::float::single::F32;
use super::span::{lemma_no_seconds, lemma_whole_span, span_of, TimeSpan};

verus! {

/// The number of decks.
pub const DECK_COUNT: usize = 2;

/// How long a click of the metronome sounds, in milliseconds.
pub const CLICK_MILLIS: u64 = 40;

/// The beat before the first one.
pub const NO_BEAT: i32 = -1;

/// A track as it comes off the disk.
#[derive(Clone, Debug)]
pub struct DeckData {
    pub samples: Vec<F32>,
    pub waveform: Vec<WaveformPoint>,
    pub channels: u16,
    pub sample_rate: u32,
    pub duration: TimeSpan,
    pub bpm: F32,
    pub beat_offset: F32,
    pub path: String,
}

/// A deck. The place in the track is the bits of a double-precision frame
/// number; the speed and the three knobs are the bits of single-precision
/// numbers.
pub struct Deck {
    /// Whether there is a sink that plays the track.
    pub has_sink: bool,
    pub samples: Arc<Vec<F32>>,
    pub waveform: Vec<WaveformPoint>,
    pub channels: u16,
    pub sample_rate: u32,
    pub duration: TimeSpan,
    pub bpm: F32,
    pub beat_offset: F32,
    pub file_path: Option<String>,
    pub is_playing: bool,
    pub volume: F32,
    pub user_speed: F32,
    pub control_cursor: u64,
    pub control_speed: u32,
    pub low: u32,
    pub mid: u32,
    pub high: u32,
    pub metronome_enabled: bool,
    pub last_beat_index: i32,
}

/// What is to be done with the sink of a deck.
#[derive(Clone, Copy, Debug, PartialEq, Eq, Structural)]
pub enum SinkCommand {
    Nothing,
    /// Make a sink at the volume of the deck and give it the track.
    Start,
    Resume,
    Pause,
    /// Stop the sink and give it up.
    Stop,
    SetVolume(F32),
}

/// A click of the metronome: its frequency in hertz.
#[derive(Clone, Copy, Debug, PartialEq, Eq, Structural)]
pub struct Click {
    pub frequency: F32,
}

impl Deck {
    /// An empty deck at full volume and normal speed.
    pub fn new() -> (r: Deck)
        ensures
            !r.has_sink,
            r.samples@ == Seq::<F32>::empty(),
            r.waveform@ == Seq::<WaveformPoint>::empty(),
            r.channels == 2,
            r.sample_rate == 44100,
            r.duration == TimeSpan::zero(),
            r.bpm == F32::zero(),
            r.beat_offset == F32::zero(),
            r.file_path is None,
            !r.is_playing,
            r.volume == F32::nearest_to(1),
            r.user_speed == F32::nearest_to(1),
            r.control_cursor == 0,
            r.control_speed == F32::nearest_to(1).to_bits(),
            r.low == F32::ratio(1, 2).to_bits(),
            r.mid == F32::ratio(1, 2).to_bits(),
            r.high == F32::ratio(1, 2).to_bits(),
            !r.metronome_enabled,
            r.last_beat_index == NO_BEAT,
    {
        Deck {
            has_sink: false,
            samples: Arc::new(Vec::new()),
            waveform: Vec::new(),
            channels: 2,
            sample_rate: 44100,
            duration: TimeSpan::zero(),
            bpm: F32::zero(),
            beat_offset: F32::zero(),
            file_path: None,
            is_playing: false,
            volume: F32::whole(1),
            user_speed: F32::whole(1),
            control_cursor: 0,
            control_speed: F32::whole(1).to_bits(),
            low: F32::ratio(1, 2).to_bits(),
            mid: F32::ratio(1, 2).to_bits(),
            high: F32::ratio(1, 2).to_bits(),
            metronome_enabled: false,
            last_beat_index: NO_BEAT,
        }
    }

    /// The deck with another track on it, at its beginning and stopped.
    pub open spec fn loaded(self, data: DeckData) -> Deck {
        Deck {
            has_sink: false,
            samples: Arc::new(data.samples),
            waveform: data.waveform,
            channels: data.channels,
            sample_rate: data.sample_rate,
            duration: data.duration,
            bpm: data.bpm,
            beat_offset: data.beat_offset,
            file_path: Some(data.path),
            is_playing: false,
            control_cursor: 0,
            ..self
        }
    }

    /// Puts a track on the deck.
    pub fn load_data(&mut self, data: DeckData) -> (r: SinkCommand)
        ensures
            *final(self) == old(self).loaded(data),
            r == old(self).stop_command(),
    {
        self.file_path = Some(data.path);
        self.samples = Arc::new(data.samples);
        self.waveform = data.waveform;
        self.channels = data.channels;
        self.sample_rate = data.sample_rate;
        self.duration = data.duration;
        self.bpm = data.bpm;
        self.beat_offset = data.beat_offset;
        self.control_cursor = 0;
        self.stop()
    }

    /// The deck after it has begun to play.
    pub open spec fn played(self) -> Deck {
        Deck {
            has_sink: self.has_sink || self.samples@.len() > 0,
            is_playing: true,
            control_speed: self.user_speed.to_bits(),
            last_beat_index: NO_BEAT,
            ..self
        }
    }

    /// What playing asks of the sink.
    pub open spec fn play_command(self) -> SinkCommand {
        if self.has_sink {
            SinkCommand::Resume
        } else if self.samples@.len() > 0 {
            SinkCommand::Start
        } else {
            SinkCommand::Nothing
        }
    }

    /// What stopping asks of the sink.
    pub open spec fn stop_command(self) -> SinkCommand {
        if self.has_sink {
            SinkCommand::Stop
        } else {
            SinkCommand::Nothing
        }
    }

    /// Plays, at the speed that is set; the metronome starts over.
    pub fn play(&mut self) -> (r: SinkCommand)
        ensures
            *final(self) == old(self).played(),
            r == old(self).play_command(),
    {
        self.last_beat_index = NO_BEAT;
        let command: SinkCommand = if self.has_sink {
            SinkCommand::Resume
        } else if self.samples.len() > 0 {
            self.has_sink = true;
            SinkCommand::Start
        } else {
            SinkCommand::Nothing
        };
        self.control_speed = self.user_speed.to_bits();
        self.is_playing = true;
        command
    }

    /// What pausing asks of the sink.
    pub open spec fn pause_command(self) -> SinkCommand {
        if self.has_sink {
            SinkCommand::Pause
        } else {
            SinkCommand::Nothing
        }
    }

    /// Pauses.
    pub fn pause(&mut self) -> (r: SinkCommand)
        ensures
            *final(self) == (Deck { is_playing: false, ..*old(self) }),
            r == old(self).pause_command(),
    {
        self.is_playing = false;
        if self.has_sink {
            SinkCommand::Pause
        } else {
            SinkCommand::Nothing
        }
    }

    /// Stops, and goes back to the beginning.
    pub fn stop(&mut self) -> (r: SinkCommand)
        ensures
            *final(self) == (Deck {
                has_sink: false,
                is_playing: false,
                control_cursor: 0,
                ..*old(self)
            }),
            r == old(self).stop_command(),
    {
        let command: SinkCommand = if self.has_sink {
            SinkCommand::Stop
        } else {
            SinkCommand::Nothing
        };
        self.has_sink = false;
        self.is_playing = false;
        self.control_cursor = 0;
        command
    }

    /// The tempo at the speed that is set.
    #[verifier::allow_in_spec]
    pub fn effective_bpm(&self) -> F32
        returns
            self.bpm.times(self.user_speed),
    {
        self.bpm.times(self.user_speed)
    }

    /// Sets the volume.
    pub fn set_volume(&mut self, volume: F32) -> (r: SinkCommand)
        ensures
            *final(self) == (Deck { volume, ..*old(self) }),
            r == if old(self).has_sink {
                SinkCommand::SetVolume(volume)
            } else {
                SinkCommand::Nothing
            },
    {
        self.volume = volume;
        if self.has_sink {
            SinkCommand::SetVolume(volume)
        } else {
            SinkCommand::Nothing
        }
    }

    /// Sets the speed, also for the next time it plays.
    pub fn set_speed(&mut self, speed: F32)
        ensures
            *final(self) == (Deck {
                user_speed: speed,
                control_speed: speed.to_bits(),
                ..*old(self)
            }),
    {
        self.user_speed = speed;
        self.control_speed = speed.to_bits();
    }

    /// Sets the speed for the moment.
    pub fn set_scratch_speed(&mut self, speed: F32)
        ensures
            *final(self) == (Deck { control_speed: speed.to_bits(), ..*old(self) }),
    {
        self.control_speed = speed.to_bits();
    }

    /// The frame at a time, rounded to a whole one; times behind the end of
    /// the track count as its end.
    pub open spec fn frame_at(self, pos: TimeSpan) -> F64 {
        let at = if pos.total() > self.duration.total() {
            self.duration
        } else {
            pos
        };
        at.as_secs_double().times(F64::nearest_to(self.sample_rate as int)).round()
    }

    /// Goes to a time in the track.
    pub fn seek_to(&mut self, pos: TimeSpan)
        ensures
            *final(self) == (Deck {
                control_cursor: old(self).frame_at(pos).to_bits(),
                ..*old(self)
            }),
    {
        let at: TimeSpan = if pos.longer_than(self.duration) {
            self.duration
        } else {
            pos
        };
        let frame: F64 = at.as_secs_double().times(F64::of_u64(self.sample_rate as u64)).round();
        self.control_cursor = frame.to_bits();
    }

    /// The time in the track, to the nanosecond; zero where there is no sample
    /// rate, and none where the place is not a time.
    pub open spec fn position(self) -> Option<TimeSpan> {
        if self.sample_rate == 0 {
            Some(TimeSpan::zero())
        } else {
            span_of(
                F64::from_bits(self.control_cursor).over(F64::nearest_to(self.sample_rate as int)),
            )
        }
    }

    /// The time in the track. There is no answer where the place is not a
    /// time: before the beginning, or no number.
    pub fn get_position(&self) -> (r: Option<TimeSpan>)
        ensures
            r == self.position(),
    {
        if self.sample_rate == 0 {
            return Some(TimeSpan::zero());
        }
        TimeSpan::from_secs(
            F64::from_bits(self.control_cursor).over(F64::of_u64(self.sample_rate as u64)),
        )
    }

    /// Turns the low knob.
    pub fn set_low(&mut self, v: F32)
        ensures
            *final(self) == (Deck { low: v.to_bits(), ..*old(self) }),
    {
        self.low = v.to_bits();
    }

    /// Turns the middle knob.
    pub fn set_mid(&mut self, v: F32)
        ensures
            *final(self) == (Deck { mid: v.to_bits(), ..*old(self) }),
    {
        self.mid = v.to_bits();
    }

    /// Turns the high knob.
    pub fn set_high(&mut self, v: F32)
        ensures
            *final(self) == (Deck { high: v.to_bits(), ..*old(self) }),
    {
        self.high = v.to_bits();
    }

    /// The deck with the metronome turned on or off.
    pub open spec fn metronome_toggled(self) -> Deck {
        Deck { metronome_enabled: !self.metronome_enabled, last_beat_index: NO_BEAT, ..self }
    }

    /// Turns the metronome on or off; it starts over.
    pub fn toggle_metronome(&mut self)
        ensures
            *final(self) == old(self).metronome_toggled(),
    {
        self.metronome_enabled = !self.metronome_enabled;
        self.last_beat_index = NO_BEAT;
    }

    /// The beats from the first one to a time, 33 milliseconds ahead.
    pub open spec fn beats_at(self, pos: TimeSpan) -> F32 {
        pos.as_secs_single().minus(self.beat_offset).plus(F32::ratio(33, 1000)).over(
            F32::nearest_to(60).over(self.bpm),
        )
    }

    /// The number of the beat at a time.
    pub open spec fn beat_index_at(self, pos: TimeSpan) -> i32 {
        self.beats_at(pos).floor().integer_part(i32::MIN as int, i32::MAX as int) as i32
    }

    /// The metronome is to be heard.
    pub open spec fn metronome_runs(self) -> bool {
        self.metronome_enabled && self.is_playing && !self.bpm.le(F32::zero())
    }

    /// The beat at a time is a new one.
    pub open spec fn new_beat(self, pos: TimeSpan) -> bool {
        self.metronome_runs() && self.beat_index_at(pos) > self.last_beat_index && self.beats_at(
            pos,
        ).ge(F32::zero())
    }

    /// The deck after a tick of the metronome, and the click that sounds.
    pub open spec fn ticked(self) -> (Deck, Option<Click>) {
        match self.position() {
            Some(pos) => if self.new_beat(pos) {
                (
                    Deck { last_beat_index: self.beat_index_at(pos), ..self },
                    Some(click_of(self.beat_index_at(pos))),
                )
            } else {
                (self, None)
            },
            None => (self, None),
        }
    }

    /// Sounds a click where a new beat has begun: a high one on the third of
    /// every four, a low one on the others. Nothing sounds where the place is
    /// not a time.
    pub fn tick_metronome(&mut self) -> (r: Option<Click>)
        ensures
            (*final(self), r) == old(self).ticked(),
    {
        if !self.metronome_enabled || !self.is_playing || self.bpm.le(F32::zero()) {
            return None;
        }
        match self.get_position() {
            Some(pos) => {
                let beat_duration: F32 = F32::whole(60).over(self.bpm);
                let beats: F32 = pos.as_secs_single().minus(self.beat_offset).plus(
                    F32::ratio(33, 1000),
                ).over(beat_duration);
                let current: i32 = beats.floor().to_i32();
                if current > self.last_beat_index && beats.ge(F32::zero()) {
                    self.last_beat_index = current;
                    Some(make_click(current))
                } else {
                    None
                }
            },
            None => None,
        }
    }
}

/// The click of a beat.
pub open spec fn click_of(beat: i32) -> Click {
    Click {
        frequency: if (beat + 2) % 4 == 0 {
            F32::nearest_to(1200)
        } else {
            F32::nearest_to(880)
        },
    }
}

fn make_click(beat: i32) -> (r: Click)
    ensures
        r == click_of(beat),
{
    let shifted: i64 = beat as i64 + 2 + 0x1_0000_0000;
    assert(shifted % 4 == (beat + 2) % 4);
    if shifted % 4 == 0 {
        Click { frequency: F32::whole(1200) }
    } else {
        Click { frequency: F32::whole(880) }
    }
}

/// A beat clicks once: ticking again in the same place is silent, and a click
/// moves the count of beats on.
pub proof fn lemma_clicks_once(deck: Deck)
    ensures
        deck.ticked().0.ticked() == (deck.ticked().0, None::<Click>),
        deck.ticked().1 is Some ==> deck.ticked().0.last_beat_index > deck.last_beat_index,
        deck.ticked().1 is None ==> deck.ticked().0 == deck,
{
}

/// Where the metronome clicks depends on the place in the track, its tempo and
/// its first beat alone: two decks that agree in these and in the beat that
/// clicked last click alike, however fast and however loud they play.
pub proof fn lemma_clicks_follow_track(deck: Deck, other: Deck)
    requires
        deck.control_cursor == other.control_cursor,
        deck.sample_rate == other.sample_rate,
        deck.bpm == other.bpm,
        deck.beat_offset == other.beat_offset,
        deck.metronome_enabled == other.metronome_enabled,
        deck.is_playing == other.is_playing,
        deck.last_beat_index == other.last_beat_index,
    ensures
        deck.ticked().1 == other.ticked().1,
        deck.ticked().0.last_beat_index == other.ticked().0.last_beat_index,
        forall|pos: TimeSpan| #[trigger]
            deck.beat_index_at(pos) == other.beat_index_at(pos),
{
}

/// The click is the high one on every fourth beat: of four beats in a row
/// exactly one has it.
pub proof fn lemma_one_high_click_in_four(beat: i32)
    requires
        beat <= i32::MAX - 4,
    ensures
        click_of((beat + 4) as i32) == click_of(beat),
        click_of(2).frequency == F32::nearest_to(1200),
        beat % 4 == 2 <==> click_of(beat).frequency == F32::nearest_to(1200),
        beat % 4 != 2 ==> click_of(beat).frequency == F32::nearest_to(880),
{
    lemma_whole_single(1200);
    lemma_whole_single(880);
    lemma_unit();
    assert(1200 * unit() != 880 * unit());
}

/// The metronome is silent where it is off, where the deck does not play, and where the
/// track has no tempo; a new beat clicks otherwise.
pub proof fn lemma_metronome_heard(deck: Deck, pos: TimeSpan)
    requires
        deck.position() == Some(pos),
    ensures
        !deck.metronome_enabled || !deck.is_playing ==> deck.ticked() == (deck, None::<Click>),
        deck.bpm.finite() && deck.bpm.value() <= 0 ==> deck.ticked() == (deck, None::<Click>),
        ({
            let k = deck.beat_index_at(pos);
            deck.metronome_enabled && deck.is_playing && deck.bpm.finite() && deck.bpm.value() > 0
                && k > deck.last_beat_index && deck.beats_at(pos).finite() && deck.beats_at(
                pos,
            ).value() >= 0 ==> deck.ticked().1 == Some(click_of(k))
                && deck.ticked().0.last_beat_index == k
        }),
{
    lemma_zeros();
    if deck.bpm.finite() {
        lemma_by_value_single(deck.bpm, F32::zero());
    }
    if deck.beats_at(pos).finite() {
        lemma_by_value_single(F32::zero(), deck.beats_at(pos));
    }
}

/// The tempo that is heard is that of the track times the speed, but for rounding.
pub proof fn lemma_speed_scales_tempo(deck: Deck)
    requires
        small(deck.bpm, 0x1000),
        small(deck.user_speed, 0x100),
    ensures
        close(deck.effective_bpm().value(), deck.bpm.value() * deck.user_speed.value(), unit()),
{
    lemma_times_close(deck.bpm, deck.user_speed, 0x1000, 0x100);
}

/// The tempo of the metronome: but for rounding, the beats at a time are the
/// seconds since 33 milliseconds before the first beat, times the beats per
/// minute, over sixty.
pub proof fn lemma_beats_keep_tempo(deck: Deck, pos: TimeSpan)
    requires
        small(pos.as_secs_single(), 0x10_0000),
        small(deck.beat_offset, 0x10_0000),
        small(deck.bpm, 0x400),
        deck.bpm.value() >= unit(),
    ensures
        deck.beats_at(pos).finite(),
        ({
            let u = unit();
            let t = pos.as_secs_single().value();
            let o = deck.beat_offset.value();
            let b = deck.bpm.value();
            let gap = 60000 * (deck.beats_at(pos).value() * u) - (1000 * (t - o) + 33 * u) * b;
            let slack = 1000 * ((abs(t) + abs(o) + u) * b);
            -slack <= 0x8_0000 * gap <= slack
        }),
{
    let u = unit();
    let t = pos.as_secs_single();
    let o = deck.beat_offset;
    let b = deck.bpm;
    let m = 0x10_0000int;
    let n = abs(t.value()) + abs(o.value()) + u;
    lemma_unit();
    lemma_minus_close(t, o, m, m);
    let gone = t.minus(o);
    lemma_ratio_close(33, 1000);
    let ahead = F32::ratio(33, 1000);
    lemma_plus_close(gone, ahead, 4 * m + 1, 67);
    let s = gone.plus(ahead);
    lemma_whole_single(60);
    let sixty = F32::nearest_to(60);
    assert(0 <= sixty.value() * u <= (60 * u) * b.value()) by (nonlinear_arith)
        requires
            sixty.value() == 60 * u,
            b.value() >= u,
            u > 0,
    ;
    assert(-((60 * u) * b.value()) <= 0) by (nonlinear_arith)
        requires
            b.value() >= u,
            u > 0,
    ;
    lemma_over_close(sixty, b, 60);
    let d = sixty.over(b);
    lemma_beat_length(d.value(), b.value(), u);
    lemma_beat_gap(
        t.value(),
        o.value(),
        gone.value(),
        ahead.value(),
        s.value(),
        u,
    );
    let bound = 0x2000_0000int;
    assert(-((bound * u) * d.value()) <= s.value() * u <= (bound * u) * d.value()) by (
        nonlinear_arith)
        requires
            abs(s.value()) <= 4 * n,
            s.value() <= abs(s.value()),
            -s.value() <= abs(s.value()),
            n <= 0x20_0001 * u,
            u <= 32 * d.value(),
            u > 0,
            bound == 0x2000_0000,
    ;
    lemma_over_close(s, d, bound);
    let r = s.over(d).value();
    lemma_beat_quotient(r, s.value(), d.value(), b.value(), u);
    assert(abs(r * u) == abs(r) * u) by (nonlinear_arith)
        requires
            u > 0,
            r >= 0 ==> abs(r) == r,
            r < 0 ==> abs(r) == -r,
            r * u >= 0 ==> abs(r * u) == r * u,
            r * u < 0 ==> abs(r * u) == -(r * u),
    ;
    lemma_beat_sum(
        r * u,
        s.value(),
        1000 * (t.value() - o.value()) + 33 * u,
        n,
        b.value(),
        u,
    );
    assert(deck.beats_at(pos).value() == r);
}

proof fn lemma_beat_length(d: int, b: int, u: int)
    requires
        u >= 0x100_0000_0000,
        u <= b <= 0x400 * u,
        close(d, (60 * u) * u, b),
    ensures
        u <= 32 * d,
        d * b <= 61 * (u * u),
        0x100_0000 * (d * b - 60 * (u * u)) <= d * b + 0x80_0000 * b,
        0x100_0000 * (60 * (u * u) - d * b) <= d * b + 0x80_0000 * b,
        0x80_0000 * b <= u * u,
{
    let w = u * u;
    assert((60 * u) * u == 60 * w) by (nonlinear_arith)
        requires
            w == u * u,
    ;
    assert(0x80_0000 * b <= w) by (nonlinear_arith)
        requires
            b <= 0x400 * u,
            u >= 0x100_0000_0000,
            w == u * u,
    ;
    assert(w > 0) by (nonlinear_arith)
        requires
            u > 0,
            w == u * u,
    ;
    if d < 0 {
        assert(d * b <= 0 && abs(d) * b == -(d * b)) by (nonlinear_arith)
            requires
                d < 0,
                b > 0,
                abs(d) == -d,
        ;
    }
    if 32 * d < u {
        assert(32 * (d * b) <= 0x400 * w) by (nonlinear_arith)
            requires
                0 <= d,
                32 * d < u,
                0 < b <= 0x400 * u,
                w == u * u,
                u > 0,
        ;
    }
}

proof fn lemma_beat_gap(t: int, o: int, gone: int, ahead: int, s: int, u: int)
    requires
        u >= 0x100_0000_0000,
        close(gone, t - o, 1),
        close(ahead, 33 * u, 1000),
        ahead >= 0,
        close(s, gone + ahead, 1),
        -(0x10_0000 * u) <= t <= 0x10_0000 * u,
        -(0x10_0000 * u) <= o <= 0x10_0000 * u,
    ensures
        ({
            let n = abs(t) + abs(o) + u;
            let gap = 1000 * s - (1000 * (t - o) + 33 * u);
            &&& -(8000 * n) <= 0x100_0000 * gap <= 8000 * n
            &&& abs(s) <= 4 * n
            &&& n <= 0x20_0001 * u
        }),
{
}

proof fn lemma_beat_quotient(r: int, s: int, d: int, b: int, u: int)
    requires
        u >= 0x100_0000_0000,
        u <= b,
        d > 0,
        d * b <= 61 * (u * u),
        0x100_0000 * (d * b - 60 * (u * u)) <= d * b + 0x80_0000 * b,
        0x100_0000 * (60 * (u * u) - d * b) <= d * b + 0x80_0000 * b,
        0x80_0000 * b <= u * u,
        close(r, s * u, d),
    ensures
        ({
            let gap = 60 * (r * u) - s * b;
            let slack = 123 * (abs(r) * u) + 0x2000_0000 * u;
            -slack <= 0x100_0000 * gap <= slack
        }),
{
    let x = abs(r);
    let w = u * u;
    let e = d * b;
    let k = 0x100_0000int;
    let h = 0x80_0000int;
    let one = k * (r * e - (s * b) * u);
    let y = k * (r * d - s * u);
    let z = x * d + h * d;
    let rd = r * d;
    let su = s * u;
    let xd = x * d;
    assert(r * e == rd * b && (s * b) * u == su * b && x * e == xd * b) by (nonlinear_arith)
        requires
            rd == r * d,
            su == s * u,
            xd == x * d,
            e == d * b,
    ;
    assert(y * b == k * (rd * b - su * b)) by (nonlinear_arith)
        requires
            y == k * (rd - su),
    ;
    assert(z * b == xd * b + h * e) by (nonlinear_arith)
        requires
            z == xd + h * d,
            e == d * b,
    ;
    assert(-(z * b) <= y * b <= z * b) by (nonlinear_arith)
        requires
            -z <= y <= z,
            b > 0,
    ;
    let two = k * (r * e - r * (60 * w));
    assert(two <= x * (e + h * b) && -two <= x * (e + h * b)) by (nonlinear_arith)
        requires
            k * (e - 60 * w) <= e + h * b,
            k * (60 * w - e) <= e + h * b,
            x == r || x == -r,
            x >= 0,
            two == k * (r * e - r * (60 * w)),
    ;
    assert(x * (e + h * b) <= x * (62 * w) && x * e <= x * (61 * w)) by (nonlinear_arith)
        requires
            e <= 61 * w,
            h * b <= w,
            x >= 0,
    ;
    let gap = 60 * (r * u) - s * b;
    let slack = 123 * (x * u) + 0x2000_0000 * u;
    assert(one - two == k * (gap * u)) by (nonlinear_arith)
        requires
            one == k * (r * e - (s * b) * u),
            two == k * (r * e - r * (60 * w)),
            gap == 60 * (r * u) - s * b,
            w == u * u,
    ;
    assert(x * (61 * w) + x * (62 * w) + h * (61 * w) <= slack * u) by (nonlinear_arith)
        requires
            slack == 123 * (x * u) + 0x2000_0000 * u,
            w == u * u,
            h == 0x80_0000,
            u > 0,
    ;
    assert(h * e <= h * (61 * w));
    assert(k * gap <= slack) by (nonlinear_arith)
        requires
            k * (gap * u) <= slack * u,
            u > 0,
    ;
    assert(-slack <= k * gap) by (nonlinear_arith)
        requires
            -(slack * u) <= k * (gap * u),
            u > 0,
    ;
}

proof fn lemma_beat_sum(ru: int, s: int, exact: int, n: int, b: int, u: int)
    requires
        u >= 0x100_0000_0000,
        u <= b,
        u <= n,
        abs(s) <= 4 * n,
        -(8000 * n) <= 0x100_0000 * (1000 * s - exact) <= 8000 * n,
        ({
            let gap = 60 * ru - s * b;
            let slack = 123 * abs(ru) + 0x2000_0000 * u;
            -slack <= 0x100_0000 * gap <= slack
        }),
    ensures
        ({
            let gap = 60000 * ru - exact * b;
            let slack = 1000 * (n * b);
            -slack <= 0x8_0000 * gap <= slack
        }),
{
    let nb = n * b;
    let sb = s * b;
    let eb = exact * b;
    assert(-(4 * nb) <= sb <= 4 * nb) by (nonlinear_arith)
        requires
            -(4 * n) <= s <= 4 * n,
            b > 0,
            nb == n * b,
            sb == s * b,
    ;
    assert(0x2000_0000 * u <= nb) by (nonlinear_arith)
        requires
            u >= 0x100_0000_0000,
            u <= n,
            u <= b,
            nb == n * b,
    ;
    assert(-(8000 * nb) <= 0x100_0000 * (1000 * sb - eb) <= 8000 * nb) by (nonlinear_arith)
        requires
            -(8000 * n) <= 0x100_0000 * (1000 * s - exact) <= 8000 * n,
            b > 0,
            nb == n * b,
            sb == s * b,
            eb == exact * b,
    ;
}

/// The number of a beat counts the whole beats: it is `k` from `k` beats on
/// until `k + 1`.
pub proof fn lemma_beat_index_counts(deck: Deck, pos: TimeSpan, k: int)
    requires
        deck.beats_at(pos).finite(),
        -0x80_0000 <= k < 0x80_0000,
        k * unit() <= deck.beats_at(pos).value() < (k + 1) * unit(),
    ensures
        deck.beat_index_at(pos) == k,
{
    lemma_floor_of(deck.beats_at(pos), k, i32::MIN as int, i32::MAX as int);
}

/// A loaded track is at its beginning, whatever the deck did before.
pub proof fn lemma_load_rewinds(deck: Deck, data: DeckData)
    ensures
        deck.loaded(data).position() == Some(TimeSpan::zero()),
        !deck.loaded(data).is_playing,
        !deck.loaded(data).has_sink,
{
    if data.sample_rate > 0 {
        lemma_zero_over_double(data.sample_rate as int);
        lemma_no_seconds();
    }
}

/// A deck that is sent to a whole second of its track is at that second.
pub proof fn lemma_seek_is_exact(deck: Deck, second: u64)
    requires
        deck.sample_rate > 0,
        second * deck.sample_rate < 0x20_0000_0000_0000,
        second * 1_000_000_000 <= deck.duration.total(),
    ensures
        ({
            let pos = TimeSpan { secs: second, nanos: 0 };
            let moved = Deck { control_cursor: deck.frame_at(pos).to_bits(), ..deck };
            moved.position() == Some(pos)
        }),
{
    let rate = deck.sample_rate as int;
    let k = second as int;
    assert(k <= k * rate) by (nonlinear_arith)
        requires
            rate >= 1,
            k >= 0,
    ;
    lemma_zero_over_double(1_000_000_000);
    lemma_whole_plus_zero_double(k);
    lemma_whole_times_double(k, rate);
    lemma_whole_integral_double(k * rate, Direction::HalfAway);
    lemma_whole_over_double(k, rate);
    lemma_whole_span(second);
}

} // verus!

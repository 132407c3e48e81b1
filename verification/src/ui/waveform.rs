//! The outline of a track that runs past, and is dragged to scratch.
use vstd::prelude::*;
use crate::analysis::waveform::WaveformPoint;
use crate::audio::span::TimeSpan;
use crate::float::arith::abs;
use crate::float::close::{
    close, lemma_cancel, lemma_close_reduced, lemma_opposite_close, lemma_over_close,
    lemma_plus_fraction, lemma_small_within, lemma_times_close, lemma_unit, small, unit,
};
use crate::float::exact::lemma_whole_single;
use crate::float::order::{
    lemma_by_value_single, lemma_order_single, lemma_ratio_at_most, lemma_times_by_value,
    lemma_zeros,
};
use crate::float::single::F32;

verus! {

/// What the outline asks for.
#[derive(Clone, Copy, Debug, PartialEq, Eq, Structural)]
pub enum WaveformOutput {
    Seek(F32),
    Scratch(F32),
    Zoom(F32),
    Released,
}

/// Whether the outline is being dragged: where the mouse was last, and when.
#[derive(Clone, Copy, Debug, PartialEq, Eq, Structural)]
pub enum WaveformState {
    Idle,
    Dragging { last_x: F32, last_time: TimeSpan },
}

impl Default for WaveformState {
    fn default() -> (r: WaveformState)
        ensures
            r == WaveformState::Idle,
    {
        WaveformState::Idle
    }
}

/// What the mouse does.
#[derive(Clone, Copy, Debug)]
pub enum WaveformEvent {
    Scrolled(F32),
    /// The left button goes down at a time.
    Pressed(TimeSpan),
    Released,
    /// The mouse moves at a time.
    Moved(TimeSpan),
    Other,
}

/// The outline of a track.
pub struct Waveform {
    pub data: Vec<WaveformPoint>,
    /// Where in the track playback is, from 0 to 1.
    pub pos: F32,
    pub bpm: F32,
    pub beat_offset: F32,
    pub sample_rate: u32,
    pub zoom: F32,
}

/// A point on the screen.
#[derive(Clone, Copy, Debug)]
pub struct PlotPoint {
    pub x: F32,
    pub y: F32,
    pub color: [F32; 3],
}

/// The line of a beat: its left edge and its width, and whether a bar begins
/// there.
#[derive(Clone, Copy, Debug, PartialEq, Eq, Structural)]
pub struct GridLine {
    pub left: F32,
    pub width: F32,
    pub bar: bool,
}

impl Waveform {
    /// An outline.
    pub fn new(
        data: Vec<WaveformPoint>,
        pos: F32,
        bpm: F32,
        beat_offset: F32,
        sample_rate: u32,
        zoom: F32,
    ) -> (r: Waveform)
        ensures
            r == (Waveform { data, pos, bpm, beat_offset, sample_rate, zoom }),
    {
        Waveform { data, pos, bpm, beat_offset, sample_rate, zoom }
    }

    /// The zoom after the wheel has turned.
    #[verifier::allow_in_spec]
    pub fn zoomed(&self, y: F32) -> F32
        returns
            self.zoom.plus(y.times(F32::ratio(2, 100))).clamp(
                F32::ratio(2, 10),
                F32::nearest_to(5),
            ),
    {
        self.zoom.plus(y.times(F32::ratio(2, 100))).clamp(F32::ratio(2, 10), F32::whole(5))
    }

    /// The speed that a movement gives the record: moving as fast as the
    /// outline runs is normal speed.
    #[verifier::allow_in_spec]
    pub fn scratch_speed(&self, dx: F32, dt: F32) -> F32
        returns
            ({
                let bpm = if self.bpm.gt(F32::zero()) {
                    self.bpm
                } else {
                    F32::nearest_to(120)
                };
                let run = F32::nearest_to(128).times(self.zoom).times(
                    bpm.over(F32::nearest_to(60)),
                );
                let sensitivity = if run.gt(F32::zero()) {
                    F32::nearest_to(1).over(run)
                } else {
                    F32::ratio(5, 1000)
                };
                dx.over(dt).opposite().times(sensitivity)
            }),
    {
        let bpm: F32 = if self.bpm.gt(F32::zero()) {
            self.bpm
        } else {
            F32::whole(120)
        };
        let run: F32 = F32::whole(128).times(self.zoom).times(bpm.over(F32::whole(60)));
        let sensitivity: F32 = if run.gt(F32::zero()) {
            F32::whole(1).over(run)
        } else {
            F32::ratio(5, 1000)
        };
        dx.over(dt).opposite().times(sensitivity)
    }

    /// A movement long enough after the last one to be followed.
    pub open spec fn followed(state: WaveformState, now: TimeSpan) -> bool {
        match state {
            WaveformState::Dragging { last_x, last_time } => now.gap(
                last_time,
            ).as_secs_single().gt(F32::ratio(1, 1000)),
            WaveformState::Idle => false,
        }
    }

    /// The state after an event with the mouse at `cursor`, if it is over the
    /// outline.
    pub open spec fn next_state(
        state: WaveformState,
        event: WaveformEvent,
        cursor: Option<F32>,
    ) -> WaveformState {
        match (event, cursor) {
            (WaveformEvent::Pressed(now), Some(x)) => WaveformState::Dragging {
                last_x: x,
                last_time: now,
            },
            (WaveformEvent::Released, Some(_)) => WaveformState::Idle,
            (WaveformEvent::Moved(now), Some(x)) => if Waveform::followed(state, now) {
                WaveformState::Dragging { last_x: x, last_time: now }
            } else {
                state
            },
            _ => state,
        }
    }

    /// Whether nobody else is to see an event with the mouse at `x` on the outline,
    /// and what is asked for.
    pub open spec fn reaction_at(self, state: WaveformState, event: WaveformEvent, x: F32) -> (
        bool,
        Option<WaveformOutput>,
    ) {
        match event {
            WaveformEvent::Scrolled(y) => if self.zoomed(y).minus(self.zoom).abs().gt(
                F32::ratio(1, 1000),
            ) {
                (true, Some(WaveformOutput::Zoom(self.zoomed(y))))
            } else {
                (false, None)
            },
            WaveformEvent::Pressed(_) => (
                true,
                if self.data@.len() > 0 {
                    Some(WaveformOutput::Scratch(F32::zero()))
                } else {
                    None
                },
            ),
            WaveformEvent::Released => (true, Some(WaveformOutput::Released)),
            WaveformEvent::Moved(now) => match state {
                WaveformState::Dragging { last_x, last_time } => if Waveform::followed(
                    state,
                    now,
                ) {
                    (
                        true,
                        Some(
                            WaveformOutput::Scratch(
                                self.scratch_speed(
                                    x.minus(last_x),
                                    now.gap(last_time).as_secs_single(),
                                ),
                            ),
                        ),
                    )
                } else {
                    (false, None)
                },
                WaveformState::Idle => (false, None),
            },
            WaveformEvent::Other => (false, None),
        }
    }

    /// Whether nobody else is to see an event, and what is asked for. What the
    /// mouse does beside the outline is not for it.
    pub open spec fn reaction(
        self,
        state: WaveformState,
        event: WaveformEvent,
        cursor: Option<F32>,
    ) -> (bool, Option<WaveformOutput>) {
        match cursor {
            Some(x) => self.reaction_at(state, event, x),
            None => (false, None),
        }
    }

    /// Takes an event in, with the mouse at `cursor` if it is over the outline.
    pub fn update(
        &self,
        state: &mut WaveformState,
        event: WaveformEvent,
        cursor: Option<F32>,
    ) -> (r: (bool, Option<WaveformOutput>))
        ensures
            *final(state) == Waveform::next_state(*old(state), event, cursor),
            r == self.reaction(*old(state), event, cursor),
    {
        let x: F32 = match cursor {
            Some(x) => x,
            None => {
                return (false, None);
            },
        };
        match event {
            WaveformEvent::Scrolled(y) => {
                let zoom: F32 = self.zoomed(y);
                if zoom.minus(self.zoom).abs().gt(F32::ratio(1, 1000)) {
                    (true, Some(WaveformOutput::Zoom(zoom)))
                } else {
                    (false, None)
                }
            },
            WaveformEvent::Pressed(now) => {
                *state = WaveformState::Dragging { last_x: x, last_time: now };
                if self.data.len() > 0 {
                    (true, Some(WaveformOutput::Scratch(F32::zero())))
                } else {
                    (true, None)
                }
            },
            WaveformEvent::Released => {
                *state = WaveformState::Idle;
                (true, Some(WaveformOutput::Released))
            },
            WaveformEvent::Moved(now) => {
                let before: WaveformState = *state;
                match before {
                    WaveformState::Dragging { last_x, last_time } => {
                        let dt: F32 = now.since(last_time).as_secs_single();
                        if dt.gt(F32::ratio(1, 1000)) {
                            let speed: F32 = self.scratch_speed(x.minus(last_x), dt);
                            *state = WaveformState::Dragging { last_x: x, last_time: now };
                            return (true, Some(WaveformOutput::Scratch(speed)));
                        }
                        (false, None)
                    },
                    WaveformState::Idle => (false, None),
                }
            },
            WaveformEvent::Other => (false, None),
        }
    }
}

impl Waveform {
    /// The point of the outline that playback is at.
    pub open spec fn current_index(self) -> F32 {
        self.pos.times(F32::nearest_to(self.data@.len() as int))
    }

    /// Points of the outline from beat to beat.
    pub open spec fn points_per_beat(self) -> F32 {
        F32::nearest_to(60).over(self.bpm).times(F32::nearest_to(self.sample_rate as int)).over(
            F32::nearest_to(64),
        )
    }

    /// Points of the outline for each pixel: a beat is 128 pixels wide, times
    /// the zoom.
    pub open spec fn data_step(self) -> F32 {
        if self.bpm.gt(F32::zero()) && self.sample_rate > 0 {
            self.points_per_beat().over(F32::nearest_to(128).times(self.zoom)).times(
                F32::nearest_to(1),
            )
        } else {
            F32::ratio(3, 4).over(self.zoom)
        }
    }

    /// Pixels for each point of the outline.
    pub open spec fn pixels_per_point(self) -> F32 {
        if self.data_step().gt(F32::zero()) {
            F32::nearest_to(1).over(self.data_step())
        } else {
            F32::zero()
        }
    }

    /// The points to each side of the middle that a width shows.
    pub open spec fn visible_points(self, width: F32) -> int {
        let n = width.over(F32::nearest_to(2)).over(self.pixels_per_point()).ceil().integer_part(
            0,
            usize::MAX as int,
        );
        if !self.pixels_per_point().gt(F32::zero()) {
            0
        } else if n < usize::MAX - 2 {
            n + 2
        } else {
            usize::MAX as int
        }
    }

    /// The first point to draw.
    pub open spec fn first_index(self, width: F32) -> int {
        let i = self.current_index().integer_part(isize::MIN as int, isize::MAX as int)
            - self.visible_points(width);
        if i > 0 {
            i
        } else {
            0
        }
    }

    /// The last point to draw.
    pub open spec fn last_index(self, width: F32) -> int {
        let i = self.current_index().integer_part(0, usize::MAX as int) + self.visible_points(
            width,
        );
        if i < self.data@.len() - 1 {
            i
        } else {
            self.data@.len() - 1
        }
    }

    /// Where a place in the outline, given as an index, is on the screen.
    pub open spec fn screen_x(self, index: F32, width: F32) -> F32 {
        width.over(F32::nearest_to(2)).plus(
            index.minus(self.current_index()).times(self.pixels_per_point()),
        )
    }

    /// Where point `i` of the outline is on the screen.
    pub open spec fn plotted(self, i: int, width: F32, height: F32) -> PlotPoint {
        let half = height.over(F32::nearest_to(2));
        PlotPoint {
            x: self.screen_x(F32::nearest_to(i), width),
            y: half.minus(self.data@[i].amplitude.times(half)),
            color: self.data@[i].color,
        }
    }

    /// The points of the outline that are drawn, joined one to the next.
    pub open spec fn plot(self, width: F32, height: F32) -> Seq<PlotPoint> {
        let first = self.first_index(width);
        let last = self.last_index(width);
        if self.data@.len() > 0 && first <= last && self.pixels_per_point().gt(F32::zero()) {
            Seq::new(
                (last - first + 1) as nat,
                |k: int| self.plotted(first + k, width, height),
            )
        } else {
            seq![]
        }
    }

    /// The beats of the first bar are so many points from the beginning.
    pub open spec fn offset_in_points(self) -> F32 {
        self.beat_offset.times(F32::nearest_to(self.sample_rate as int)).over(F32::nearest_to(64))
    }

    /// The first beat on the screen.
    pub open spec fn first_beat(self, width: F32) -> int {
        self.current_index().minus(F32::nearest_to(self.visible_points(width))).minus(
            self.offset_in_points(),
        ).over(self.points_per_beat()).ceil().integer_part(i32::MIN as int, i32::MAX as int)
    }

    /// The last beat on the screen.
    pub open spec fn last_beat(self, width: F32) -> int {
        self.current_index().plus(F32::nearest_to(self.visible_points(width))).minus(
            self.offset_in_points(),
        ).over(self.points_per_beat()).floor().integer_part(i32::MIN as int, i32::MAX as int)
    }

    /// The line of a beat; every fourth begins a bar and is twice as wide.
    pub open spec fn beat_line(self, beat: int, width: F32) -> GridLine {
        let bar = beat % 4 == 0;
        let line = if bar {
            F32::nearest_to(2)
        } else {
            F32::nearest_to(1)
        };
        let x = self.screen_x(
            self.offset_in_points().plus(F32::nearest_to(beat).times(self.points_per_beat())),
            width,
        );
        GridLine { left: x.minus(line.over(F32::nearest_to(2))), width: line, bar }
    }

    /// The lines of the beats on the screen.
    pub open spec fn grid(self, width: F32) -> Seq<GridLine> {
        let first = self.first_beat(width);
        let last = self.last_beat(width);
        if self.data@.len() > 0 && first <= last && self.bpm.gt(F32::zero())
            && self.pixels_per_point().gt(F32::zero()) {
            Seq::new((last - first + 1) as nat, |k: int| self.beat_line(first + k, width))
        } else {
            seq![]
        }
    }

    fn beat_points(&self) -> (r: F32)
        ensures
            r == self.points_per_beat(),
    {
        F32::whole(60).over(self.bpm).times(F32::of_u64(self.sample_rate as u64)).over(
            F32::whole(64),
        )
    }

    fn scale(&self) -> (r: F32)
        ensures
            r == self.pixels_per_point(),
    {
        let step: F32 = if self.bpm.gt(F32::zero()) && self.sample_rate > 0 {
            self.beat_points().over(F32::whole(128).times(self.zoom)).times(F32::whole(1))
        } else {
            F32::ratio(3, 4).over(self.zoom)
        };
        if step.gt(F32::zero()) {
            F32::whole(1).over(step)
        } else {
            F32::zero()
        }
    }

    fn visible(&self, width: F32) -> (r: usize)
        ensures
            r == self.visible_points(width),
    {
        let scale: F32 = self.scale();
        if !scale.gt(F32::zero()) {
            return 0;
        }
        let n: usize = width.over(F32::whole(2)).over(scale).ceil().to_usize();
        if n < usize::MAX - 2 {
            n + 2
        } else {
            usize::MAX
        }
    }

    /// The points of the outline that are drawn in a box.
    pub fn draw_outline(&self, width: F32, height: F32) -> (r: Vec<PlotPoint>)
        ensures
            r@ == self.plot(width, height),
    {
        let mut out: Vec<PlotPoint> = Vec::new();
        let len: usize = self.data.len();
        if len == 0 {
            return out;
        }
        let current: F32 = self.pos.times(F32::of_usize(len));
        let scale: F32 = self.scale();
        let visible: usize = self.visible(width);
        let back: i128 = current.to_isize() as i128 - visible as i128;
        let ahead: u128 = current.to_usize() as u128 + visible as u128;
        let last: usize = if ahead < (len - 1) as u128 {
            ahead as usize
        } else {
            len - 1
        };
        if !scale.gt(F32::zero()) || back > last as i128 {
            return out;
        }
        let first: usize = if back > 0 {
            back as usize
        } else {
            0
        };
        let center: F32 = width.over(F32::whole(2));
        let half: F32 = height.over(F32::whole(2));
        let mut i: usize = first;
        while i <= last
            invariant
                first <= i <= last + 1,
                last < len == self.data@.len(),
                first == self.first_index(width),
                last == self.last_index(width),
                current == self.current_index(),
                scale == self.pixels_per_point(),
                center == width.over(F32::nearest_to(2)),
                half == height.over(F32::nearest_to(2)),
                out@ == Seq::new(
                    (i - first) as nat,
                    |k: int| self.plotted(first + k, width, height),
                ),
            decreases last + 1 - i,
        {
            let p: WaveformPoint = self.data[i];
            out.push(
                PlotPoint {
                    x: center.plus(F32::of_usize(i).minus(current).times(scale)),
                    y: half.minus(p.amplitude.times(half)),
                    color: p.color,
                },
            );
            i = i + 1;
        }
        assert(out@ =~= self.plot(width, height));
        out
    }

    /// The lines of the beats in a box.
    pub fn draw_grid(&self, width: F32) -> (r: Vec<GridLine>)
        ensures
            r@ == self.grid(width),
    {
        let mut out: Vec<GridLine> = Vec::new();
        let len: usize = self.data.len();
        let scale: F32 = self.scale();
        if len == 0 || !self.bpm.gt(F32::zero()) || !scale.gt(F32::zero()) {
            return out;
        }
        let current: F32 = self.pos.times(F32::of_usize(len));
        let visible: F32 = F32::of_usize(self.visible(width));
        let beat_points: F32 = self.beat_points();
        let offset: F32 = self.beat_offset.times(F32::of_u64(self.sample_rate as u64)).over(
            F32::whole(64),
        );
        let first: i32 = current.minus(visible).minus(offset).over(beat_points).ceil().to_i32();
        let last: i32 = current.plus(visible).minus(offset).over(beat_points).floor().to_i32();
        let center: F32 = width.over(F32::whole(2));
        let mut beat: i64 = first as i64;
        while beat <= last as i64
            invariant
                first <= beat,
                beat <= last + 1 || beat == first,
                first == self.first_beat(width),
                last == self.last_beat(width),
                current == self.current_index(),
                scale == self.pixels_per_point(),
                offset == self.offset_in_points(),
                beat_points == self.points_per_beat(),
                center == width.over(F32::nearest_to(2)),
                out@ == Seq::new((beat - first) as nat, |k: int| self.beat_line(first + k, width)),
            decreases last + 1 - beat,
        {
            let index: F32 = offset.plus(F32::of_i64(beat).times(beat_points));
            let x: F32 = center.plus(index.minus(current).times(scale));
            let bar: bool = (beat + 0x1_0000_0000) % 4 == 0;
            assert(bar == (beat % 4 == 0));
            let line: F32 = if bar {
                F32::whole(2)
            } else {
                F32::whole(1)
            };
            out.push(GridLine { left: x.minus(line.over(F32::whole(2))), width: line, bar });
            beat = beat + 1;
        }
        assert(out@ =~= self.grid(width));
        out
    }
}

/// The zoom never leaves its range: whatever the wheel does, a zoom that is asked
/// for lies between a fifth and five.
pub proof fn lemma_zoom_stays_in_range(
    w: Waveform,
    state: WaveformState,
    event: WaveformEvent,
    cursor: Option<F32>,
)
    ensures
        w.reaction(state, event, cursor).1 matches Some(WaveformOutput::Zoom(z)) ==> !z.lt(
            F32::ratio(2, 10),
        ) && !z.gt(F32::nearest_to(5)),
{
    let low = F32::ratio(2, 10);
    let high = F32::nearest_to(5);
    lemma_ratio_at_most(2, 10, 5);
    lemma_order_single(low, high, high);
    lemma_order_single(high, low, high);
    lemma_order_single(low, low, high);
}

/// A notch of the wheel zooms by two hundredths, but for rounding, unless an end of the
/// range is reached.
pub proof fn lemma_notch_zooms(w: Waveform, y: F32)
    requires
        small(w.zoom, 0x10_0000),
        small(y, 0x10_0000),
        w.zoomed(y) != F32::ratio(2, 10),
        w.zoomed(y) != F32::nearest_to(5),
    ensures
        ({
            let z = w.zoom.value();
            let gap = 100 * w.zoomed(y).value() - (100 * z + 2 * y.value());
            let slack = 100 * (abs(z) + abs(y.value()) + unit());
            -slack <= 0x10_0000 * gap <= slack
        }),
{
    lemma_plus_fraction(w.zoom, y, 2, 100);
}

/// Without a tempo the outline runs as at 120 beats per minute.
pub proof fn lemma_no_tempo_runs_at_120(w: Waveform, other: Waveform, dx: F32, dt: F32)
    requires
        !w.bpm.gt(F32::zero()),
        other.bpm == F32::nearest_to(120),
        w.zoom == other.zoom,
    ensures
        w.scratch_speed(dx, dt) == other.scratch_speed(dx, dt),
{
}

/// Dragging to the left plays forwards, to the right backwards, and holding still
/// stops.
pub proof fn lemma_drag_direction(w: Waveform, dx: F32, dt: F32)
    requires
        small(w.zoom, 5),
        5 * w.zoom.value() >= unit(),
        small(w.bpm, 0x400),
        w.bpm.value() <= 0 || w.bpm.value() >= unit(),
        small(dx, 0x1_0000),
        small(dt, 0x1000),
        1024 * dt.value() >= unit(),
    ensures
        w.scratch_speed(dx, dt).finite(),
        dx.value() > 0 ==> w.scratch_speed(dx, dt).value() <= 0,
        dx.value() < 0 ==> w.scratch_speed(dx, dt).value() >= 0,
        dx.value() == 0 ==> w.scratch_speed(dx, dt).value() == 0,
{
    let u = unit();
    let zero = F32::zero();
    lemma_unit();
    lemma_zeros();
    lemma_by_value_single(zero, w.bpm);
    lemma_whole_single(120);
    lemma_whole_single(128);
    lemma_whole_single(60);
    lemma_whole_single(1);
    let bpm = if w.bpm.gt(zero) {
        w.bpm
    } else {
        F32::nearest_to(120)
    };
    assert(small(bpm, 0x400) && bpm.value() >= u);
    let sixty = F32::nearest_to(60);
    assert(-((0x400 * u) * sixty.value()) <= bpm.value() * u <= (0x400 * u) * sixty.value()) by (
        nonlinear_arith)
        requires
            0 <= bpm.value() <= 0x400 * u,
            sixty.value() == 60 * u,
            u > 0,
    ;
    lemma_over_close(bpm, sixty, 0x400);
    let beats = bpm.over(sixty);
    assert((60 * u) == sixty.value());
    lemma_close_reduced(beats.value(), bpm.value(), 60, u);
    assert(120 * beats.value() >= u);
    let n = F32::nearest_to(128);
    lemma_times_close(n, w.zoom, 128, 5);
    let wide = n.times(w.zoom);
    assert((128 * u) * w.zoom.value() == (128 * w.zoom.value()) * u) by (nonlinear_arith);
    lemma_close_reduced(wide.value(), 128 * w.zoom.value(), 1, u);
    assert(wide.value() >= u);
    lemma_small_within(wide, 2 * (128int * 5) + 1, 0x1000);
    lemma_small_within(beats, 2 * 0x400int + 1, 0x1000);
    lemma_times_close(wide, beats, 0x1000, 0x1000);
    let run = wide.times(beats);
    lemma_run(run.value(), wide.value(), beats.value(), u);
    lemma_by_value_single(zero, run);
    let one = F32::nearest_to(1);
    assert(-((0x1000 * u) * run.value()) <= one.value() * u <= (0x1000 * u) * run.value()) by (
        nonlinear_arith)
        requires
            one.value() == 1 * u,
            0x1000 * run.value() >= u,
            u > 0,
    ;
    lemma_over_close(one, run, 0x1000);
    let s = one.over(run);
    lemma_quotient_sign(s.value(), one.value(), run.value(), u);
    assert(-((0x4000_0000 * u) * dt.value()) <= dx.value() * u <= (0x4000_0000 * u) * dt.value())
        by (nonlinear_arith)
        requires
            -(0x1_0000 * u) <= dx.value() <= 0x1_0000 * u,
            1024 * dt.value() >= u,
            u > 0,
    ;
    lemma_over_close(dx, dt, 0x4000_0000);
    let v = dx.over(dt);
    lemma_quotient_sign(v.value(), dx.value(), dt.value(), u);
    lemma_opposite_close(v, 2 * 0x4000_0000int + 1);
    lemma_small_within(v.opposite(), 2 * 0x4000_0000int + 1, 0x1_0000_0000);
    lemma_small_within(s, 2 * 0x1000int + 1, 0x4000);
    lemma_times_close(v.opposite(), s, 0x1_0000_0000, 0x4000);
    lemma_times_by_value(v.opposite(), s, zero, zero);
    lemma_product_sign(
        v.opposite().times(s).value(),
        v.opposite().value(),
        s.value(),
        u,
    );
}

proof fn lemma_run(run: int, wide: int, beats: int, u: int)
    requires
        u >= 0x1_0000_0000_0000,
        wide >= u,
        120 * beats >= u,
        close(run, wide * beats, u),
    ensures
        0x1000 * run >= u,
{
    let wb = wide * beats;
    let ru = run * u;
    let m = abs(run) * u;
    assert(120 * wb >= u * u) by (nonlinear_arith)
        requires
            wide >= u,
            120 * beats >= u,
            u > 0,
            wb == wide * beats,
    ;
    assert((m == ru || m == -ru) && m >= 0) by (nonlinear_arith)
        requires
            m == abs(run) * u,
            ru == run * u,
            abs(run) == run || abs(run) == -run,
            abs(run) >= 0,
            u > 0,
    ;
    let uu = u * u;
    assert(0x80_0000 * u <= uu) by (nonlinear_arith)
        requires
            u >= 0x80_0000,
            uu == u * u,
    ;
    assert(0x1000 * ru >= uu);
    let x = 0x1000 * run;
    assert(x * u == 0x1000 * ru) by (nonlinear_arith)
        requires
            x == 0x1000 * run,
            ru == run * u,
    ;
    lemma_cancel(u, x, u);
}

proof fn lemma_quotient_sign(r: int, a: int, d: int, u: int)
    requires
        d > 0,
        u > 0x100_0000,
        close(r, a * u, d),
    ensures
        a >= 0 ==> r >= 0,
        a <= 0 ==> r <= 0,
{
    let rd = r * d;
    let au = a * u;
    assert((a >= 0 ==> au >= 0) && (a <= 0 ==> au <= 0)) by (nonlinear_arith)
        requires
            au == a * u,
            u > 0,
    ;
    if r != 0 {
        let m = abs(r) * d;
        assert((m == rd || m == -rd) && m >= d) by (nonlinear_arith)
            requires
                m == abs(r) * d,
                rd == r * d,
                abs(r) == r || abs(r) == -r,
                abs(r) >= 1,
                d > 0,
        ;
        assert(r > 0 ==> rd > 0) by (nonlinear_arith)
            requires
                rd == r * d,
                d > 0,
        ;
        assert(r < 0 ==> rd < 0) by (nonlinear_arith)
            requires
                rd == r * d,
                d > 0,
        ;
    }
}

proof fn lemma_product_sign(r: int, a: int, b: int, u: int)
    requires
        b >= 0,
        u > 0x100_0000,
        close(r, a * b, u),
    ensures
        a >= 0 ==> r >= 0,
        a <= 0 ==> r <= 0,
{
    let ru = r * u;
    let ab = a * b;
    assert((a >= 0 ==> ab >= 0) && (a <= 0 ==> ab <= 0)) by (nonlinear_arith)
        requires
            ab == a * b,
            b >= 0,
    ;
    if r != 0 {
        let m = abs(r) * u;
        assert((m == ru || m == -ru) && m >= u) by (nonlinear_arith)
            requires
                m == abs(r) * u,
                ru == r * u,
                abs(r) == r || abs(r) == -r,
                abs(r) >= 1,
                u > 0,
        ;
        assert((r > 0 ==> ru > 0) && (r < 0 ==> ru < 0)) by (nonlinear_arith)
            requires
                ru == r * u,
                u > 0,
        ;
    }
}

} // verus!

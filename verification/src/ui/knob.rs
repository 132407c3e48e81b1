//! A knob that is turned by dragging or scrolling.
use vstd::prelude::*;
use crate::float::arith::abs;
use crate::float::close::{
    lemma_minus_close, lemma_plus_fraction, lemma_small_within, lemma_unit, small, unit,
};
use crate::float::exact::lemma_one_is_positive;
use crate::float::order::lemma_order_single;
use crate::float::single::F32;
use crate::window::pi;

verus! {

/// A knob, from 0 to 1.
#[derive(Clone, Copy, Debug)]
pub struct Knob {
    pub value: F32,
}

/// Whether a knob is being dragged, and where the mouse was last.
#[derive(Clone, Copy, Debug, PartialEq, Eq, Structural)]
pub struct KnobState {
    pub dragging: bool,
    pub last_y: F32,
}

impl Default for KnobState {
    fn default() -> (r: KnobState)
        ensures
            r == (KnobState { dragging: false, last_y: F32::zero() }),
    {
        KnobState { dragging: false, last_y: F32::zero() }
    }
}

/// What the mouse does.
#[derive(Clone, Copy, Debug)]
pub enum KnobEvent {
    /// The left button goes down, over the knob or not, at a height if there
    /// is a mouse.
    Pressed(bool, Option<F32>),
    Released,
    /// The mouse moves to a height.
    Moved(F32),
    /// The wheel turns, over the knob or not.
    Scrolled(bool, F32),
    Other,
}

/// What a knob makes of it.
#[derive(Clone, Copy, Debug, PartialEq, Eq, Structural)]
pub enum KnobAction {
    Ignore,
    /// Nobody else is to see the event.
    Capture,
    /// The same, and the knob has a new value.
    Publish(F32),
}

/// The shape of the mouse over a knob.
#[derive(Clone, Copy, Debug, PartialEq, Eq, Structural)]
pub enum Grip {
    Grabbing,
    Grab,
    Free,
}

/// The colour of what moves.
#[derive(Clone, Copy, Debug, PartialEq, Eq, Structural)]
pub enum Accent {
    Dragged,
    Hovered,
    Idle,
}

/// How a knob is drawn.
#[derive(Clone, Copy, Debug)]
pub struct KnobShape {
    pub center_x: F32,
    pub center_y: F32,
    pub radius: F32,
    pub arc_radius: F32,
    /// Whether the arc up to the value is drawn.
    pub shows_value: bool,
    pub inner_x: F32,
    pub inner_y: F32,
    pub outer_x: F32,
    pub outer_y: F32,
    pub cap_radius: F32,
}

/// How far the knob turns: three quarters round.
#[verifier::allow_in_spec]
pub fn sweep() -> F32
    returns
        pi().times(F32::ratio(3, 2)),
{
    pi().times(F32::ratio(3, 2))
}

/// Where it begins, at the bottom left.
#[verifier::allow_in_spec]
pub fn start_angle() -> F32
    returns
        pi().times(F32::ratio(3, 4)),
{
    pi().times(F32::ratio(3, 4))
}

impl Knob {
    /// A knob at a value, brought between 0 and 1.
    #[verifier::allow_in_spec]
    pub fn new(value: F32) -> Knob
        returns
            (Knob { value: value.clamp(F32::zero(), F32::nearest_to(1)) }),
    {
        Knob { value: value.clamp(F32::zero(), F32::whole(1)) }
    }

    /// The angle of the value.
    #[verifier::allow_in_spec]
    pub fn angle(self) -> F32
        returns
            start_angle().plus(self.value.times(sweep())),
    {
        start_angle().plus(self.value.times(sweep()))
    }

    /// The value after a turn, brought between 0 and 1.
    #[verifier::allow_in_spec]
    pub fn turned(self, by: F32) -> F32
        returns
            self.value.plus(by).clamp(F32::zero(), F32::nearest_to(1)),
    {
        self.value.plus(by).clamp(F32::zero(), F32::whole(1))
    }

    /// Whether a value is as good as the one that the knob has.
    #[verifier::allow_in_spec]
    pub fn near(self, value: F32) -> bool
        returns
            value.minus(self.value).abs().lt(F32::ratio(1, 1000)),
    {
        value.minus(self.value).abs().lt(F32::ratio(1, 1000))
    }

    /// The state after an event.
    pub open spec fn next_state(self, state: KnobState, event: KnobEvent) -> KnobState {
        match event {
            KnobEvent::Pressed(over, y) => if over {
                KnobState {
                    dragging: true,
                    last_y: match y {
                        Some(at) => at,
                        None => state.last_y,
                    },
                }
            } else {
                state
            },
            KnobEvent::Released => KnobState { dragging: false, ..state },
            KnobEvent::Moved(y) => if state.dragging {
                KnobState { last_y: y, ..state }
            } else {
                state
            },
            _ => state,
        }
    }

    /// What an event leads to.
    pub open spec fn reaction(self, state: KnobState, event: KnobEvent) -> KnobAction {
        match event {
            KnobEvent::Pressed(over, _) => if over {
                KnobAction::Capture
            } else {
                KnobAction::Ignore
            },
            KnobEvent::Released => if state.dragging {
                KnobAction::Capture
            } else {
                KnobAction::Ignore
            },
            KnobEvent::Moved(y) => {
                let value = self.turned(state.last_y.minus(y).times(F32::ratio(6, 1000)));
                if !state.dragging {
                    KnobAction::Ignore
                } else if self.near(value) {
                    KnobAction::Capture
                } else {
                    KnobAction::Publish(value)
                }
            },
            KnobEvent::Scrolled(over, y) => {
                let value = self.turned(y.times(F32::ratio(4, 100)));
                if !over || self.near(value) {
                    KnobAction::Ignore
                } else {
                    KnobAction::Publish(value)
                }
            },
            KnobEvent::Other => KnobAction::Ignore,
        }
    }

    /// Takes an event in.
    pub fn update(self, state: &mut KnobState, event: KnobEvent) -> (r: KnobAction)
        ensures
            *final(state) == self.next_state(*old(state), event),
            r == self.reaction(*old(state), event),
    {
        match event {
            KnobEvent::Pressed(over, y) => {
                if !over {
                    return KnobAction::Ignore;
                }
                state.dragging = true;
                match y {
                    Some(at) => {
                        state.last_y = at;
                    },
                    None => {},
                }
                KnobAction::Capture
            },
            KnobEvent::Released => {
                if !state.dragging {
                    return KnobAction::Ignore;
                }
                state.dragging = false;
                KnobAction::Capture
            },
            KnobEvent::Moved(y) => {
                if !state.dragging {
                    return KnobAction::Ignore;
                }
                let dy: F32 = state.last_y.minus(y);
                state.last_y = y;
                let value: F32 = self.turned(dy.times(F32::ratio(6, 1000)));
                if self.near(value) {
                    KnobAction::Capture
                } else {
                    KnobAction::Publish(value)
                }
            },
            KnobEvent::Scrolled(over, y) => {
                if !over {
                    return KnobAction::Ignore;
                }
                let value: F32 = self.turned(y.times(F32::ratio(4, 100)));
                if self.near(value) {
                    KnobAction::Ignore
                } else {
                    KnobAction::Publish(value)
                }
            },
            KnobEvent::Other => KnobAction::Ignore,
        }
    }

    /// How the knob is drawn in a box, given the cosine and sine of its angle.
    pub fn draw(self, width: F32, height: F32, cos: F32, sin: F32) -> (r: KnobShape)
        ensures
            r == self.shape(width, height, cos, sin),
    {
        let center_x: F32 = width.over(F32::whole(2));
        let center_y: F32 = height.over(F32::whole(2));
        let radius: F32 = width.min(height).over(F32::whole(2)).minus(F32::whole(2));
        let inner: F32 = radius.times(F32::ratio(25, 100));
        let outer: F32 = radius.times(F32::ratio(65, 100));
        KnobShape {
            center_x,
            center_y,
            radius,
            arc_radius: radius.times(F32::ratio(78, 100)),
            shows_value: self.value.gt(F32::ratio(1, 1000)),
            inner_x: center_x.plus(inner.times(cos)),
            inner_y: center_y.plus(inner.times(sin)),
            outer_x: center_x.plus(outer.times(cos)),
            outer_y: center_y.plus(outer.times(sin)),
            cap_radius: radius.times(F32::ratio(12, 100)),
        }
    }

    /// The shape of the knob in a box.
    pub open spec fn shape(self, width: F32, height: F32, cos: F32, sin: F32) -> KnobShape {
        let x = width.over(F32::nearest_to(2));
        let y = height.over(F32::nearest_to(2));
        let radius = width.min(height).over(F32::nearest_to(2)).minus(F32::nearest_to(2));
        KnobShape {
            center_x: x,
            center_y: y,
            radius,
            arc_radius: radius.times(F32::ratio(78, 100)),
            shows_value: self.value.gt(F32::ratio(1, 1000)),
            inner_x: x.plus(radius.times(F32::ratio(25, 100)).times(cos)),
            inner_y: y.plus(radius.times(F32::ratio(25, 100)).times(sin)),
            outer_x: x.plus(radius.times(F32::ratio(65, 100)).times(cos)),
            outer_y: y.plus(radius.times(F32::ratio(65, 100)).times(sin)),
            cap_radius: radius.times(F32::ratio(12, 100)),
        }
    }
}

impl KnobState {
    /// The shape of the mouse.
    #[verifier::allow_in_spec]
    pub fn mouse_interaction(self, over: bool) -> Grip
        returns
            (if self.dragging {
                Grip::Grabbing
            } else if over {
                Grip::Grab
            } else {
                Grip::Free
            }),
    {
        if self.dragging {
            Grip::Grabbing
        } else if over {
            Grip::Grab
        } else {
            Grip::Free
        }
    }

    /// The colour of what moves.
    #[verifier::allow_in_spec]
    pub fn accent(self, over: bool) -> Accent
        returns
            (if self.dragging {
                Accent::Dragged
            } else if over {
                Accent::Hovered
            } else {
                Accent::Idle
            }),
    {
        if self.dragging {
            Accent::Dragged
        } else if over {
            Accent::Hovered
        } else {
            Accent::Idle
        }
    }
}

/// A knob never leaves its range: whatever happens, a value that it publishes
/// lies between 0 and 1.
pub proof fn lemma_knob_stays_in_range(knob: Knob, state: KnobState, event: KnobEvent)
    ensures
        knob.reaction(state, event) matches KnobAction::Publish(v) ==> !v.lt(F32::zero()) && !v.gt(
            F32::nearest_to(1),
        ),
{
    let one = F32::nearest_to(1);
    lemma_one_is_positive();
    lemma_order_single(F32::zero(), one, one);
    lemma_order_single(one, one, one);
    lemma_order_single(F32::zero(), F32::zero(), one);
    lemma_order_single(one, F32::zero(), one);
}

/// Dragging a knob up by a pixel turns it up by six thousandths, and down by as much,
/// but for rounding, unless an end is reached.
pub proof fn lemma_drag_turns(knob: Knob, state: KnobState, y: F32)
    requires
        state.dragging,
        small(knob.value, 1),
        small(state.last_y, 0x1_0000),
        small(y, 0x1_0000),
    ensures
        knob.reaction(state, KnobEvent::Moved(y)) matches KnobAction::Publish(v) ==> v
            == F32::zero() || v == F32::nearest_to(1) || ({
            let up = state.last_y.value() - y.value();
            let gap = 1000 * v.value() - (1000 * knob.value.value() + 6 * up);
            let slack = 1000 * (unit() + abs(state.last_y.value()) + abs(y.value()));
            -slack <= 0x4_0000 * gap <= slack
        }),
{
    lemma_unit();
    lemma_minus_close(state.last_y, y, 0x1_0000, 0x1_0000);
    let d = state.last_y.minus(y);
    lemma_small_within(d, 2 * (0x1_0000int + 0x1_0000) + 1, 0x10_0000);
    lemma_small_within(knob.value, 1, 0x10_0000);
    lemma_plus_fraction(knob.value, d, 6, 1000);
}

/// A notch of the wheel turns a knob by four hundredths, but for rounding, unless an end
/// is reached.
pub proof fn lemma_notch_turns(knob: Knob, state: KnobState, y: F32)
    requires
        small(knob.value, 1),
        small(y, 0x1_0000),
    ensures
        knob.reaction(state, KnobEvent::Scrolled(true, y)) matches KnobAction::Publish(v) ==> v
            == F32::zero() || v == F32::nearest_to(1) || ({
            let gap = 100 * v.value() - (100 * knob.value.value() + 4 * y.value());
            let slack = 100 * (2 * unit() + abs(y.value()));
            -slack <= 0x10_0000 * gap <= slack
        }),
{
    lemma_unit();
    lemma_small_within(y, 0x1_0000, 0x10_0000);
    lemma_small_within(knob.value, 1, 0x10_0000);
    lemma_plus_fraction(knob.value, y, 4, 100);
}

/// A knob that is not dragged does not follow the mouse, and one that is let go is not
/// dragged.
pub proof fn lemma_free_knob_stays(knob: Knob, state: KnobState, y: F32)
    ensures
        !state.dragging ==> knob.reaction(state, KnobEvent::Moved(y)) == KnobAction::Ignore,
        !state.dragging ==> knob.next_state(state, KnobEvent::Moved(y)) == state,
        !knob.next_state(state, KnobEvent::Released).dragging,
        knob.next_state(state, KnobEvent::Pressed(true, Some(y))).dragging,
        knob.next_state(state, KnobEvent::Pressed(true, Some(y))).last_y == y,
        knob.next_state(state, KnobEvent::Pressed(false, Some(y))) == state,
        state.dragging ==> knob.next_state(state, KnobEvent::Moved(y)).last_y == y,
{
}

} // verus!

//! Playback at any speed, forwards and backwards.
use vstd::prelude::*;
use std::sync::Arc;
use crate::float::close_double as double;
use crate::float::double::F64;
use crate::float::error::lemma_widened;
use crate::float::exact::lemma_whole_double;
use crate::float::order::{
    lemma_by_value_single, lemma_cancels_double, lemma_nearest_to_monotone, lemma_order_double,
    lemma_plus_finite_double, lemma_plus_monotone_double, lemma_plus_sign_double,
    lemma_zeros,
};
use crate::float::single::F32;

verus! {

/// Where in a track playback is. The place in the track, as the bits of a
/// double-precision frame number, and the speed, as the bits of a
/// single-precision number, are held elsewhere, for others to change.
pub struct ScratchSource {
    pub samples: Arc<Vec<F32>>,
    pub channels: u16,
    pub sample_rate: u32,
    pub channel_cursor: usize,
}

/// The last frame of a track.
pub open spec fn last_frame(samples: Seq<F32>, channels: int) -> F64 {
    F64::nearest_to(samples.len() as int / channels).minus(F64::nearest_to(1))
}

/// The place lies outside of the track.
pub open spec fn outside(samples: Seq<F32>, channels: int, place: F64) -> bool {
    place.lt(F64::zero()) || place.gt(
        last_frame(samples, channels).plus(F64::nearest_to(1)),
    )
}

/// The sample of a channel at a place; silence behind the end.
pub open spec fn sample_at(samples: Seq<F32>, channels: int, channel: int, place: F64) -> F32 {
    let i = place.integer_part(0, usize::MAX as int) * channels + channel;
    if i < samples.len() {
        samples[i]
    } else {
        F32::zero()
    }
}

/// The place one frame on at the given speed, kept within the track.
pub open spec fn next_place(samples: Seq<F32>, channels: int, place: F64, speed: F32) -> F64 {
    let moved = place.plus(speed.to_double());
    let kept = if moved.lt(F64::zero()) {
        F64::zero()
    } else {
        moved
    };
    if kept.gt(last_frame(samples, channels)) {
        last_frame(samples, channels)
    } else {
        kept
    }
}

impl ScratchSource {
    /// Playback from the first channel.
    pub fn new(samples: Arc<Vec<F32>>, channels: u16, sample_rate: u32) -> (r: ScratchSource)
        ensures
            r.samples == samples,
            r.channels == channels,
            r.sample_rate == sample_rate,
            r.channel_cursor == 0,
    {
        ScratchSource { samples, channels, sample_rate, channel_cursor: 0 }
    }

    /// The next sample, and where the place in the track moves, given as the
    /// bits of both numbers. It moves once all channels have had their turn.
    pub fn next(&mut self, cursor: u64, speed: u32) -> (r: (F32, Option<u64>))
        requires
            old(self).channels > 0,
            old(self).channel_cursor < usize::MAX,
        ensures
            ({
                let s = old(self).samples@;
                let n = old(self).channels as int;
                let c = old(self).channel_cursor as int;
                let place = F64::from_bits(cursor);
                if outside(s, n, place) {
                    &&& r == (F32::zero(), None::<u64>)
                    &&& *final(self) == *old(self)
                } else {
                    &&& r.0 == sample_at(s, n, c, place)
                    &&& r.1 == if c + 1 >= n {
                        Some(next_place(s, n, place, F32::from_bits(speed)).to_bits())
                    } else {
                        None
                    }
                    &&& *final(self) == (ScratchSource {
                        channel_cursor: if c + 1 >= n {
                            0
                        } else {
                            (c + 1) as usize
                        },
                        ..*old(self)
                    })
                }
            }),
    {
        let place: F64 = F64::from_bits(cursor);
        let n: usize = self.channels as usize;
        let len: usize = self.samples.len();
        let last: F64 = F64::of_usize(len / n).minus(F64::whole(1));
        if place.lt(F64::zero()) || place.gt(last.plus(F64::whole(1))) {
            return (F32::zero(), None);
        }
        let frame: u128 = place.to_usize() as u128;
        proof {
            assert(frame * n <= 0xffff_ffff_ffff_ffff * 0xffff) by (nonlinear_arith)
                requires
                    frame <= 0xffff_ffff_ffff_ffff,
                    n <= 0xffff,
            ;
        }
        let index: u128 = frame * n as u128 + self.channel_cursor as u128;
        let sample: F32 = if index < len as u128 {
            self.samples[index as usize]
        } else {
            F32::zero()
        };
        self.channel_cursor = self.channel_cursor + 1;
        if self.channel_cursor >= n {
            self.channel_cursor = 0;
            let mut moved: F64 = place.plus(F32::from_bits(speed).to_double());
            if moved.lt(F64::zero()) {
                moved = F64::zero();
            }
            if moved.gt(last) {
                moved = last;
            }
            (sample, Some(moved.to_bits()))
        } else {
            (sample, None)
        }
    }
}

/// Playback never leaves a track that has a frame: wherever it is and however
/// fast it moves, the next place is neither before the first frame nor behind
/// the last.
pub proof fn lemma_stays_in_track(samples: Seq<F32>, channels: int, place: F64, speed: F32)
    requires
        channels > 0,
        samples.len() >= channels,
    ensures
        !next_place(samples, channels, place, speed).lt(F64::zero()),
        !next_place(samples, channels, place, speed).gt(last_frame(samples, channels)),
{
    let frames = samples.len() as int / channels;
    let last = last_frame(samples, channels);
    assert(frames >= 1) by (nonlinear_arith)
        requires
            frames == samples.len() as int / channels,
            samples.len() >= channels,
            channels > 0,
    ;
    lemma_last_frame(frames);
    let moved = place.plus(speed.to_double());
    lemma_order_double(F64::zero(), last, moved);
    lemma_order_double(last, F64::zero(), moved);
    lemma_order_double(moved, F64::zero(), last);
    lemma_order_double(F64::zero(), F64::zero(), last);
    lemma_order_double(last, last, last);
}

/// Playback moves by the speed: where the place and the speed add up to a
/// place within the track, that is the next place. Past an end it stops at
/// that end.
pub proof fn lemma_moves_by_speed(samples: Seq<F32>, channels: int, place: F64, speed: F32)
    requires
        channels > 0,
        samples.len() >= channels,
    ensures
        ({
            let step = speed.to_double();
            let there = place.plus(step);
            let last = last_frame(samples, channels);
            let next = next_place(samples, channels, place, speed);
            &&& !there.lt(F64::zero()) && !there.gt(last) ==> next == there
            &&& there.lt(F64::zero()) ==> next == F64::zero()
            &&& there.gt(last) ==> next == last
        }),
{
    let last = last_frame(samples, channels);
    let there = place.plus(speed.to_double());
    lemma_track_has_last(samples, channels);
    lemma_order_double(F64::zero(), last, there);
    lemma_order_double(last, F64::zero(), there);
    lemma_order_double(there, F64::zero(), last);
}

/// A track at rest stays where it is, one that plays backwards never moves on,
/// and one that plays forwards never moves back.
pub proof fn lemma_moves_with_sign(samples: Seq<F32>, channels: int, place: F64, speed: F32)
    requires
        channels > 0,
        samples.len() >= channels,
        speed.finite(),
        F64::zero().at_most(place),
        place.at_most(last_frame(samples, channels)),
    ensures
        speed.at_most(F32::zero()) ==> next_place(samples, channels, place, speed).at_most(place),
        F32::zero().at_most(speed) ==> place.at_most(next_place(samples, channels, place, speed)),
{
    let last = last_frame(samples, channels);
    let zero = F64::zero();
    let step = speed.to_double();
    let there = place.plus(step);
    lemma_track_has_last(samples, channels);
    lemma_moves_by_speed(samples, channels, place, speed);
    lemma_widened(speed);
    lemma_zeros();
    lemma_by_value_single(speed, F32::zero());
    lemma_by_value_single(F32::zero(), speed);
    lemma_plus_sign_double(place, step);
    lemma_order_double(there, zero, place);
    lemma_order_double(zero, there, place);
    lemma_order_double(last, there, place);
    lemma_order_double(place, last, there);
    lemma_order_double(there, place, last);
}

/// A track with a frame has its last one at or behind zero.
proof fn lemma_track_has_last(samples: Seq<F32>, channels: int)
    requires
        channels > 0,
        samples.len() >= channels,
    ensures
        F64::zero().at_most(last_frame(samples, channels)),
{
    let frames = samples.len() as int / channels;
    assert(frames >= 1) by (nonlinear_arith)
        requires
            frames == samples.len() as int / channels,
            samples.len() >= channels,
            channels > 0,
    ;
    lemma_last_frame(frames);
}

/// The sample that sounds is that of the channel in the frame that the place lies in.
pub proof fn lemma_sounds_the_frame(
    samples: Seq<F32>,
    channels: int,
    channel: int,
    place: F64,
    frame: int,
)
    requires
        0 <= channel < channels,
        place.finite(),
        0 <= frame <= usize::MAX,
        frame * double::unit() <= place.value() < (frame + 1) * double::unit(),
        (frame + 1) * channels <= samples.len(),
    ensures
        sample_at(samples, channels, channel, place) == samples[frame * channels + channel],
{
    double::lemma_unit();
    assert(frame * double::unit() >= 0) by (nonlinear_arith)
        requires
            frame >= 0,
            double::unit() > 0,
    ;
    double::lemma_part_of(place, frame, usize::MAX as int);
    assert((frame + 1) * channels == frame * channels + channels) by (nonlinear_arith);
}

/// The last frame of a track with frames is at or behind zero.
proof fn lemma_last_frame(frames: int)
    requires
        frames >= 1,
    ensures
        F64::zero().at_most(F64::nearest_to(frames).minus(F64::nearest_to(1))),
{
    let one = F64::nearest_to(1);
    let m = F64::nearest_to(frames);
    let down = one.opposite();
    lemma_nearest_to_monotone(1, frames);
    lemma_whole_double(1);
    lemma_cancels_double(one);
    lemma_plus_finite_double(m, down);
    lemma_plus_finite_double(one, down);
    lemma_plus_monotone_double(one, m, down);
}

} // verus!

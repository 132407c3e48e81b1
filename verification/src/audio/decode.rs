//! Reading a track: how far it has come, and how long it is.
use vstd::prelude::*;
use crate::analysis::tempo::BpmResult;
use crate::analysis::waveform::WaveformPoint;
use crate::float::close_double::{
    close, lemma_close_reduced, lemma_over_close, lemma_unit, unit,
};
use crate::float::double::F64;
use crate::float::exact::lemma_whole_double;
use crate::float::single::F32;
use super::deck::DeckData;
use super::span::{span_of, TimeSpan};

verus! {

/// Samples from one report to the next: a tenth of a second of one channel, at
/// least a hundred.
pub fn notify_interval(sample_rate: u32) -> (n: usize)
    ensures
        n == if sample_rate / 10 > 100 {
            sample_rate / 10
        } else {
            100
        },
{
    let tenth: usize = (sample_rate / 10) as usize;
    if tenth > 100 {
        tenth
    } else {
        100
    }
}

/// The share of the samples that a track of the given length has in all.
pub open spec fn share_read(
    count: u64,
    duration: Option<TimeSpan>,
    sample_rate: u32,
    channels: u16,
) -> F32 {
    match duration {
        Some(d) => F64::nearest_to(count as int).over(
            d.as_secs_double().times(F64::nearest_to(sample_rate as int)).times(
                F64::nearest_to(channels as int),
            ),
        ).to_single(),
        None => F32::zero(),
    }
}

/// How far reading has come, one at most; zero where the length is unknown.
pub fn progress(count: u64, duration: Option<TimeSpan>, sample_rate: u32, channels: u16) -> (r: F32)
    ensures
        r == share_read(count, duration, sample_rate, channels).min(F32::nearest_to(1)),
{
    let share: F32 = match duration {
        Some(d) => {
            let total: F64 = d.as_secs_double().times(F64::of_u64(sample_rate as u64)).times(
                F64::of_u64(channels as u64),
            );
            F64::of_u64(count).over(total).to_single()
        },
        None => F32::zero(),
    };
    share.min(F32::whole(1))
}

/// The seconds that so many interleaved samples last.
pub open spec fn seconds_of(samples: int, channels: u16, sample_rate: u32) -> F64 {
    let frames = if channels > 0 {
        samples / channels as int
    } else {
        0
    };
    if sample_rate > 0 {
        F64::nearest_to(frames).over(F64::nearest_to(sample_rate as int))
    } else {
        F64::zero()
    }
}

/// How long so many interleaved samples last. There is no answer where that is
/// too long to be told.
pub fn track_length(samples: usize, channels: u16, sample_rate: u32) -> (r: Option<TimeSpan>)
    ensures
        r == span_of(seconds_of(samples as int, channels, sample_rate)),
{
    let frames: u64 = if channels > 0 {
        samples as u64 / channels as u64
    } else {
        0
    };
    let seconds: F64 = if sample_rate > 0 {
        F64::of_u64(frames).over(F64::of_u64(sample_rate as u64))
    } else {
        F64::zero()
    };
    TimeSpan::from_secs(seconds)
}

/// A track while it is being read, sample by sample.
pub struct TrackReader {
    pub samples: Vec<F32>,
    pub channels: u16,
    pub sample_rate: u32,
    /// How long the track says it is, if it does.
    pub announced: Option<TimeSpan>,
    /// Samples from one report to the next.
    pub interval: usize,
}

impl TrackReader {
    /// Reports are due at all.
    pub open spec fn wf(self) -> bool {
        self.interval > 0
    }

    /// How far reading has come after `count` samples.
    pub open spec fn share(self, count: int) -> F32 {
        share_read(count as u64, self.announced, self.sample_rate, self.channels).min(
            F32::nearest_to(1),
        )
    }

    /// Nothing read yet.
    pub fn new(channels: u16, sample_rate: u32, announced: Option<TimeSpan>) -> (r: TrackReader)
        ensures
            r.wf(),
            r.samples@ == Seq::<F32>::empty(),
            r.channels == channels,
            r.sample_rate == sample_rate,
            r.announced == announced,
            r.interval == if sample_rate / 10 > 100 {
                sample_rate / 10
            } else {
                100
            },
    {
        TrackReader {
            samples: Vec::new(),
            channels,
            sample_rate,
            announced,
            interval: notify_interval(sample_rate),
        }
    }

    /// Takes the next sample, or the end, and says how far reading has come: at
    /// the end, and each time an interval is full.
    pub fn feed(&mut self, sample: Option<F32>) -> (r: Option<F32>)
        requires
            old(self).wf(),
        ensures
            final(self).wf(),
            final(self).channels == old(self).channels,
            final(self).sample_rate == old(self).sample_rate,
            final(self).announced == old(self).announced,
            final(self).interval == old(self).interval,
            match sample {
                Some(x) => {
                    &&& final(self).samples@ == old(self).samples@.push(x)
                    &&& r == if final(self).samples@.len() % old(self).interval as nat == 0 {
                        Some(old(self).share(final(self).samples@.len() as int))
                    } else {
                        None
                    }
                },
                None => {
                    &&& final(self).samples@ == old(self).samples@
                    &&& r == Some(old(self).share(final(self).samples@.len() as int))
                },
            },
    {
        let full: bool = match sample {
            Some(x) => {
                self.samples.push(x);
                self.samples.len() % self.interval == 0
            },
            None => true,
        };
        if full {
            Some(
                progress(
                    self.samples.len() as u64,
                    self.announced,
                    self.sample_rate,
                    self.channels,
                ),
            )
        } else {
            None
        }
    }

    /// The track, with its outline and its tempo. There is no answer where it is
    /// too long to be told.
    pub fn finish(self, waveform: Vec<WaveformPoint>, tempo: BpmResult, path: String) -> (r: Option<
        DeckData,
    >)
        ensures
            match span_of(
                seconds_of(self.samples@.len() as int, self.channels, self.sample_rate),
            ) {
                Some(duration) => r == Some(
                    DeckData {
                        samples: self.samples,
                        waveform,
                        channels: self.channels,
                        sample_rate: self.sample_rate,
                        duration,
                        bpm: tempo.bpm,
                        beat_offset: tempo.beat_offset,
                        path,
                    },
                ),
                None => r is None,
            },
    {
        match track_length(self.samples.len(), self.channels, self.sample_rate) {
            Some(duration) => Some(
                DeckData {
                    samples: self.samples,
                    waveform,
                    channels: self.channels,
                    sample_rate: self.sample_rate,
                    duration,
                    bpm: tempo.bpm,
                    beat_offset: tempo.beat_offset,
                    path,
                },
            ),
            None => None,
        }
    }
}

/// The length of a track in seconds is its frames over the sample rate, but for
/// rounding; a frame has a sample of every channel.
pub proof fn lemma_length_counts_frames(samples: int, channels: u16, sample_rate: u32)
    requires
        0 <= samples < 0x10_0000_0000_0000,
        channels > 0,
        sample_rate > 0,
    ensures
        seconds_of(samples, channels, sample_rate).finite(),
        close(
            seconds_of(samples, channels, sample_rate).value(),
            (samples / channels as int) * unit(),
            sample_rate as int,
        ),
{
    let u = unit();
    let n = samples / channels as int;
    let r = sample_rate as int;
    lemma_unit();
    assert(0 <= n <= samples) by (nonlinear_arith)
        requires
            n == samples / channels as int,
            channels > 0,
            samples >= 0,
    ;
    lemma_whole_double(n);
    lemma_whole_double(r);
    let a = F64::nearest_to(n);
    let d = F64::nearest_to(r);
    assert(d.value() > 0 && 0 <= a.value() * u <= (n * u) * d.value()) by (nonlinear_arith)
        requires
            a.value() == n * u,
            d.value() == r * u,
            r >= 1,
            n >= 0,
            u >= 1,
    ;
    lemma_over_close(a, d, n);
    assert(a.value() * u == (n * u) * u);
    lemma_close_reduced(a.over(d).value(), n * u, r, u);
}

/// A track without channels or without a rate has no length.
pub proof fn lemma_no_length(samples: int, channels: u16, sample_rate: u32)
    ensures
        sample_rate == 0 ==> seconds_of(samples, channels, sample_rate) == F64::zero(),
        channels == 0 ==> seconds_of(samples, channels, sample_rate) == seconds_of(
            0,
            1,
            sample_rate,
        ),
{
}

} // verus!

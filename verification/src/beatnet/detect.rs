//! Tempo and first beat by way of the neural network.
use vstd::prelude::*;
use crate::analysis::tempo::BpmResult;
use crate::float::single::F32;
use super::dbn::beats::{
    beats_heard, bpm_offset_from_beats, heard, lemma_tempo_in_range, tempo_of_beats, track_beats,
    BeatEvent,
};
use super::dbn::hmm::Hmm;
use super::dbn::observation::Densities;
use super::features::{mixed, resample_to, resampled, to_mono, FRAME_SIZE, SAMPLE_RATE};
use super::infer::Activations;

verus! {

/// The track as the features are taken from it: one channel, at their rate.
pub open spec fn feature_signal(samples: Seq<F32>, sample_rate: u32, channels: u16) -> Seq<F32> {
    resampled(mixed(samples, channels as int), sample_rate, SAMPLE_RATE)
}

/// There is enough of the track for a frame.
pub open spec fn long_enough(samples: Seq<F32>, sample_rate: u32, channels: u16) -> bool {
    &&& samples.len() > 0
    &&& sample_rate != 0
    &&& feature_signal(samples, sample_rate, channels).len() >= FRAME_SIZE
}

/// The track as the features are taken from it, if it is long enough.
pub fn feature_input(samples: &[F32], sample_rate: u32, channels: u16) -> (r: Option<Vec<F32>>)
    ensures
        match r {
            Some(v) => v@ == feature_signal(samples@, sample_rate, channels) && long_enough(
                samples@,
                sample_rate,
                channels,
            ),
            None => !long_enough(samples@, sample_rate, channels),
        },
{
    if samples.len() == 0 || sample_rate == 0 {
        return None;
    }
    let mono: Vec<F32> = to_mono(samples, channels);
    let signal: Vec<F32> = resample_to(mono.as_slice(), sample_rate, SAMPLE_RATE);
    if signal.len() < FRAME_SIZE {
        None
    } else {
        Some(signal)
    }
}

/// A tempo that can be played to.
pub open spec fn playable(bpm: F32) -> bool {
    !bpm.le(F32::zero()) && bpm.finite()
}

/// The logarithms of the densities belong to the models: one list for each, with
/// an entry for each frame in which something is heard.
pub open spec fn densities_fit(act: Activations, hmms: Seq<Hmm>, d: Seq<Vec<Densities>>) -> bool {
    &&& hmms.len() == d.len()
    &&& forall|i: int| 0 <= i < hmms.len() ==> (#[trigger] hmms[i]).wf()
    &&& forall|i: int|
        0 <= i < hmms.len() ==> (#[trigger] d[i])@.len() == heard(
            act.beat@,
            act.downbeat@,
        ).0.len()
}

/// The tempo and first bar of the beats that the models of bars find in the
/// activations, if the tempo can be played to.
pub open spec fn detected(act: Activations, hmms: Seq<Hmm>, d: Seq<Vec<Densities>>) -> Option<
    BpmResult,
> {
    match tempo_of_beats(beats_heard(act.beat@, act.downbeat@, hmms, d)) {
        Some((bpm, beat_offset)) => if playable(bpm) {
            Some(BpmResult { bpm, beat_offset })
        } else {
            None
        },
        None => None,
    }
}

/// The tempo and first bar that the activations show. Each model comes with the
/// logarithms of its densities for the part in which something is heard.
pub fn tempo_of_activations(
    act: &Activations,
    hmms: &Vec<Hmm>,
    densities: &Vec<Vec<Densities>>,
) -> (r: Option<BpmResult>)
    requires
        act.beat@.len() == act.downbeat@.len(),
        densities_fit(*act, hmms@, densities@),
    ensures
        r == detected(*act, hmms@, densities@),
{
    let beats: Vec<BeatEvent> = track_beats(
        act.beat.as_slice(),
        act.downbeat.as_slice(),
        hmms,
        densities,
    );
    match bpm_offset_from_beats(&beats) {
        Some((bpm, beat_offset)) => if bpm.le(F32::zero()) || !bpm.is_finite() {
            None
        } else {
            Some(BpmResult { bpm, beat_offset })
        },
        None => None,
    }
}

/// The tempo and first bar of a track, given the activations of its frames, the
/// models of bars and the logarithms of their densities; none where the track is
/// too short, or the network gives no answer.
pub fn detect_bpm(
    samples: &[F32],
    sample_rate: u32,
    channels: u16,
    activations: Option<Activations>,
    hmms: &Vec<Hmm>,
    densities: &Vec<Vec<Densities>>,
) -> (r: Option<BpmResult>)
    requires
        activations matches Some(a) ==> a.beat@.len() == a.downbeat@.len() && densities_fit(
            a,
            hmms@,
            densities@,
        ),
    ensures
        r == match activations {
            Some(a) => if long_enough(samples@, sample_rate, channels) {
                detected(a, hmms@, densities@)
            } else {
                None
            },
            None => None,
        },
{
    match (feature_input(samples, sample_rate, channels), activations) {
        (Some(_), Some(a)) => tempo_of_activations(&a, hmms, densities),
        _ => None,
    }
}

/// The tempo of tracked beats can always be played to: what the models of bars find
/// is what is handed on.
pub proof fn lemma_tracked_tempo_is_kept(act: Activations, hmms: Seq<Hmm>, d: Seq<Vec<Densities>>)
    ensures
        detected(act, hmms, d) == match tempo_of_beats(
            beats_heard(act.beat@, act.downbeat@, hmms, d),
        ) {
            Some((bpm, beat_offset)) => Some(BpmResult { bpm, beat_offset }),
            None => None,
        },
        tempo_of_beats(beats_heard(act.beat@, act.downbeat@, hmms, d)) matches Some((bpm, _))
            ==> playable(bpm),
{
    lemma_tempo_in_range(beats_heard(act.beat@, act.downbeat@, hmms, d));
}

} // verus!

//! The activations that the neural network assigns to every frame.
use vstd::prelude::*;
use crate::float::single::F32;
use super::features::FEAT_DIM;

verus! {

/// Softmax activations: beat, downbeat and neither, per frame.
#[derive(Clone, Debug)]
pub struct Activations {
    pub beat: Vec<F32>,
    pub downbeat: Vec<F32>,
    pub non_beat: Vec<F32>,
}

impl Activations {
    /// Whether there are no frames.
    pub fn is_empty(&self) -> (r: bool)
        ensures
            r == (self.beat@.len() == 0),
    {
        self.beat.len() == 0
    }
}

/// The frames that so many features make, if they make whole ones.
pub open spec fn whole_frames(len: int) -> Option<int> {
    if len > 0 && len % FEAT_DIM as int == 0 {
        Some(len / FEAT_DIM as int)
    } else {
        None
    }
}

/// How many frames the features make; none where they do not make whole
/// frames, or there are no features.
pub fn feature_frames(features: &[F32]) -> (r: Option<usize>)
    ensures
        match r {
            Some(t) => whole_frames(features@.len() as int) == Some(t as int) && t > 0,
            None => whole_frames(features@.len() as int) is None,
        },
{
    let len: usize = features.len();
    if len % FEAT_DIM != 0 {
        return None;
    }
    let t: usize = len / FEAT_DIM;
    if t == 0 {
        None
    } else {
        Some(t)
    }
}

/// The samples of `data` from `start` up to `end`.
fn part(data: &[F32], start: usize, end: usize) -> (r: Vec<F32>)
    requires
        start <= end <= data@.len(),
    ensures
        r@ == data@.subrange(start as int, end as int),
{
    let mut out: Vec<F32> = Vec::new();
    let mut i: usize = start;
    while i < end
        invariant
            start <= i <= end <= data@.len(),
            out@ == data@.subrange(start as int, i as int),
        decreases end - i,
    {
        out.push(data[i]);
        assert(data@.subrange(start as int, i + 1) =~= data@.subrange(start as int, i as int).push(
            data@[i as int],
        ));
        i = i + 1;
    }
    out
}

/// Splits what the network gives for `t` frames, class after class. There is
/// no answer where it is not three classes of `t` frames.
pub fn split_activations(data: &[F32], t: usize) -> (r: Option<Activations>)
    ensures
        match r {
            Some(a) => {
                &&& data@.len() == 3 * t
                &&& a.beat@ == data@.subrange(0, t as int)
                &&& a.downbeat@ == data@.subrange(t as int, 2 * t)
                &&& a.non_beat@ == data@.subrange(2 * t, 3 * t)
                &&& a.beat@ + a.downbeat@ + a.non_beat@ == data@
            },
            None => data@.len() != 3 * t,
        },
{
    let len: usize = data.len();
    if len / 3 != t || len % 3 != 0 {
        return None;
    }
    let a = Activations {
        beat: part(data, 0, t),
        downbeat: part(data, t, 2 * t),
        non_beat: part(data, 2 * t, 3 * t),
    };
    assert(a.beat@ + a.downbeat@ + a.non_beat@ =~= data@);
    Some(a)
}

/// The activations of each frame of features, given what the network answers;
/// none where it gives no answer.
pub fn run_crnn(features: &[F32], answer: Option<Vec<F32>>) -> (r: Option<Activations>)
    ensures
        match (whole_frames(features@.len() as int), answer) {
            (Some(t), Some(data)) => match r {
                Some(a) => {
                    &&& data@.len() == 3 * t
                    &&& a.beat@ == data@.subrange(0, t)
                    &&& a.downbeat@ == data@.subrange(t, 2 * t)
                    &&& a.non_beat@ == data@.subrange(2 * t, 3 * t)
                },
                None => data@.len() != 3 * t,
            },
            _ => r is None,
        },
{
    match (feature_frames(features), answer) {
        (Some(t), Some(data)) => split_activations(data.as_slice(), t),
        _ => None,
    }
}

} // verus!

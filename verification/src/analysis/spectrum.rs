//! The spectrum on display.
use vstd::prelude::*;
use crate::float::single::F32;

verus! {

/// The lower half of the magnitudes of a frame; the upper half mirrors it.
pub fn compute_spectrum(magnitudes: &[F32]) -> (r: Vec<F32>)
    ensures
        r@ == magnitudes@.take(magnitudes@.len() as int / 2),
{
    let half: usize = magnitudes.len() / 2;
    let mut out: Vec<F32> = Vec::new();
    let mut i: usize = 0;
    while i < half
        invariant
            i <= half <= magnitudes@.len(),
            out@ == magnitudes@.take(i as int),
        decreases half - i,
    {
        out.push(magnitudes[i]);
        assert(magnitudes@.take(i + 1) =~= magnitudes@.take(i as int).push(magnitudes@[i as int]));
        i = i + 1;
    }
    out
}

} // verus!

//! The window that tapers a frame of samples towards its ends.
use vstd::prelude::*;
use crate::float::arith::abs;
use crate::float::close::{
    close, lemma_close_reduced, lemma_opposite_close, lemma_over_close, lemma_scale,
    lemma_small_within, lemma_times_close, lemma_times_whole_close, lemma_unit, unit,
};
use crate::float::exact::{lemma_formats, lemma_whole_single};
use crate::float::order::lemma_plus_exact_single;
use crate::float::rounding::{lemma_magnitude_of_parts, lemma_pow2_step};
use crate::float::single::F32;

verus! {

/// The angle whose cosine makes sample `i` of the window of `n` samples.
pub open spec fn window_angle(n: int, i: int) -> F32 {
    F32::nearest_to(2).times(pi()).times(F32::nearest_to(i)).over(
        F32::nearest_to(n).minus(F32::nearest_to(1)),
    )
}

/// The single-precision number nearest to pi.
#[verifier::allow_in_spec]
pub fn pi() -> F32
    returns
        F32::from_bits(0x4049_0fdb),
{
    F32::from_bits(0x4049_0fdb)
}

/// The angles whose cosines make the window.
pub fn window_angles(n: usize) -> (r: Vec<F32>)
    ensures
        r@ == Seq::new(n as nat, |i: int| window_angle(n as int, i)),
{
    let turn: F32 = F32::whole(2).times(pi());
    let last: F32 = F32::of_usize(n).minus(F32::whole(1));
    let mut out: Vec<F32> = Vec::new();
    let mut i: usize = 0;
    while i < n
        invariant
            i <= n,
            turn == F32::nearest_to(2).times(pi()),
            last == F32::nearest_to(n as int).minus(F32::nearest_to(1)),
            out@ == Seq::new(i as nat, |k: int| window_angle(n as int, k)),
        decreases n - i,
    {
        out.push(turn.times(F32::of_usize(i)).over(last));
        i = i + 1;
    }
    out
}

/// The window, from the cosines of its angles.
pub fn hann_window(cosines: &[F32]) -> (r: Vec<F32>)
    ensures
        r@ == cosines@.map_values(
            |c: F32| F32::ratio(1, 2).times(F32::nearest_to(1).minus(c)),
        ),
{
    let ghost all = cosines@.map_values(
        |c: F32| F32::ratio(1, 2).times(F32::nearest_to(1).minus(c)),
    );
    let mut out: Vec<F32> = Vec::new();
    let mut i: usize = 0;
    while i < cosines.len()
        invariant
            i <= cosines@.len(),
            all == cosines@.map_values(
                |c: F32| F32::ratio(1, 2).times(F32::nearest_to(1).minus(c)),
            ),
            out@ == all.take(i as int),
        decreases cosines@.len() - i,
    {
        out.push(F32::ratio(1, 2).times(F32::whole(1).minus(cosines[i])));
        assert(all.take(i + 1) =~= all.take(i as int).push(out@.last()));
        i = i + 1;
    }
    assert(out@ =~= all);
    out
}

/// The first samples, each weighted by the window.
pub open spec fn tapered(samples: Seq<F32>, start: int, window: Seq<F32>) -> Seq<F32> {
    Seq::new(window.len(), |i: int| samples[start + i].times(window[i]))
}

/// The samples from `start` on, as many as the window has, weighted by it.
pub fn taper(samples: &[F32], start: usize, window: &[F32]) -> (r: Vec<F32>)
    requires
        start + window@.len() <= samples@.len(),
    ensures
        r@ == tapered(samples@, start as int, window@),
{
    let len: usize = samples.len();
    let mut out: Vec<F32> = Vec::new();
    let mut i: usize = 0;
    while i < window.len()
        invariant
            i <= window@.len(),
            len == samples@.len(),
            start + window@.len() <= len,
            out@ == tapered(samples@, start as int, window@).take(i as int),
        decreases window@.len() - i,
    {
        out.push(samples[start + i].times(window[i]));
        assert(tapered(samples@, start as int, window@).take(i + 1) =~= tapered(
            samples@,
            start as int,
            window@,
        ).take(i as int).push(out@.last()));
        i = i + 1;
    }
    assert(out@ =~= tapered(samples@, start as int, window@));
    out
}

/// Half a turn, to six digits.
pub proof fn lemma_pi()
    ensures
        pi().finite(),
        3_141_592 * unit() <= 1_000_000 * pi().value() <= 3_141_593 * unit(),
{
    lemma_formats();
    reveal(F32::finite);
    lemma_pow2_step(149);
    lemma_pow2_step(127);
    vstd::arithmetic::power2::lemma2_to64();
    vstd::arithmetic::power2::lemma_pow2_adds(127, 22);
    lemma_magnitude_of_parts(24, 127, 0xc9_0fdb);
    lemma_pow2_step(23);
    assert(0x40_0000 * pi().value() == 0xc9_0fdb * unit());
}

/// The angles of a window run evenly through a full turn: but for rounding, the angle
/// of sample `i`, times one less than the length, is `i` full turns.
pub proof fn lemma_angles_run_evenly(n: int, i: int)
    requires
        2 <= n <= 0x1_0000,
        0 <= i < n,
    ensures
        window_angle(n, i).finite(),
        ({
            let gap = window_angle(n, i).value() * (n - 1) - (2 * i) * pi().value();
            let slack = (i + 1) * unit();
            -slack <= 0x4_0000 * gap <= slack
        }),
{
    let u = unit();
    let two = F32::nearest_to(2);
    let a = F32::nearest_to(i);
    let one = F32::nearest_to(1);
    let m = F32::nearest_to(n);
    lemma_unit();
    lemma_pi();
    lemma_whole_single(1);
    lemma_whole_single(2);
    lemma_whole_single(i);
    lemma_whole_single(n);
    lemma_whole_single(n - 1);
    let p = pi().value();
    lemma_times_close(two, pi(), 2, 4);
    let turn = two.times(pi());
    assert((2 * u) * p == (2 * p) * u) by (nonlinear_arith);
    lemma_close_reduced(turn.value(), 2 * p, 1, u);
    lemma_small_within(turn, 2 * (2int * 4) + 1, 17);
    assert(17 * i <= 17 * 0x1_0000);
    lemma_times_whole_close(turn, i, 17);
    let x = turn.times(a);
    let d = m.minus(one);
    lemma_opposite_close(one, 1);
    assert(n * u - u == (n - 1) * u) by (nonlinear_arith);
    lemma_plus_exact_single(m, one.opposite(), F32::nearest_to(n - 1));
    assert(d.value() == (n - 1) * u);
    let k = 2 * (17 * i) + 1;
    assert(d.value() >= u) by (nonlinear_arith)
        requires
            d.value() == (n - 1) * u,
            n >= 2,
            u > 0,
    ;
    assert(-((k * u) * d.value()) <= x.value() * u <= (k * u) * d.value()) by (nonlinear_arith)
        requires
            -(k * u) <= x.value() <= k * u,
            d.value() >= u,
            u > 0,
            k > 0,
    ;
    lemma_over_close(x, d, k);
    let q = x.over(d).value();
    lemma_close_reduced(q, x.value(), n - 1, u);
    lemma_angle(q, x.value(), turn.value(), p, n - 1, i, u);
}

proof fn lemma_angle(q: int, x: int, t: int, p: int, n: int, i: int, u: int)
    requires
        u >= 0x1_0000_0000_0000,
        1 <= n < 0x1_0000,
        0 <= i <= 0x1_0000,
        3 * u <= p <= 4 * u,
        close(t, 2 * p, 1),
        close(x, t * i, 1),
        close(q, x, n),
    ensures
        ({
            let gap = q * n - (2 * i) * p;
            let slack = (i + 1) * u;
            -slack <= 0x4_0000 * gap <= slack
        }),
{
    let k = 0x100_0000int;
    let h = 0x80_0000int;
    let ip = i * p;
    let it = t * i;
    let iu = i * u;
    let qn = q * n;
    let m = abs(q) * n;
    assert((2 * i) * p == 2 * ip && (i + 1) * u == iu + u) by (nonlinear_arith)
        requires
            ip == i * p,
            iu == i * u,
    ;
    assert(0 <= iu && 3 * iu <= ip <= 4 * iu) by (nonlinear_arith)
        requires
            0 <= i,
            3 * u <= p <= 4 * u,
            iu == i * u,
            ip == i * p,
            u > 0,
    ;
    assert(-(9 * u) <= k * (t - 2 * p) <= 9 * u);
    lemma_scale(k * (t - 2 * p), 9 * u, i);
    assert((k * (t - 2 * p)) * i == k * (it - 2 * ip) && (9 * u) * i == 9 * iu) by (nonlinear_arith)
        requires
            it == t * i,
            ip == i * p,
            iu == i * u,
    ;
    assert((m == qn || m == -qn) && m >= 0) by (nonlinear_arith)
        requires
            m == abs(q) * n,
            qn == q * n,
            abs(q) == q || abs(q) == -q,
            abs(q) >= 0,
            n > 0,
    ;
    assert(h * n <= u);
}

} // verus!

//! Sums, means and extremes of a signal, in the order of its samples.
use vstd::prelude::*;
use crate::float::arith::{abs, less};
use crate::float::close::{
    lemma_close_reduced, lemma_over_close, lemma_plus_close, lemma_unit, small, unit,
};
use crate::float::exact::{lemma_formats, lemma_whole_single};
use crate::float::order::{
    lemma_by_value_single, lemma_least_single, lemma_order_single, lemma_value_bounds, lemma_zeros,
};
use crate::float::single::{single_format, F32};

verus! {

/// The sum of the first `n` samples, added from the left.
pub open spec fn total(s: Seq<F32>, n: int) -> F32
    decreases n,
{
    if n <= 0 {
        F32::zero()
    } else {
        total(s, n - 1).plus(s[n - 1])
    }
}

/// The sum of all samples.
pub fn total_of(s: &[F32]) -> (r: F32)
    ensures
        r == total(s@, s@.len() as int),
{
    let mut acc: F32 = F32::zero();
    let mut i: usize = 0;
    while i < s.len()
        invariant
            i <= s@.len(),
            acc == total(s@, i as int),
        decreases s@.len() - i,
    {
        acc = acc.plus(s[i]);
        i = i + 1;
    }
    acc
}

/// The mean of the samples.
pub open spec fn mean(s: Seq<F32>) -> F32 {
    total(s, s.len() as int).over(F32::nearest_to(s.len() as int))
}

/// The mean of the samples.
pub fn mean_of(s: &[F32]) -> (r: F32)
    ensures
        r == mean(s@),
{
    total_of(s).over(F32::of_usize(s.len()))
}

/// The largest of zero and the first `n` samples.
pub open spec fn peak(s: Seq<F32>, n: int) -> F32
    decreases n,
{
    if n <= 0 {
        F32::zero()
    } else {
        peak(s, n - 1).max(s[n - 1])
    }
}

/// The largest of zero and all samples.
pub fn peak_of(s: &[F32]) -> (r: F32)
    ensures
        r == peak(s@, s@.len() as int),
{
    let mut acc: F32 = F32::zero();
    let mut i: usize = 0;
    while i < s.len()
        invariant
            i <= s@.len(),
            acc == peak(s@, i as int),
        decreases s@.len() - i,
    {
        acc = acc.max(s[i]);
        i = i + 1;
    }
    acc
}

/// The index of the first sample in `lo..hi` that no later one exceeds, where
/// every sample counts that exceeds all before it; `lo` if there is none.
pub open spec fn climb(s: Seq<F32>, lo: int, hi: int) -> (int, F32)
    decreases hi - lo,
{
    if hi <= lo {
        (lo, F32::minus_infinity())
    } else {
        let before = climb(s, lo, hi - 1);
        if s[hi - 1].gt(before.1) {
            (hi - 1, s[hi - 1])
        } else {
            before
        }
    }
}

/// The index in `lo..hi` of the first largest sample, and that sample.
pub fn first_largest(s: &[F32], lo: usize, hi: usize) -> (r: (usize, F32))
    requires
        lo <= hi <= s@.len(),
    ensures
        (r.0 as int, r.1) == climb(s@, lo as int, hi as int),
        lo <= r.0,
        lo < hi ==> r.0 < hi,
{
    let mut best: usize = lo;
    let mut value: F32 = F32::minus_infinity();
    let mut i: usize = lo;
    while i < hi
        invariant
            lo <= i <= hi <= s@.len(),
            (best as int, value) == climb(s@, lo as int, i as int),
            lo <= best,
            best < i || best == lo,
        decreases hi - i,
    {
        if s[i].gt(value) {
            value = s[i];
            best = i;
        }
        i = i + 1;
    }
    (best, value)
}

/// The index of the last largest of the first `n` samples, where two samples
/// that cannot be compared count as equal; zero if there is none.
pub open spec fn last_largest(s: Seq<F32>, n: int) -> int
    decreases n,
{
    if n <= 1 {
        0
    } else {
        let before = last_largest(s, n - 1);
        if s[before].gt(s[n - 1]) {
            before
        } else {
            n - 1
        }
    }
}

/// The index of the last largest of the first `n` samples.
pub fn last_largest_of(s: &[F32], n: usize) -> (r: usize)
    requires
        n <= s@.len(),
    ensures
        r == last_largest(s@, n as int),
        n > 0 ==> r < n,
        n == 0 ==> r == 0,
{
    let mut best: usize = 0;
    let mut i: usize = 1;
    while i < n
        invariant
            1 <= i,
            i <= n || (n == 0 && i == 1),
            n <= s@.len(),
            best == last_largest(s@, i as int),
            best < i,
        decreases n - i,
    {
        if !s[best].gt(s[i]) {
            best = i;
        }
        i = i + 1;
    }
    best
}

/// The exact sum of the first `n` samples, in units.
pub open spec fn exact_total(s: Seq<F32>, n: int) -> int
    decreases n,
{
    if n <= 0 {
        0
    } else {
        exact_total(s, n - 1) + s[n - 1].value()
    }
}

/// The sum of the first `n` samples, each without its sign, in units.
pub open spec fn mass(s: Seq<F32>, n: int) -> int
    decreases n,
{
    if n <= 0 {
        0
    } else {
        mass(s, n - 1) + abs(s[n - 1].value())
    }
}

/// A sum of up to a million samples is their exact sum, but for a rounding that
/// grows with their number.
pub proof fn lemma_total_adds_up(s: Seq<F32>, n: int)
    requires
        0 <= n <= s.len(),
        n <= 0x10_0000,
        forall|i: int| 0 <= i < n ==> small(#[trigger] s[i], 0x10_0000),
    ensures
        total(s, n).finite(),
        0 <= mass(s, n) <= n * (0x10_0000 * unit()),
        ({
            let gap = total(s, n).value() - exact_total(s, n);
            let slack = 2 * (n * (mass(s, n) + unit()));
            -slack <= 0x100_0000 * gap <= slack
        }),
    decreases n,
{
    let u = unit();
    lemma_unit();
    lemma_zeros();
    if n > 0 {
        lemma_total_adds_up(s, n - 1);
        assert(small(s[n - 1], 0x10_0000));
        let t = total(s, n - 1);
        let x = s[n - 1];
        let m = mass(s, n - 1);
        let big = 0x10_0000 * u;
        let w = (n - 1) * (m + u);
        assert((n - 1) * big + big == n * big) by (nonlinear_arith);
        assert((n - 1) * big <= 0x10_0000 * big) by (nonlinear_arith)
            requires
                n <= 0x10_0000,
                big >= 0,
        ;
        assert(0 <= w <= 0x10_0000 * (m + u)) by (nonlinear_arith)
            requires
                1 <= n <= 0x10_0000,
                m >= 0,
                u > 0,
                w == (n - 1) * (m + u),
        ;
        assert(abs(exact_total(s, n - 1)) <= m) by {
            lemma_exact_within(s, n - 1);
        }
        let top = 0x200_0000_0000int;
        assert(small(t, top));
        lemma_plus_close(t, x, top, 0x10_0000);
        let next = mass(s, n);
        let v = (n - 1) * (next + u);
        assert(v + (next + u) == n * (next + u)) by (nonlinear_arith)
            requires
                v == (n - 1) * (next + u),
        ;
        assert(w <= v) by (nonlinear_arith)
            requires
                w == (n - 1) * (m + u),
                v == (n - 1) * (next + u),
                m <= next,
                n >= 1,
        ;
    }
}

proof fn lemma_exact_within(s: Seq<F32>, n: int)
    ensures
        abs(exact_total(s, n)) <= mass(s, n),
    decreases n,
{
    if n > 0 {
        lemma_exact_within(s, n - 1);
    }
}

/// A mean, times the number of samples, is their exact sum, but for rounding.
pub proof fn lemma_mean_shares(s: Seq<F32>)
    requires
        1 <= s.len() <= 0x10_0000,
        forall|i: int| 0 <= i < s.len() ==> small(#[trigger] s[i], 0x10_0000),
    ensures
        mean(s).finite(),
        ({
            let n = s.len() as int;
            let gap = mean(s).value() * n - exact_total(s, n);
            let slack = n * (mass(s, n) + unit());
            -slack <= 0x20_0000 * gap <= slack
        }),
{
    let n = s.len() as int;
    let u = unit();
    let t = total(s, n);
    let d = F32::nearest_to(n);
    lemma_unit();
    lemma_total_adds_up(s, n);
    lemma_exact_within(s, n);
    lemma_whole_single(n);
    let m = mass(s, n);
    let w = n * (m + u);
    let big = 0x10_0000 * u;
    assert(n * big <= 0x10_0000 * big) by (nonlinear_arith)
        requires
            n <= 0x10_0000,
            big >= 0,
    ;
    assert(0 <= w <= 0x10_0000 * (m + u) && m + u <= w) by (nonlinear_arith)
        requires
            1 <= n <= 0x10_0000,
            m >= 0,
            u > 0,
            w == n * (m + u),
    ;
    let top = 0x200_0000_0000int;
    assert(small(t, top));
    assert(d.value() == n * u);
    assert(-((top * u) * d.value()) <= t.value() * u <= (top * u) * d.value()) by (
        nonlinear_arith)
        requires
            -(top * u) <= t.value() <= top * u,
            d.value() == n * u,
            n >= 1,
            u > 0,
            top > 0,
    ;
    assert(d.value() > 0) by (nonlinear_arith)
        requires
            d.value() == n * u,
            n >= 1,
            u > 0,
    ;
    lemma_over_close(t, d, top);
    lemma_close_reduced(mean(s).value(), t.value(), n, u);
    let r = mean(s).value();
    let rn = r * n;
    assert(abs(r) * n == abs(rn)) by (nonlinear_arith)
        requires
            n > 0,
            rn == r * n,
            r >= 0 ==> abs(r) == r,
            r < 0 ==> abs(r) == -r,
            rn >= 0 ==> abs(rn) == rn,
            rn < 0 ==> abs(rn) == -rn,
    ;
}

/// The peak is the greatest sample: none is greater, and it is one of them or
/// zero.
pub proof fn lemma_peak_is_greatest(s: Seq<F32>, n: int)
    requires
        0 <= n <= s.len(),
    ensures
        F32::zero().at_most(peak(s, n)),
        forall|i: int| 0 <= i < n ==> !peak(s, n).less(#[trigger] s[i]),
        peak(s, n) == F32::zero() || exists|i: int| 0 <= i < n && #[trigger] s[i] == peak(s, n),
    decreases n,
{
    let zero = F32::zero();
    lemma_zeros();
    lemma_least_single(zero);
    lemma_order_single(zero, zero, zero);
    if n > 0 {
        lemma_peak_is_greatest(s, n - 1);
        let p = peak(s, n - 1);
        let x = s[n - 1];
        lemma_order_single(zero, p, x);
        lemma_order_single(zero, x, p);
        lemma_order_single(x, p, x);
        assert forall|i: int| 0 <= i < n implies !peak(s, n).less(#[trigger] s[i]) by {
            lemma_order_single(p, x, s[i]);
            lemma_order_single(x, s[i], x);
        }
        if peak(s, n) == x {
            assert(s[n - 1] == peak(s, n));
        } else if p != zero {
            let i = choose|i: int| 0 <= i < n - 1 && #[trigger] s[i] == p;
            assert(s[i] == peak(s, n));
        }
    }
}

/// Of a range of finite samples none is greater than the one found, and every
/// one before it is less.
pub proof fn lemma_climb_is_first_largest(s: Seq<F32>, lo: int, hi: int)
    requires
        lo < hi,
        forall|i: int| lo <= i < hi ==> (#[trigger] s[i]).finite(),
    ensures
        ({
            let (best, value) = climb(s, lo, hi);
            &&& lo <= best < hi
            &&& value == s[best]
            &&& forall|i: int| lo <= i < hi ==> (#[trigger] s[i]).value() <= s[best].value()
            &&& forall|i: int| lo <= i < best ==> (#[trigger] s[i]).value() < s[best].value()
        }),
    decreases hi - lo,
{
    let x = s[hi - 1];
    lemma_above_bottom(x);
    if lo < hi - 1 {
        lemma_climb_is_first_largest(s, lo, hi - 1);
        let best = climb(s, lo, hi - 1).0;
        lemma_by_value_single(s[best], x);
    } else {
        assert(climb(s, lo, hi - 1) == (lo, F32::minus_infinity()));
    }
}

/// A finite number is above minus infinity.
pub proof fn lemma_above_bottom(x: F32)
    requires
        x.finite(),
    ensures
        F32::minus_infinity().less(x),
{
    lemma_formats();
    reveal(F32::less);
    reveal(less);
    reveal(F32::finite);
    lemma_value_bounds(single_format(), x.datum());
    lemma_value_bounds(single_format(), F32::minus_infinity().datum());
}

/// Of the first `n` finite samples none is greater than the one found, and every
/// one behind it is less.
pub proof fn lemma_last_largest(s: Seq<F32>, n: int)
    requires
        1 <= n <= s.len(),
        forall|i: int| 0 <= i < n ==> (#[trigger] s[i]).finite(),
    ensures
        ({
            let best = last_largest(s, n);
            &&& 0 <= best < n
            &&& forall|i: int| 0 <= i < n ==> (#[trigger] s[i]).value() <= s[best].value()
            &&& forall|i: int| best < i < n ==> (#[trigger] s[i]).value() < s[best].value()
        }),
    decreases n,
{
    if n > 1 {
        lemma_last_largest(s, n - 1);
        lemma_by_value_single(s[n - 1], s[last_largest(s, n - 1)]);
    }
}

} // verus!

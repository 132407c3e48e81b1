//! How far rounding in double precision moves a result.
use vstd::prelude::*;
use vstd::arithmetic::power2::pow2;
use super::arith::{
    converted, integer_magnitude, integral, lemma_exact, lemma_magnitude_order, of_integer,
    product, quotient, sum, truncated, Direction,
};
use super::double::{double_format, F64};
use super::exact::{
    lemma_formats, lemma_nearest_exists, lemma_nearest_monotone, lemma_nearest_scaled,
    lemma_small_integer, lemma_whole_double,
};
use super::order::{lemma_packed_double, lemma_value_bounds};
use super::rounding::{
    binade, lemma_magnitude_of_parts, lemma_parts_of_number, lemma_pow2_step, magnitude,
    significand,
};
use super::single::{single_format, F32};

verus! {

/// `v` is `num / den`, but for one part in `2^53` of `v` and half a unit.
pub open spec fn near(v: int, num: int, den: int) -> bool {
    let slack = v * den + 0x10_0000_0000_0000 * den;
    &&& 0x20_0000_0000_0000 * (v * den - num) <= slack
    &&& 0x20_0000_0000_0000 * (num - v * den) <= slack
}

/// A finite number that is not negative.
pub open spec fn natural(x: F64) -> bool {
    x.bits < 0x7ff0_0000_0000_0000
}

/// A magnitude far below infinity, `2^128`, in units of the format.
pub open spec fn large() -> int {
    0x1_0000_0000_0000_0000_0000_0000_0000_0000 * double_format().one()
}

/// A fraction of moderate size is near the number that it is rounded to.
pub proof fn lemma_rounded(num: int, den: int)
    requires
        den > 0,
        0 <= num <= large() * den,
    ensures
        ({
            let f = double_format();
            let k = f.nearest(num, den);
            &&& k < f.infinity
            &&& f.magnitude(k) >= 0
            &&& near(f.magnitude(k), num, den)
        }),
{
    let f = double_format();
    let k = f.nearest(num, den);
    lemma_formats();
    lemma_nearest_exists(f, num, den);
    lemma_large();
    assert(large() * den >= 0) by (nonlinear_arith)
        requires
            large() > 0,
            den > 0,
    ;
    lemma_nearest_monotone(f, num, large() * den, den);
    lemma_nearest_scaled(f, large(), 1, den);
    assert(1 * den == den);
    lemma_parts_of_number(53, k as nat);
    let q = binade(53, k as nat);
    let b = pow2(q) as int;
    let s = significand(53, k as nat) as int;
    let m = f.magnitude(k);
    lemma_pow2_step(52);
    vstd::arithmetic::power2::lemma2_to64_rest();
    assert(2 * num <= (2 * m + b) * den) by {
        assert(magnitude(53, k as nat) + magnitude(53, k as nat + 1) == 2 * m + b);
    }
    assert((2 * m - b) * den <= 2 * num) by {
        if k > 0 {
            lemma_parts_of_number(53, (k - 1) as nat);
            let r = binade(53, (k - 1) as nat);
            assert(r <= q) by {
                vstd::arithmetic::div_mod::lemma_div_is_ordered(k - 1, k as int, 0x10_0000_0000_0000);
            }
            if r < q {
                vstd::arithmetic::power2::lemma_pow2_strictly_increases(r, q);
            }
            let low = magnitude(53, (k - 1) as nat) + m;
            assert((2 * m - b) * den <= low * den) by (nonlinear_arith)
                requires
                    2 * m - b <= low,
                    den > 0,
            ;
        } else {
            lemma_magnitude_of_parts(53, 0, 0);
            assert((0 - b) * den <= 0) by (nonlinear_arith)
                requires
                    b > 0,
                    den > 0,
            ;
        }
    }
    let c = 0x10_0000_0000_0000int;
    assert((2 * m + b) * den == 2 * (m * den) + b * den) by (nonlinear_arith);
    assert((2 * m - b) * den == 2 * (m * den) - b * den) by (nonlinear_arith);
    assert(m * den >= 0) by (nonlinear_arith)
        requires
            m >= 0,
            den > 0,
    ;
    if q == 0 {
        lemma_pow2_step(0);
        assert(b * den == den) by (nonlinear_arith)
            requires
                b == 1,
        ;
    } else {
        assert(c * (b * den) <= m * den) by (nonlinear_arith)
            requires
                m == s * b,
                s >= c,
                b > 0,
                den > 0,
        ;
    }
}

proof fn lemma_large()
    ensures
        large() > 0,
        double_format().nearest(large(), 1) < double_format().infinity,
{
    let f = double_format();
    lemma_formats();
    lemma_pow2_step(1074);
    lemma_pow2_step(52);
    vstd::arithmetic::power2::lemma2_to64();
    vstd::arithmetic::power2::lemma2_to64_rest();
    vstd::arithmetic::power2::lemma_pow2_adds(64, 64);
    vstd::arithmetic::power2::lemma_pow2_adds(128, 1074);
    vstd::arithmetic::power2::lemma_pow2_adds(52, 1150);
    lemma_magnitude_of_parts(53, 1150, 0x10_0000_0000_0000);
    let k = (1151 * 0x10_0000_0000_0000) as u64;
    assert(f.magnitude(k) == large());
    lemma_exact(f, k);
}

/// Scaling the fraction keeps the number near.
pub proof fn lemma_near_reduced(v: int, num: int, den: int, c: int)
    requires
        near(v, num * c, den * c),
        c > 0,
    ensures
        near(v, num, den),
{
    let slack = v * den + 0x10_0000_0000_0000 * den;
    assert(v * (den * c) + 0x10_0000_0000_0000 * (den * c) == slack * c) by (nonlinear_arith)
        requires
            slack == v * den + 0x10_0000_0000_0000 * den,
    ;
    assert(v * (den * c) - num * c == (v * den - num) * c) by (nonlinear_arith);
    let gap = v * den - num;
    assert(0x20_0000_0000_0000 * gap <= slack) by (nonlinear_arith)
        requires
            0x20_0000_0000_0000 * (gap * c) <= slack * c,
            c > 0,
    ;
    assert(0x20_0000_0000_0000 * (-gap) <= slack) by (nonlinear_arith)
        requires
            0x20_0000_0000_0000 * (-(gap * c)) <= slack * c,
            c > 0,
    ;
}

/// The same, multiplied by `w`.
pub proof fn lemma_near_times(v: int, num: int, den: int, w: int)
    requires
        near(v, num, den),
        w >= 0,
    ensures
        0x20_0000_0000_0000 * (v * den * w - num * w) <= v * den * w + 0x10_0000_0000_0000 * (den
            * w),
        0x20_0000_0000_0000 * (num * w - v * den * w) <= v * den * w + 0x10_0000_0000_0000 * (den
            * w),
{
    let x = v * den;
    let slack = x + 0x10_0000_0000_0000 * den;
    let gap = x - num;
    assert(slack * w == x * w + 0x10_0000_0000_0000 * (den * w)) by (nonlinear_arith)
        requires
            slack == x + 0x10_0000_0000_0000 * den,
    ;
    assert(gap * w == x * w - num * w) by (nonlinear_arith)
        requires
            gap == x - num,
    ;
    assert(0x20_0000_0000_0000 * (gap * w) <= slack * w) by (nonlinear_arith)
        requires
            0x20_0000_0000_0000 * gap <= slack,
            w >= 0,
    ;
    assert(0x20_0000_0000_0000 * (-(gap * w)) <= slack * w) by (nonlinear_arith)
        requires
            0x20_0000_0000_0000 * (-gap) <= slack,
            w >= 0,
    ;
}

/// A natural number is near the whole number that it is rounded from.
pub proof fn lemma_integer_near(n: int)
    requires
        0 <= n <= 0x1_0000_0000_0000_0000_0000_0000_0000_0000,
    ensures
        natural(F64::nearest_to(n)),
        F64::nearest_to(n).value() >= 0,
        near(F64::nearest_to(n).value(), n * double_format().one(), 1),
{
    let f = double_format();
    lemma_pow2_step(1074);
    assert(0 <= n * f.one() <= large()) by (nonlinear_arith)
        requires
            0 <= n <= 0x1_0000_0000_0000_0000_0000_0000_0000_0000,
            f.one() > 0,
            large() == 0x1_0000_0000_0000_0000_0000_0000_0000_0000 * f.one(),
    ;
    lemma_rounded(n * f.one(), 1);
    reveal(F64::nearest_to);
    reveal(of_integer);
}

/// A sum is near the exact one.
pub proof fn lemma_sum_near(a: F64, b: F64)
    requires
        natural(a),
        natural(b),
        a.value() + b.value() <= large(),
    ensures
        natural(a.plus(b)),
        a.plus(b).value() >= 0,
        near(a.plus(b).value(), a.value() + b.value(), 1),
{
    lemma_formats();
    lemma_rounded(a.value() + b.value(), 1);
    lemma_magnitude_of_parts(53, 0, 0);
    lemma_pow2_step(52);
    reveal(F64::sum);
    reveal(sum);
}

/// A product is near the exact one.
pub proof fn lemma_product_near(a: F64, b: F64)
    requires
        natural(a),
        natural(b),
        0 <= a.value() * b.value() <= large() * double_format().one(),
    ensures
        natural(a.times(b)),
        a.times(b).value() >= 0,
        near(a.times(b).value(), a.value() * b.value(), double_format().one()),
{
    lemma_formats();
    lemma_pow2_step(1074);
    lemma_rounded(a.value() * b.value(), double_format().one());
    reveal(F64::product);
    reveal(product);
}

/// A quotient is near the exact one.
pub proof fn lemma_quotient_near(a: F64, b: F64)
    requires
        natural(a),
        natural(b),
        b.value() > 0,
        0 <= a.value() * double_format().one() <= large() * b.value(),
    ensures
        natural(a.over(b)),
        a.over(b).value() >= 0,
        near(a.over(b).value(), a.value() * double_format().one(), b.value()),
{
    lemma_formats();
    lemma_magnitude_of_parts(53, 0, 0);
    lemma_pow2_step(52);
    lemma_rounded(a.value() * double_format().one(), b.value());
    reveal(F64::quotient);
    reveal(quotient);
}

/// Rounding to a whole number goes half of one at most; returns the whole number,
/// which the result is near.
pub proof fn lemma_round_near(a: F64) -> (n: int)
    requires
        natural(a),
        2 * a.value() + double_format().one() <= large(),
    ensures
        natural(a.round()),
        a.round().value() >= 0,
        near(a.round().value(), n * double_format().one(), 1),
        -double_format().one() <= 2 * (n * double_format().one() - a.value())
            <= double_format().one(),
{
    let f = double_format();
    let one = f.one();
    let m = f.magnitude(a.datum().number);
    lemma_formats();
    lemma_pow2_step(1074);
    let n = integer_magnitude(m, one, false, Direction::HalfAway);
    vstd::arithmetic::div_mod::lemma_fundamental_div_mod(m, one);
    vstd::arithmetic::div_mod::lemma_mod_bound(m, one);
    let q = m / one;
    assert((q + 1) * one == one * q + one && q * one == one * q) by (nonlinear_arith);
    lemma_rounded(n * one, 1);
    reveal(F64::integral);
    reveal(integral);
    n
}

/// A number less than half away from a whole one is rounded to it.
pub proof fn lemma_rounds_to(a: F64, n: int, lo: int, hi: int)
    requires
        natural(a),
        0 <= n < 0x20_0000_0000_0000,
        lo <= 0,
        n <= hi,
        -double_format().one() < 2 * (n * double_format().one() - a.value())
            < double_format().one(),
    ensures
        a.round() == F64::nearest_to(n),
        a.round().integer_part(lo, hi) == n,
{
    let f = double_format();
    let one = f.one();
    let m = f.magnitude(a.datum().number);
    lemma_formats();
    lemma_pow2_step(1074);
    lemma_whole_double(n);
    lemma_small_integer(f, n as nat);
    vstd::arithmetic::div_mod::lemma_fundamental_div_mod(m, one);
    vstd::arithmetic::div_mod::lemma_mod_bound(m, one);
    let q = m / one;
    let r = m % one;
    let up = 2 * r >= one;
    let k = integer_magnitude(m, one, false, Direction::HalfAway);
    assert(k == n) by (nonlinear_arith)
        requires
            m == one * q + r,
            0 <= r < one,
            up == (2 * r >= one),
            k == q + if up {
                1int
            } else {
                0
            },
            -one < 2 * (n * one - m) < one,
    ;
    reveal(F64::integral);
    reveal(integral);
    reveal(F64::integer_part);
    reveal(truncated);
    reveal(F64::nearest_to);
    reveal(of_integer);
    vstd::arithmetic::div_mod::lemma_fundamental_div_mod_converse(n * one, one, n, 0);
}

/// A unit of double precision is very small.
pub proof fn lemma_one_is_large()
    ensures
        double_format().one() >= 0x1000_0000_0000_0000 * 1_000_000_000,
{
    vstd::arithmetic::power2::lemma2_to64();
    vstd::arithmetic::power2::lemma2_to64_rest();
    vstd::arithmetic::power2::lemma_pow2_adds(60, 60);
    vstd::arithmetic::power2::lemma_pow2_strictly_increases(120, 1074);
}

/// A finite number keeps its sign in double precision, and its value but for
/// rounding.
pub proof fn lemma_widened(a: F32)
    requires
        a.finite(),
    ensures
        a.to_double().finite(),
        a.value() <= 0 ==> a.to_double().value() <= 0,
        a.value() >= 0 ==> a.to_double().value() >= 0,
        a.value() >= 0 ==> near(
            a.to_double().value(),
            a.value() * double_format().one(),
            single_format().one(),
        ),
        a.value() <= 0 ==> near(
            -a.to_double().value(),
            -a.value() * double_format().one(),
            single_format().one(),
        ),
{
    let f = single_format();
    let g = double_format();
    let k = a.datum().number;
    let m = f.magnitude(k);
    lemma_formats();
    reveal(F32::finite);
    reveal(F64::finite);
    reveal(F32::as_double);
    reveal(converted);
    lemma_value_bounds(f, a.datum());
    lemma_magnitude_order(f, 0, k);
    lemma_magnitude_order(f, k, f.infinity);
    lemma_pow2_step(149);
    lemma_pow2_step(1074);
    lemma_pow2_step(23);
    vstd::arithmetic::power2::lemma2_to64();
    vstd::arithmetic::power2::lemma2_to64_rest();
    vstd::arithmetic::power2::lemma_pow2_adds(64, 64);
    vstd::arithmetic::power2::lemma_pow2_adds(128, 149);
    vstd::arithmetic::power2::lemma_pow2_adds(23, 254);
    lemma_magnitude_of_parts(24, 254, 0x80_0000);
    lemma_magnitude_of_parts(24, 0, 0);
    let top = 0x1_0000_0000_0000_0000_0000_0000_0000_0000int;
    assert(f.magnitude(f.infinity) == top * f.one());
    assert(0 <= m * g.one() <= large() * f.one()) by (nonlinear_arith)
        requires
            0 <= m <= top * f.one(),
            large() == top * g.one(),
            g.one() > 0,
            f.one() > 0,
    ;
    lemma_rounded(m * g.one(), f.one());
    let d = converted(f, g, a.datum());
    lemma_packed_double(d);
    lemma_magnitude_of_parts(53, 0, 0);
    lemma_pow2_step(52);
    if m == 0 {
        lemma_exact(g, 0);
        lemma_nearest_scaled(g, 0, 1, f.one());
        assert(0 * g.one() == 0 && 0 * f.one() == 0 && 1 * f.one() == f.one());
    }
}

} // verus!

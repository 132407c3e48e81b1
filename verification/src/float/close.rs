//! How far rounding in single precision moves a result, whatever its sign.
use vstd::prelude::*;
use vstd::arithmetic::power2::pow2;
use super::arith::{
    abs, integer_magnitude, integral, lemma_exact, lemma_magnitude_order, product, quotient, sum,
    truncated, Direction,
};
use super::exact::{
    integer_number, lemma_formats, lemma_nearest_exists, lemma_nearest_monotone,
    lemma_nearest_scaled, lemma_small_integer, lemma_whole_single,
};
use super::order::{lemma_packed_single, lemma_value_bounds};
use super::rounding::{
    binade, lemma_magnitude_of_parts, lemma_parts_of_number, lemma_pow2_step, magnitude,
    significand,
};
use super::single::{single_format, F32};

verus! {

/// How many units make up one in single precision.
pub open spec fn unit() -> int {
    single_format().one()
}

/// `v` is `num / den`, but for one part in `2^24` of `v` and half a unit.
pub open spec fn close(v: int, num: int, den: int) -> bool {
    let slack = abs(v) * den + 0x80_0000 * den;
    &&& 0x100_0000 * (v * den - num) <= slack
    &&& 0x100_0000 * (num - v * den) <= slack
}

/// A finite number of at most so many ones, whatever its sign.
pub open spec fn small(a: F32, bound: int) -> bool {
    a.finite() && -(bound * unit()) <= a.value() <= bound * unit()
}

/// What is below a bound is below a larger one.
pub proof fn lemma_small_within(a: F32, x: int, y: int)
    requires
        small(a, x),
        x <= y,
    ensures
        small(a, y),
{
    lemma_unit();
    assert(x * unit() <= y * unit()) by (nonlinear_arith)
        requires
            x <= y,
            unit() > 0,
    ;
}

/// A number far below infinity, `2^100`.
pub open spec fn huge() -> int {
    0x10_0000_0000_0000_0000_0000_0000
}

pub proof fn lemma_unit()
    ensures
        unit() >= huge(),
{
    vstd::arithmetic::power2::lemma2_to64();
    vstd::arithmetic::power2::lemma2_to64_rest();
    vstd::arithmetic::power2::lemma_pow2_adds(50, 50);
    vstd::arithmetic::power2::lemma_pow2_strictly_increases(100, 149);
}

/// A fraction below the bound is close to the number that it is rounded to.
pub proof fn lemma_rounds_close(num: int, den: int)
    requires
        den > 0,
        0 <= num <= (huge() * unit()) * den,
    ensures
        ({
            let f = single_format();
            let k = f.nearest(num, den);
            k < f.infinity && f.magnitude(k) >= 0 && close(f.magnitude(k), num, den)
        }),
{
    let f = single_format();
    let k = f.nearest(num, den);
    let top = huge() * unit();
    lemma_formats();
    lemma_unit();
    lemma_nearest_exists(f, num, den);
    lemma_top();
    assert(top * den >= 0 && 1 * den == den) by (nonlinear_arith)
        requires
            top > 0,
            den > 0,
    ;
    lemma_nearest_monotone(f, num, top * den, den);
    lemma_nearest_scaled(f, top, 1, den);
    lemma_parts_of_number(24, k as nat);
    let q = binade(24, k as nat);
    let b = pow2(q) as int;
    let s = significand(24, k as nat) as int;
    let m = f.magnitude(k);
    lemma_pow2_step(23);
    vstd::arithmetic::power2::lemma2_to64();
    assert(2 * num <= (2 * m + b) * den) by {
        assert(magnitude(24, k as nat) + magnitude(24, k as nat + 1) == 2 * m + b);
    }
    assert((2 * m - b) * den <= 2 * num) by {
        if k > 0 {
            lemma_parts_of_number(24, (k - 1) as nat);
            let r = binade(24, (k - 1) as nat);
            assert(r <= q) by {
                vstd::arithmetic::div_mod::lemma_div_is_ordered(k - 1, k as int, 0x80_0000);
            }
            if r < q {
                vstd::arithmetic::power2::lemma_pow2_strictly_increases(r, q);
            }
            let low = magnitude(24, (k - 1) as nat) + m;
            assert((2 * m - b) * den <= low * den) by (nonlinear_arith)
                requires
                    2 * m - b <= low,
                    den > 0,
            ;
        } else {
            lemma_magnitude_of_parts(24, 0, 0);
            assert((0 - b) * den <= 0) by (nonlinear_arith)
                requires
                    b > 0,
                    den > 0,
            ;
        }
    }
    let c = 0x80_0000int;
    assert((2 * m + b) * den == 2 * (m * den) + b * den) by (nonlinear_arith);
    assert((2 * m - b) * den == 2 * (m * den) - b * den) by (nonlinear_arith);
    assert(m * den >= 0) by (nonlinear_arith)
        requires
            m >= 0,
            den > 0,
    ;
    if q == 0 {
        lemma_pow2_step(0);
        assert(b * den == den) by (nonlinear_arith)
            requires
                b == 1,
        ;
    } else {
        assert(c * (b * den) <= m * den) by (nonlinear_arith)
            requires
                m == s * b,
                s >= c,
                b > 0,
                den > 0,
        ;
    }
}

proof fn lemma_top()
    ensures
        huge() * unit() > 0,
        single_format().nearest(huge() * unit(), 1) < single_format().infinity,
{
    let f = single_format();
    lemma_formats();
    lemma_pow2_step(149);
    lemma_pow2_step(23);
    vstd::arithmetic::power2::lemma2_to64();
    vstd::arithmetic::power2::lemma2_to64_rest();
    vstd::arithmetic::power2::lemma_pow2_adds(50, 50);
    vstd::arithmetic::power2::lemma_pow2_adds(100, 149);
    vstd::arithmetic::power2::lemma_pow2_adds(23, 226);
    lemma_magnitude_of_parts(24, 226, 0x80_0000);
    let k = (227 * 0x80_0000) as u64;
    assert(f.magnitude(k) == huge() * unit());
    lemma_exact(f, k);
}

/// A sum is close to the exact one.
pub proof fn lemma_plus_close(a: F32, b: F32, x: int, y: int)
    requires
        small(a, x),
        small(b, y),
        0 <= x,
        0 <= y,
        x + y <= huge(),
    ensures
        a.plus(b).finite(),
        close(a.plus(b).value(), a.value() + b.value(), 1),
        small(a.plus(b), 2 * (x + y) + 1),
{
    let f = single_format();
    let s = a.value() + b.value();
    lemma_formats();
    lemma_unit();
    lemma_magnitude_of_parts(24, 0, 0);
    lemma_pow2_step(23);
    assert(abs(s) <= (x + y) * unit() <= (huge() * unit()) * 1) by (nonlinear_arith)
        requires
            -(x * unit()) <= a.value() <= x * unit(),
            -(y * unit()) <= b.value() <= y * unit(),
            s == a.value() + b.value(),
            x + y <= huge(),
            unit() > 0,
            abs(s) == s || abs(s) == -s,
    ;
    lemma_rounds_close(abs(s), 1);
    reveal(F32::finite);
    reveal(F32::sum);
    reveal(sum);
    let d = sum(f, a.datum(), b.datum());
    lemma_packed_single(d);
    lemma_bounded_by(a.plus(b), s, 1, x + y);
}

/// What is close to a fraction below a bound is not far above it.
proof fn lemma_bounded_by(r: F32, num: int, den: int, bound: int)
    requires
        r.finite(),
        den > 0,
        bound >= 0,
        close(r.value(), num, den),
        -((bound * unit()) * den) <= num <= (bound * unit()) * den,
    ensures
        small(r, 2 * bound + 1),
{
    let v = r.value();
    lemma_unit();
    let w = bound * unit();
    assert(w >= 0) by (nonlinear_arith)
        requires
            bound >= 0,
            unit() > 0,
            w == bound * unit(),
    ;
    assert(abs(v) * den == abs(v * den)) by (nonlinear_arith)
        requires
            den > 0,
            abs(v) == v || abs(v) == -v,
            abs(v) >= 0,
            abs(v * den) == v * den || abs(v * den) == -(v * den),
            abs(v * den) >= 0,
    ;
    assert(abs(v) <= 2 * w + unit()) by (nonlinear_arith)
        requires
            den > 0,
            w >= 0,
            unit() >= 0x100_0000,
            -(w * den) <= num <= w * den,
            abs(v) == v || abs(v) == -v,
            0x100_0000 * (v * den - num) <= abs(v) * den + 0x80_0000 * den,
            0x100_0000 * (num - v * den) <= abs(v) * den + 0x80_0000 * den,
    ;
    assert((2 * bound + 1) * unit() == 2 * w + unit()) by (nonlinear_arith)
        requires
            w == bound * unit(),
    ;
}

/// The opposite of a number.
pub proof fn lemma_opposite_close(a: F32, x: int)
    requires
        small(a, x),
    ensures
        small(a.opposite(), x),
        a.opposite().value() == -a.value(),
{
    reveal(F32::negated);
    reveal(F32::finite);
}

/// A difference is close to the exact one.
pub proof fn lemma_minus_close(a: F32, b: F32, x: int, y: int)
    requires
        small(a, x),
        small(b, y),
        0 <= x,
        0 <= y,
        x + y <= huge(),
    ensures
        a.minus(b).finite(),
        close(a.minus(b).value(), a.value() - b.value(), 1),
        small(a.minus(b), 2 * (x + y) + 1),
{
    lemma_opposite_close(b, y);
    lemma_plus_close(a, b.opposite(), x, y);
}

/// A product is close to the exact one.
pub proof fn lemma_times_close(a: F32, b: F32, x: int, y: int)
    requires
        small(a, x),
        small(b, y),
        0 <= x,
        0 <= y,
        x * y <= huge(),
    ensures
        a.times(b).finite(),
        close(a.times(b).value(), a.value() * b.value(), unit()),
        small(a.times(b), 2 * (x * y) + 1),
{
    let f = single_format();
    let u = unit();
    let m = f.magnitude(a.datum().number);
    let k = f.magnitude(b.datum().number);
    lemma_formats();
    lemma_unit();
    reveal(F32::finite);
    lemma_value_bounds(f, a.datum());
    lemma_value_bounds(f, b.datum());
    lemma_magnitude_order(f, 0, a.datum().number);
    lemma_magnitude_order(f, 0, b.datum().number);
    assert(0 <= m * k <= ((x * y) * u) * u) by (nonlinear_arith)
        requires
            0 <= m <= x * u,
            0 <= k <= y * u,
            u > 0,
    ;
    assert(((x * y) * u) * u <= (huge() * u) * u) by (nonlinear_arith)
        requires
            x * y <= huge(),
            u > 0,
    ;
    lemma_rounds_close(m * k, u);
    reveal(F32::product);
    reveal(product);
    let d = product(f, a.datum(), b.datum());
    lemma_packed_single(d);
    let s = a.value() * b.value();
    assert(s == m * k || s == -(m * k)) by (nonlinear_arith)
        requires
            a.value() == m || a.value() == -m,
            b.value() == k || b.value() == -k,
            s == a.value() * b.value(),
    ;
    let v = a.times(b).value();
    let w = f.magnitude(d.number);
    assert(a.datum().negative != b.datum().negative ==> s == -(m * k)) by (nonlinear_arith)
        requires
            a.value() == if a.datum().negative {
                -m
            } else {
                m
            },
            b.value() == if b.datum().negative {
                -k
            } else {
                k
            },
            s == a.value() * b.value(),
    ;
    assert(a.datum().negative == b.datum().negative ==> s == m * k) by (nonlinear_arith)
        requires
            a.value() == if a.datum().negative {
                -m
            } else {
                m
            },
            b.value() == if b.datum().negative {
                -k
            } else {
                k
            },
            s == a.value() * b.value(),
    ;
    assert(w * u == w * u && (-w) * u == -(w * u)) by (nonlinear_arith);
    lemma_bounded_by(a.times(b), s, u, x * y);
}

/// A quotient by a positive number is close to the exact one.
pub proof fn lemma_over_close(a: F32, b: F32, bound: int)
    requires
        a.finite(),
        b.finite(),
        b.value() > 0,
        0 <= bound <= huge(),
        -((bound * unit()) * b.value()) <= a.value() * unit() <= (bound * unit()) * b.value(),
    ensures
        a.over(b).finite(),
        close(a.over(b).value(), a.value() * unit(), b.value()),
        small(a.over(b), 2 * bound + 1),
{
    let f = single_format();
    let u = unit();
    let m = f.magnitude(a.datum().number);
    let den = b.value();
    lemma_formats();
    lemma_unit();
    lemma_magnitude_of_parts(24, 0, 0);
    lemma_pow2_step(23);
    reveal(F32::finite);
    lemma_value_bounds(f, a.datum());
    lemma_value_bounds(f, b.datum());
    lemma_magnitude_order(f, 0, a.datum().number);
    lemma_magnitude_order(f, 0, b.datum().number);
    assert(!b.datum().negative && b.datum().number != 0);
    assert(0 <= m * u <= (bound * u) * den) by (nonlinear_arith)
        requires
            m >= 0,
            u > 0,
            a.value() == m || a.value() == -m,
            -((bound * u) * den) <= a.value() * u <= (bound * u) * den,
    ;
    assert((bound * u) * den <= (huge() * u) * den) by (nonlinear_arith)
        requires
            bound <= huge(),
            u > 0,
            den > 0,
    ;
    lemma_rounds_close(m * u, den);
    reveal(F32::quotient);
    reveal(quotient);
    let d = quotient(f, a.datum(), b.datum());
    lemma_packed_single(d);
    let w = f.magnitude(d.number);
    assert((-w) * den == -(w * den) && (-m) * u == -(m * u)) by (nonlinear_arith);
    lemma_bounded_by(a.over(b), a.value() * u, den, bound);
}

/// What is close to a fraction is close to the same fraction in lower terms.
pub proof fn lemma_close_reduced(v: int, num: int, den: int, factor: int)
    requires
        factor > 0,
        den > 0,
        close(v, num * factor, den * factor),
    ensures
        close(v, num, den),
{
    let c = 0x100_0000int;
    let h = 0x80_0000int;
    let p = v * den;
    let a = abs(v) * den;
    assert(v * (den * factor) == p * factor && abs(v) * (den * factor) == a * factor) by (
        nonlinear_arith)
        requires
            p == v * den,
            a == abs(v) * den,
    ;
    let up = c * (p - num);
    let down = c * (num - p);
    let slack = a + h * den;
    assert(slack * factor == a * factor + h * (den * factor)) by (nonlinear_arith)
        requires
            slack == a + h * den,
    ;
    assert(up * factor == c * (p * factor - num * factor)) by (nonlinear_arith)
        requires
            up == c * (p - num),
    ;
    assert(down * factor == c * (num * factor - p * factor)) by (nonlinear_arith)
        requires
            down == c * (num - p),
    ;
    lemma_cancel(up, slack, factor);
    lemma_cancel(down, slack, factor);
}

/// A positive factor on both sides can go.
pub proof fn lemma_cancel(a: int, b: int, factor: int)
    requires
        factor > 0,
        a * factor <= b * factor,
    ensures
        a <= b,
{
    assert(a <= b) by (nonlinear_arith)
        requires
            factor > 0,
            a * factor <= b * factor,
    ;
}

/// A ratio of small natural numbers is close to the exact one.
pub proof fn lemma_ratio_close(n: i32, d: i32)
    requires
        0 <= n < 0x100_0000,
        0 < d < 0x100_0000,
    ensures
        F32::ratio(n, d).finite(),
        F32::ratio(n, d).value() >= 0,
        close(F32::ratio(n, d).value(), n * unit(), d as int),
        small(F32::ratio(n, d), 2 * n + 1),
{
    let a = F32::nearest_to(n as int);
    let b = F32::nearest_to(d as int);
    let u = unit();
    lemma_unit();
    lemma_whole_single(n as int);
    lemma_whole_single(d as int);
    assert(b.value() > 0) by (nonlinear_arith)
        requires
            b.value() == d * u,
            d > 0,
            u > 0,
    ;
    assert(0 <= a.value() * u <= (n * u) * b.value()) by (nonlinear_arith)
        requires
            a.value() == n * u,
            b.value() == d * u,
            n >= 0,
            d >= 1,
            u >= 1,
    ;
    lemma_over_close(a, b, n as int);
    assert(a.value() * u == (n * u) * u && b.value() == d * u);
    lemma_close_reduced(a.over(b).value(), n * u, d as int, u);
    lemma_over_sign(a, b);
}

/// A quotient of numbers that are not negative is not negative.
proof fn lemma_over_sign(a: F32, b: F32)
    requires
        a.finite(),
        b.finite(),
        !a.datum().negative,
        b.value() > 0,
        a.over(b).finite(),
    ensures
        a.over(b).value() >= 0,
{
    let f = single_format();
    let r = a.over(b);
    lemma_formats();
    reveal(F32::finite);
    reveal(F32::quotient);
    reveal(quotient);
    let d = quotient(f, a.datum(), b.datum());
    lemma_magnitude_of_parts(24, 0, 0);
    lemma_pow2_step(23);
    lemma_unit();
    lemma_magnitude_order(f, 0, a.datum().number);
    lemma_magnitude_order(f, 0, b.datum().number);
    let m = f.magnitude(a.datum().number);
    assert(m * f.one() >= 0) by (nonlinear_arith)
        requires
            m >= 0,
            f.one() > 0,
    ;
    lemma_nearest_exists(f, m * f.one(), b.value());
    lemma_packed_single(d);
    lemma_magnitude_order(f, 0, r.datum().number);
}

/// The floor is the integer at or below.
pub proof fn lemma_floor_of(a: F32, k: int, lo: int, hi: int)
    requires
        a.finite(),
        k * unit() <= a.value() < (k + 1) * unit(),
        -0x80_0000 <= k < 0x80_0000,
        lo <= k <= hi,
    ensures
        a.floor().integer_part(lo, hi) == k,
        a.floor().finite(),
        a.floor().value() == k * unit(),
{
    let f = single_format();
    let u = unit();
    let m = f.magnitude(a.datum().number);
    let n = integer_magnitude(m, u, a.datum().negative, Direction::Down);
    lemma_formats();
    lemma_unit();
    reveal(F32::finite);
    lemma_value_bounds(f, a.datum());
    lemma_magnitude_order(f, 0, a.datum().number);
    let w = if k >= 0 {
        k
    } else {
        -k
    };
    if a.datum().negative {
        assert(n == -k) by {
            lemma_divides(m, u);
            let q = m / u;
            let r = m % u;
            assert((k + 1) * u == k * u + u) by (nonlinear_arith);
            assert((-k) * u == -(k * u)) by (nonlinear_arith);
            if r == 0 {
                assert(q == -k) by (nonlinear_arith)
                    requires
                        q * u == m,
                        k * u <= -m < (k + 1) * u,
                        u > 0,
                ;
            } else {
                assert(q + 1 == -k) by (nonlinear_arith)
                    requires
                        q * u + r == m,
                        0 < r < u,
                        k * u <= -m < (k + 1) * u,
                        u > 0,
                ;
            }
        }
        assert(k <= 0) by (nonlinear_arith)
            requires
                k * u <= -m,
                m >= 0,
                u > 0,
        ;
    } else {
        assert(n == k) by {
            lemma_divides(m, u);
            let q = m / u;
            let r = m % u;
            assert(q == k) by (nonlinear_arith)
                requires
                    q * u + r == m,
                    0 <= r < u,
                    k * u <= m < (k + 1) * u,
                    u > 0,
            ;
        }
        assert(k >= 0) by (nonlinear_arith)
            requires
                m < (k + 1) * u,
                m >= 0,
                u > 0,
        ;
    }
    lemma_brought(a, Direction::Down, w, k, lo, hi);
}

proof fn lemma_divides(m: int, u: int)
    requires
        m >= 0,
        u > 0,
    ensures
        (m / u) * u + m % u == m,
        0 <= m % u < u,
        m / u >= 0,
{
    vstd::arithmetic::div_mod::lemma_fundamental_div_mod(m, u);
    vstd::arithmetic::mul::lemma_mul_is_commutative(m / u, u);
    vstd::arithmetic::div_mod::lemma_mod_bound(m, u);
    vstd::arithmetic::div_mod::lemma_div_pos_is_pos(m, u);
}

/// An integer of the given magnitude is exact.
proof fn lemma_brought(a: F32, direction: Direction, w: int, k: int, lo: int, hi: int)
    requires
        a.finite(),
        0 <= w <= 0x80_0000,
        w == integer_magnitude(
            single_format().magnitude(a.datum().number),
            unit(),
            a.datum().negative,
            direction,
        ),
        a.datum().negative ==> k == -w,
        !a.datum().negative ==> k == w,
        lo <= k <= hi,
    ensures
        a.integral(direction).integer_part(lo, hi) == k,
        a.integral(direction).finite(),
        a.integral(direction).value() == k * unit(),
{
    let f = single_format();
    let u = unit();
    lemma_formats();
    lemma_unit();
    lemma_small_integer(f, w as nat);
    reveal(F32::finite);
    reveal(F32::integral);
    reveal(F32::integer_part);
    reveal(integral);
    reveal(truncated);
    let d = integral(f, a.datum(), direction);
    assert(d.number == integer_number(f, w));
    lemma_packed_single(d);
    assert((w * u) / u == w) by {
        vstd::arithmetic::div_mod::lemma_div_multiples_vanish(w, u);
        vstd::arithmetic::mul::lemma_mul_is_commutative(w, u);
    }
    assert((-w) * u == -(w * u)) by (nonlinear_arith);
}

/// The integer nearest to a number that lies closer to it than one half.
pub proof fn lemma_round_of(a: F32, k: int, lo: int, hi: int)
    requires
        a.finite(),
        2 * k * unit() - unit() < 2 * a.value() < 2 * k * unit() + unit(),
        -0x80_0000 <= k < 0x80_0000,
        lo <= k <= hi,
    ensures
        a.round().integer_part(lo, hi) == k,
        a.round().finite(),
        a.round().value() == k * unit(),
{
    let f = single_format();
    let u = unit();
    let m = f.magnitude(a.datum().number);
    let negative = a.datum().negative;
    lemma_formats();
    lemma_unit();
    reveal(F32::finite);
    lemma_value_bounds(f, a.datum());
    lemma_magnitude_order(f, 0, a.datum().number);
    let w = if negative {
        -k
    } else {
        k
    };
    lemma_divides(m, u);
    let q = m / u;
    let r = m % u;
    assert(2 * w * u - u < 2 * m < 2 * w * u + u) by (nonlinear_arith)
        requires
            2 * k * u - u < 2 * a.value() < 2 * k * u + u,
            negative ==> a.value() == -m && w == -k,
            !negative ==> a.value() == m && w == k,
    ;
    assert(w >= 0) by (nonlinear_arith)
        requires
            2 * m < 2 * w * u + u,
            m >= 0,
            u > 0,
    ;
    if 2 * r >= u {
        assert(q + 1 == w) by (nonlinear_arith)
            requires
                q * u + r == m,
                0 <= r < u,
                2 * r >= u,
                2 * w * u - u < 2 * m < 2 * w * u + u,
                u > 0,
        ;
    } else {
        assert(q == w) by (nonlinear_arith)
            requires
                q * u + r == m,
                0 <= r < u,
                2 * r < u,
                2 * w * u - u < 2 * m < 2 * w * u + u,
                u > 0,
        ;
    }
    lemma_brought(a, Direction::HalfAway, w, k, lo, hi);
}

/// The ceiling is the integer at or above.
pub proof fn lemma_ceil_of(a: F32, k: int, lo: int, hi: int)
    requires
        a.finite(),
        a.value() >= 0,
        (k - 1) * unit() < a.value() <= k * unit(),
        0 <= k < 0x80_0000,
        lo <= k <= hi,
    ensures
        a.ceil().integer_part(lo, hi) == k,
{
    let f = single_format();
    let u = unit();
    let m = f.magnitude(a.datum().number);
    lemma_formats();
    lemma_unit();
    reveal(F32::finite);
    lemma_value_bounds(f, a.datum());
    lemma_magnitude_order(f, 0, a.datum().number);
    lemma_divides(m, u);
    let q = m / u;
    let r = m % u;
    assert(m == a.value());
    if r == 0 {
        assert(q == k) by (nonlinear_arith)
            requires
                q * u == m,
                (k - 1) * u < m <= k * u,
                u > 0,
        ;
    } else {
        assert(q + 1 == k) by (nonlinear_arith)
            requires
                q * u + r == m,
                0 < r < u,
                (k - 1) * u < m <= k * u,
                u > 0,
        ;
        assert(m > 0) by (nonlinear_arith)
            requires
                q * u + r == m,
                r > 0,
                q >= 0,
                u > 0,
        ;
    }
    if a.datum().negative {
        assert(m == 0);
        assert(q == 0 && r == 0) by (nonlinear_arith)
            requires
                q * u + r == m,
                m == 0,
                q >= 0,
                r >= 0,
                u > 0,
        ;
    }
    lemma_brought(a, Direction::Up, k, k, lo, hi);
}

/// The integer part of a number that is not negative.
pub proof fn lemma_part_of(a: F32, k: int, hi: int)
    requires
        a.finite(),
        0 <= a.value(),
        k * unit() <= a.value() < (k + 1) * unit(),
        0 <= k <= hi,
    ensures
        a.integer_part(0, hi) == k,
{
    let f = single_format();
    let u = unit();
    let m = f.magnitude(a.datum().number);
    lemma_formats();
    lemma_unit();
    reveal(F32::finite);
    reveal(F32::integer_part);
    reveal(truncated);
    lemma_value_bounds(f, a.datum());
    lemma_magnitude_order(f, 0, a.datum().number);
    lemma_divides(m, u);
    let q = m / u;
    let r = m % u;
    assert(m == a.value());
    assert(q == k) by (nonlinear_arith)
        requires
            q * u + r == m,
            0 <= r < u,
            k * u <= m < (k + 1) * u,
            u > 0,
    ;
    if a.datum().negative {
        assert(k == 0) by (nonlinear_arith)
            requires
                k * u <= m,
                m == 0,
                k >= 0,
                u > 0,
        ;
    }
}

/// A product with a small natural number is close to the exact one.
pub proof fn lemma_times_whole_close(a: F32, n: int, x: int)
    requires
        small(a, x),
        0 <= n < 0x100_0000,
        0 <= x,
        x * n <= huge(),
    ensures
        a.times(F32::nearest_to(n)).finite(),
        close(a.times(F32::nearest_to(n)).value(), a.value() * n, 1),
        small(a.times(F32::nearest_to(n)), 2 * (x * n) + 1),
{
    let b = F32::nearest_to(n);
    let u = unit();
    lemma_unit();
    lemma_whole_single(n);
    assert(n * u >= 0) by (nonlinear_arith)
        requires
            n >= 0,
            u > 0,
    ;
    lemma_times_close(a, b, x, n);
    assert(a.value() * b.value() == (a.value() * n) * u) by (nonlinear_arith)
        requires
            b.value() == n * u,
    ;
    lemma_close_reduced(a.times(b).value(), a.value() * n, 1, u);
}

/// One half is exact.
pub proof fn lemma_half()
    ensures
        F32::ratio(1, 2).finite(),
        2 * F32::ratio(1, 2).value() == unit(),
{
    let f = single_format();
    let u = unit();
    lemma_formats();
    lemma_unit();
    lemma_whole_single(1);
    lemma_whole_single(2);
    lemma_ratio_close(1, 2);
    lemma_pow2_step(149);
    lemma_pow2_step(148);
    lemma_pow2_step(23);
    vstd::arithmetic::power2::lemma2_to64();
    vstd::arithmetic::power2::lemma_pow2_adds(23, 125);
    lemma_magnitude_of_parts(24, 125, 0x80_0000);
    let k = (126 * 0x80_0000) as u64;
    let h = f.magnitude(k);
    assert(2 * h == u);
    lemma_exact(f, k);
    assert(u * u == h * (2 * u) && 1 * (2 * u) == 2 * u) by (nonlinear_arith)
        requires
            2 * h == u,
    ;
    lemma_nearest_scaled(f, h, 1, 2 * u);
    reveal(F32::quotient);
    reveal(quotient);
    let a = F32::nearest_to(1);
    let b = F32::nearest_to(2);
    lemma_magnitude_of_parts(24, 0, 0);
    assert(f.magnitude(a.datum().number) == u && f.magnitude(b.datum().number) == 2 * u);
    reveal(F32::finite);
    let q = quotient(f, a.datum(), b.datum());
    assert(q.number == f.nearest(u * u, 2 * u));
    assert(f.nearest(u * u, 2 * u) == k);
    lemma_packed_single(q);
}

/// A product with a fraction of small natural numbers, times the denominator, is
/// the other factor times the numerator, but for rounding.
pub proof fn lemma_times_fraction(a: F32, n: i32, d: i32)
    requires
        small(a, 0x1000_0000),
        0 <= n < 0x1_0000,
        0 < d < 0x1_0000,
    ensures
        a.times(F32::ratio(n, d)).finite(),
        small(a.times(F32::ratio(n, d)), 0x1_0000_0000_0000),
        ({
            let gap = d * a.times(F32::ratio(n, d)).value() - n * a.value();
            let slack = n * abs(a.value()) + unit();
            -slack <= 0x40_0000 * gap <= slack
        }),
{
    let u = unit();
    let c = F32::ratio(n, d);
    lemma_unit();
    lemma_ratio_close(n, d);
    let top = 2 * n + 1;
    assert(0x1000_0000 * top <= 0x1000_0000 * 0x2_0000);
    assert(0 <= top);
    lemma_times_close(a, c, 0x1000_0000, top as int);
    let t = a.times(c);
    assert(2 * (0x1000_0000 * top) + 1 <= 0x1_0000_0000_0000);
    assert((2 * (0x1000_0000 * top) + 1) * u <= 0x1_0000_0000_0000 * u) by (nonlinear_arith)
        requires
            2 * (0x1000_0000 * top) + 1 <= 0x1_0000_0000_0000,
            u > 0,
    ;
    lemma_fraction_parts(a.value(), c.value(), t.value(), n as int, d as int, u);
}

proof fn lemma_fraction_parts(p: int, c: int, t: int, n: int, d: int, u: int)
    requires
        u >= huge(),
        -(0x1000_0000 * u) <= p <= 0x1000_0000 * u,
        0 <= n < 0x1_0000,
        0 < d < 0x1_0000,
        c >= 0,
        close(c, n * u, d),
        close(t, p * c, u),
    ensures
        ({
            let gap = d * t - n * p;
            let slack = n * abs(p) + u;
            -slack <= 0x40_0000 * gap <= slack
        }),
{
    let k = 0x100_0000int;
    let h = 0x80_0000int;
    let x = abs(p);
    let y = abs(t);
    let dc = c * d;
    let nu = n * u;
    assert(nu >= 0) by (nonlinear_arith)
        requires
            n >= 0,
            u > 0,
            nu == n * u,
    ;
    assert(abs(c) * d == dc);
    // the factor
    let w = 2 * nu + 2 * k * d;
    assert(-w <= k * (dc - nu) <= w);
    let pc = p * c;
    let g1 = p * dc - p * nu;
    assert(-(x * w) <= k * g1 <= x * w) by (nonlinear_arith)
        requires
            -w <= k * (dc - nu) <= w,
            g1 == p * dc - p * nu,
            x == p || x == -p,
            x >= 0,
    ;
    // the product
    let tu = t * u;
    let yu = y * u;
    assert(yu >= 0 && (yu == tu || yu == -tu)) by (nonlinear_arith)
        requires
            y >= 0,
            y == t || y == -t,
            u > 0,
            tu == t * u,
            yu == y * u,
    ;
    let e = yu + h * u;
    let g2 = tu - pc;
    assert(-e <= k * g2 <= e);
    let m = d * g2;
    assert(-(d * e) <= k * m <= d * e) by (nonlinear_arith)
        requires
            -e <= k * g2 <= e,
            d > 0,
            m == d * g2,
    ;
    assert(p * dc == d * pc) by (nonlinear_arith)
        requires
            dc == c * d,
            pc == p * c,
    ;
    let dt = d * t;
    let np = n * p;
    assert(d * tu == dt * u && p * nu == np * u) by (nonlinear_arith)
        requires
            dt == d * t,
            np == n * p,
            tu == t * u,
            nu == n * u,
    ;
    assert(m == dt * u - d * pc) by (nonlinear_arith)
        requires
            m == d * (tu - pc),
            d * tu == dt * u,
    ;
    let gap = dt - np;
    assert(gap * u == m + g1) by (nonlinear_arith)
        requires
            gap == dt - np,
            m == dt * u - d * pc,
            g1 == d * pc - np * u,
    ;
    let nx = n * x;
    assert(nx >= 0) by (nonlinear_arith)
        requires
            n >= 0,
            x >= 0,
            nx == n * x,
    ;
    let r = 0x2000_0000 * (k * d);
    assert(x * w <= (2 * nx + r) * u) by (nonlinear_arith)
        requires
            w == 2 * nu + 2 * k * d,
            nu == n * u,
            nx == n * x,
            0 <= x <= 0x1000_0000 * u,
            r == 0x2000_0000 * (k * d),
            k > 0,
            d > 0,
    ;
    let dy = d * y;
    assert(d * e == (dy + h * d) * u) by (nonlinear_arith)
        requires
            e == yu + h * u,
            yu == y * u,
            dy == d * y,
    ;
    let slack = dy + h * d + 2 * nx + r;
    assert((dy + h * d) * u + (2 * nx + r) * u == slack * u) by (nonlinear_arith)
        requires
            slack == dy + h * d + 2 * nx + r,
    ;
    let kg = k * gap;
    assert(kg * u == k * m + k * g1) by (nonlinear_arith)
        requires
            kg == k * gap,
            gap * u == m + g1,
    ;
    lemma_cancel(kg, slack, u);
    assert((-slack) * u == -(slack * u)) by (nonlinear_arith);
    lemma_cancel(-slack, kg, u);
    assert(dy == dt || dy == -dt) by (nonlinear_arith)
        requires
            y == t || y == -t,
            dy == d * y,
            dt == d * t,
    ;
    assert(nx == np || nx == -np) by (nonlinear_arith)
        requires
            x == p || x == -p,
            nx == n * x,
            np == n * p,
    ;
    assert(h * d + r <= 0x1_0000_0000_0000_0000_0000) by (nonlinear_arith)
        requires
            h == 0x80_0000,
            r == 0x2000_0000 * (k * d),
            k == 0x100_0000,
            0 < d < 0x1_0000,
    ;
}

/// One more term of a sum: how far rounding has moved it.
pub proof fn lemma_term(before: int, t: int, after: int, exact: int, p: int, m: int, c: int, u: int)
    requires
        u > 0,
        m >= 0,
        0 <= c <= 0x10_0000,
        abs(exact) <= m,
        close(t, p, u),
        close(after, before + t, 1),
        ({
            let e = c * (m + 0x200_0000 * u);
            -e <= 0x100_0000 * (before * u - exact) <= e
        }),
    ensures
        abs(exact + p) <= m + abs(p),
        ({
            let e = (c + 8) * (m + abs(p) + 0x200_0000 * u);
            -e <= 0x100_0000 * (after * u - (exact + p)) <= e
        }),
{
    let bu = before * u;
    let tu = t * u;
    let au = after * u;
    let h = 0x80_0000 * u;
    lemma_abs_scaled(t, u);
    lemma_abs_scaled(after, u);
    let v = after - (before + t);
    assert(v * u == au - (bu + tu)) by (nonlinear_arith)
        requires
            v == after - (before + t),
            au == after * u,
            bu == before * u,
            tu == t * u,
    ;
    let e = abs(after) + 0x80_0000;
    assert(-(e * u) <= 0x100_0000 * (v * u) <= e * u) by (nonlinear_arith)
        requires
            -e <= 0x100_0000 * v <= e,
            u > 0,
    ;
    assert(e * u == abs(after) * u + h) by (nonlinear_arith)
        requires
            e == abs(after) + 0x80_0000,
            h == 0x80_0000 * u,
    ;
    lemma_summed(bu, tu, au, exact, p, m, c, 4 * h);
}

proof fn lemma_abs_scaled(t: int, u: int)
    requires
        u > 0,
    ensures
        abs(t) * u == abs(t * u),
{
    assert(abs(t) * u == abs(t * u)) by (nonlinear_arith)
        requires
            u > 0,
            t >= 0 ==> abs(t) == t,
            t < 0 ==> abs(t) == -t,
            t * u >= 0 ==> abs(t * u) == t * u,
            t * u < 0 ==> abs(t * u) == -(t * u),
    ;
}

proof fn lemma_summed(
    before: int,
    term: int,
    after: int,
    exact: int,
    p: int,
    m: int,
    c: int,
    w: int,
)
    requires
        w >= 0,
        m >= 0,
        0 <= c <= 0x10_0000,
        abs(exact) <= m,
        -(c * (m + w)) <= 0x100_0000 * (before - exact) <= c * (m + w),
        4 * (0x100_0000 * (term - p)) <= 4 * abs(term) + w,
        4 * (0x100_0000 * (p - term)) <= 4 * abs(term) + w,
        4 * (0x100_0000 * (after - (before + term))) <= 4 * abs(after) + w,
        4 * (0x100_0000 * ((before + term) - after)) <= 4 * abs(after) + w,
    ensures
        abs(exact + p) <= m + abs(p),
        ({
            let e = (c + 8) * (m + abs(p) + w);
            -e <= 0x100_0000 * (after - (exact + p)) <= e
        }),
{
    let z = m + w;
    let n = abs(p);
    let cz = c * z;
    assert(0 <= cz <= 0x10_0000 * z) by (nonlinear_arith)
        requires
            0 <= c <= 0x10_0000,
            z >= 0,
            cz == c * z,
    ;
    assert((c + 8) * (m + n + w) >= cz + 8 * z + 8 * n) by (nonlinear_arith)
        requires
            z == m + w,
            n >= 0,
            c >= 0,
            cz == c * z,
    ;
    assert(abs(before) <= 2 * z);
    assert(abs(term) <= 2 * n + w);
    assert(abs(after) <= 3 * z + 3 * n + w);
}

/// Bounds stay bounds when both sides are scaled.
pub proof fn lemma_scale(x: int, e: int, factor: int)
    requires
        factor >= 0,
        -e <= x <= e,
    ensures
        -(e * factor) <= x * factor <= e * factor,
{
    assert(-(e * factor) <= x * factor <= e * factor) by (nonlinear_arith)
        requires
            factor >= 0,
            -e <= x <= e,
    ;
}

/// A number and a fraction of another: but for rounding, times the denominator they
/// are the one times the denominator and the other times the numerator.
pub proof fn lemma_plus_fraction(a: F32, b: F32, n: i32, d: i32)
    requires
        small(a, 0x10_0000),
        small(b, 0x10_0000),
        0 <= n <= d < 0x1_0000,
        0 < d,
    ensures
        a.plus(b.times(F32::ratio(n, d))).finite(),
        small(a.plus(b.times(F32::ratio(n, d))), 0x10_0000_0000_0000),
        ({
            let r = a.plus(b.times(F32::ratio(n, d))).value();
            let gap = d * r - (d * a.value() + n * b.value());
            let slack = d * (abs(a.value()) + abs(b.value()) + unit());
            -slack <= 0x10_0000 * gap <= slack
        }),
{
    let u = unit();
    lemma_unit();
    lemma_small_within(b, 0x10_0000, 0x1000_0000);
    lemma_times_fraction(b, n, d);
    let t = b.times(F32::ratio(n, d));
    lemma_plus_close(a, t, 0x10_0000, 0x1_0000_0000_0000);
    let r = a.plus(t);
    lemma_small_within(r, 2 * (0x10_0000int + 0x1_0000_0000_0000) + 1, 0x10_0000_0000_0000);
    let k = 0x100_0000int;
    let dd = d as int;
    let nn = n as int;
    let x = abs(a.value());
    let y = abs(b.value());
    let dr = dd * r.value();
    let da = dd * a.value();
    let dt = dd * t.value();
    let nb = nn * b.value();
    let dx = dd * x;
    let dy = dd * y;
    let du = dd * u;
    let ny = nn * y;
    assert(dd * (x + y + u) == dx + dy + du) by (nonlinear_arith)
        requires
            dx == dd * x,
            dy == dd * y,
            du == dd * u,
    ;
    assert(0 <= ny <= dy && dx >= 0 && du >= u) by (nonlinear_arith)
        requires
            0 <= nn <= dd,
            dd >= 1,
            x >= 0,
            y >= 0,
            u > 0,
            ny == nn * y,
            dy == dd * y,
            dx == dd * x,
            du == dd * u,
    ;
    let g = r.value() - (a.value() + t.value());
    let e = abs(r.value()) + 0x80_0000;
    lemma_scale(k * g, e, dd);
    assert((k * g) * dd == k * (dr - da - dt)) by (nonlinear_arith)
        requires
            g == r.value() - (a.value() + t.value()),
            dr == dd * r.value(),
            da == dd * a.value(),
            dt == dd * t.value(),
    ;
    let dm = dd * abs(r.value());
    assert(e * dd == dm + 0x80_0000 * dd) by (nonlinear_arith)
        requires
            e == abs(r.value()) + 0x80_0000,
            dm == dd * abs(r.value()),
    ;
    assert((dm == dr || dm == -dr) && dm >= 0) by (nonlinear_arith)
        requires
            dm == dd * abs(r.value()),
            dr == dd * r.value(),
            abs(r.value()) == r.value() || abs(r.value()) == -r.value(),
            abs(r.value()) >= 0,
            dd > 0,
    ;
    assert(da == dx || da == -dx) by (nonlinear_arith)
        requires
            da == dd * a.value(),
            dx == dd * x,
            x == a.value() || x == -a.value(),
    ;
    assert(nb == ny || nb == -ny) by (nonlinear_arith)
        requires
            nb == nn * b.value(),
            ny == nn * y,
            y == b.value() || y == -b.value(),
    ;
}

} // verus!

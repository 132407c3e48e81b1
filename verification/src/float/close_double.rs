//! How far rounding in double precision moves a result, whatever its sign.
use vstd::prelude::*;
use vstd::arithmetic::power2::pow2;
use super::arith::{
    abs, integer_magnitude, integral, lemma_exact, lemma_magnitude_order, product, quotient, sum,
    truncated, Direction,
};
use super::double::{double_format, F64};
use super::exact::{
    integer_number, lemma_formats, lemma_nearest_exists, lemma_nearest_monotone,
    lemma_nearest_scaled, lemma_small_integer, lemma_whole_double,
};
use super::order::{lemma_packed_double, lemma_value_bounds};
use super::rounding::{
    binade, lemma_magnitude_of_parts, lemma_parts_of_number, lemma_pow2_step, magnitude,
    significand,
};

verus! {

/// How many units make up one in double precision.
pub open spec fn unit() -> int {
    double_format().one()
}

/// `v` is `num / den`, but for one part in `2^53` of `v` and half a unit.
pub open spec fn close(v: int, num: int, den: int) -> bool {
    let slack = abs(v) * den + 0x10_0000_0000_0000 * den;
    &&& 0x20_0000_0000_0000 * (v * den - num) <= slack
    &&& 0x20_0000_0000_0000 * (num - v * den) <= slack
}

/// A finite number of at most so many ones, whatever its sign.
pub open spec fn small(a: F64, bound: int) -> bool {
    a.finite() && -(bound * unit()) <= a.value() <= bound * unit()
}

/// What is below a bound is below a larger one.
pub proof fn lemma_small_within(a: F64, x: int, y: int)
    requires
        small(a, x),
        x <= y,
    ensures
        small(a, y),
{
    lemma_unit();
    assert(x * unit() <= y * unit()) by (nonlinear_arith)
        requires
            x <= y,
            unit() > 0,
    ;
}

/// A number far below infinity, `2^100`.
pub open spec fn huge() -> int {
    0x10_0000_0000_0000_0000_0000_0000
}

pub proof fn lemma_unit()
    ensures
        unit() >= huge(),
{
    vstd::arithmetic::power2::lemma2_to64();
    vstd::arithmetic::power2::lemma2_to64_rest();
    vstd::arithmetic::power2::lemma_pow2_adds(50, 50);
    vstd::arithmetic::power2::lemma_pow2_strictly_increases(100, 1074);
}

/// A fraction below the bound is close to the number that it is rounded to.
pub proof fn lemma_rounds_close(num: int, den: int)
    requires
        den > 0,
        0 <= num <= (huge() * unit()) * den,
    ensures
        ({
            let f = double_format();
            let k = f.nearest(num, den);
            k < f.infinity && f.magnitude(k) >= 0 && close(f.magnitude(k), num, den)
        }),
{
    let f = double_format();
    let k = f.nearest(num, den);
    let top = huge() * unit();
    lemma_formats();
    lemma_unit();
    lemma_nearest_exists(f, num, den);
    lemma_top();
    assert(top * den >= 0 && 1 * den == den) by (nonlinear_arith)
        requires
            top > 0,
            den > 0,
    ;
    lemma_nearest_monotone(f, num, top * den, den);
    lemma_nearest_scaled(f, top, 1, den);
    lemma_parts_of_number(53, k as nat);
    let q = binade(53, k as nat);
    let b = pow2(q) as int;
    let s = significand(53, k as nat) as int;
    let m = f.magnitude(k);
    lemma_pow2_step(52);
    vstd::arithmetic::power2::lemma2_to64();
    assert(2 * num <= (2 * m + b) * den) by {
        assert(magnitude(53, k as nat) + magnitude(53, k as nat + 1) == 2 * m + b);
    }
    assert((2 * m - b) * den <= 2 * num) by {
        if k > 0 {
            lemma_parts_of_number(53, (k - 1) as nat);
            let r = binade(53, (k - 1) as nat);
            assert(r <= q) by {
                vstd::arithmetic::div_mod::lemma_div_is_ordered(k - 1, k as int, 0x10_0000_0000_0000);
            }
            if r < q {
                vstd::arithmetic::power2::lemma_pow2_strictly_increases(r, q);
            }
            let low = magnitude(53, (k - 1) as nat) + m;
            assert((2 * m - b) * den <= low * den) by (nonlinear_arith)
                requires
                    2 * m - b <= low,
                    den > 0,
            ;
        } else {
            lemma_magnitude_of_parts(53, 0, 0);
            assert((0 - b) * den <= 0) by (nonlinear_arith)
                requires
                    b > 0,
                    den > 0,
            ;
        }
    }
    let c = 0x10_0000_0000_0000int;
    assert((2 * m + b) * den == 2 * (m * den) + b * den) by (nonlinear_arith);
    assert((2 * m - b) * den == 2 * (m * den) - b * den) by (nonlinear_arith);
    assert(m * den >= 0) by (nonlinear_arith)
        requires
            m >= 0,
            den > 0,
    ;
    if q == 0 {
        lemma_pow2_step(0);
        assert(b * den == den) by (nonlinear_arith)
            requires
                b == 1,
        ;
    } else {
        assert(c * (b * den) <= m * den) by (nonlinear_arith)
            requires
                m == s * b,
                s >= c,
                b > 0,
                den > 0,
        ;
    }
}

proof fn lemma_top()
    ensures
        huge() * unit() > 0,
        double_format().nearest(huge() * unit(), 1) < double_format().infinity,
{
    let f = double_format();
    lemma_formats();
    lemma_pow2_step(1074);
    lemma_pow2_step(52);
    vstd::arithmetic::power2::lemma2_to64();
    vstd::arithmetic::power2::lemma2_to64_rest();
    vstd::arithmetic::power2::lemma_pow2_adds(50, 50);
    vstd::arithmetic::power2::lemma_pow2_adds(100, 1074);
    vstd::arithmetic::power2::lemma_pow2_adds(52, 1122);
    lemma_magnitude_of_parts(53, 1122, 0x10_0000_0000_0000);
    let k = (1123 * 0x10_0000_0000_0000) as u64;
    assert(f.magnitude(k) == huge() * unit());
    lemma_exact(f, k);
}

/// A sum is close to the exact one.
pub proof fn lemma_plus_close(a: F64, b: F64, x: int, y: int)
    requires
        small(a, x),
        small(b, y),
        0 <= x,
        0 <= y,
        x + y <= huge(),
    ensures
        a.plus(b).finite(),
        close(a.plus(b).value(), a.value() + b.value(), 1),
        small(a.plus(b), 2 * (x + y) + 1),
{
    let f = double_format();
    let s = a.value() + b.value();
    lemma_formats();
    lemma_unit();
    lemma_magnitude_of_parts(53, 0, 0);
    lemma_pow2_step(52);
    assert(abs(s) <= (x + y) * unit() <= (huge() * unit()) * 1) by (nonlinear_arith)
        requires
            -(x * unit()) <= a.value() <= x * unit(),
            -(y * unit()) <= b.value() <= y * unit(),
            s == a.value() + b.value(),
            x + y <= huge(),
            unit() > 0,
            abs(s) == s || abs(s) == -s,
    ;
    lemma_rounds_close(abs(s), 1);
    reveal(F64::finite);
    reveal(F64::sum);
    reveal(sum);
    let d = sum(f, a.datum(), b.datum());
    lemma_packed_double(d);
    lemma_bounded_by(a.plus(b), s, 1, x + y);
}

/// What is close to a fraction below a bound is not far above it.
proof fn lemma_bounded_by(r: F64, num: int, den: int, bound: int)
    requires
        r.finite(),
        den > 0,
        bound >= 0,
        close(r.value(), num, den),
        -((bound * unit()) * den) <= num <= (bound * unit()) * den,
    ensures
        small(r, 2 * bound + 1),
{
    let v = r.value();
    lemma_unit();
    let w = bound * unit();
    assert(w >= 0) by (nonlinear_arith)
        requires
            bound >= 0,
            unit() > 0,
            w == bound * unit(),
    ;
    assert(abs(v) * den == abs(v * den)) by (nonlinear_arith)
        requires
            den > 0,
            abs(v) == v || abs(v) == -v,
            abs(v) >= 0,
            abs(v * den) == v * den || abs(v * den) == -(v * den),
            abs(v * den) >= 0,
    ;
    assert(abs(v) <= 2 * w + unit()) by (nonlinear_arith)
        requires
            den > 0,
            w >= 0,
            unit() >= 0x20_0000_0000_0000,
            -(w * den) <= num <= w * den,
            abs(v) == v || abs(v) == -v,
            0x20_0000_0000_0000 * (v * den - num) <= abs(v) * den + 0x10_0000_0000_0000 * den,
            0x20_0000_0000_0000 * (num - v * den) <= abs(v) * den + 0x10_0000_0000_0000 * den,
    ;
    assert((2 * bound + 1) * unit() == 2 * w + unit()) by (nonlinear_arith)
        requires
            w == bound * unit(),
    ;
}

/// The opposite of a number.
pub proof fn lemma_opposite_close(a: F64, x: int)
    requires
        small(a, x),
    ensures
        small(a.opposite(), x),
        a.opposite().value() == -a.value(),
{
    reveal(F64::negated);
    reveal(F64::finite);
}

/// A difference is close to the exact one.
pub proof fn lemma_minus_close(a: F64, b: F64, x: int, y: int)
    requires
        small(a, x),
        small(b, y),
        0 <= x,
        0 <= y,
        x + y <= huge(),
    ensures
        a.minus(b).finite(),
        close(a.minus(b).value(), a.value() - b.value(), 1),
        small(a.minus(b), 2 * (x + y) + 1),
{
    lemma_opposite_close(b, y);
    lemma_plus_close(a, b.opposite(), x, y);
}

/// A product is close to the exact one.
pub proof fn lemma_times_close(a: F64, b: F64, x: int, y: int)
    requires
        small(a, x),
        small(b, y),
        0 <= x,
        0 <= y,
        x * y <= huge(),
    ensures
        a.times(b).finite(),
        close(a.times(b).value(), a.value() * b.value(), unit()),
        small(a.times(b), 2 * (x * y) + 1),
{
    let f = double_format();
    let u = unit();
    let m = f.magnitude(a.datum().number);
    let k = f.magnitude(b.datum().number);
    lemma_formats();
    lemma_unit();
    reveal(F64::finite);
    lemma_value_bounds(f, a.datum());
    lemma_value_bounds(f, b.datum());
    lemma_magnitude_order(f, 0, a.datum().number);
    lemma_magnitude_order(f, 0, b.datum().number);
    assert(0 <= m * k <= ((x * y) * u) * u) by (nonlinear_arith)
        requires
            0 <= m <= x * u,
            0 <= k <= y * u,
            u > 0,
    ;
    assert(((x * y) * u) * u <= (huge() * u) * u) by (nonlinear_arith)
        requires
            x * y <= huge(),
            u > 0,
    ;
    lemma_rounds_close(m * k, u);
    reveal(F64::product);
    reveal(product);
    let d = product(f, a.datum(), b.datum());
    lemma_packed_double(d);
    let s = a.value() * b.value();
    assert(s == m * k || s == -(m * k)) by (nonlinear_arith)
        requires
            a.value() == m || a.value() == -m,
            b.value() == k || b.value() == -k,
            s == a.value() * b.value(),
    ;
    let v = a.times(b).value();
    let w = f.magnitude(d.number);
    assert(a.datum().negative != b.datum().negative ==> s == -(m * k)) by (nonlinear_arith)
        requires
            a.value() == if a.datum().negative {
                -m
            } else {
                m
            },
            b.value() == if b.datum().negative {
                -k
            } else {
                k
            },
            s == a.value() * b.value(),
    ;
    assert(a.datum().negative == b.datum().negative ==> s == m * k) by (nonlinear_arith)
        requires
            a.value() == if a.datum().negative {
                -m
            } else {
                m
            },
            b.value() == if b.datum().negative {
                -k
            } else {
                k
            },
            s == a.value() * b.value(),
    ;
    assert(w * u == w * u && (-w) * u == -(w * u)) by (nonlinear_arith);
    lemma_bounded_by(a.times(b), s, u, x * y);
}

/// A quotient by a positive number is close to the exact one.
pub proof fn lemma_over_close(a: F64, b: F64, bound: int)
    requires
        a.finite(),
        b.finite(),
        b.value() > 0,
        0 <= bound <= huge(),
        -((bound * unit()) * b.value()) <= a.value() * unit() <= (bound * unit()) * b.value(),
    ensures
        a.over(b).finite(),
        close(a.over(b).value(), a.value() * unit(), b.value()),
        small(a.over(b), 2 * bound + 1),
{
    let f = double_format();
    let u = unit();
    let m = f.magnitude(a.datum().number);
    let den = b.value();
    lemma_formats();
    lemma_unit();
    lemma_magnitude_of_parts(53, 0, 0);
    lemma_pow2_step(52);
    reveal(F64::finite);
    lemma_value_bounds(f, a.datum());
    lemma_value_bounds(f, b.datum());
    lemma_magnitude_order(f, 0, a.datum().number);
    lemma_magnitude_order(f, 0, b.datum().number);
    assert(!b.datum().negative && b.datum().number != 0);
    assert(0 <= m * u <= (bound * u) * den) by (nonlinear_arith)
        requires
            m >= 0,
            u > 0,
            a.value() == m || a.value() == -m,
            -((bound * u) * den) <= a.value() * u <= (bound * u) * den,
    ;
    assert((bound * u) * den <= (huge() * u) * den) by (nonlinear_arith)
        requires
            bound <= huge(),
            u > 0,
            den > 0,
    ;
    lemma_rounds_close(m * u, den);
    reveal(F64::quotient);
    reveal(quotient);
    let d = quotient(f, a.datum(), b.datum());
    lemma_packed_double(d);
    let w = f.magnitude(d.number);
    assert((-w) * den == -(w * den) && (-m) * u == -(m * u)) by (nonlinear_arith);
    lemma_bounded_by(a.over(b), a.value() * u, den, bound);
}

/// What is close to a fraction is close to the same fraction in lower terms.
pub proof fn lemma_close_reduced(v: int, num: int, den: int, factor: int)
    requires
        factor > 0,
        den > 0,
        close(v, num * factor, den * factor),
    ensures
        close(v, num, den),
{
    let c = 0x20_0000_0000_0000int;
    let h = 0x10_0000_0000_0000int;
    let p = v * den;
    let a = abs(v) * den;
    assert(v * (den * factor) == p * factor && abs(v) * (den * factor) == a * factor) by (
        nonlinear_arith)
        requires
            p == v * den,
            a == abs(v) * den,
    ;
    let up = c * (p - num);
    let down = c * (num - p);
    let slack = a + h * den;
    assert(slack * factor == a * factor + h * (den * factor)) by (nonlinear_arith)
        requires
            slack == a + h * den,
    ;
    assert(up * factor == c * (p * factor - num * factor)) by (nonlinear_arith)
        requires
            up == c * (p - num),
    ;
    assert(down * factor == c * (num * factor - p * factor)) by (nonlinear_arith)
        requires
            down == c * (num - p),
    ;
    lemma_cancel(up, slack, factor);
    lemma_cancel(down, slack, factor);
}

/// A positive factor on both sides can go.
pub proof fn lemma_cancel(a: int, b: int, factor: int)
    requires
        factor > 0,
        a * factor <= b * factor,
    ensures
        a <= b,
{
    assert(a <= b) by (nonlinear_arith)
        requires
            factor > 0,
            a * factor <= b * factor,
    ;
}

/// A ratio of small natural numbers is close to the exact one.
pub proof fn lemma_ratio_close(n: i32, d: i32)
    requires
        0 <= n < 0x20_0000_0000_0000,
        0 < d < 0x20_0000_0000_0000,
    ensures
        F64::ratio(n, d).finite(),
        F64::ratio(n, d).value() >= 0,
        close(F64::ratio(n, d).value(), n * unit(), d as int),
        small(F64::ratio(n, d), 2 * n + 1),
{
    let a = F64::nearest_to(n as int);
    let b = F64::nearest_to(d as int);
    let u = unit();
    lemma_unit();
    lemma_whole_double(n as int);
    lemma_whole_double(d as int);
    assert(b.value() > 0) by (nonlinear_arith)
        requires
            b.value() == d * u,
            d > 0,
            u > 0,
    ;
    assert(0 <= a.value() * u <= (n * u) * b.value()) by (nonlinear_arith)
        requires
            a.value() == n * u,
            b.value() == d * u,
            n >= 0,
            d >= 1,
            u >= 1,
    ;
    lemma_over_close(a, b, n as int);
    assert(a.value() * u == (n * u) * u && b.value() == d * u);
    lemma_close_reduced(a.over(b).value(), n * u, d as int, u);
    lemma_over_sign(a, b);
}

/// A quotient of numbers that are not negative is not negative.
proof fn lemma_over_sign(a: F64, b: F64)
    requires
        a.finite(),
        b.finite(),
        !a.datum().negative,
        b.value() > 0,
        a.over(b).finite(),
    ensures
        a.over(b).value() >= 0,
{
    let f = double_format();
    let r = a.over(b);
    lemma_formats();
    reveal(F64::finite);
    reveal(F64::quotient);
    reveal(quotient);
    let d = quotient(f, a.datum(), b.datum());
    lemma_magnitude_of_parts(53, 0, 0);
    lemma_pow2_step(52);
    lemma_unit();
    lemma_magnitude_order(f, 0, a.datum().number);
    lemma_magnitude_order(f, 0, b.datum().number);
    let m = f.magnitude(a.datum().number);
    assert(m * f.one() >= 0) by (nonlinear_arith)
        requires
            m >= 0,
            f.one() > 0,
    ;
    lemma_nearest_exists(f, m * f.one(), b.value());
    lemma_packed_double(d);
    lemma_magnitude_order(f, 0, r.datum().number);
}

/// The floor is the integer at or below.
pub proof fn lemma_floor_of(a: F64, k: int, lo: int, hi: int)
    requires
        a.finite(),
        k * unit() <= a.value() < (k + 1) * unit(),
        -0x10_0000_0000_0000 <= k < 0x10_0000_0000_0000,
        lo <= k <= hi,
    ensures
        a.floor().integer_part(lo, hi) == k,
        a.floor().finite(),
        a.floor().value() == k * unit(),
{
    let f = double_format();
    let u = unit();
    let m = f.magnitude(a.datum().number);
    let n = integer_magnitude(m, u, a.datum().negative, Direction::Down);
    lemma_formats();
    lemma_unit();
    reveal(F64::finite);
    lemma_value_bounds(f, a.datum());
    lemma_magnitude_order(f, 0, a.datum().number);
    let w = if k >= 0 {
        k
    } else {
        -k
    };
    if a.datum().negative {
        assert(n == -k) by {
            lemma_divides(m, u);
            let q = m / u;
            let r = m % u;
            assert((k + 1) * u == k * u + u) by (nonlinear_arith);
            assert((-k) * u == -(k * u)) by (nonlinear_arith);
            if r == 0 {
                assert(q == -k) by (nonlinear_arith)
                    requires
                        q * u == m,
                        k * u <= -m < (k + 1) * u,
                        u > 0,
                ;
            } else {
                assert(q + 1 == -k) by (nonlinear_arith)
                    requires
                        q * u + r == m,
                        0 < r < u,
                        k * u <= -m < (k + 1) * u,
                        u > 0,
                ;
            }
        }
        assert(k <= 0) by (nonlinear_arith)
            requires
                k * u <= -m,
                m >= 0,
                u > 0,
        ;
    } else {
        assert(n == k) by {
            lemma_divides(m, u);
            let q = m / u;
            let r = m % u;
            assert(q == k) by (nonlinear_arith)
                requires
                    q * u + r == m,
                    0 <= r < u,
                    k * u <= m < (k + 1) * u,
                    u > 0,
            ;
        }
        assert(k >= 0) by (nonlinear_arith)
            requires
                m < (k + 1) * u,
                m >= 0,
                u > 0,
        ;
    }
    lemma_brought(a, Direction::Down, w, k, lo, hi);
}

proof fn lemma_divides(m: int, u: int)
    requires
        m >= 0,
        u > 0,
    ensures
        (m / u) * u + m % u == m,
        0 <= m % u < u,
        m / u >= 0,
{
    vstd::arithmetic::div_mod::lemma_fundamental_div_mod(m, u);
    vstd::arithmetic::mul::lemma_mul_is_commutative(m / u, u);
    vstd::arithmetic::div_mod::lemma_mod_bound(m, u);
    vstd::arithmetic::div_mod::lemma_div_pos_is_pos(m, u);
}

/// An integer of the given magnitude is exact.
proof fn lemma_brought(a: F64, direction: Direction, w: int, k: int, lo: int, hi: int)
    requires
        a.finite(),
        0 <= w <= 0x10_0000_0000_0000,
        w == integer_magnitude(
            double_format().magnitude(a.datum().number),
            unit(),
            a.datum().negative,
            direction,
        ),
        a.datum().negative ==> k == -w,
        !a.datum().negative ==> k == w,
        lo <= k <= hi,
    ensures
        a.integral(direction).integer_part(lo, hi) == k,
        a.integral(direction).finite(),
        a.integral(direction).value() == k * unit(),
{
    let f = double_format();
    let u = unit();
    lemma_formats();
    lemma_unit();
    lemma_small_integer(f, w as nat);
    reveal(F64::finite);
    reveal(F64::integral);
    reveal(F64::integer_part);
    reveal(integral);
    reveal(truncated);
    let d = integral(f, a.datum(), direction);
    assert(d.number == integer_number(f, w));
    lemma_packed_double(d);
    assert((w * u) / u == w) by {
        vstd::arithmetic::div_mod::lemma_div_multiples_vanish(w, u);
        vstd::arithmetic::mul::lemma_mul_is_commutative(w, u);
    }
    assert((-w) * u == -(w * u)) by (nonlinear_arith);
}

/// The ceiling is the integer at or above.
pub proof fn lemma_ceil_of(a: F64, k: int, lo: int, hi: int)
    requires
        a.finite(),
        a.value() >= 0,
        (k - 1) * unit() < a.value() <= k * unit(),
        0 <= k < 0x10_0000_0000_0000,
        lo <= k <= hi,
    ensures
        a.ceil().integer_part(lo, hi) == k,
{
    let f = double_format();
    let u = unit();
    let m = f.magnitude(a.datum().number);
    lemma_formats();
    lemma_unit();
    reveal(F64::finite);
    lemma_value_bounds(f, a.datum());
    lemma_magnitude_order(f, 0, a.datum().number);
    lemma_divides(m, u);
    let q = m / u;
    let r = m % u;
    assert(m == a.value());
    if r == 0 {
        assert(q == k) by (nonlinear_arith)
            requires
                q * u == m,
                (k - 1) * u < m <= k * u,
                u > 0,
        ;
    } else {
        assert(q + 1 == k) by (nonlinear_arith)
            requires
                q * u + r == m,
                0 < r < u,
                (k - 1) * u < m <= k * u,
                u > 0,
        ;
        assert(m > 0) by (nonlinear_arith)
            requires
                q * u + r == m,
                r > 0,
                q >= 0,
                u > 0,
        ;
    }
    if a.datum().negative {
        assert(m == 0);
        assert(q == 0 && r == 0) by (nonlinear_arith)
            requires
                q * u + r == m,
                m == 0,
                q >= 0,
                r >= 0,
                u > 0,
        ;
    }
    lemma_brought(a, Direction::Up, k, k, lo, hi);
}

/// The integer part of a number that is not negative.
pub proof fn lemma_part_of(a: F64, k: int, hi: int)
    requires
        a.finite(),
        0 <= a.value(),
        k * unit() <= a.value() < (k + 1) * unit(),
        0 <= k <= hi,
    ensures
        a.integer_part(0, hi) == k,
{
    let f = double_format();
    let u = unit();
    let m = f.magnitude(a.datum().number);
    lemma_formats();
    lemma_unit();
    reveal(F64::finite);
    reveal(F64::integer_part);
    reveal(truncated);
    lemma_value_bounds(f, a.datum());
    lemma_magnitude_order(f, 0, a.datum().number);
    lemma_divides(m, u);
    let q = m / u;
    let r = m % u;
    assert(m == a.value());
    assert(q == k) by (nonlinear_arith)
        requires
            q * u + r == m,
            0 <= r < u,
            k * u <= m < (k + 1) * u,
            u > 0,
    ;
    if a.datum().negative {
        assert(k == 0) by (nonlinear_arith)
            requires
                k * u <= m,
                m == 0,
                k >= 0,
                u > 0,
        ;
    }
}

} // verus!

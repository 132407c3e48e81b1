//! Results that need no rounding, and the order that rounding keeps.
use vstd::prelude::*;
use vstd::arithmetic::power2::pow2;
use super::arith::{
    integer_magnitude, integral, lemma_double_format, lemma_exact, lemma_single_format, less,
    of_integer, product, quotient, sum, truncated, Datum, Direction, Format,
};
use super::double::{double_format, F64};
use super::rounding::{
    lemma_magnitude_increases, lemma_magnitude_of_parts, lemma_pow2_step, lemma_round_to_nearest,
    magnitude, nearest,
};
use super::single::{single_format, F32};

verus! {

/// Number `k` is nearest to `num / den`.
pub open spec fn is_nearest(f: Format, k: u64, num: int, den: int) -> bool {
    nearest(f.precision as nat, f.infinity as nat, k as nat, num, den)
}

/// Every non-negative fraction has a nearest number.
pub proof fn lemma_nearest_exists(f: Format, num: int, den: int)
    requires
        f.wf(),
        num >= 0,
        den > 0,
    ensures
        f.nearest(num, den) <= f.infinity,
        is_nearest(f, f.nearest(num, den), num, den),
{
    let p = f.precision as nat;
    let k = lemma_nearest_from(f, 0, num, den);
    lemma_round_to_nearest(p, f.infinity as nat, k, num, den);
}

/// Looks for the nearest number from `k` on.
proof fn lemma_nearest_from(f: Format, k: nat, num: int, den: int) -> (r: nat)
    requires
        f.wf(),
        den > 0,
        num >= 0,
        k <= f.infinity,
        k > 0 ==> ({
            let low = (f.magnitude((k - 1) as u64) + f.magnitude(k as u64)) * den;
            2 * num > low || (2 * num == low && k % 2 == 0)
        }),
    ensures
        nearest(f.precision as nat, f.infinity as nat, r, num, den),
    decreases f.infinity - k,
{
    let p = f.precision as nat;
    if nearest(p, f.infinity as nat, k, num, den) {
        k
    } else {
        lemma_nearest_from(f, k + 1, num, den)
    }
}

/// Scaling numerator and denominator alike changes nothing.
pub proof fn lemma_nearest_scaled(f: Format, num: int, den: int, c: int)
    requires
        f.wf(),
        num >= 0,
        den > 0,
        c > 0,
    ensures
        f.nearest(num * c, den * c) == f.nearest(num, den),
{
    lemma_nearest_exists(f, num, den);
    let p = f.precision as nat;
    let k = f.nearest(num, den) as nat;
    assert(den * c > 0) by (nonlinear_arith)
        requires
            den > 0,
            c > 0,
    ;
    if k > 0 {
        let m = magnitude(p, (k - 1) as nat) + magnitude(p, k);
        lemma_scaled_order(2 * num, m * den, c);
        assert(2 * (num * c) == (2 * num) * c) by (nonlinear_arith);
        assert(m * (den * c) == (m * den) * c) by (nonlinear_arith);
    }
    if k < f.infinity {
        let m = magnitude(p, k) + magnitude(p, k + 1);
        lemma_scaled_order(2 * num, m * den, c);
        assert(2 * (num * c) == (2 * num) * c) by (nonlinear_arith);
        assert(m * (den * c) == (m * den) * c) by (nonlinear_arith);
    }
    lemma_round_to_nearest(p, f.infinity as nat, k, num * c, den * c);
}

proof fn lemma_scaled_order(x: int, y: int, c: int)
    requires
        c > 0,
    ensures
        x < y <==> x * c < y * c,
        x == y <==> x * c == y * c,
{
    assert(x < y ==> x * c < y * c) by (nonlinear_arith)
        requires
            c > 0,
    ;
    assert(x > y ==> x * c > y * c) by (nonlinear_arith)
        requires
            c > 0,
    ;
}

/// A larger fraction does not round to a smaller number.
pub proof fn lemma_nearest_monotone(f: Format, x: int, y: int, den: int)
    requires
        f.wf(),
        0 <= x <= y,
        den > 0,
    ensures
        f.nearest(x, den) <= f.nearest(y, den),
{
    let p = f.precision as nat;
    lemma_nearest_exists(f, x, den);
    lemma_nearest_exists(f, y, den);
    let j = f.nearest(x, den) as nat;
    let k = f.nearest(y, den) as nat;
    if j > k {
        let below_j = magnitude(p, (j - 1) as nat) + magnitude(p, j);
        let above_k = magnitude(p, k) + magnitude(p, k + 1);
        if k + 1 < j {
            lemma_magnitude_increases(p, k + 1, j);
            lemma_magnitude_increases(p, k, (j - 1) as nat);
            assert(above_k * den < below_j * den) by (nonlinear_arith)
                requires
                    above_k < below_j,
                    den > 0,
            ;
        } else {
            assert(above_k == below_j);
        }
    }
}

/// The number of the small integer `n` in format `f`.
pub open spec fn integer_number(f: Format, n: int) -> u64 {
    f.nearest(n * f.one(), 1)
}

/// Integers of no more digits than the format has are numbers.
pub proof fn lemma_small_integer(f: Format, n: nat)
    requires
        f.wf(),
        n < 2 * f.first,
        f.scale >= f.precision,
        f.infinity >= (f.scale + 2) * f.first,
    ensures
        f.magnitude(integer_number(f, n as int)) == n * f.one(),
        integer_number(f, n as int) < f.infinity,
        n == 0 ==> integer_number(f, n as int) == 0,
{
    let p = f.precision as nat;
    lemma_pow2_step((p - 1) as nat);
    lemma_pow2_step(f.scale as nat);
    if n == 0 {
        lemma_magnitude_of_parts(p, 0, 0);
        lemma_exact(f, 0);
        assert(0 * f.one() == 0) by (nonlinear_arith);
    } else {
        let d = lemma_digits(n, p);
        // `n` takes `d` digits; the other `p - d` are filled up.
        let fill = (p - d) as nat;
        let sig = n * pow2(fill);
        let q = (f.scale - fill) as nat;
        lemma_pow2_step(fill);
        lemma_pow2_step((d - 1) as nat);
        vstd::arithmetic::power2::lemma_pow2_adds(d, fill);
        vstd::arithmetic::power2::lemma_pow2_adds((d - 1) as nat, fill);
        vstd::arithmetic::power2::lemma_pow2_adds(fill, q);
        assert(f.first <= sig < 2 * f.first) by (nonlinear_arith)
            requires
                sig == n * pow2(fill),
                pow2((d - 1) as nat) <= n < pow2(d),
                pow2(fill) > 0,
                pow2((d - 1) as nat) * pow2(fill) == f.first,
                pow2(d) * pow2(fill) == 2 * f.first,
        ;
        lemma_magnitude_of_parts(p, q, sig);
        let k = q * f.first + sig;
        assert(k < f.infinity) by (nonlinear_arith)
            requires
                k == q * f.first + sig,
                q <= f.scale,
                sig < 2 * f.first,
                f.infinity >= (f.scale + 2) * f.first,
        ;
        assert(k >= 0) by (nonlinear_arith)
            requires
                k == q * f.first + sig,
        ;
        assert(sig * pow2(q) == n * f.one()) by (nonlinear_arith)
            requires
                sig == n * pow2(fill),
                f.one() == pow2(fill) * pow2(q),
        ;
        lemma_exact(f, k as u64);
    }
}

/// The number of digits of `n`, if it has at most `p`.
proof fn lemma_digits(n: nat, p: nat) -> (d: nat)
    requires
        0 < n < pow2(p),
    ensures
        0 < d <= p,
        pow2((d - 1) as nat) <= n < pow2(d),
    decreases p,
{
    lemma_pow2_step(0);
    if p == 0 {
        0
    } else if n >= pow2((p - 1) as nat) {
        p
    } else {
        lemma_digits(n, (p - 1) as nat)
    }
}

pub proof fn lemma_formats()
    ensures
        single_format().wf(),
        double_format().wf(),
{
    lemma_single_format();
    lemma_double_format();
}

/// Whole numbers below `2^24` are exact in single precision.
pub proof fn lemma_whole_single(n: int)
    requires
        0 <= n < 0x100_0000,
    ensures
        F32::nearest_to(n).datum() == (Datum {
            negative: false,
            number: integer_number(single_format(), n),
        }),
        F32::nearest_to(n).value() == n * single_format().one(),
        F32::nearest_to(n).finite(),
        !F32::nearest_to(n).not_a_number(),
{
    let f = single_format();
    lemma_formats();
    lemma_small_integer(f, n as nat);
    reveal(F32::nearest_to);
    reveal(of_integer);
    reveal(F32::finite);
    reveal(F32::not_a_number);
}

/// Whole numbers below `2^53` are exact in double precision.
pub proof fn lemma_whole_double(n: int)
    requires
        0 <= n < 0x20_0000_0000_0000,
    ensures
        F64::nearest_to(n).datum() == (Datum {
            negative: false,
            number: integer_number(double_format(), n),
        }),
        F64::nearest_to(n).value() == n * double_format().one(),
        F64::nearest_to(n).finite(),
        !F64::nearest_to(n).not_a_number(),
{
    let f = double_format();
    lemma_formats();
    lemma_small_integer(f, n as nat);
    reveal(F64::nearest_to);
    reveal(of_integer);
    reveal(F64::finite);
    reveal(F64::not_a_number);
}

/// Multiplying small whole numbers is exact.
pub proof fn lemma_whole_times_single(x: int, y: int)
    requires
        0 <= x < 0x100_0000,
        0 <= y < 0x100_0000,
        0 <= x * y < 0x100_0000,
    ensures
        F32::nearest_to(x).product(F32::nearest_to(y)) == F32::nearest_to(x * y),
{
    let f = single_format();
    lemma_formats();
    lemma_whole_single(x);
    lemma_whole_single(y);
    lemma_whole_single(x * y);
    lemma_small_integer(f, x as nat);
    lemma_small_integer(f, y as nat);
    reveal(F32::product);
    reveal(product);
    reveal(F32::nearest_to);
    reveal(of_integer);
    let one = f.one();
    lemma_pow2_step(f.scale as nat);
    assert((x * one) * (y * one) == ((x * y) * one) * one) by (nonlinear_arith);
    assert((x * y) * one >= 0) by (nonlinear_arith)
        requires
            x * y >= 0,
            one > 0,
    ;
    lemma_nearest_scaled(f, (x * y) * one, 1, one);
}

/// Dividing a small whole number by one of its divisors is exact.
pub proof fn lemma_whole_over_single(x: int, y: int)
    requires
        0 <= x * y < 0x100_0000,
        0 <= x < 0x100_0000,
        0 < y < 0x100_0000,
    ensures
        F32::nearest_to(x * y).quotient(F32::nearest_to(y)) == F32::nearest_to(x),
{
    let f = single_format();
    lemma_formats();
    lemma_whole_single(x);
    lemma_whole_single(y);
    lemma_whole_single(x * y);
    lemma_small_integer(f, y as nat);
    lemma_small_integer(f, (x * y) as nat);
    reveal(F32::quotient);
    reveal(quotient);
    reveal(F32::nearest_to);
    reveal(of_integer);
    let one = f.one();
    lemma_pow2_step(f.scale as nat);
    lemma_magnitude_of_parts(f.precision as nat, 0, 0);
    assert(y * one > 0) by (nonlinear_arith)
        requires
            y > 0,
            one > 0,
    ;
    assert(((x * y) * one) * one == (x * one) * (y * one)) by (nonlinear_arith);
    assert(x * one >= 0) by (nonlinear_arith)
        requires
            x >= 0,
            one > 0,
    ;
    assert(1 * (y * one) == y * one);
    lemma_nearest_scaled(f, x * one, 1, y * one);
}

/// A small whole number is its own integer part, in every direction.
pub proof fn lemma_whole_integral_single(n: int, direction: Direction, lo: int, hi: int)
    requires
        0 <= n < 0x100_0000,
        lo <= 0,
        n <= hi,
    ensures
        F32::nearest_to(n).integral(direction) == F32::nearest_to(n),
        F32::nearest_to(n).integer_part(lo, hi) == n,
{
    let f = single_format();
    lemma_formats();
    lemma_whole_single(n);
    lemma_small_integer(f, n as nat);
    reveal(F32::integral);
    reveal(integral);
    reveal(F32::integer_part);
    reveal(truncated);
    reveal(F32::nearest_to);
    reveal(of_integer);
    let one = f.one();
    lemma_pow2_step(f.scale as nat);
    vstd::arithmetic::div_mod::lemma_fundamental_div_mod_converse(n * one, one, n, 0);
    assert(integer_magnitude(n * one, one, false, direction) == n);
}

/// Multiplying whole numbers below `2^53` is exact.
pub proof fn lemma_whole_times_double(x: int, y: int)
    requires
        0 <= x < 0x20_0000_0000_0000,
        0 <= y < 0x20_0000_0000_0000,
        0 <= x * y < 0x20_0000_0000_0000,
    ensures
        F64::nearest_to(x).product(F64::nearest_to(y)) == F64::nearest_to(x * y),
{
    let f = double_format();
    lemma_formats();
    lemma_whole_double(x);
    lemma_whole_double(y);
    lemma_whole_double(x * y);
    lemma_small_integer(f, x as nat);
    lemma_small_integer(f, y as nat);
    reveal(F64::product);
    reveal(product);
    reveal(F64::nearest_to);
    reveal(of_integer);
    let one = f.one();
    lemma_pow2_step(f.scale as nat);
    assert((x * one) * (y * one) == ((x * y) * one) * one) by (nonlinear_arith);
    assert((x * y) * one >= 0) by (nonlinear_arith)
        requires
            x * y >= 0,
            one > 0,
    ;
    lemma_nearest_scaled(f, (x * y) * one, 1, one);
}

/// Dividing a whole number below `2^53` by one of its divisors is exact.
pub proof fn lemma_whole_over_double(x: int, y: int)
    requires
        0 <= x * y < 0x20_0000_0000_0000,
        0 <= x < 0x20_0000_0000_0000,
        0 < y < 0x20_0000_0000_0000,
    ensures
        F64::nearest_to(x * y).quotient(F64::nearest_to(y)) == F64::nearest_to(x),
{
    let f = double_format();
    lemma_formats();
    lemma_whole_double(x);
    lemma_whole_double(y);
    lemma_whole_double(x * y);
    lemma_small_integer(f, y as nat);
    lemma_small_integer(f, (x * y) as nat);
    reveal(F64::quotient);
    reveal(quotient);
    reveal(F64::nearest_to);
    reveal(of_integer);
    let one = f.one();
    lemma_pow2_step(f.scale as nat);
    lemma_magnitude_of_parts(f.precision as nat, 0, 0);
    assert(y * one > 0) by (nonlinear_arith)
        requires
            y > 0,
            one > 0,
    ;
    assert(((x * y) * one) * one == (x * one) * (y * one)) by (nonlinear_arith);
    assert(x * one >= 0) by (nonlinear_arith)
        requires
            x >= 0,
            one > 0,
    ;
    assert(1 * (y * one) == y * one);
    lemma_nearest_scaled(f, x * one, 1, y * one);
}

/// A whole number below `2^53` is its own integer part, in every direction.
pub proof fn lemma_whole_integral_double(n: int, direction: Direction)
    requires
        0 <= n < 0x20_0000_0000_0000,
    ensures
        F64::nearest_to(n).integral(direction) == F64::nearest_to(n),
{
    let f = double_format();
    lemma_formats();
    lemma_whole_double(n);
    lemma_small_integer(f, n as nat);
    reveal(F64::integral);
    reveal(integral);
    reveal(F64::nearest_to);
    reveal(of_integer);
    let one = f.one();
    lemma_pow2_step(f.scale as nat);
    vstd::arithmetic::div_mod::lemma_fundamental_div_mod_converse(n * one, one, n, 0);
    assert(integer_magnitude(n * one, one, false, direction) == n);
}

/// A whole number below `2^53` plus zero is the number.
pub proof fn lemma_whole_plus_zero_double(n: int)
    requires
        0 <= n < 0x20_0000_0000_0000,
    ensures
        F64::nearest_to(0) == F64::zero(),
        F64::nearest_to(n).sum(F64::zero()) == F64::nearest_to(n),
{
    let f = double_format();
    lemma_formats();
    lemma_whole_double(0);
    lemma_whole_double(n);
    lemma_small_integer(f, 0);
    lemma_small_integer(f, n as nat);
    lemma_pow2_step(f.scale as nat);
    lemma_magnitude_of_parts(53, 0, 0);
    lemma_pow2_step(52);
    reveal(F64::sum);
    reveal(sum);
    reveal(F64::nearest_to);
    reveal(of_integer);
    let one = f.one();
    assert(n * one >= 0) by (nonlinear_arith)
        requires
            n >= 0,
            one > 0,
    ;
    assert(n * one == 0 ==> n == 0) by (nonlinear_arith)
        requires
            n >= 0,
            one > 0,
    ;
}

/// Zero divided by a positive whole number is zero.
pub proof fn lemma_zero_over_double(n: int)
    requires
        0 < n < 0x20_0000_0000_0000,
    ensures
        F64::zero().quotient(F64::nearest_to(n)) == F64::zero(),
{
    let f = double_format();
    lemma_formats();
    lemma_whole_double(n);
    lemma_small_integer(f, n as nat);
    lemma_pow2_step(f.scale as nat);
    lemma_pow2_step(52);
    lemma_magnitude_of_parts(53, 0, 0);
    lemma_magnitude_of_parts(53, 0, 1);
    let d = F64::nearest_to(n).datum();
    let den = f.magnitude(d.number);
    assert(den > 0) by (nonlinear_arith)
        requires
            den == n * f.one(),
            n > 0,
            f.one() > 0,
    ;
    assert(0 * f.one() == 0) by (nonlinear_arith);
    assert((0 + 1) * den == den) by (nonlinear_arith);
    assert(is_nearest(f, 0, 0, den));
    lemma_round_to_nearest(53, f.infinity as nat, 0, 0, den);
    reveal(F64::quotient);
    reveal(quotient);
    reveal(F64::finite);
}

/// A number times one is the number.
pub proof fn lemma_times_one_single(a: F32)
    requires
        !a.not_a_number(),
    ensures
        a.times(F32::nearest_to(1)) == a,
{
    let f = single_format();
    lemma_formats();
    lemma_whole_single(1);
    lemma_small_integer(f, 1);
    lemma_pow2_step(f.scale as nat);
    lemma_magnitude_of_parts(24, 0, 0);
    lemma_pow2_step(23);
    let d = a.datum();
    let m = f.magnitude(d.number);
    assert(1 * f.one() == f.one()) by (nonlinear_arith);
    assert(m * f.one() >= 0) by (nonlinear_arith)
        requires
            m >= 0,
            f.one() > 0,
    ;
    reveal(F32::product);
    reveal(product);
    reveal(F32::not_a_number);
    if d.number < f.infinity {
        lemma_nearest_scaled(f, m, 1, f.one());
        lemma_exact(f, d.number);
    }
}

/// A finite number times zero is a zero.
pub proof fn lemma_times_zero_single(a: F32)
    requires
        a.finite(),
    ensures
        a.times(F32::zero()).equals(F32::zero()),
{
    let f = single_format();
    lemma_formats();
    lemma_pow2_step(f.scale as nat);
    lemma_magnitude_of_parts(24, 0, 0);
    lemma_pow2_step(23);
    lemma_exact(f, 0);
    let m = f.magnitude(a.datum().number);
    assert(m * 0 == 0) by (nonlinear_arith);
    assert(0 * f.one() == 0) by (nonlinear_arith);
    lemma_nearest_scaled(f, 0, 1, f.one());
    reveal(F32::product);
    reveal(product);
    reveal(F32::finite);
    reveal(F32::not_a_number);
    reveal(F32::less);
    reveal(less);
}

/// A finite number less itself is zero.
pub proof fn lemma_cancels_single(a: F32)
    requires
        a.finite(),
    ensures
        a.minus(a) == F32::zero(),
{
    lemma_formats();
    reveal(F32::finite);
    reveal(F32::negated);
    reveal(F32::sum);
    reveal(sum);
}

/// One lies above zero, and its opposite below.
pub proof fn lemma_one_is_positive()
    ensures
        F32::nearest_to(1).gt(F32::zero()),
        F32::nearest_to(1).opposite().lt(F32::zero()),
{
    let f = single_format();
    lemma_formats();
    lemma_whole_single(1);
    lemma_pow2_step(f.scale as nat);
    lemma_magnitude_of_parts(24, 0, 0);
    lemma_pow2_step(23);
    reveal(F32::less);
    reveal(less);
    reveal(F32::negated);
    reveal(F32::finite);
}

} // verus!

//! The order of the numbers, and what arithmetic keeps of it.
use vstd::prelude::*;
use vstd::arithmetic::power2::pow2;
use super::arith::{
    abs, integer_magnitude, integral, lemma_exact, lemma_magnitude_order, less, of_integer,
    product, quiet_nan, quotient, sum, truncated, Datum, Direction, Format,
};
use super::double::{double_format, F64};
use super::exact::{
    integer_number, lemma_formats, lemma_nearest_exists, lemma_nearest_monotone,
    lemma_nearest_scaled, lemma_small_integer, lemma_whole_single,
};
use super::rounding::{lemma_magnitude_of_parts, lemma_pow2_step};
use super::single::{single_format, F32};

verus! {

/// No value lies beyond the infinities.
pub proof fn lemma_value_bounds(f: Format, a: Datum)
    requires
        f.wf(),
        !a.is_nan(f),
    ensures
        -f.magnitude(f.infinity) <= a.value(f) <= f.magnitude(f.infinity),
        f.magnitude(0) == 0,
        f.magnitude(f.infinity) > 0,
        a.is_finite(f) ==> -f.magnitude(f.infinity) < a.value(f) < f.magnitude(f.infinity),
{
    super::rounding::lemma_pow2_step((f.precision - 1) as nat);
    lemma_magnitude_of_parts(f.precision as nat, 0, 0);
    lemma_magnitude_order(f, a.number, f.infinity);
    lemma_magnitude_order(f, 0, f.infinity);
    lemma_magnitude_order(f, 0, a.number);
}

/// The value of a rounded sum of finite numbers.
proof fn lemma_sum_value(f: Format, a: Datum, b: Datum)
    requires
        f.wf(),
        a.is_finite(f),
        b.is_finite(f),
    ensures
        !sum(f, a, b).is_nan(f),
        ({
            let s = a.value(f) + b.value(f);
            let m = f.magnitude(f.nearest(abs(s), 1));
            &&& s > 0 ==> sum(f, a, b).value(f) == m
            &&& s < 0 ==> sum(f, a, b).value(f) == -m
            &&& s == 0 ==> sum(f, a, b).value(f) == 0
            &&& m >= 0
        }),
{
    reveal(sum);
    lemma_value_bounds(f, a);
    let s = a.value(f) + b.value(f);
    lemma_nearest_exists(f, abs(s), 1);
}

/// Adding the same to a larger number does not give less.
pub proof fn lemma_sum_monotone(f: Format, a: Datum, b: Datum, c: Datum)
    requires
        f.wf(),
        !a.is_nan(f),
        !b.is_nan(f),
        !c.is_nan(f),
        a.value(f) <= b.value(f),
        !sum(f, a, c).is_nan(f),
        !sum(f, b, c).is_nan(f),
    ensures
        sum(f, a, c).value(f) <= sum(f, b, c).value(f),
{
    lemma_value_bounds(f, a);
    lemma_value_bounds(f, b);
    lemma_value_bounds(f, c);
    lemma_value_bounds(f, sum(f, a, c));
    lemma_value_bounds(f, sum(f, b, c));
    if c.is_infinite(f) || a.is_infinite(f) || b.is_infinite(f) {
        reveal(sum);
    } else {
        lemma_sum_value(f, a, c);
        lemma_sum_value(f, b, c);
        let s = a.value(f) + c.value(f);
        let t = b.value(f) + c.value(f);
        if s > 0 {
            lemma_nearest_monotone(f, s, t, 1);
            lemma_magnitude_order(f, f.nearest(t, 1), f.nearest(s, 1));
        } else if t < 0 {
            lemma_nearest_monotone(f, -t, -s, 1);
            lemma_magnitude_order(f, f.nearest(-s, 1), f.nearest(-t, 1));
        }
    }
}

/// A single-precision sum does not decrease with its first term.
pub proof fn lemma_plus_monotone_single(a: F32, b: F32, c: F32)
    requires
        a.at_most(b),
        !a.plus(c).not_a_number(),
        !b.plus(c).not_a_number(),
    ensures
        a.plus(c).at_most(b.plus(c)),
{
    let f = single_format();
    lemma_formats();
    reveal(F32::sum);
    reveal(F32::less);
    reveal(F32::not_a_number);
    reveal(less);
    lemma_sum_number(f, a.datum(), c.datum());
    lemma_sum_number(f, b.datum(), c.datum());
    lemma_packed_single(sum(f, a.datum(), c.datum()));
    lemma_packed_single(sum(f, b.datum(), c.datum()));
    if c.datum().is_nan(f) {
        reveal(sum);
    }
    lemma_sum_monotone(f, a.datum(), b.datum(), c.datum());
}

/// A double-precision sum does not decrease with its first term.
pub proof fn lemma_plus_monotone_double(a: F64, b: F64, c: F64)
    requires
        a.at_most(b),
        !a.plus(c).not_a_number(),
        !b.plus(c).not_a_number(),
    ensures
        a.plus(c).at_most(b.plus(c)),
{
    let f = double_format();
    lemma_formats();
    reveal(F64::sum);
    reveal(F64::less);
    reveal(F64::not_a_number);
    reveal(less);
    lemma_sum_number(f, a.datum(), c.datum());
    lemma_sum_number(f, b.datum(), c.datum());
    lemma_packed_double(sum(f, a.datum(), c.datum()));
    lemma_packed_double(sum(f, b.datum(), c.datum()));
    if c.datum().is_nan(f) {
        reveal(sum);
    }
    lemma_sum_monotone(f, a.datum(), b.datum(), c.datum());
}

/// A bit pattern gives back what was put in.
pub proof fn lemma_packed_single(d: Datum)
    requires
        d.number < 0x8000_0000,
    ensures
        F32::of_datum(d).datum() == d,
{
}

/// A bit pattern gives back what was put in.
pub proof fn lemma_packed_double(d: Datum)
    requires
        d.number < 0x8000_0000_0000_0000,
    ensures
        F64::of_datum(d).datum() == d,
{
}

proof fn lemma_sum_number(f: Format, a: Datum, b: Datum)
    requires
        f.wf(),
    ensures
        sum(f, a, b).number <= f.infinity || sum(f, a, b) == quiet_nan(f),
{
    reveal(sum);
    if a.is_finite(f) && b.is_finite(f) {
        lemma_nearest_exists(f, abs(a.value(f) + b.value(f)), 1);
    }
}

/// `less` orders the numbers: nothing is less than itself, and what is less
/// than something at most `c` is less than `c`.
pub proof fn lemma_order_single(a: F32, b: F32, c: F32)
    ensures
        !a.less(a),
        a.less(b) ==> a.at_most(b) && !b.less(a),
        a.less(b) && b.at_most(c) ==> a.less(c),
        a.at_most(b) && b.less(c) ==> a.less(c),
        a.at_most(b) && b.at_most(c) ==> a.at_most(c),
        !a.not_a_number() ==> a.at_most(a),
        !a.not_a_number() && !b.not_a_number() ==> a.less(b) || b.at_most(a),
{
    reveal(F32::less);
    reveal(F32::not_a_number);
    reveal(less);
}

/// `less` orders the numbers: nothing is less than itself, and what is less
/// than something at most `c` is less than `c`.
pub proof fn lemma_order_double(a: F64, b: F64, c: F64)
    ensures
        !a.less(a),
        a.less(b) ==> a.at_most(b) && !b.less(a),
        a.less(b) && b.at_most(c) ==> a.less(c),
        a.at_most(b) && b.less(c) ==> a.less(c),
        a.at_most(b) && b.at_most(c) ==> a.at_most(c),
        !a.not_a_number() ==> a.at_most(a),
        !a.not_a_number() && !b.not_a_number() ==> a.less(b) || b.at_most(a),
{
    reveal(F64::less);
    reveal(F64::not_a_number);
    reveal(less);
}

/// Adding the same keeps one number from exceeding another.
pub proof fn lemma_plus_not_above_single(a: F32, b: F32, c: F32)
    requires
        !b.not_a_number(),
        !b.less(a),
    ensures
        !b.plus(c).less(a.plus(c)),
        b.plus(c).not_a_number() ==> a.plus(c).not_a_number() || a.plus(c)
            == F32::minus_infinity(),
{
    let f = single_format();
    lemma_formats();
    lemma_sum_number(f, a.datum(), c.datum());
    lemma_sum_number(f, b.datum(), c.datum());
    lemma_packed_single(sum(f, a.datum(), c.datum()));
    lemma_packed_single(sum(f, b.datum(), c.datum()));
    lemma_order_single(a, b, c);
    lemma_order_single(b.plus(c), a.plus(c), c);
    if !a.not_a_number() && !a.plus(c).not_a_number() {
        if !b.plus(c).not_a_number() {
            lemma_plus_monotone_single(a, b, c);
        } else {
            reveal(F32::sum);
            reveal(F32::less);
            reveal(F32::not_a_number);
            reveal(less);
            reveal(sum);
            lemma_value_bounds(f, a.datum());
            lemma_value_bounds(f, b.datum());
            if b.datum().is_finite(f) && c.datum().is_finite(f) {
                lemma_sum_value(f, b.datum(), c.datum());
            }
        }
    } else {
        reveal(F32::sum);
        reveal(F32::less);
        reveal(F32::not_a_number);
        reveal(less);
        reveal(sum);
    }
}

/// Nothing is less than minus infinity.
pub proof fn lemma_least_single(a: F32)
    ensures
        !a.less(F32::minus_infinity()),
        !F32::minus_infinity().not_a_number(),
        a.finite() ==> !a.not_a_number(),
{
    let f = single_format();
    lemma_formats();
    reveal(F32::less);
    reveal(F32::not_a_number);
    reveal(F32::finite);
    reveal(less);
    if !a.datum().is_nan(f) {
        lemma_value_bounds(f, a.datum());
    }
}

/// A sum with a finite term is a number if the other term is one.
pub proof fn lemma_plus_finite_single(a: F32, b: F32)
    requires
        !a.not_a_number(),
        b.finite(),
    ensures
        !a.plus(b).not_a_number(),
{
    let f = single_format();
    lemma_formats();
    reveal(F32::sum);
    reveal(F32::not_a_number);
    reveal(F32::finite);
    lemma_sum_number(f, a.datum(), b.datum());
    lemma_packed_single(sum(f, a.datum(), b.datum()));
    if a.datum().is_finite(f) {
        lemma_sum_value(f, a.datum(), b.datum());
    } else {
        reveal(sum);
    }
}

/// Adding a number that is not above zero does not move up, nor adding one that
/// is not below zero down.
pub proof fn lemma_plus_sign_double(a: F64, b: F64)
    requires
        !a.not_a_number(),
        b.finite(),
    ensures
        b.value() <= 0 ==> a.plus(b).at_most(a),
        b.value() >= 0 ==> a.at_most(a.plus(b)),
{
    let f = double_format();
    lemma_formats();
    lemma_plus_finite_double(a, b);
    reveal(F64::sum);
    reveal(F64::not_a_number);
    reveal(F64::finite);
    reveal(F64::less);
    reveal(less);
    let d = a.datum();
    lemma_sum_number(f, d, b.datum());
    lemma_packed_double(sum(f, d, b.datum()));
    lemma_value_bounds(f, d);
    if d.is_finite(f) {
        let none = Datum { negative: false, number: 0 };
        lemma_exact(f, d.number);
        lemma_magnitude_order(f, 0, d.number);
        lemma_sum_value(f, d, b.datum());
        lemma_sum_value(f, b.datum(), d);
        lemma_sum_value(f, none, d);
        if b.value() <= 0 {
            lemma_sum_monotone(f, b.datum(), none, d);
        }
        if b.value() >= 0 {
            lemma_sum_monotone(f, none, b.datum(), d);
        }
    } else {
        reveal(sum);
    }
}

/// Adding a number that is not above zero does not move up, nor adding one that
/// is not below zero down.
pub proof fn lemma_plus_sign_single(a: F32, b: F32)
    requires
        !a.not_a_number(),
        b.finite(),
    ensures
        b.value() <= 0 ==> a.plus(b).at_most(a),
        b.value() >= 0 ==> a.at_most(a.plus(b)),
{
    let f = single_format();
    lemma_formats();
    lemma_plus_finite_single(a, b);
    reveal(F32::sum);
    reveal(F32::not_a_number);
    reveal(F32::finite);
    reveal(F32::less);
    reveal(less);
    let d = a.datum();
    lemma_sum_number(f, d, b.datum());
    lemma_packed_single(sum(f, d, b.datum()));
    lemma_value_bounds(f, d);
    if d.is_finite(f) {
        let none = Datum { negative: false, number: 0 };
        lemma_exact(f, d.number);
        lemma_magnitude_order(f, 0, d.number);
        lemma_sum_value(f, d, b.datum());
        lemma_sum_value(f, b.datum(), d);
        lemma_sum_value(f, none, d);
        if b.value() <= 0 {
            lemma_sum_monotone(f, b.datum(), none, d);
        }
        if b.value() >= 0 {
            lemma_sum_monotone(f, none, b.datum(), d);
        }
    } else {
        reveal(sum);
    }
}

/// Scaling by a number that is not negative keeps the order.
pub proof fn lemma_times_monotone_single(a: F32, b: F32, c: F32)
    requires
        a.finite(),
        b.finite(),
        c.finite(),
        a.at_most(b),
        c.value() >= 0,
    ensures
        a.times(c).at_most(b.times(c)),
{
    let f = single_format();
    lemma_formats();
    lemma_by_value_single(a, b);
    lemma_product_value(a, c);
    lemma_product_value(b, c);
    let x = f.magnitude(a.datum().number);
    let y = f.magnitude(b.datum().number);
    let z = c.value();
    let p = a.times(c).datum();
    let q = b.times(c).datum();
    reveal(F32::not_a_number);
    reveal(F32::less);
    reveal(less);
    reveal(F32::finite);
    lemma_value_bounds(f, a.datum());
    lemma_value_bounds(f, b.datum());
    lemma_magnitude_order(f, 0, a.datum().number);
    lemma_magnitude_order(f, 0, b.datum().number);
    lemma_pow2_step(149);
    assert(x * z >= 0 && y * z >= 0) by (nonlinear_arith)
        requires
            x >= 0,
            y >= 0,
            z >= 0,
    ;
    if a.value() >= 0 {
        assert(x <= y);
        assert(x * z <= y * z) by (nonlinear_arith)
            requires
                x <= y,
                z >= 0,
        ;
        lemma_nearest_monotone(f, x * z, y * z, f.one());
        lemma_magnitude_order(f, f.nearest(x * z, f.one()), f.nearest(y * z, f.one()));
    } else if b.value() <= 0 {
        assert(y <= x);
        assert(y * z <= x * z) by (nonlinear_arith)
            requires
                y <= x,
                z >= 0,
        ;
        lemma_nearest_monotone(f, y * z, x * z, f.one());
        lemma_magnitude_order(f, f.nearest(y * z, f.one()), f.nearest(x * z, f.one()));
    }
}

/// The value of a product with a number that is not negative.
proof fn lemma_product_value(a: F32, c: F32)
    requires
        a.finite(),
        c.finite(),
        c.value() >= 0,
    ensures
        ({
            let f = single_format();
            let x = f.magnitude(a.datum().number);
            let m = f.magnitude(f.nearest(x * c.value(), f.one()));
            let p = a.times(c).datum();
            &&& m >= 0
            &&& !p.is_nan(f)
            &&& a.value() > 0 ==> p.value(f) == m
            &&& a.value() < 0 ==> p.value(f) == -m
            &&& a.value() == 0 ==> p.value(f) == 0
            &&& a.value() == 0 ==> m == 0
        }),
{
    let f = single_format();
    lemma_formats();
    reveal(F32::finite);
    reveal(F32::product);
    reveal(product);
    lemma_value_bounds(f, a.datum());
    lemma_value_bounds(f, c.datum());
    lemma_magnitude_order(f, 0, a.datum().number);
    lemma_magnitude_order(f, 0, c.datum().number);
    lemma_pow2_step(149);
    let x = f.magnitude(a.datum().number);
    let z = f.magnitude(c.datum().number);
    assert(z == c.value());
    assert(x * z >= 0) by (nonlinear_arith)
        requires
            x >= 0,
            z >= 0,
    ;
    lemma_nearest_exists(f, x * z, f.one());
    let k = f.nearest(x * z, f.one());
    lemma_magnitude_order(f, 0, k);
    let d = product(f, a.datum(), c.datum());
    lemma_packed_single(d);
    if x == 0 || z == 0 {
        assert(x * z == 0) by (nonlinear_arith)
            requires
                x == 0 || z == 0,
        ;
        lemma_exact(f, 0);
        lemma_nearest_scaled(f, 0, 1, f.one());
        assert(0 * f.one() == 0 && 1 * f.one() == f.one());
    }
}

/// Adding a larger number does not give less.
pub proof fn lemma_plus_monotone_right(c: F32, a: F32, b: F32)
    requires
        a.at_most(b),
        !c.plus(a).not_a_number(),
        !c.plus(b).not_a_number(),
    ensures
        c.plus(a).at_most(c.plus(b)),
{
    lemma_plus_commutes(a, c);
    lemma_plus_commutes(b, c);
    let f = single_format();
    lemma_formats();
    reveal(F32::sum);
    reveal(F32::less);
    reveal(F32::not_a_number);
    reveal(less);
    lemma_sum_number(f, c.datum(), a.datum());
    lemma_sum_number(f, c.datum(), b.datum());
    lemma_packed_single(sum(f, c.datum(), a.datum()));
    lemma_packed_single(sum(f, c.datum(), b.datum()));
    lemma_plus_monotone_single(a, b, c);
}

/// A sum has the same value either way round.
proof fn lemma_plus_commutes(a: F32, c: F32)
    ensures
        a.plus(c).not_a_number() == c.plus(a).not_a_number(),
        !a.plus(c).not_a_number() ==> a.plus(c).value() == c.plus(a).value(),
{
    let f = single_format();
    lemma_formats();
    reveal(F32::sum);
    reveal(F32::not_a_number);
    lemma_sum_number(f, a.datum(), c.datum());
    lemma_sum_number(f, c.datum(), a.datum());
    lemma_packed_single(sum(f, a.datum(), c.datum()));
    lemma_packed_single(sum(f, c.datum(), a.datum()));
    if a.datum().is_finite(f) && c.datum().is_finite(f) {
        lemma_sum_value(f, a.datum(), c.datum());
        lemma_sum_value(f, c.datum(), a.datum());
    } else {
        reveal(sum);
    }
}

/// Zero times a number that is not negative is zero.
pub proof fn lemma_zero_times(c: F32)
    requires
        c.finite(),
        c.value() >= 0,
    ensures
        F32::zero().times(c).finite(),
        F32::zero().times(c).value() == 0,
{
    lemma_zeros();
    lemma_product_value(F32::zero(), c);
    lemma_formats();
    reveal(F32::finite);
    lemma_value_bounds(single_format(), F32::zero().times(c).datum());
}

/// What is zero leaves the value of a sum to the other term.
pub proof fn lemma_zero_plus(z: F32, b: F32)
    requires
        z.finite(),
        z.value() == 0,
        b.finite(),
    ensures
        z.plus(b).finite(),
        z.plus(b).value() == b.value(),
        b.plus(z).finite(),
        b.plus(z).value() == b.value(),
{
    let f = single_format();
    lemma_formats();
    reveal(F32::sum);
    reveal(F32::finite);
    reveal(F32::not_a_number);
    lemma_sum_number(f, z.datum(), b.datum());
    lemma_packed_single(sum(f, z.datum(), b.datum()));
    lemma_value_bounds(f, b.datum());
    lemma_exact(f, b.datum().number);
    lemma_magnitude_order(f, 0, b.datum().number);
    lemma_sum_value(f, z.datum(), b.datum());
    lemma_plus_commutes(z, b);
    lemma_value_bounds(f, z.plus(b).datum());
    lemma_sum_number(f, b.datum(), z.datum());
    lemma_packed_single(sum(f, b.datum(), z.datum()));
    lemma_value_bounds(f, b.plus(z).datum());
}

/// The value of a product depends on the product of the values alone.
pub proof fn lemma_times_by_value(a: F32, b: F32, c: F32, d: F32)
    requires
        a.finite(),
        b.finite(),
        c.finite(),
        d.finite(),
    ensures
        a.value() * b.value() == c.value() * d.value() ==> a.times(b).value() == c.times(d).value(),
        a.value() * b.value() == -(c.value() * d.value()) ==> a.times(b).value() == -c.times(
            d,
        ).value(),
{
    let f = single_format();
    lemma_formats();
    lemma_pow2_step(149);
    lemma_signed_product(a, b);
    lemma_signed_product(c, d);
}

/// The value of a product: the nearest to the exact one, with its sign.
proof fn lemma_signed_product(a: F32, b: F32)
    requires
        a.finite(),
        b.finite(),
    ensures
        ({
            let f = single_format();
            let s = a.value() * b.value();
            let m = f.magnitude(f.nearest(abs(s), f.one()));
            &&& s > 0 ==> a.times(b).value() == m
            &&& s < 0 ==> a.times(b).value() == -m
            &&& s == 0 ==> a.times(b).value() == 0
        }),
{
    let f = single_format();
    lemma_formats();
    reveal(F32::finite);
    reveal(F32::product);
    reveal(product);
    lemma_value_bounds(f, a.datum());
    lemma_value_bounds(f, b.datum());
    lemma_magnitude_order(f, 0, a.datum().number);
    lemma_magnitude_order(f, 0, b.datum().number);
    lemma_pow2_step(149);
    let x = f.magnitude(a.datum().number);
    let y = f.magnitude(b.datum().number);
    let s = a.value() * b.value();
    assert(a.datum().negative != b.datum().negative ==> s == -(x * y)) by (nonlinear_arith)
        requires
            a.value() == if a.datum().negative {
                -x
            } else {
                x
            },
            b.value() == if b.datum().negative {
                -y
            } else {
                y
            },
            s == a.value() * b.value(),
    ;
    assert(a.datum().negative == b.datum().negative ==> s == x * y) by (nonlinear_arith)
        requires
            a.value() == if a.datum().negative {
                -x
            } else {
                x
            },
            b.value() == if b.datum().negative {
                -y
            } else {
                y
            },
            s == a.value() * b.value(),
    ;
    assert(x * y >= 0) by (nonlinear_arith)
        requires
            x >= 0,
            y >= 0,
    ;
    lemma_nearest_exists(f, x * y, f.one());
    lemma_packed_single(product(f, a.datum(), b.datum()));
    if s == 0 {
        lemma_exact(f, 0);
        lemma_nearest_scaled(f, 0, 1, f.one());
        assert(0 * f.one() == 0 && 1 * f.one() == f.one());
    }
}

/// The value of a sum depends on the sum of the values alone.
pub proof fn lemma_plus_by_value(a: F32, b: F32, c: F32, d: F32)
    requires
        a.finite(),
        b.finite(),
        c.finite(),
        d.finite(),
    ensures
        a.value() + b.value() == c.value() + d.value() ==> a.plus(b).value() == c.plus(d).value(),
        a.value() + b.value() == -(c.value() + d.value()) ==> a.plus(b).value() == -c.plus(
            d,
        ).value(),
{
    let f = single_format();
    lemma_formats();
    reveal(F32::finite);
    reveal(F32::sum);
    lemma_sum_number(f, a.datum(), b.datum());
    lemma_sum_number(f, c.datum(), d.datum());
    lemma_packed_single(sum(f, a.datum(), b.datum()));
    lemma_packed_single(sum(f, c.datum(), d.datum()));
    lemma_sum_value(f, a.datum(), b.datum());
    lemma_sum_value(f, c.datum(), d.datum());
}

/// A number over one has its value.
pub proof fn lemma_over_one(a: F32)
    requires
        a.finite(),
    ensures
        a.over(F32::nearest_to(1)).value() == a.value(),
        a.over(F32::nearest_to(1)).finite(),
{
    let f = single_format();
    let one = F32::nearest_to(1);
    lemma_formats();
    lemma_pow2_step(149);
    lemma_whole_single(1);
    reveal(F32::finite);
    reveal(F32::quotient);
    reveal(quotient);
    lemma_value_bounds(f, a.datum());
    lemma_value_bounds(f, one.datum());
    lemma_magnitude_order(f, 0, one.datum().number);
    let k = a.datum().number;
    let m = f.magnitude(k);
    lemma_magnitude_order(f, 0, k);
    lemma_exact(f, k);
    lemma_nearest_scaled(f, m, 1, f.one());
    assert(1 * f.one() == f.one());
    lemma_packed_single(quotient(f, a.datum(), one.datum()));
}

/// A sum of finite numbers has the same value either way round.
pub proof fn lemma_plus_values(a: F64, b: F64)
    requires
        a.finite(),
        b.finite(),
    ensures
        a.plus(b).value() == b.plus(a).value(),
{
    let f = double_format();
    lemma_formats();
    reveal(F64::finite);
    reveal(F64::sum);
    lemma_sum_number(f, a.datum(), b.datum());
    lemma_sum_number(f, b.datum(), a.datum());
    lemma_packed_double(sum(f, a.datum(), b.datum()));
    lemma_packed_double(sum(f, b.datum(), a.datum()));
    lemma_sum_value(f, a.datum(), b.datum());
    lemma_sum_value(f, b.datum(), a.datum());
}

/// A sum that is a number of the format is exact.
pub proof fn lemma_plus_exact_double(a: F64, b: F64, c: F64)
    requires
        a.finite(),
        b.finite(),
        c.finite(),
        a.value() + b.value() == c.value(),
    ensures
        a.plus(b).finite(),
        a.plus(b).value() == c.value(),
{
    let f = double_format();
    lemma_formats();
    reveal(F64::finite);
    reveal(F64::sum);
    lemma_sum_number(f, a.datum(), b.datum());
    lemma_packed_double(sum(f, a.datum(), b.datum()));
    lemma_value_bounds(f, c.datum());
    lemma_exact(f, c.datum().number);
    lemma_magnitude_order(f, 0, c.datum().number);
    lemma_sum_value(f, a.datum(), b.datum());
    lemma_value_bounds(f, a.plus(b).datum());
}

/// A sum that is a number of the format is exact.
pub proof fn lemma_plus_exact_single(a: F32, b: F32, c: F32)
    requires
        a.finite(),
        b.finite(),
        c.finite(),
        a.value() + b.value() == c.value(),
    ensures
        a.plus(b).finite(),
        a.plus(b).value() == c.value(),
{
    let f = single_format();
    lemma_formats();
    reveal(F32::finite);
    reveal(F32::sum);
    lemma_sum_number(f, a.datum(), b.datum());
    lemma_packed_single(sum(f, a.datum(), b.datum()));
    lemma_value_bounds(f, c.datum());
    lemma_exact(f, c.datum().number);
    lemma_magnitude_order(f, 0, c.datum().number);
    lemma_sum_value(f, a.datum(), b.datum());
    lemma_value_bounds(f, a.plus(b).datum());
}

/// Zero is finite, and its value is zero.
pub proof fn lemma_zeros()
    ensures
        F32::zero().value() == 0,
        F32::zero().finite(),
        F64::zero().value() == 0,
        F64::zero().finite(),
{
    lemma_formats();
    lemma_magnitude_of_parts(24, 0, 0);
    lemma_magnitude_of_parts(53, 0, 0);
    lemma_pow2_step(23);
    lemma_pow2_step(52);
    reveal(F32::finite);
    reveal(F64::finite);
}

/// Finite numbers are in the order of their values.
pub proof fn lemma_by_value_single(a: F32, b: F32)
    requires
        a.finite(),
        b.finite(),
    ensures
        a.less(b) <==> a.value() < b.value(),
        a.at_most(b) <==> a.value() <= b.value(),
{
    lemma_formats();
    reveal(F32::not_a_number);
    reveal(F32::finite);
    reveal(F32::less);
    reveal(less);
}

/// Finite numbers are in the order of their values.
pub proof fn lemma_by_value_double(a: F64, b: F64)
    requires
        a.finite(),
        b.finite(),
    ensures
        a.less(b) <==> a.value() < b.value(),
        a.at_most(b) <==> a.value() <= b.value(),
{
    lemma_formats();
    reveal(F64::not_a_number);
    reveal(F64::finite);
    reveal(F64::less);
    reveal(less);
}

/// Adding the same keeps one number from exceeding another.
pub proof fn lemma_plus_not_above_double(a: F64, b: F64, c: F64)
    requires
        !b.not_a_number(),
        !b.less(a),
    ensures
        !b.plus(c).less(a.plus(c)),
        b.plus(c).not_a_number() ==> a.plus(c).not_a_number() || a.plus(c)
            == F64::minus_infinity(),
{
    let f = double_format();
    lemma_formats();
    lemma_sum_number(f, a.datum(), c.datum());
    lemma_sum_number(f, b.datum(), c.datum());
    lemma_packed_double(sum(f, a.datum(), c.datum()));
    lemma_packed_double(sum(f, b.datum(), c.datum()));
    lemma_order_double(a, b, c);
    lemma_order_double(b.plus(c), a.plus(c), c);
    if !a.not_a_number() && !a.plus(c).not_a_number() {
        if !b.plus(c).not_a_number() {
            lemma_plus_monotone_double(a, b, c);
        } else {
            reveal(F64::sum);
            reveal(F64::less);
            reveal(F64::not_a_number);
            reveal(less);
            reveal(sum);
            lemma_value_bounds(f, a.datum());
            lemma_value_bounds(f, b.datum());
            if b.datum().is_finite(f) && c.datum().is_finite(f) {
                lemma_sum_value(f, b.datum(), c.datum());
            }
        }
    } else {
        reveal(F64::sum);
        reveal(F64::less);
        reveal(F64::not_a_number);
        reveal(less);
        reveal(sum);
    }
}

/// Nothing is less than minus infinity.
pub proof fn lemma_least_double(a: F64)
    ensures
        !a.less(F64::minus_infinity()),
        !F64::minus_infinity().not_a_number(),
        a.finite() ==> !a.not_a_number(),
{
    let f = double_format();
    lemma_formats();
    reveal(F64::less);
    reveal(F64::not_a_number);
    reveal(F64::finite);
    reveal(less);
    if !a.datum().is_nan(f) {
        lemma_value_bounds(f, a.datum());
    }
}

/// A sum with a finite term is a number if the other term is one.
pub proof fn lemma_plus_finite_double(a: F64, b: F64)
    requires
        !a.not_a_number(),
        b.finite(),
    ensures
        !a.plus(b).not_a_number(),
{
    let f = double_format();
    lemma_formats();
    reveal(F64::sum);
    reveal(F64::not_a_number);
    reveal(F64::finite);
    lemma_sum_number(f, a.datum(), b.datum());
    lemma_packed_double(sum(f, a.datum(), b.datum()));
    if a.datum().is_finite(f) {
        lemma_sum_value(f, a.datum(), b.datum());
    } else {
        reveal(sum);
    }
}

/// What is not above minus infinity stays so whatever is added.
pub proof fn lemma_bottom_double(a: F64, b: F64)
    ensures
        a.not_a_number() || a == F64::minus_infinity() ==> a.plus(b).not_a_number() || a.plus(b)
            == F64::minus_infinity(),
        a.not_a_number() || a == F64::minus_infinity() || F64::minus_infinity().less(a),
        F64::minus_infinity().less(a) ==> !a.not_a_number() && a != F64::minus_infinity(),
{
    let f = double_format();
    lemma_formats();
    reveal(F64::sum);
    reveal(F64::not_a_number);
    reveal(F64::less);
    reveal(less);
    reveal(sum);
    lemma_sum_number(f, a.datum(), b.datum());
    lemma_packed_double(sum(f, a.datum(), b.datum()));
    if !a.datum().is_nan(f) {
        lemma_value_bounds(f, a.datum());
    }
}

/// The bit patterns of positive numbers are ordered as the numbers are.
pub proof fn lemma_positive_bits(a: F32, b: F32)
    requires
        F32::zero().less(a),
        F32::zero().less(b),
    ensures
        a.less(b) <==> a.to_bits() < b.to_bits(),
{
    let f = single_format();
    lemma_formats();
    reveal(F32::less);
    reveal(less);
    lemma_value_bounds(f, F32::zero().datum());
    lemma_magnitude_order(f, 0, a.datum().number);
    lemma_magnitude_order(f, 0, b.datum().number);
    lemma_magnitude_order(f, a.datum().number, b.datum().number);
    lemma_magnitude_order(f, b.datum().number, a.datum().number);
}

/// A ratio of natural numbers is not negative.
pub proof fn lemma_ratio_not_negative(n: int, d: int)
    requires
        0 <= n < 0x100_0000,
        0 < d < 0x100_0000,
    ensures
        F32::zero().at_most(F32::nearest_to(n).quotient(F32::nearest_to(d))),
{
    let f = single_format();
    lemma_formats();
    lemma_whole_single(n);
    lemma_whole_single(d);
    let a = F32::nearest_to(n).datum();
    let b = F32::nearest_to(d).datum();
    reveal(F32::finite);
    reveal(F32::quotient);
    reveal(quotient);
    reveal(F32::less);
    reveal(F32::not_a_number);
    reveal(less);
    lemma_value_bounds(f, a);
    lemma_value_bounds(f, b);
    lemma_pow2_step(f.scale as nat);
    assert(d * f.one() > 0) by (nonlinear_arith)
        requires
            d > 0,
            f.one() > 0,
    ;
    lemma_magnitude_order(f, 0, b.number);
    assert(f.magnitude(a.number) * f.one() >= 0) by (nonlinear_arith)
        requires
            f.magnitude(a.number) >= 0,
            f.one() > 0,
    ;
    lemma_nearest_exists(f, f.magnitude(a.number) * f.one(), f.magnitude(b.number));
    let q = quotient(f, a, b);
    lemma_packed_single(q);
    lemma_value_bounds(f, q);
    lemma_value_bounds(f, F32::zero().datum());
    lemma_magnitude_order(f, 0, q.number);
}

/// Natural numbers are rounded in their order.
pub proof fn lemma_nearest_to_monotone(m: int, n: int)
    requires
        0 <= m <= n,
    ensures
        F64::nearest_to(m).at_most(F64::nearest_to(n)),
        !F64::nearest_to(m).not_a_number(),
        !F64::nearest_to(n).not_a_number(),
{
    let f = double_format();
    lemma_formats();
    lemma_pow2_step(f.scale as nat);
    assert(0 <= m * f.one() <= n * f.one()) by (nonlinear_arith)
        requires
            0 <= m <= n,
            f.one() > 0,
    ;
    lemma_nearest_exists(f, m * f.one(), 1);
    lemma_nearest_exists(f, n * f.one(), 1);
    lemma_nearest_monotone(f, m * f.one(), n * f.one(), 1);
    reveal(F64::nearest_to);
    reveal(of_integer);
    reveal(F64::less);
    reveal(F64::not_a_number);
    reveal(less);
    lemma_packed_double(of_integer(f, m));
    lemma_packed_double(of_integer(f, n));
    lemma_magnitude_order(f, F64::nearest_to(m).datum().number, F64::nearest_to(n).datum().number);
    lemma_magnitude_order(f, F64::nearest_to(n).datum().number, F64::nearest_to(m).datum().number);
}

/// A finite number less itself is zero.
pub proof fn lemma_cancels_double(a: F64)
    requires
        a.finite(),
    ensures
        a.minus(a) == F64::zero(),
        a.opposite().finite(),
{
    let f = double_format();
    lemma_formats();
    reveal(F64::finite);
    reveal(F64::negated);
    reveal(F64::sum);
    reveal(sum);
    lemma_magnitude_of_parts(53, 0, 0);
    lemma_pow2_step(52);
    lemma_nearest_exists(f, 0, 1);
}

/// A share of a number lies between zero and the number.
pub proof fn lemma_share_single(a: F32, s: F32)
    requires
        a.finite(),
        F32::zero().at_most(a),
        F32::zero().at_most(s),
        s.at_most(F32::nearest_to(1)),
    ensures
        F32::zero().at_most(a.times(s)),
        a.times(s).at_most(a),
{
    let f = single_format();
    lemma_formats();
    lemma_whole_single(1);
    lemma_pow2_step(f.scale as nat);
    lemma_pow2_step(23);
    lemma_magnitude_of_parts(24, 0, 0);
    reveal(F32::product);
    reveal(product);
    reveal(F32::less);
    reveal(F32::not_a_number);
    reveal(F32::finite);
    reveal(less);
    let x = a.datum();
    let y = s.datum();
    let m = f.magnitude(x.number);
    let k = f.magnitude(y.number);
    let one = f.one();
    assert(1 * one == one);
    lemma_value_bounds(f, x);
    lemma_value_bounds(f, y);
    lemma_value_bounds(f, F32::nearest_to(1).datum());
    lemma_magnitude_order(f, 0, x.number);
    lemma_magnitude_order(f, 0, y.number);
    assert(0 <= m * k <= m * one) by (nonlinear_arith)
        requires
            m >= 0,
            0 <= k <= one,
    ;
    lemma_nearest_monotone(f, m * k, m * one, one);
    lemma_nearest_exists(f, m * k, one);
    lemma_nearest_scaled(f, m, 1, one);
    lemma_exact(f, x.number);
    let p = product(f, x, y);
    lemma_packed_single(p);
    lemma_value_bounds(f, p);
    lemma_magnitude_order(f, 0, p.number);
    lemma_magnitude_order(f, p.number, x.number);
    if m == 0 || k == 0 {
        lemma_exact(f, 0);
        lemma_nearest_scaled(f, 0, 1, one);
        assert(m * k == 0 && 0 * one == 0) by (nonlinear_arith)
            requires
                m == 0 || k == 0,
        ;
    }
}

/// What is left of one is a share, too.
pub proof fn lemma_rest_single(s: F32)
    requires
        F32::zero().at_most(s),
        s.at_most(F32::nearest_to(1)),
    ensures
        F32::zero().at_most(F32::nearest_to(1).minus(s)),
        F32::nearest_to(1).minus(s).at_most(F32::nearest_to(1)),
{
    let f = single_format();
    lemma_formats();
    lemma_whole_single(1);
    lemma_small_integer(f, 1);
    lemma_pow2_step(f.scale as nat);
    lemma_pow2_step(23);
    lemma_magnitude_of_parts(24, 0, 0);
    reveal(F32::sum);
    reveal(sum);
    reveal(F32::negated);
    reveal(F32::less);
    reveal(F32::not_a_number);
    reveal(F32::finite);
    reveal(less);
    let one = F32::nearest_to(1).datum();
    let y = s.negated().datum();
    assert(1 * f.one() == f.one());
    lemma_value_bounds(f, one);
    lemma_value_bounds(f, s.datum());
    lemma_value_bounds(f, y);
    lemma_magnitude_order(f, 0, s.datum().number);
    let left = one.value(f) + y.value(f);
    assert(0 <= left <= f.one());
    lemma_nearest_exists(f, left, 1);
    lemma_nearest_monotone(f, left, f.one(), 1);
    lemma_exact(f, one.number);
    let d = sum(f, one, y);
    lemma_packed_single(d);
    lemma_value_bounds(f, d);
    lemma_magnitude_order(f, 0, d.number);
    lemma_magnitude_order(f, d.number, one.number);
}

/// The opposite of the opposite is the number, and opposites change places.
pub proof fn lemma_opposite_single(a: F32)
    ensures
        a.negated().negated() == a,
        a.negated().not_a_number() == a.not_a_number(),
        a.at_most(F32::zero()) ==> F32::zero().at_most(a.negated()),
        F32::nearest_to(1).negated().at_most(a) ==> a.negated().at_most(F32::nearest_to(1)),
{
    let f = single_format();
    lemma_formats();
    lemma_whole_single(1);
    lemma_pow2_step(23);
    lemma_magnitude_of_parts(24, 0, 0);
    reveal(F32::negated);
    reveal(F32::less);
    reveal(F32::not_a_number);
    reveal(less);
}

/// A ratio of small natural numbers is at most `m` where the numbers say so.
pub proof fn lemma_ratio_at_most(n: int, d: int, m: int)
    requires
        0 <= n < 0x100_0000,
        0 < d < 0x100_0000,
        0 <= m < 0x100_0000,
        n <= m * d,
    ensures
        F32::nearest_to(n).quotient(F32::nearest_to(d)).at_most(F32::nearest_to(m)),
{
    let f = single_format();
    lemma_formats();
    lemma_whole_single(n);
    lemma_whole_single(d);
    lemma_whole_single(m);
    lemma_ratio_not_negative(n, d);
    lemma_pow2_step(f.scale as nat);
    reveal(F32::quotient);
    reveal(quotient);
    reveal(F32::less);
    reveal(F32::not_a_number);
    reveal(F32::finite);
    reveal(less);
    let one = f.one();
    let a = F32::nearest_to(n).datum();
    let b = F32::nearest_to(d).datum();
    let c = F32::nearest_to(m).datum();
    lemma_value_bounds(f, b);
    assert(d * one > 0 && m * one >= 0 && (n * one) * one >= 0) by (nonlinear_arith)
        requires
            d > 0,
            m >= 0,
            n >= 0,
            one > 0,
    ;
    assert((n * one) * one <= (m * one) * (d * one)) by (nonlinear_arith)
        requires
            n <= m * d,
            one > 0,
    ;
    lemma_nearest_monotone(f, (n * one) * one, (m * one) * (d * one), d * one);
    lemma_nearest_exists(f, (n * one) * one, d * one);
    lemma_nearest_scaled(f, m * one, 1, d * one);
    assert(1 * (d * one) == d * one);
    lemma_exact(f, c.number);
    let q = quotient(f, a, b);
    lemma_packed_single(q);
    lemma_magnitude_order(f, q.number, c.number);
}

/// A quotient of natural numbers is not negative, if it is a number.
pub proof fn lemma_naturals_over(n: int, d: int)
    requires
        n >= 0,
        d >= 0,
    ensures
        ({
            let q = F32::nearest_to(n).quotient(F32::nearest_to(d));
            q.not_a_number() || F32::zero().at_most(q)
        }),
{
    let f = single_format();
    lemma_formats();
    lemma_pow2_step(f.scale as nat);
    lemma_pow2_step(23);
    lemma_magnitude_of_parts(24, 0, 0);
    assert(n * f.one() >= 0 && d * f.one() >= 0) by (nonlinear_arith)
        requires
            n >= 0,
            d >= 0,
            f.one() > 0,
    ;
    lemma_nearest_exists(f, n * f.one(), 1);
    lemma_nearest_exists(f, d * f.one(), 1);
    reveal(F32::nearest_to);
    reveal(of_integer);
    reveal(F32::quotient);
    reveal(quotient);
    reveal(F32::less);
    reveal(F32::not_a_number);
    reveal(less);
    let a = F32::nearest_to(n).datum();
    let b = F32::nearest_to(d).datum();
    lemma_packed_single(of_integer(f, n));
    lemma_packed_single(of_integer(f, d));
    lemma_magnitude_order(f, 0, a.number);
    lemma_magnitude_order(f, 0, b.number);
    if a.number < f.infinity && b.number < f.infinity && b.number > 0 {
        assert(f.magnitude(a.number) * f.one() >= 0) by (nonlinear_arith)
            requires
                f.magnitude(a.number) >= 0,
                f.one() > 0,
        ;
        lemma_nearest_exists(f, f.magnitude(a.number) * f.one(), f.magnitude(b.number));
    }
    let q = quotient(f, a, b);
    lemma_packed_single(q);
    lemma_magnitude_order(f, 0, q.number);
}

/// The number before one is positive and less than one.
pub proof fn lemma_below_one()
    ensures
        F32::from_bits(0x3f7f_ffff).lt(F32::nearest_to(1)),
        F32::zero().at_most(F32::from_bits(0x3f7f_ffff)),
{
    let f = single_format();
    lemma_formats();
    lemma_whole_single(1);
    lemma_pow2_step(f.scale as nat);
    lemma_pow2_step(23);
    lemma_pow2_step(125);
    lemma_magnitude_of_parts(24, 0, 0);
    lemma_magnitude_of_parts(24, 125, 0xff_ffff);
    vstd::arithmetic::power2::lemma_pow2_adds(24, 125);
    vstd::arithmetic::power2::lemma2_to64();
    reveal(F32::less);
    reveal(F32::not_a_number);
    reveal(less);
    let number = 0x3f7f_ffffu64;
    assert(f.magnitude(number) == 0xff_ffff * pow2(125));
    assert(0xff_ffff * pow2(125) < 0x100_0000 * pow2(125)) by (nonlinear_arith)
        requires
            pow2(125) > 0,
    ;
    lemma_magnitude_order(f, 0, number);
}

/// A ratio of small natural numbers is at least `m` where the numbers say so.
pub proof fn lemma_ratio_at_least(n: int, d: int, m: int)
    requires
        0 <= n < 0x100_0000,
        0 < d < 0x100_0000,
        0 <= m < 0x100_0000,
        m * d <= n,
    ensures
        F32::nearest_to(m).at_most(F32::nearest_to(n).quotient(F32::nearest_to(d))),
{
    let f = single_format();
    lemma_formats();
    lemma_whole_single(n);
    lemma_whole_single(d);
    lemma_whole_single(m);
    lemma_ratio_not_negative(n, d);
    lemma_pow2_step(f.scale as nat);
    reveal(F32::quotient);
    reveal(quotient);
    reveal(F32::less);
    reveal(F32::not_a_number);
    reveal(F32::finite);
    reveal(less);
    let one = f.one();
    let a = F32::nearest_to(n).datum();
    let b = F32::nearest_to(d).datum();
    let c = F32::nearest_to(m).datum();
    lemma_value_bounds(f, b);
    assert(d * one > 0 && (m * one) * (d * one) >= 0 && m * one >= 0) by (nonlinear_arith)
        requires
            d > 0,
            m >= 0,
            one > 0,
    ;
    assert((m * one) * (d * one) <= (n * one) * one) by (nonlinear_arith)
        requires
            m * d <= n,
            one > 0,
    ;
    lemma_nearest_monotone(f, (m * one) * (d * one), (n * one) * one, d * one);
    lemma_nearest_exists(f, (n * one) * one, d * one);
    lemma_nearest_scaled(f, m * one, 1, d * one);
    assert(1 * (d * one) == d * one);
    lemma_exact(f, c.number);
    let q = quotient(f, a, b);
    lemma_packed_single(q);
    lemma_magnitude_order(f, c.number, q.number);
}

/// A small natural number is not negative.
pub proof fn lemma_natural_not_negative(n: int)
    requires
        0 <= n < 0x100_0000,
    ensures
        F32::zero().at_most(F32::nearest_to(n)),
{
    let f = single_format();
    lemma_formats();
    lemma_whole_single(n);
    lemma_value_bounds(f, F32::zero().datum());
    lemma_magnitude_order(f, 0, F32::nearest_to(n).datum().number);
    reveal(F32::less);
    reveal(F32::not_a_number);
    reveal(less);
}

/// The value of a number between two whole ones.
proof fn lemma_value_between(a: F32, lo: int, hi: int)
    requires
        0 <= lo < 0x100_0000,
        0 <= hi < 0x100_0000,
        F32::nearest_to(lo).at_most(a),
        a.at_most(F32::nearest_to(hi)),
    ensures
        lo * single_format().one() <= a.value() <= hi * single_format().one(),
        a.finite(),
        !a.datum().is_nan(single_format()),
{
    let f = single_format();
    lemma_formats();
    lemma_whole_single(lo);
    lemma_whole_single(hi);
    reveal(F32::less);
    reveal(F32::not_a_number);
    reveal(F32::finite);
    reveal(less);
    lemma_value_bounds(f, F32::nearest_to(hi).datum());
    lemma_value_bounds(f, F32::nearest_to(lo).datum());
    lemma_value_bounds(f, a.datum());
}

/// The value of a number between zero and a whole one.
proof fn lemma_value_from_zero(a: F32, hi: int)
    requires
        0 <= hi < 0x100_0000,
        F32::zero().at_most(a),
        a.at_most(F32::nearest_to(hi)),
    ensures
        0 <= a.value() <= hi * single_format().one(),
        a.value() == single_format().magnitude(a.datum().number),
        a.finite(),
        !a.datum().is_nan(single_format()),
{
    let f = single_format();
    lemma_formats();
    lemma_whole_single(hi);
    reveal(F32::less);
    reveal(F32::not_a_number);
    reveal(F32::finite);
    reveal(less);
    lemma_value_bounds(f, F32::nearest_to(hi).datum());
    lemma_value_bounds(f, F32::zero().datum());
    lemma_value_bounds(f, a.datum());
    lemma_magnitude_order(f, 0, a.datum().number);
}

/// The opposite of a number has the opposite value.
proof fn lemma_negated_value(a: F32)
    ensures
        a.negated().value() == -a.value(),
        a.negated().datum().number == a.datum().number,
{
    reveal(F32::negated);
}

/// A number of at least `lo` less a smaller one of at most `less_hi` is positive.
pub proof fn lemma_difference_is_positive(a: F32, b: F32, lo: int, hi: int, less_hi: int)
    requires
        F32::nearest_to(lo).at_most(a),
        a.at_most(F32::nearest_to(hi)),
        F32::zero().at_most(b),
        b.at_most(F32::nearest_to(less_hi)),
        0 <= less_hi < lo <= hi < 0x100_0000,
    ensures
        a.minus(b).finite(),
        F32::zero().less(a.minus(b)),
{
    let f = single_format();
    lemma_formats();
    lemma_pow2_step(f.scale as nat);
    lemma_value_between(a, lo, hi);
    lemma_value_from_zero(b, less_hi);
    lemma_negated_value(b);
    let n = b.negated();
    let s = a.value() - b.value();
    let one = f.one();
    assert(one <= s <= hi * one) by (nonlinear_arith)
        requires
            lo * one <= a.value() <= hi * one,
            0 <= b.value() <= less_hi * one,
            less_hi + 1 <= lo,
            one > 0,
            s == a.value() - b.value(),
    ;
    reveal(F32::finite);
    reveal(F32::sum);
    reveal(F32::less);
    reveal(less);
    reveal(sum);
    lemma_small_integer(f, 1);
    lemma_small_integer(f, hi as nat);
    assert(1 * one == one);
    lemma_nearest_monotone(f, one, s, 1);
    lemma_nearest_monotone(f, s, hi * one, 1);
    lemma_nearest_exists(f, s, 1);
    let d = sum(f, a.datum(), n.datum());
    lemma_packed_single(d);
    lemma_value_bounds(f, F32::zero().datum());
    lemma_magnitude_order(f, integer_number(f, 1), d.number);
}

/// A number less one between zero and a whole one is a number.
pub proof fn lemma_minus_number(a: F32, b: F32, hi: int)
    requires
        !a.not_a_number(),
        F32::zero().at_most(b),
        b.at_most(F32::nearest_to(hi)),
        0 <= hi < 0x100_0000,
    ensures
        !a.minus(b).not_a_number(),
{
    lemma_value_from_zero(b, hi);
    lemma_negated_value(b);
    assert(b.negated().finite()) by {
        reveal(F32::finite);
    }
    lemma_plus_finite_single(a, b.negated());
}

/// A number over a positive finite one is a number.
pub proof fn lemma_over_positive(a: F32, b: F32)
    requires
        !a.not_a_number(),
        b.finite(),
        F32::zero().less(b),
    ensures
        !a.over(b).not_a_number(),
{
    let f = single_format();
    lemma_formats();
    reveal(F32::finite);
    reveal(F32::quotient);
    reveal(F32::less);
    reveal(F32::not_a_number);
    reveal(less);
    reveal(quotient);
    lemma_pow2_step(f.scale as nat);
    lemma_value_bounds(f, F32::zero().datum());
    lemma_value_bounds(f, b.datum());
    let m = f.magnitude(a.datum().number);
    let k = f.magnitude(b.datum().number);
    lemma_magnitude_order(f, 0, b.datum().number);
    lemma_magnitude_order(f, 0, a.datum().number);
    assert(m * f.one() >= 0) by (nonlinear_arith)
        requires
            m >= 0,
            f.one() > 0,
    ;
    lemma_nearest_exists(f, m * f.one(), k);
    lemma_packed_single(quotient(f, a.datum(), b.datum()));
}

/// The order of the factors does not matter.
pub proof fn lemma_times_commutes(a: F32, b: F32)
    ensures
        a.times(b) == b.times(a),
{
    let f = single_format();
    reveal(F32::product);
    reveal(product);
    vstd::arithmetic::mul::lemma_mul_is_commutative(
        f.magnitude(a.datum().number),
        f.magnitude(b.datum().number),
    );
}

/// A number between zero and `top` over `d` lies between zero and `m`, where the
/// whole numbers say so.
pub proof fn lemma_over_whole(a: F32, d: int, top: int, m: int)
    requires
        F32::zero().at_most(a),
        a.at_most(F32::nearest_to(top)),
        0 <= top < 0x100_0000,
        0 < d < 0x100_0000,
        0 <= m < 0x100_0000,
        top <= m * d,
    ensures
        F32::zero().at_most(a.over(F32::nearest_to(d))),
        a.over(F32::nearest_to(d)).at_most(F32::nearest_to(m)),
{
    let f = single_format();
    let one = f.one();
    let b = F32::nearest_to(d).datum();
    let c = F32::nearest_to(m).datum();
    let x = a.value();
    lemma_formats();
    lemma_value_from_zero(a, top);
    lemma_whole_single(d);
    lemma_whole_single(m);
    lemma_pow2_step(f.scale as nat);
    reveal(F32::quotient);
    reveal(quotient);
    reveal(F32::less);
    reveal(F32::not_a_number);
    reveal(F32::finite);
    reveal(less);
    lemma_value_bounds(f, b);
    lemma_value_bounds(f, F32::zero().datum());
    assert(d * one > 0 && m * one >= 0 && x * one >= 0) by (nonlinear_arith)
        requires
            d > 0,
            m >= 0,
            x >= 0,
            one > 0,
    ;
    assert(x * one <= (m * one) * (d * one)) by (nonlinear_arith)
        requires
            x <= top * one,
            top <= m * d,
            one > 0,
    ;
    lemma_nearest_monotone(f, x * one, (m * one) * (d * one), d * one);
    lemma_nearest_exists(f, x * one, d * one);
    lemma_nearest_scaled(f, m * one, 1, d * one);
    assert(1 * (d * one) == d * one);
    lemma_exact(f, c.number);
    let q = quotient(f, a.datum(), b);
    lemma_packed_single(q);
    lemma_value_bounds(f, q);
    lemma_magnitude_order(f, q.number, c.number);
    lemma_magnitude_order(f, 0, q.number);
    if a.datum().negative {
        // Only zero has a sign and is not negative.
        assert(x == 0);
        lemma_exact(f, 0);
        lemma_nearest_scaled(f, 0, 1, d * one);
        assert(0 * (d * one) == 0 && x * one == 0) by (nonlinear_arith)
            requires
                x == 0,
        ;
    }
}

/// What a number between zero and a whole one leaves when its integer part is taken
/// away lies between zero and one; returns the integer part.
pub proof fn lemma_fraction_of(h: F32, hi: int) -> (i: int)
    requires
        F32::zero().at_most(h),
        h.at_most(F32::nearest_to(hi)),
        0 <= hi < 0x1_0000,
    ensures
        i == h.floor().integer_part(i32::MIN as int, i32::MAX as int),
        0 <= i <= hi,
        F32::zero().at_most(h.minus(F32::nearest_to(i))),
        h.minus(F32::nearest_to(i)).at_most(F32::nearest_to(1)),
{
    let f = single_format();
    let one = f.one();
    let v = h.value();
    lemma_formats();
    lemma_value_from_zero(h, hi);
    lemma_pow2_step(f.scale as nat);
    lemma_pow2_step(23);
    lemma_magnitude_of_parts(24, 0, 0);
    let i = v / one;
    vstd::arithmetic::div_mod::lemma_fundamental_div_mod(v, one);
    vstd::arithmetic::div_mod::lemma_mod_bound(v, one);
    assert(one * i == i * one) by (nonlinear_arith);
    assert(0 <= i <= hi) by (nonlinear_arith)
        requires
            0 <= v <= hi * one,
            v == i * one + v % one,
            0 <= v % one < one,
            one > 0,
    ;
    lemma_small_integer(f, i as nat);
    lemma_whole_single(i);
    lemma_whole_single(1);
    lemma_small_integer(f, 1);
    let down = h.floor();
    assert(down.integer_part(i32::MIN as int, i32::MAX as int) == i) by {
        reveal(F32::integral);
        reveal(integral);
        reveal(F32::integer_part);
        reveal(truncated);
        reveal(F32::finite);
        if h.datum().negative {
            assert(v == 0);
            vstd::arithmetic::div_mod::lemma_fundamental_div_mod_converse(0, one, 0, 0);
        }
        let d = integral(f, h.datum(), Direction::Down);
        lemma_packed_single(d);
        vstd::arithmetic::div_mod::lemma_fundamental_div_mod_converse(i * one, one, i, 0);
    }
    let n = F32::nearest_to(i).negated();
    lemma_negated_value(F32::nearest_to(i));
    let s = v - i * one;
    reveal(F32::sum);
    reveal(sum);
    reveal(F32::less);
    reveal(F32::not_a_number);
    reveal(F32::finite);
    reveal(less);
    assert(1 * one == one);
    lemma_nearest_monotone(f, s, one, 1);
    lemma_nearest_exists(f, s, 1);
    let d = sum(f, h.datum(), n.datum());
    lemma_packed_single(d);
    lemma_value_bounds(f, F32::zero().datum());
    lemma_value_bounds(f, d);
    lemma_magnitude_order(f, 0, d.number);
    lemma_magnitude_order(f, d.number, integer_number(f, 1));
    i
}

/// A finite number above a rounded ratio is not below the exact one, and one that is
/// not negative and below a rounded ratio is not above the exact one.
proof fn lemma_beside_ratio(a: F32, n: int, d: int)
    requires
        0 <= n < 0x100_0000,
        0 < d < 0x100_0000,
        a.finite(),
        F32::zero().at_most(a),
    ensures
        F32::nearest_to(n).quotient(F32::nearest_to(d)).less(a) ==> n * single_format().one()
            <= a.value() * d,
        a.less(F32::nearest_to(n).quotient(F32::nearest_to(d))) ==> a.value() * d <= n
            * single_format().one(),
{
    let f = single_format();
    let one = f.one();
    let v = a.value();
    lemma_formats();
    lemma_whole_single(n);
    lemma_whole_single(d);
    lemma_ratio_not_negative(n, d);
    lemma_pow2_step(f.scale as nat);
    reveal(F32::quotient);
    reveal(quotient);
    reveal(F32::less);
    reveal(F32::not_a_number);
    reveal(F32::finite);
    reveal(less);
    lemma_value_bounds(f, F32::zero().datum());
    lemma_value_bounds(f, a.datum());
    lemma_value_bounds(f, F32::nearest_to(d).datum());
    lemma_magnitude_order(f, 0, a.datum().number);
    let x = F32::nearest_to(n).datum();
    let y = F32::nearest_to(d).datum();
    let num = (n * one) * one;
    let den = d * one;
    assert(den > 0 && num >= 0 && v * den >= 0 && 1 * den == den) by (nonlinear_arith)
        requires
            d > 0,
            n >= 0,
            v >= 0,
            one > 0,
            num == (n * one) * one,
            den == d * one,
    ;
    let q = quotient(f, x, y);
    lemma_nearest_exists(f, num, den);
    lemma_packed_single(q);
    lemma_exact(f, a.datum().number);
    lemma_nearest_scaled(f, v, 1, den);
    if v * d < n * one {
        assert(v * den <= num) by (nonlinear_arith)
            requires
                v * d <= n * one,
                one > 0,
                num == (n * one) * one,
                den == d * one,
        ;
        lemma_nearest_monotone(f, v * den, num, den);
        lemma_magnitude_order(f, a.datum().number, q.number);
    } else if v * d > n * one {
        assert(num <= v * den) by (nonlinear_arith)
            requires
                v * d >= n * one,
                one > 0,
                num == (n * one) * one,
                den == d * one,
        ;
        lemma_nearest_monotone(f, num, v * den, den);
        lemma_magnitude_order(f, q.number, a.datum().number);
    }
}

/// What lies between `n` over `high` and `n` over `low` goes into `n` at least `low`
/// and at most `high` times.
pub proof fn lemma_times_into(g: F32, n: int, low: int, high: int)
    requires
        0 < n < 0x100_0000,
        0 < low <= high < 0x100_0000,
        F32::nearest_to(n).quotient(F32::nearest_to(high)).less(g),
        g.less(F32::nearest_to(n).quotient(F32::nearest_to(low))),
    ensures
        F32::nearest_to(low).at_most(F32::nearest_to(n).over(g)),
        F32::nearest_to(n).over(g).at_most(F32::nearest_to(high)),
{
    let f = single_format();
    let one = f.one();
    let v = g.value();
    lemma_formats();
    lemma_pow2_step(f.scale as nat);
    lemma_whole_single(n);
    lemma_whole_single(low);
    lemma_whole_single(high);
    lemma_ratio_not_negative(n, high);
    assert(n <= n * low) by (nonlinear_arith)
        requires
            n > 0,
            low >= 1,
    ;
    lemma_ratio_at_most(n, low, n);
    lemma_order_single(F32::zero(), F32::nearest_to(n).quotient(F32::nearest_to(high)), g);
    lemma_order_single(F32::zero(), g, g);
    lemma_order_single(g, F32::nearest_to(n).quotient(F32::nearest_to(low)), F32::nearest_to(n));
    lemma_order_single(g, F32::nearest_to(n), g);
    lemma_value_from_zero(g, n);
    lemma_beside_ratio(g, n, high);
    lemma_beside_ratio(g, n, low);
    reveal(F32::quotient);
    reveal(quotient);
    reveal(F32::less);
    reveal(F32::not_a_number);
    reveal(F32::finite);
    reveal(less);
    assert(v > 0) by (nonlinear_arith)
        requires
            n * one <= v * high,
            n > 0,
            one > 0,
            high > 0,
    ;
    let num = (n * one) * one;
    assert(num <= (high * one) * v && (low * one) * v <= num && (low * one) * v >= 0)
        by (nonlinear_arith)
        requires
            n * one <= v * high,
            v * low <= n * one,
            one > 0,
            v > 0,
            low > 0,
            num == (n * one) * one,
    ;
    assert(low * one >= 0 && high * one >= 0 && 1 * v == v) by (nonlinear_arith)
        requires
            low > 0,
            high > 0,
            one > 0,
    ;
    lemma_value_bounds(f, F32::nearest_to(high).datum());
    lemma_value_bounds(f, F32::nearest_to(low).datum());
    lemma_value_bounds(f, g.datum());
    lemma_nearest_exists(f, num, v);
    lemma_nearest_monotone(f, num, (high * one) * v, v);
    lemma_nearest_monotone(f, (low * one) * v, num, v);
    lemma_nearest_scaled(f, high * one, 1, v);
    lemma_nearest_scaled(f, low * one, 1, v);
    lemma_exact(f, F32::nearest_to(high).datum().number);
    lemma_exact(f, F32::nearest_to(low).datum().number);
    let q = quotient(f, F32::nearest_to(n).datum(), g.datum());
    lemma_packed_single(q);
    lemma_value_bounds(f, q);
    lemma_magnitude_order(f, q.number, F32::nearest_to(high).datum().number);
    lemma_magnitude_order(f, F32::nearest_to(low).datum().number, q.number);
}

/// Rounding to a whole number does not leave a range between whole numbers.
pub proof fn lemma_round_in_range(a: F32, lo: int, hi: int)
    requires
        0 < lo <= hi < 0x1_0000,
        F32::nearest_to(lo).at_most(a),
        a.at_most(F32::nearest_to(hi)),
    ensures
        F32::nearest_to(lo).at_most(a.round()),
        a.round().at_most(F32::nearest_to(hi)),
{
    let f = single_format();
    let one = f.one();
    lemma_formats();
    lemma_pow2_step(f.scale as nat);
    lemma_value_between(a, lo, hi);
    lemma_whole_single(lo);
    lemma_whole_single(hi);
    lemma_value_bounds(f, a.datum());
    assert(lo * one > 0) by (nonlinear_arith)
        requires
            lo > 0,
            one > 0,
    ;
    let m = f.magnitude(a.datum().number);
    vstd::arithmetic::div_mod::lemma_fundamental_div_mod(m, one);
    vstd::arithmetic::div_mod::lemma_mod_bound(m, one);
    let q = m / one;
    let r = m % one;
    let up = 2 * r >= one;
    let n = integer_magnitude(m, one, false, Direction::HalfAway);
    lemma_magnitude_order(f, 0, a.datum().number);
    assert(lo <= n <= hi) by (nonlinear_arith)
        requires
            lo * one <= m <= hi * one,
            m == one * q + r,
            0 <= r < one,
            up == (2 * r >= one),
            n == q + if up {
                1int
            } else {
                0
            },
    ;
    lemma_small_integer(f, n as nat);
    lemma_whole_single(n);
    assert(lo * one <= n * one <= hi * one) by (nonlinear_arith)
        requires
            lo <= n <= hi,
            one > 0,
    ;
    reveal(F32::integral);
    reveal(integral);
    reveal(F32::less);
    reveal(F32::not_a_number);
    reveal(F32::finite);
    reveal(less);
    lemma_packed_single(integral(f, a.datum(), Direction::HalfAway));
}

/// A number of at least a positive whole one, and at most another, is positive and
/// finite.
pub proof fn lemma_positive_and_finite(a: F32, lo: int, hi: int)
    requires
        0 < lo <= hi < 0x100_0000,
        F32::nearest_to(lo).at_most(a),
        a.at_most(F32::nearest_to(hi)),
    ensures
        a.finite(),
        !a.at_most(F32::zero()),
{
    let f = single_format();
    lemma_formats();
    lemma_pow2_step(f.scale as nat);
    lemma_value_between(a, lo, hi);
    lemma_value_bounds(f, F32::zero().datum());
    assert(lo * f.one() > 0) by (nonlinear_arith)
        requires
            lo > 0,
            f.one() > 0,
    ;
    reveal(F32::less);
    reveal(F32::not_a_number);
    reveal(less);
}

/// A ratio of positive numbers is positive.
pub proof fn lemma_ratio_is_positive(n: int, d: int)
    requires
        0 < n < 0x100_0000,
        0 < d < 0x100_0000,
    ensures
        F32::zero().less(F32::nearest_to(n).quotient(F32::nearest_to(d))),
{
    let f = single_format();
    let one = f.one();
    lemma_formats();
    lemma_whole_single(n);
    lemma_whole_single(d);
    lemma_ratio_not_negative(n, d);
    vstd::arithmetic::power2::lemma2_to64();
    vstd::arithmetic::power2::lemma_pow2_strictly_increases(24, f.scale as nat);
    lemma_pow2_step(23);
    reveal(F32::quotient);
    reveal(quotient);
    reveal(F32::less);
    reveal(F32::not_a_number);
    reveal(F32::finite);
    reveal(less);
    let num = (n * one) * one;
    let den = d * one;
    assert(den > 0 && num >= den && 1 * den == den) by (nonlinear_arith)
        requires
            0 < d < 0x100_0000,
            n >= 1,
            one >= 0x100_0000,
            num == (n * one) * one,
            den == d * one,
    ;
    lemma_value_bounds(f, F32::nearest_to(d).datum());
    lemma_value_bounds(f, F32::zero().datum());
    lemma_nearest_exists(f, num, den);
    lemma_nearest_monotone(f, den, num, den);
    lemma_nearest_scaled(f, 1, 1, den);
    lemma_magnitude_of_parts(24, 0, 1);
    lemma_exact(f, 1);
    let q = quotient(f, F32::nearest_to(n).datum(), F32::nearest_to(d).datum());
    lemma_packed_single(q);
    lemma_magnitude_order(f, 1, q.number);
}

} // verus!

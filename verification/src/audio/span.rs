//! Lengths of time in whole nanoseconds.
use vstd::prelude::*;
use vstd::arithmetic::power2::pow2;
use crate::float::double::{double_format, F64};
use crate::float::exact::{lemma_formats, lemma_whole_double};
use crate::float::rounding::{
    binade, first_normal, lemma_parts_of_number, lemma_pow2_step, magnitude, significand,
};
use crate::float::single::F32;

verus! {

/// A length of time: whole seconds, and nanoseconds beside them.
#[derive(Clone, Copy, Debug, PartialEq, Eq, Structural)]
pub struct TimeSpan {
    pub secs: u64,
    pub nanos: u32,
}

/// The whole number nearest to `num / den`, the even one of two as near.
pub open spec fn nearest_whole(num: int, den: int) -> int {
    let q = num / den;
    let r = num % den;
    if 2 * r < den || (2 * r == den && q % 2 == 0) {
        q
    } else {
        q + 1
    }
}

/// The nanoseconds nearest to a number of seconds.
pub open spec fn nanos_of(seconds: F64) -> int {
    nearest_whole(seconds.value() * 1_000_000_000, double_format().one())
}

/// The seconds are a length of time: not negative, and below `2^64`.
pub open spec fn spannable(seconds: F64) -> bool {
    &&& seconds.finite()
    &&& 0 <= seconds.value() < 0x1_0000_0000_0000_0000 * double_format().one()
}

/// The length of time nearest to a number of seconds, if they are one.
pub open spec fn span_of(seconds: F64) -> Option<TimeSpan> {
    if spannable(seconds) {
        Some(
            TimeSpan {
                secs: (nanos_of(seconds) / 1_000_000_000) as u64,
                nanos: (nanos_of(seconds) % 1_000_000_000) as u32,
            },
        )
    } else {
        None
    }
}

impl TimeSpan {
    /// The length in nanoseconds.
    pub open spec fn total(self) -> int {
        self.secs * 1_000_000_000 + self.nanos
    }

    /// No time.
    #[verifier::allow_in_spec]
    pub fn zero() -> TimeSpan
        returns
            (TimeSpan { secs: 0, nanos: 0 }),
    {
        TimeSpan { secs: 0, nanos: 0 }
    }

    /// Whether this is longer than `other`.
    pub fn longer_than(self, other: TimeSpan) -> (r: bool)
        ensures
            r == (self.total() > other.total()),
    {
        let a: u128 = self.secs as u128 * 1_000_000_000u128 + self.nanos as u128;
        let b: u128 = other.secs as u128 * 1_000_000_000u128 + other.nanos as u128;
        a > b
    }

    /// How much longer this is than `earlier`; no time where it is not longer.
    pub fn since(self, earlier: TimeSpan) -> (r: TimeSpan)
        ensures
            r == self.gap(earlier),
    {
        let a: u128 = self.secs as u128 * 1_000_000_000u128 + self.nanos as u128;
        let b: u128 = earlier.secs as u128 * 1_000_000_000u128 + earlier.nanos as u128;
        let gap: u128 = if a > b {
            a - b
        } else {
            0
        };
        TimeSpan { secs: (gap / 1_000_000_000) as u64, nanos: (gap % 1_000_000_000) as u32 }
    }

    /// How much longer this is than `earlier`; no time where it is not longer.
    pub open spec fn gap(self, earlier: TimeSpan) -> TimeSpan {
        let gap = if self.total() > earlier.total() {
            self.total() - earlier.total()
        } else {
            0
        };
        TimeSpan { secs: (gap / 1_000_000_000) as u64, nanos: (gap % 1_000_000_000) as u32 }
    }

    /// The length in seconds, in double precision.
    #[verifier::allow_in_spec]
    pub fn as_secs_double(self) -> F64
        returns
            F64::nearest_to(self.secs as int).plus(
                F64::nearest_to(self.nanos as int).over(F64::nearest_to(1_000_000_000)),
            ),
    {
        F64::of_u64(self.secs).plus(
            F64::of_u64(self.nanos as u64).over(F64::of_u64(1_000_000_000)),
        )
    }

    /// The length in seconds, in single precision.
    #[verifier::allow_in_spec]
    pub fn as_secs_single(self) -> F32
        returns
            F32::nearest_to(self.secs as int).plus(
                F32::nearest_to(self.nanos as int).over(F32::nearest_to(1_000_000_000)),
            ),
    {
        F32::of_u64(self.secs).plus(
            F32::of_u64(self.nanos as u64).over(F32::of_u64(1_000_000_000)),
        )
    }

    /// The length nearest to a number of seconds, if they are one.
    pub fn from_secs(seconds: F64) -> (r: Option<TimeSpan>)
        ensures
            r == span_of(seconds),
            r matches Some(t) ==> t.total() == nanos_of(seconds) && t.nanos < 1_000_000_000,
    {
        let ghost f = double_format();
        proof {
            lemma_formats();
            lemma_pow2_step(1074);
            reveal(F64::finite);
        }
        let sign: bool = seconds.bits >= 0x8000_0000_0000_0000;
        let number: u64 = if sign {
            seconds.bits - 0x8000_0000_0000_0000
        } else {
            seconds.bits
        };
        if number >= 0x7ff0_0000_0000_0000 {
            return None;
        }
        proof {
            lemma_parts_of_number(53, number as nat);
        }
        if sign && number > 0 {
            proof {
                assert(magnitude(53, number as nat) > 0) by {
                    crate::float::rounding::lemma_magnitude_increases(53, 0, number as nat);
                }
            }
            return None;
        }
        let h: u64 = 0x10_0000_0000_0000;
        let (q, sig): (u64, u64) = if number < 2 * h {
            (0, number)
        } else {
            (number / h - 1, h + number % h)
        };
        proof {
            assert(first_normal(53) == h);
            assert(q == binade(53, number as nat) && sig == significand(53, number as nat));
            assert(seconds.value() == sig * pow2(q as nat));
        }
        if q >= 1074 {
            proof {
                lemma_whole_seconds(sig as int, (q - 1074) as nat);
            }
            if q - 1074 > 11 {
                return None;
            }
            let mut secs: u64 = sig;
            let mut k: u64 = 1074;
            proof {
                assert(sig * 1 == sig);
            }
            while k < q
                invariant
                    1074 <= k <= q <= 1085,
                    secs == sig * pow2((k - 1074) as nat),
                    sig < 0x20_0000_0000_0000,
                decreases q - k,
            {
                proof {
                    lemma_pow2_step((k - 1074) as nat);
                    lemma_small_power((k - 1074) as nat);
                    assert(sig * pow2((k - 1074) as nat) * 2 == sig * pow2((k - 1073) as nat))
                        by (nonlinear_arith)
                        requires
                            pow2((k - 1073) as nat) == 2 * pow2((k - 1074) as nat),
                    ;
                    assert(sig * pow2((k - 1074) as nat) <= 0x1f_ffff_ffff_ffff * 1024)
                        by (nonlinear_arith)
                        requires
                            sig <= 0x1f_ffff_ffff_ffff,
                            pow2((k - 1074) as nat) <= 1024,
                    ;
                }
                secs = secs * 2;
                k = k + 1;
            }
            assert(nanos_of(seconds) == secs * 1_000_000_000);
            return Some(TimeSpan { secs, nanos: 0 });
        }
        let shift: u64 = 1074 - q;
        proof {
            lemma_fraction(sig as int, q as nat, shift as nat);
        }
        let scaled: u128 = sig as u128 * 1_000_000_000u128;
        let total: u128 = if shift >= 100 {
            proof {
                lemma_far_shift(scaled as int, shift as nat);
            }
            0
        } else {
            let mut den: u128 = 1;
            let mut s: u64 = 0;
            while s < shift
                invariant
                    s <= shift < 100,
                    den == pow2(s as nat),
                    den <= 0x10_0000_0000_0000_0000_0000_0000,
                    s < 100,
                decreases shift - s,
            {
                proof {
                    lemma_pow2_step(s as nat);
                    lemma_power_bound(s as nat + 1, 100);
                }
                den = den * 2;
                s = s + 1;
            }
            proof {
                lemma_pow2_step(shift as nat);
            }
            let whole: u128 = scaled / den;
            let rest: u128 = scaled % den;
            if 2 * rest < den || (2 * rest == den && whole % 2 == 0) {
                whole
            } else {
                whole + 1
            }
        };
        proof {
            assert(total == nanos_of(seconds));
            lemma_total_bound(scaled as int, shift as nat, total as int);
        }
        let per_sec: u128 = 1_000_000_000u128;
        Some(TimeSpan { secs: (total / per_sec) as u64, nanos: (total % per_sec) as u32 })
    }
}

/// No seconds are no time.
pub proof fn lemma_no_seconds()
    ensures
        span_of(F64::zero()) == Some(TimeSpan::zero()),
{
    lemma_formats();
    lemma_pow2_step(1074);
    lemma_parts_of_number(53, 0);
    lemma_pow2_step(52);
    reveal(F64::finite);
    let one = double_format().one();
    assert(0x1_0000_0000_0000_0000 * one > 0) by (nonlinear_arith)
        requires
            one > 0,
    ;
    vstd::arithmetic::div_mod::lemma_fundamental_div_mod_converse(0, one, 0, 0);
}

/// A whole number of seconds below `2^53` is that length of time.
pub proof fn lemma_whole_span(second: u64)
    requires
        second < 0x20_0000_0000_0000,
    ensures
        span_of(F64::nearest_to(second as int)) == Some(TimeSpan { secs: second, nanos: 0 }),
{
    let one = double_format().one();
    let n = second * 1_000_000_000;
    lemma_formats();
    lemma_pow2_step(1074);
    lemma_whole_double(second as int);
    assert(0 <= second * one < 0x1_0000_0000_0000_0000 * one && (second * one) * 1_000_000_000 == n
        * one) by (nonlinear_arith)
        requires
            one > 0,
            0 <= second < 0x20_0000_0000_0000,
            n == second * 1_000_000_000,
    ;
    vstd::arithmetic::div_mod::lemma_fundamental_div_mod_converse(n * one, one, n, 0);
}

/// The nearest whole number is half of one away at most.
pub proof fn lemma_nearest_whole(num: int, den: int)
    requires
        den > 0,
    ensures
        -den <= 2 * (nearest_whole(num, den) * den - num) <= den,
{
    let q = num / den;
    vstd::arithmetic::div_mod::lemma_fundamental_div_mod(num, den);
    vstd::arithmetic::div_mod::lemma_mod_bound(num, den);
    assert((q + 1) * den == den * q + den && q * den == den * q) by (nonlinear_arith);
}

/// The length of time nearest to a number of seconds is as many nanoseconds as
/// are nearest to them.
pub proof fn lemma_span_total(seconds: F64)
    requires
        spannable(seconds),
    ensures
        span_of(seconds) matches Some(t) && t.total() == nanos_of(seconds),
{
    let f = double_format();
    let one = f.one();
    let g = seconds.value();
    lemma_formats();
    lemma_pow2_step(1074);
    lemma_pow2_step(52);
    reveal(F64::finite);
    let number = seconds.datum().number as nat;
    lemma_parts_of_number(53, number);
    let q = binade(53, number);
    let s = significand(53, number) as int;
    let top = 0x1_0000_0000_0000_0000int;
    // A number this large is whole, and so a whole second below the bound.
    assert(g <= (top - 1) * one) by {
        if q >= 1074 {
            let k = (q - 1074) as nat;
            vstd::arithmetic::power2::lemma_pow2_adds(1074, k);
            let n = s * pow2(k);
            assert(s * (one * pow2(k)) == n * one) by (nonlinear_arith)
                requires
                    n == s * pow2(k),
            ;
            if g > 0 {
                assert(n < top) by (nonlinear_arith)
                    requires
                        n * one < top * one,
                        one > 0,
                ;
                assert(n * one <= (top - 1) * one) by (nonlinear_arith)
                    requires
                        n <= top - 1,
                        one > 0,
                ;
            } else {
                assert((top - 1) * one >= 0) by (nonlinear_arith)
                    requires
                        one > 0,
                        top > 1,
                ;
            }
        } else {
            vstd::arithmetic::power2::lemma_pow2_strictly_increases(q, 1074);
            assert(s * pow2(q) <= (top - 1) * one) by (nonlinear_arith)
                requires
                    0 <= s < 0x20_0000_0000_0000,
                    0 < pow2(q) < one,
                    top == 0x1_0000_0000_0000_0000,
            ;
        }
    }
    let n = nanos_of(seconds);
    lemma_nearest_whole(g * 1_000_000_000, one);
    let bound = (top - 1) * 1_000_000_000;
    assert(g * 1_000_000_000 <= bound * one) by (nonlinear_arith)
        requires
            g <= (top - 1) * one,
            bound == (top - 1) * 1_000_000_000,
    ;
    assert(n <= bound) by (nonlinear_arith)
        requires
            2 * (n * one - g * 1_000_000_000) <= one,
            g * 1_000_000_000 <= bound * one,
            one > 0,
    ;
    assert(n >= 0) by (nonlinear_arith)
        requires
            -one <= 2 * (n * one - g * 1_000_000_000),
            g >= 0,
            one > 0,
    ;
}

proof fn lemma_power_bound(k: nat, n: nat)
    requires
        k <= n,
        n == 100,
    ensures
        pow2(k) <= 0x10_0000_0000_0000_0000_0000_0000,
{
    vstd::arithmetic::power2::lemma2_to64();
    vstd::arithmetic::power2::lemma2_to64_rest();
    vstd::arithmetic::power2::lemma_pow2_adds(50, 50);
    if k < n {
        vstd::arithmetic::power2::lemma_pow2_strictly_increases(k, n);
    }
}

proof fn lemma_small_power(k: nat)
    requires
        k <= 10,
    ensures
        pow2(k) <= 1024,
{
    vstd::arithmetic::power2::lemma2_to64();
    if k < 10 {
        vstd::arithmetic::power2::lemma_pow2_strictly_increases(k, 10);
    }
}

/// Whole seconds come out whole.
proof fn lemma_whole_seconds(sig: int, k: nat)
    requires
        0 <= sig < 0x20_0000_0000_0000,
    ensures
        pow2(1074 + k) == pow2(1074) * pow2(k),
        nearest_whole(sig * pow2(1074 + k) * 1_000_000_000, pow2(1074) as int) == sig * pow2(k)
            * 1_000_000_000,
        sig * pow2(1074 + k) >= 0,
        k <= 11 ==> sig * pow2(1074 + k) < 0x1_0000_0000_0000_0000 * pow2(1074),
        k > 11 && sig >= 0x10_0000_0000_0000 ==> sig * pow2(1074 + k) >= 0x1_0000_0000_0000_0000
            * pow2(1074),
{
    let one = pow2(1074) as int;
    let n = sig * pow2(k) * 1_000_000_000;
    vstd::arithmetic::power2::lemma_pow2_adds(1074, k);
    lemma_pow2_step(1074);
    lemma_pow2_step(k);
    assert(sig * (one * pow2(k)) * 1_000_000_000 == n * one) by (nonlinear_arith)
        requires
            n == sig * pow2(k) * 1_000_000_000,
    ;
    vstd::arithmetic::div_mod::lemma_fundamental_div_mod_converse(n * one, one, n, 0);
    assert(sig * (one * pow2(k)) >= 0) by (nonlinear_arith)
        requires
            sig >= 0,
            one > 0,
            pow2(k) > 0,
    ;
    vstd::arithmetic::power2::lemma2_to64();
    if k <= 11 {
        if k < 11 {
            vstd::arithmetic::power2::lemma_pow2_strictly_increases(k, 11);
        }
        assert(sig * (one * pow2(k)) < 0x1_0000_0000_0000_0000 * one) by (nonlinear_arith)
            requires
                0 <= sig < 0x20_0000_0000_0000,
                0 < pow2(k) <= 2048,
                one > 0,
        ;
    } else {
        if k > 12 {
            vstd::arithmetic::power2::lemma_pow2_strictly_increases(12, k);
        }
        if sig >= 0x10_0000_0000_0000 {
            assert(sig * (one * pow2(k)) >= 0x1_0000_0000_0000_0000 * one) by (nonlinear_arith)
                requires
                    sig >= 0x10_0000_0000_0000,
                    pow2(k) >= 4096,
                    one > 0,
            ;
        }
    }
}

/// Scaling numerator and denominator alike changes nothing.
proof fn lemma_fraction(sig: int, q: nat, shift: nat)
    requires
        0 <= sig < 0x20_0000_0000_0000,
        q + shift == 1074,
        shift >= 1,
    ensures
        nearest_whole(sig * pow2(q) * 1_000_000_000, pow2(1074) as int) == nearest_whole(
            sig * 1_000_000_000,
            pow2(shift) as int,
        ),
        0 <= sig * pow2(q) < 0x1_0000_0000_0000_0000 * pow2(1074),
{
    let c = pow2(q) as int;
    let d = pow2(shift) as int;
    let n = sig * 1_000_000_000;
    vstd::arithmetic::power2::lemma_pow2_adds(q, shift);
    lemma_pow2_step(q);
    lemma_pow2_step(shift);
    assert(sig * c * 1_000_000_000 == n * c) by (nonlinear_arith)
        requires
            n == sig * 1_000_000_000,
    ;
    let w = n / d;
    let r = n % d;
    vstd::arithmetic::div_mod::lemma_fundamental_div_mod(n, d);
    vstd::arithmetic::div_mod::lemma_mod_bound(n, d);
    assert(n * c == w * (d * c) + r * c && 0 <= r * c < d * c) by (nonlinear_arith)
        requires
            n == d * w + r,
            0 <= r < d,
            c > 0,
    ;
    vstd::arithmetic::div_mod::lemma_fundamental_div_mod_converse(n * c, d * c, w, r * c);
    assert(d * c == c * d) by (nonlinear_arith);
    assert(2 * (r * c) < d * c <==> 2 * r < d) by (nonlinear_arith)
        requires
            c > 0,
    ;
    assert(2 * (r * c) == d * c <==> 2 * r == d) by (nonlinear_arith)
        requires
            c > 0,
    ;
    assert(0 <= sig * c < 0x1_0000_0000_0000_0000 * (c * d)) by (nonlinear_arith)
        requires
            0 <= sig < 0x20_0000_0000_0000,
            c > 0,
            d >= 1,
    ;
}

/// What is shifted out entirely rounds to nothing.
proof fn lemma_far_shift(scaled: int, shift: nat)
    requires
        0 <= scaled < 0x20_0000_0000_0000 * 1_000_000_000,
        shift >= 100,
    ensures
        nearest_whole(scaled, pow2(shift) as int) == 0,
{
    vstd::arithmetic::power2::lemma2_to64();
    vstd::arithmetic::power2::lemma2_to64_rest();
    vstd::arithmetic::power2::lemma_pow2_adds(50, 50);
    if shift > 100 {
        vstd::arithmetic::power2::lemma_pow2_strictly_increases(100, shift);
    }
    vstd::arithmetic::div_mod::lemma_fundamental_div_mod_converse(
        scaled,
        pow2(shift) as int,
        0,
        scaled,
    );
}

proof fn lemma_total_bound(scaled: int, shift: nat, total: int)
    requires
        0 <= scaled < 0x20_0000_0000_0000 * 1_000_000_000,
        shift >= 1,
        total == nearest_whole(scaled, pow2(shift) as int),
    ensures
        0 <= total <= scaled + 1,
{
    lemma_pow2_step(shift);
    let d = pow2(shift) as int;
    assert(0 <= scaled / d <= scaled) by (nonlinear_arith)
        requires
            scaled >= 0,
            d >= 1,
    ;
}

} // verus!

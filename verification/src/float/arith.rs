//! Arithmetic on the numbers of a binary floating-point format: every
//! operation returns the number nearest to the exact result.
use vstd::prelude::*;
use vstd::arithmetic::power2::pow2;
use super::rounding::{
    binade, first_normal, lemma_magnitude_increases, lemma_magnitude_of_parts,
    lemma_parts_of_number, lemma_pow2_step, lemma_round_to_nearest, magnitude, nearest,
    round_to_nearest, significand,
};
use super::scaled::{bit_length, encloses, lemma_shift_left, pow2_down, pow2_up, round_scaled};

verus! {

/// A binary format.
#[derive(Clone, Copy)]
pub struct Format {
    /// Significant binary digits.
    pub precision: u32,
    /// The first normal number, `2^(precision - 1)`.
    pub first: u64,
    /// The number that stands for infinity; those beyond it are not numbers.
    pub infinity: u64,
    /// The smallest positive number is `2^-scale`.
    pub scale: u32,
}

impl Format {
    pub open spec fn wf(self) -> bool {
        &&& 2 <= self.precision <= 53
        &&& self.first == first_normal(self.precision as nat)
        &&& 2 * self.first <= self.infinity <= 2047 * self.first
        &&& self.infinity <= (2 * self.scale) * self.first
        &&& 0 < self.scale <= 1074
    }

    /// How many of the smallest positive number make up one.
    pub open spec fn one(self) -> int {
        pow2(self.scale as nat) as int
    }

    pub open spec fn magnitude(self, k: u64) -> int {
        magnitude(self.precision as nat, k as nat) as int
    }

    /// The number nearest to `num / den`.
    pub open spec fn nearest(self, num: int, den: int) -> u64 {
        round_to_nearest(self.precision as nat, self.infinity as nat, num, den) as u64
    }
}

/// A sign and a number.
#[derive(Clone, Copy)]
pub struct Datum {
    pub negative: bool,
    pub number: u64,
}

impl Datum {
    pub open spec fn is_nan(self, f: Format) -> bool {
        self.number > f.infinity
    }

    pub open spec fn is_infinite(self, f: Format) -> bool {
        self.number == f.infinity
    }

    pub open spec fn is_finite(self, f: Format) -> bool {
        self.number < f.infinity
    }

    /// The value in units of the smallest positive number; an infinity lies
    /// beyond every finite value.
    pub open spec fn value(self, f: Format) -> int {
        if self.negative {
            -f.magnitude(self.number)
        } else {
            f.magnitude(self.number)
        }
    }
}

/// The not-a-number that operations return.
pub open spec fn quiet_nan(f: Format) -> Datum {
    Datum { negative: false, number: (f.infinity + f.first / 2) as u64 }
}

pub open spec fn abs(x: int) -> int {
    if x < 0 {
        -x
    } else {
        x
    }
}

#[verifier::opaque]
pub open spec fn sum(f: Format, a: Datum, b: Datum) -> Datum {
    if a.is_nan(f) || b.is_nan(f) {
        quiet_nan(f)
    } else if a.is_infinite(f) && b.is_infinite(f) && a.negative != b.negative {
        quiet_nan(f)
    } else if a.is_infinite(f) {
        a
    } else if b.is_infinite(f) {
        b
    } else {
        let s = a.value(f) + b.value(f);
        if s == 0 {
            Datum { negative: a.negative && b.negative, number: 0 }
        } else {
            Datum { negative: s < 0, number: f.nearest(abs(s), 1) }
        }
    }
}

#[verifier::opaque]
pub open spec fn product(f: Format, a: Datum, b: Datum) -> Datum {
    let negative = a.negative != b.negative;
    if a.is_nan(f) || b.is_nan(f) {
        quiet_nan(f)
    } else if a.is_infinite(f) || b.is_infinite(f) {
        if a.number == 0 || b.number == 0 {
            quiet_nan(f)
        } else {
            Datum { negative, number: f.infinity }
        }
    } else {
        Datum {
            negative,
            number: f.nearest(f.magnitude(a.number) * f.magnitude(b.number), f.one()),
        }
    }
}

#[verifier::opaque]
pub open spec fn quotient(f: Format, a: Datum, b: Datum) -> Datum {
    let negative = a.negative != b.negative;
    if a.is_nan(f) || b.is_nan(f) {
        quiet_nan(f)
    } else if a.is_infinite(f) {
        if b.is_infinite(f) {
            quiet_nan(f)
        } else {
            Datum { negative, number: f.infinity }
        }
    } else if b.is_infinite(f) {
        Datum { negative, number: 0 }
    } else if b.number == 0 {
        if a.number == 0 {
            quiet_nan(f)
        } else {
            Datum { negative, number: f.infinity }
        }
    } else {
        Datum {
            negative,
            number: f.nearest(f.magnitude(a.number) * f.one(), f.magnitude(b.number)),
        }
    }
}

/// Whether `a` is less than `b`; never true of something that is not a number.
#[verifier::opaque]
pub open spec fn less(f: Format, a: Datum, b: Datum) -> bool {
    !a.is_nan(f) && !b.is_nan(f) && a.value(f) < b.value(f)
}

/// The integer `n`, rounded.
#[verifier::opaque]
pub open spec fn of_integer(f: Format, n: int) -> Datum {
    Datum { negative: n < 0, number: f.nearest(abs(n) * f.one(), 1) }
}

/// The number of format `g` nearest to a number of format `f`.
#[verifier::opaque]
pub open spec fn converted(f: Format, g: Format, a: Datum) -> Datum {
    if a.is_nan(f) {
        quiet_nan(g)
    } else if a.is_infinite(f) {
        Datum { negative: a.negative, number: g.infinity }
    } else {
        Datum {
            negative: a.negative,
            number: g.nearest(f.magnitude(a.number) * g.one(), f.one()),
        }
    }
}

/// How a fraction is brought to an integer.
#[derive(Clone, Copy, PartialEq, Eq, Structural)]
pub enum Direction {
    /// Towards minus infinity.
    Down,
    /// Towards plus infinity.
    Up,
    /// To the closest integer, a half away from zero.
    HalfAway,
}

/// The absolute value of the integer that `direction` picks for the fraction
/// `mag / one` with the given sign.
pub open spec fn integer_magnitude(mag: int, one: int, negative: bool, direction: Direction) -> int {
    let away = match direction {
        Direction::Down => negative && mag % one != 0,
        Direction::Up => !negative && mag % one != 0,
        Direction::HalfAway => 2 * (mag % one) >= one,
    };
    mag / one + if away {
        1int
    } else {
        0
    }
}

/// The integer in the given direction, keeping the sign.
#[verifier::opaque]
pub open spec fn integral(f: Format, a: Datum, direction: Direction) -> Datum {
    if a.is_nan(f) {
        quiet_nan(f)
    } else if a.is_infinite(f) {
        a
    } else {
        let n = integer_magnitude(f.magnitude(a.number), f.one(), a.negative, direction);
        Datum { negative: a.negative, number: f.nearest(n * f.one(), 1) }
    }
}

/// The integer part, brought into the given range.
#[verifier::opaque]
pub open spec fn truncated(f: Format, a: Datum, lo: int, hi: int) -> int {
    if a.is_nan(f) {
        0
    } else {
        let n = f.magnitude(a.number) / f.one();
        let s = if a.is_infinite(f) {
            if a.negative {
                lo
            } else {
                hi
            }
        } else if a.negative {
            -n
        } else {
            n
        };
        if s < lo {
            lo
        } else if s > hi {
            hi
        } else {
            s
        }
    }
}

pub fn nan_of(f: Format) -> (r: Datum)
    requires
        f.wf(),
    ensures
        r == quiet_nan(f),
        r.number <= f.infinity + f.first / 2,
{
    proof {
        lemma_first_bounds(f);
    }
    Datum { negative: false, number: f.infinity + f.first / 2 }
}

proof fn lemma_first_bounds(f: Format)
    requires
        f.wf(),
    ensures
        2 <= f.first <= 0x10_0000_0000_0000,
        f.infinity + f.first / 2 <= u64::MAX,
{
    lemma_pow2_step((f.precision - 2) as nat);
    vstd::arithmetic::power2::lemma2_to64();
    vstd::arithmetic::power2::lemma2_to64_rest();
    if f.precision < 53 {
        vstd::arithmetic::power2::lemma_pow2_strictly_increases((f.precision - 1) as nat, 52);
    }
}

/// Splits a finite number into binade and significand.
fn parts(f: Format, k: u64) -> (r: (u32, u64))
    requires
        f.wf(),
        k < f.infinity,
    ensures
        r.0 <= 2046,
        r.0 < 2 * f.scale,
        r.0 == binade(f.precision as nat, k as nat),
        r.1 == significand(f.precision as nat, k as nat),
        r.1 < 2 * f.first,
        r.1 < 0x20_0000_0000_0000,
        r.0 == 0 || r.1 >= f.first,
        r.1 * pow2(r.0 as nat) == f.magnitude(k),
        r.1 == 0 <==> f.magnitude(k) == 0,
        r.1 == 0 <==> k == 0,
{
    proof {
        lemma_first_bounds(f);
        lemma_parts_of_number(f.precision as nat, k as nat);
        vstd::bits::lemma_u64_shr_is_div(k, (f.precision - 1) as u64);
        assert(k as int / f.first as int <= 2046) by (nonlinear_arith)
            requires
                k < 2047 * f.first,
                f.first > 0,
        ;
        assert(k as int / f.first as int <= 2 * f.scale) by (nonlinear_arith)
            requires
                k < (2 * f.scale) * f.first,
                f.first > 0,
        ;
        let q = binade(f.precision as nat, k as nat);
        let s = significand(f.precision as nat, k as nat);
        assert(s * pow2(q) == 0 <==> s == 0) by (nonlinear_arith)
            requires
                pow2(q) >= 1,
        ;
        if k >= 2 * f.first {
            assert(k as int / f.first as int >= 2) by (nonlinear_arith)
                requires
                    k >= 2 * f.first,
                    f.first > 0,
            ;
        }
    }
    if k < 2 * f.first {
        (0, k)
    } else {
        let q: u64 = (k >> (f.precision - 1)) - 1;
        proof {
            assert(q * f.first >= 0) by (nonlinear_arith);
        }
        (q as u32, k - q * f.first)
    }
}

/// Rounds `m * 2^e`, or what lies just beyond it if `sticky`.
fn rounded(f: Format, m: u128, e: i32, sticky: bool) -> (k: u64)
    requires
        f.wf(),
        m < 0x8000_0000_0000_0000_0000_0000_0000_0000,
        -3100 <= e <= 3100,
        sticky ==> m >= pow2((f.precision + 1) as nat),
    ensures
        k <= f.infinity,
        forall|num: int, den: int| #[trigger]
            encloses(m as nat, e as int, sticky, num, den) ==> k == f.nearest(num, den),
{
    let k = round_scaled(f.precision, f.first, f.infinity, m, e, sticky);
    proof {
        assert forall|num: int, den: int| #[trigger]
            encloses(m as nat, e as int, sticky, num, den) implies k == f.nearest(num, den) by {}
    }
    k
}

/// Adds two numbers.
pub fn add_data(f: Format, a: Datum, b: Datum) -> (r: Datum)
    requires
        f.wf(),
    ensures
        r == sum(f, a, b),
        r.number <= f.infinity + f.first / 2,
{
    proof {
        reveal(sum);
    }
    if a.number > f.infinity || b.number > f.infinity {
        return nan_of(f);
    }
    if a.number == f.infinity {
        if b.number == f.infinity && a.negative != b.negative {
            return nan_of(f);
        }
        return a;
    }
    if b.number == f.infinity {
        return b;
    }
    let (qa, sa): (u32, u64) = parts(f, a.number);
    let (qb, sb): (u32, u64) = parts(f, b.number);
    if qa >= qb {
        add_aligned(f, a, b, qa, sa, qb, sb)
    } else {
        add_aligned(f, b, a, qb, sb, qa, sa)
    }
}

/// Adds two finite numbers, the first of the higher binade.
fn add_aligned(f: Format, a: Datum, b: Datum, qa: u32, sa: u64, qb: u32, sb: u64) -> (r: Datum)
    requires
        f.wf(),
        a.is_finite(f),
        b.is_finite(f),
        qb <= qa <= 2046,
        sa < 0x20_0000_0000_0000,
        sb < 0x20_0000_0000_0000,
        qa == 0 || sa >= f.first,
        sa * pow2(qa as nat) == f.magnitude(a.number),
        sb * pow2(qb as nat) == f.magnitude(b.number),
    ensures
        ({
            let s = a.value(f) + b.value(f);
            if s == 0 {
                r == (Datum { negative: a.negative && b.negative, number: 0 })
            } else {
                r == (Datum { negative: s < 0, number: f.nearest(abs(s), 1) })
            }
        }),
        r.number <= f.infinity,
{
    let ghost s = a.value(f) + b.value(f);
    let d: u32 = qa - qb;
    if d <= 70 {
        proof {
            lemma_shift_fits(sa as nat, d as nat);
            lemma_shift_left(sa as u128, d as u128);
        }
        let high: u128 = (sa as u128) << d;
        let low: u128 = sb as u128;
        proof {
            vstd::arithmetic::power2::lemma_pow2_adds(d as nat, qb as nat);
            lemma_pow2_step(qb as nat);
            assert(high * pow2(qb as nat) == f.magnitude(a.number)) by (nonlinear_arith)
                requires
                    high == sa * pow2(d as nat),
                    pow2(qa as nat) == pow2(d as nat) * pow2(qb as nat),
                    sa * pow2(qa as nat) == f.magnitude(a.number),
            ;
        }
        let same: bool = a.negative == b.negative;
        let m: u128 = if same {
            high + low
        } else if high >= low {
            high - low
        } else {
            low - high
        };
        let negative: bool = if same || high >= low {
            a.negative
        } else {
            b.negative
        };
        proof {
            let w = pow2(qb as nat) as int;
            assert(m * w == abs(s)) by (nonlinear_arith)
                requires
                    high * w == f.magnitude(a.number),
                    low * w == f.magnitude(b.number),
                    w > 0,
                    same ==> m == high + low && abs(s) == f.magnitude(a.number) + f.magnitude(
                        b.number,
                    ),
                    !same && high >= low ==> m == high - low && abs(s) == abs(
                        f.magnitude(a.number) - f.magnitude(b.number),
                    ),
                    !same && high < low ==> m == low - high && abs(s) == abs(
                        f.magnitude(a.number) - f.magnitude(b.number),
                    ),
            ;
            assert(m == 0 <==> s == 0) by (nonlinear_arith)
                requires
                    m * w == abs(s),
                    w > 0,
            ;
            assert(m > 0 ==> (negative <==> s < 0)) by (nonlinear_arith)
                requires
                    high * w == f.magnitude(a.number),
                    low * w == f.magnitude(b.number),
                    w > 0,
                    high >= 0,
                    low >= 0,
                    s == a.value(f) + b.value(f),
                    same == (a.negative == b.negative),
                    negative == if same || high >= low {
                        a.negative
                    } else {
                        b.negative
                    },
                    same ==> m == high + low,
                    !same && high >= low ==> m == high - low,
                    !same && high < low ==> m == low - high,
                    a.value(f) == if a.negative {
                        -f.magnitude(a.number)
                    } else {
                        f.magnitude(a.number)
                    },
                    b.value(f) == if b.negative {
                        -f.magnitude(b.number)
                    } else {
                        f.magnitude(b.number)
                    },
            ;
            assert(encloses(m as nat, qb as int, false, abs(s), 1)) by (nonlinear_arith)
                requires
                    m * w == abs(s),
                    w == pow2(qb as nat),
                    w > 0,
            ;
        }
        if m == 0 {
            return Datum { negative: a.negative && b.negative, number: 0 };
        }
        let k: u64 = rounded(f, m, qb as i32, false);
        Datum { negative, number: k }
    } else {
        proof {
            lemma_shift_fits(sa as nat, 17);
            vstd::arithmetic::power2::lemma2_to64();
        }
        let m: u128 = if sb == 0 {
            (sa as u128) * 0x2_0000
        } else if a.negative == b.negative {
            (sa as u128) * 0x2_0000
        } else {
            (sa as u128) * 0x2_0000 - 1
        };
        proof {
            lemma_add_far(f, a, b, qa as nat, sa as nat, qb as nat, sb as nat, m as nat, s);
        }
        let k: u64 = rounded(f, m, qa as i32 - 17, sb != 0);
        Datum { negative: a.negative, number: k }
    }
}

proof fn lemma_shift_fits(s: nat, d: nat)
    requires
        s < 0x20_0000_0000_0000,
        d <= 70,
    ensures
        s * pow2(d) < 0x1000_0000_0000_0000_0000_0000_0000_0000,
{
    vstd::arithmetic::power2::lemma2_to64();
    vstd::arithmetic::power2::lemma2_to64_rest();
    vstd::arithmetic::power2::lemma_pow2_adds(64, 6);
    if d < 70 {
        vstd::arithmetic::power2::lemma_pow2_strictly_increases(d, 70);
    }
    assert(s * pow2(d) <= 0x20_0000_0000_0000 * pow2(70)) by (nonlinear_arith)
        requires
            s < 0x20_0000_0000_0000,
            pow2(d) <= pow2(70),
    ;
}

/// An addend more than seventy binades below only tips the balance.
proof fn lemma_add_far(
    f: Format,
    a: Datum,
    b: Datum,
    qa: nat,
    sa: nat,
    qb: nat,
    sb: nat,
    m: nat,
    s: int,
)
    requires
        f.wf(),
        qa > qb + 70,
        qa <= 2046,
        f.first <= sa < 0x20_0000_0000_0000,
        sb < 0x20_0000_0000_0000,
        sa * pow2(qa) == f.magnitude(a.number),
        sb * pow2(qb) == f.magnitude(b.number),
        s == a.value(f) + b.value(f),
        m == sa * 0x2_0000 - if sb != 0 && a.negative != b.negative {
            1int
        } else {
            0
        },
    ensures
        encloses(m, qa - 17, sb != 0, abs(s), 1),
        s != 0,
        a.negative == (s < 0),
        m >= pow2((f.precision + 1) as nat),
{
    let cell = pow2((qa - 17) as nat) as int;
    vstd::arithmetic::power2::lemma2_to64();
    vstd::arithmetic::power2::lemma2_to64_rest();
    vstd::arithmetic::power2::lemma_pow2_adds(17, (qa - 17) as nat);
    vstd::arithmetic::power2::lemma_pow2_adds(53, qb);
    vstd::arithmetic::power2::lemma_pow2_strictly_increases(qb + 53, (qa - 17) as nat);
    lemma_pow2_step(qb);
    lemma_first_bounds(f);
    let big = f.magnitude(a.number);
    let small = f.magnitude(b.number);
    assert(small < cell) by (nonlinear_arith)
        requires
            small == sb * pow2(qb),
            sb < 0x20_0000_0000_0000,
            pow2(qb) > 0,
            0x20_0000_0000_0000 * pow2(qb) < cell,
    ;
    assert(small == 0 <==> sb == 0) by (nonlinear_arith)
        requires
            small == sb * pow2(qb),
            pow2(qb) > 0,
    ;
    assert(small >= 0);
    assert((sa * 0x2_0000) * cell == big) by (nonlinear_arith)
        requires
            big == sa * pow2(qa),
            pow2(qa) == 0x2_0000 * cell,
    ;
    assert(m * cell == big - if sb != 0 && a.negative != b.negative {
        cell
    } else {
        0
    }) by (nonlinear_arith)
        requires
            (sa * 0x2_0000) * cell == big,
            m == sa * 0x2_0000 - if sb != 0 && a.negative != b.negative {
                1int
            } else {
                0
            },
    ;
    assert((m + 1) * cell == m * cell + cell) by (nonlinear_arith);
    assert(big > small) by (nonlinear_arith)
        requires
            (sa * 0x2_0000) * cell == big,
            sa >= 2,
            small < cell,
            cell > 0,
    ;
    assert(cell * 1 == cell);
    // Seventeen more digits than the format has.
    vstd::arithmetic::power2::lemma_pow2_adds((f.precision - 1) as nat, 2);
    assert(m >= pow2((f.precision + 1) as nat)) by (nonlinear_arith)
        requires
            pow2((f.precision + 1) as nat) == pow2((f.precision - 1) as nat) * 4,
            f.first == pow2((f.precision - 1) as nat),
            sa >= f.first,
            f.first >= 2,
            m >= sa * 0x2_0000 - 1,
    ;
}

/// A product of significands encloses the product of the numbers.
proof fn lemma_product_encloses(
    f: Format,
    qa: nat,
    sa: nat,
    qb: nat,
    sb: nat,
    m: nat,
    a: int,
    b: int,
)
    requires
        m == sa * sb,
        a == sa * pow2(qa),
        b == sb * pow2(qb),
    ensures
        encloses(m, qa + qb - f.scale, false, a * b, f.one()),
{
    let e = qa + qb - f.scale;
    let one = f.one();
    let up = pow2_up(e) as int;
    let dn = pow2_down(e) as int;
    lemma_pow2_step(f.scale as nat);
    vstd::arithmetic::power2::lemma_pow2_adds(qa, qb);
    if e >= 0 {
        lemma_pow2_step(e as nat);
        vstd::arithmetic::power2::lemma_pow2_adds(e as nat, f.scale as nat);
    } else {
        lemma_pow2_step((-e) as nat);
        vstd::arithmetic::power2::lemma_pow2_adds(qa + qb, (-e) as nat);
    }
    assert(m * (up * one) == (a * b) * dn) by (nonlinear_arith)
        requires
            m == sa * sb,
            a == sa * pow2(qa),
            b == sb * pow2(qb),
            (pow2(qa) * pow2(qb)) * dn == up * one,
    ;
    assert((m + 1) * (up * one) == m * (up * one) + up * one) by (nonlinear_arith);
    assert(up * one > 0) by (nonlinear_arith)
        requires
            up > 0,
            one > 0,
    ;
}

/// Multiplies two numbers.
pub fn multiply_data(f: Format, a: Datum, b: Datum) -> (r: Datum)
    requires
        f.wf(),
    ensures
        r == product(f, a, b),
        r.number <= f.infinity + f.first / 2,
{
    proof {
        reveal(product);
    }
    let negative: bool = a.negative != b.negative;
    if a.number > f.infinity || b.number > f.infinity {
        return nan_of(f);
    }
    if a.number == f.infinity || b.number == f.infinity {
        if a.number == 0 || b.number == 0 {
            return nan_of(f);
        }
        return Datum { negative, number: f.infinity };
    }
    let (qa, sa): (u32, u64) = parts(f, a.number);
    let (qb, sb): (u32, u64) = parts(f, b.number);
    proof {
        assert(sa * sb < 0x400_0000_0000_0000_0000_0000_0000) by (nonlinear_arith)
            requires
                sa < 0x20_0000_0000_0000,
                sb < 0x20_0000_0000_0000,
        ;
    }
    let m: u128 = (sa as u128) * (sb as u128);
    proof {
        lemma_product_encloses(
            f,
            qa as nat,
            sa as nat,
            qb as nat,
            sb as nat,
            m as nat,
            f.magnitude(a.number),
            f.magnitude(b.number),
        );
    }
    let k: u64 = rounded(f, m, qa as i32 + qb as i32 - f.scale as i32, false);
    Datum { negative, number: k }
}

/// A quotient of significands, the first shifted left by `t` digits, encloses
/// the quotient of the numbers.
proof fn lemma_quotient_encloses(
    f: Format,
    qa: nat,
    sa: nat,
    qb: nat,
    sb: nat,
    t: nat,
    m: nat,
    sticky: bool,
    a: int,
    b: int,
)
    requires
        sb > 0,
        m * sb <= sa * pow2(t) < (m + 1) * sb,
        sticky == (m * sb != sa * pow2(t)),
        a == sa * pow2(qa),
        b == sb * pow2(qb),
    ensures
        encloses(m, qa - qb + f.scale - t, sticky, a * f.one(), b),
{
    let e = qa - qb + f.scale - t;
    let one = f.one();
    let up = pow2_up(e) as int;
    let dn = pow2_down(e) as int;
    lemma_pow2_step(f.scale as nat);
    lemma_pow2_step(qb);
    vstd::arithmetic::power2::lemma_pow2_adds(qa, f.scale as nat);
    vstd::arithmetic::power2::lemma_pow2_adds(t, qb);
    if e >= 0 {
        lemma_pow2_step(e as nat);
        vstd::arithmetic::power2::lemma_pow2_adds(t + qb, e as nat);
    } else {
        lemma_pow2_step((-e) as nat);
        vstd::arithmetic::power2::lemma_pow2_adds(qa + f.scale as nat, (-e) as nat);
    }
    let w = pow2(qb) * up;
    let shifted = sa * pow2(t);
    assert(w > 0) by (nonlinear_arith)
        requires
            w == pow2(qb) * up,
            pow2(qb) > 0,
            up > 0,
    ;
    assert((a * one) * dn == shifted * w) by (nonlinear_arith)
        requires
            a == sa * pow2(qa),
            shifted == sa * pow2(t),
            w == pow2(qb) * up,
            (pow2(qa) * one) * dn == (pow2(t) * pow2(qb)) * up,
    ;
    assert(m * (up * b) == (m * sb) * w) by (nonlinear_arith)
        requires
            b == sb * pow2(qb),
            w == pow2(qb) * up,
    ;
    assert((m + 1) * (up * b) == ((m + 1) * sb) * w) by (nonlinear_arith)
        requires
            b == sb * pow2(qb),
            w == pow2(qb) * up,
    ;
    let lo = m * sb;
    let hi = (m + 1) * sb;
    assert(lo * w <= shifted * w && shifted * w < hi * w) by (nonlinear_arith)
        requires
            lo <= shifted,
            shifted < hi,
            w > 0,
    ;
    assert(lo != shifted <==> lo * w != shifted * w) by (nonlinear_arith)
        requires
            w > 0,
    ;
    assert(b > 0) by (nonlinear_arith)
        requires
            b == sb * pow2(qb),
            sb > 0,
            pow2(qb) > 0,
    ;
}

/// Divides two numbers.
pub fn divide_data(f: Format, a: Datum, b: Datum) -> (r: Datum)
    requires
        f.wf(),
    ensures
        r == quotient(f, a, b),
        r.number <= f.infinity + f.first / 2,
{
    proof {
        reveal(quotient);
    }
    let negative: bool = a.negative != b.negative;
    if a.number > f.infinity || b.number > f.infinity {
        return nan_of(f);
    }
    if a.number == f.infinity {
        if b.number == f.infinity {
            return nan_of(f);
        }
        return Datum { negative, number: f.infinity };
    }
    if b.number == f.infinity {
        return Datum { negative, number: 0 };
    }
    if b.number == 0 {
        if a.number == 0 {
            return nan_of(f);
        }
        return Datum { negative, number: f.infinity };
    }
    let (qa, sa): (u32, u64) = parts(f, a.number);
    let (qb, sb): (u32, u64) = parts(f, b.number);
    if sa == 0 {
        let k: u64 = rounded(f, 0, 0, false);
        proof {
            lemma_pow2_step(0);
            assert(f.magnitude(a.number) * f.one() == 0) by (nonlinear_arith)
                requires
                    f.magnitude(a.number) == 0,
            ;
            assert(f.magnitude(b.number) > 0);
            let den = f.magnitude(b.number);
            assert(1 * den == den && 0 * den == 0 && (0 + 1) * den == den) by (nonlinear_arith);
            assert(encloses(0, 0, false, 0, den));
        }
        return Datum { negative, number: k };
    }
    let len: u32 = bit_length(sa as u128);
    proof {
        vstd::arithmetic::power2::lemma2_to64();
        vstd::arithmetic::power2::lemma2_to64_rest();
        if len > 53 {
            if len > 54 {
                vstd::arithmetic::power2::lemma_pow2_strictly_increases(53, (len - 1) as nat);
            }
        }
    }
    let t: u32 = 113 - len;
    proof {
        lemma_normalised(sa as nat, len as nat, t as nat);
        lemma_shift_left(sa as u128, t as u128);
    }
    let shifted: u128 = (sa as u128) << t;
    let m: u128 = shifted / (sb as u128);
    let rest: u128 = shifted % (sb as u128);
    proof {
        vstd::arithmetic::div_mod::lemma_fundamental_div_mod(shifted as int, sb as int);
        vstd::arithmetic::div_mod::lemma_mod_bound(shifted as int, sb as int);
        assert(m * sb + rest == shifted) by (nonlinear_arith)
            requires
                shifted == sb * m + rest,
        ;
        assert((m + 1) * sb == m * sb + sb) by (nonlinear_arith);
        assert(m <= shifted) by (nonlinear_arith)
            requires
                m * sb + rest == shifted,
                rest >= 0,
                m >= 0,
                sb >= 1,
        ;
        assert(m >= 0x40_0000_0000_0000) by (nonlinear_arith)
            requires
                m * sb + rest == shifted,
                rest < sb,
                sb < 0x20_0000_0000_0000,
                shifted >= 0x1_0000_0000_0000_0000_0000_0000_0000,
        ;
        if f.precision < 53 {
            vstd::arithmetic::power2::lemma_pow2_strictly_increases(
                (f.precision + 1) as nat,
                54,
            );
        }
        lemma_quotient_encloses(
            f,
            qa as nat,
            sa as nat,
            qb as nat,
            sb as nat,
            t as nat,
            m as nat,
            rest != 0,
            f.magnitude(a.number),
            f.magnitude(b.number),
        );
    }
    let k: u64 = rounded(
        f,
        m,
        qa as i32 - qb as i32 + f.scale as i32 - t as i32,
        rest != 0,
    );
    Datum { negative, number: k }
}

/// Shifted to a hundred and thirteen digits.
proof fn lemma_normalised(s: nat, len: nat, t: nat)
    requires
        0 < len <= 53,
        pow2((len - 1) as nat) <= s < pow2(len),
        t == 113 - len,
    ensures
        0x1_0000_0000_0000_0000_0000_0000_0000 <= s * pow2(t)
            < 0x2_0000_0000_0000_0000_0000_0000_0000,
{
    vstd::arithmetic::power2::lemma2_to64();
    vstd::arithmetic::power2::lemma2_to64_rest();
    vstd::arithmetic::power2::lemma_pow2_adds(64, 48);
    vstd::arithmetic::power2::lemma_pow2_adds(64, 49);
    vstd::arithmetic::power2::lemma_pow2_adds(len, t);
    vstd::arithmetic::power2::lemma_pow2_adds((len - 1) as nat, t);
    lemma_pow2_step(t);
    assert(pow2((len - 1) as nat) * pow2(t) <= s * pow2(t) && s * pow2(t) < pow2(len) * pow2(t))
        by (nonlinear_arith)
        requires
            pow2((len - 1) as nat) <= s,
            s < pow2(len),
            pow2(t) > 0,
    ;
}

/// The integer `n`, or its opposite.
pub fn integer_data(f: Format, negative: bool, n: u64) -> (r: Datum)
    requires
        f.wf(),
        n == 0 ==> !negative,
    ensures
        r == of_integer(f, if negative { -n } else { n as int }),
        r.number <= f.infinity + f.first / 2,
{
    let k: u64 = rounded(f, n as u128, f.scale as i32, false);
    proof {
        reveal(of_integer);
        lemma_integer_encloses(f, n as nat);
    }
    Datum { negative, number: k }
}

proof fn lemma_integer_encloses(f: Format, n: nat)
    ensures
        encloses(n, f.scale as int, false, n * f.one(), 1),
{
    lemma_pow2_step(f.scale as nat);
    assert((n + 1) * (f.one() * 1) == n * f.one() + f.one()) by (nonlinear_arith);
    assert(n * (f.one() * 1) == n * f.one()) by (nonlinear_arith);
}

/// Brings a number of format `f` into format `g`.
pub fn convert_datum(f: Format, g: Format, a: Datum) -> (r: Datum)
    requires
        f.wf(),
        g.wf(),
    ensures
        r == converted(f, g, a),
        r.number <= g.infinity + g.first / 2,
{
    proof {
        reveal(converted);
    }
    if a.number > f.infinity {
        return nan_of(g);
    }
    if a.number == f.infinity {
        return Datum { negative: a.negative, number: g.infinity };
    }
    let (q, s): (u32, u64) = parts(f, a.number);
    let e: i32 = q as i32 + g.scale as i32 - f.scale as i32;
    proof {
        let up = pow2_up(e as int) as int;
        let dn = pow2_down(e as int) as int;
        lemma_pow2_step(f.scale as nat);
        lemma_pow2_step(g.scale as nat);
        vstd::arithmetic::power2::lemma_pow2_adds(q as nat, g.scale as nat);
        if e >= 0 {
            lemma_pow2_step(e as nat);
            vstd::arithmetic::power2::lemma_pow2_adds(e as nat, f.scale as nat);
        } else {
            lemma_pow2_step((-e) as nat);
            vstd::arithmetic::power2::lemma_pow2_adds(q as nat + g.scale as nat, (-e) as nat);
        }
        let mag = f.magnitude(a.number);
        assert(s * (up * f.one()) == (mag * g.one()) * dn) by (nonlinear_arith)
            requires
                mag == s * pow2(q as nat),
                (pow2(q as nat) * g.one()) * dn == up * f.one(),
        ;
        assert((s + 1) * (up * f.one()) == s * (up * f.one()) + up * f.one()) by (nonlinear_arith);
        assert(up * f.one() > 0) by (nonlinear_arith)
            requires
                up > 0,
                f.one() > 0,
        ;
        assert(encloses(s as nat, e as int, false, mag * g.one(), f.one()));
    }
    let k: u64 = rounded(g, s as u128, e, false);
    Datum { negative: a.negative, number: k }
}

/// Compares the values.
pub fn less_data(f: Format, a: Datum, b: Datum) -> (r: bool)
    requires
        f.wf(),
    ensures
        r == less(f, a, b),
{
    proof {
        reveal(less);
        lemma_magnitude_order(f, a.number, b.number);
        lemma_magnitude_order(f, 0, a.number);
        lemma_magnitude_order(f, 0, b.number);
        lemma_first_bounds(f);
        lemma_magnitude_of_parts(f.precision as nat, 0, 0);
    }
    if a.number > f.infinity || b.number > f.infinity {
        false
    } else if a.negative {
        if b.negative {
            a.number > b.number
        } else {
            a.number > 0 || b.number > 0
        }
    } else {
        !b.negative && a.number < b.number
    }
}

pub proof fn lemma_magnitude_order(f: Format, j: u64, k: u64)
    requires
        f.wf(),
    ensures
        j < k <==> f.magnitude(j) < f.magnitude(k),
        j == k <==> f.magnitude(j) == f.magnitude(k),
{
    if j < k {
        lemma_magnitude_increases(f.precision as nat, j as nat, k as nat);
    }
    if k < j {
        lemma_magnitude_increases(f.precision as nat, k as nat, j as nat);
    }
}

/// A number is nearest to its own value.
pub proof fn lemma_exact(f: Format, k: u64)
    requires
        f.wf(),
        k < f.infinity,
    ensures
        f.nearest(f.magnitude(k), 1) == k,
{
    let p = f.precision as nat;
    lemma_magnitude_increases(p, k as nat, (k + 1) as nat);
    if k > 0 {
        lemma_magnitude_increases(p, (k - 1) as nat, k as nat);
    }
    lemma_round_to_nearest(p, f.infinity as nat, k as nat, f.magnitude(k), 1);
}

/// The integer part of `s * 2^q / 2^scale` and what it leaves, as seen from a
/// number below the integers that the format cannot all hold.
fn split_integer(f: Format, q: u32, s: u64) -> (r: (u64, bool, bool))
    requires
        f.wf(),
        q < f.scale,
        s < 0x20_0000_0000_0000,
    ensures
        r.0 <= s,
        r.0 == (s * pow2(q as nat)) / f.one(),
        r.1 == ((s * pow2(q as nat)) % f.one() != 0),
        r.2 == (2 * ((s * pow2(q as nat)) % f.one()) >= f.one()),
{
    let d: u32 = f.scale - q;
    proof {
        lemma_split_integer(f, q as nat, s as nat, d as nat);
        vstd::arithmetic::power2::lemma2_to64();
        vstd::arithmetic::power2::lemma2_to64_rest();
        if d >= 64 {
            if d > 64 {
                vstd::arithmetic::power2::lemma_pow2_strictly_increases(64, d as nat);
            }
            vstd::arithmetic::div_mod::lemma_small_mod(s as nat, pow2(d as nat));
            vstd::arithmetic::div_mod::lemma_basic_div(s as int, pow2(d as nat) as int);
        }
    }
    if d >= 64 {
        return (0, s != 0, false);
    }
    proof {
        vstd::bits::lemma_u64_shr_is_div(s, d as u64);
        lemma_pow2_step((d - 1) as nat);
        vstd::arithmetic::power2::lemma_pow2_strictly_increases((d - 1) as nat, 64);
        vstd::bits::lemma_u64_shl_is_mul(1, (d - 1) as u64);
        vstd::arithmetic::div_mod::lemma_fundamental_div_mod(s as int, pow2(d as nat) as int);
        vstd::arithmetic::div_mod::lemma_mod_bound(s as int, pow2(d as nat) as int);
    }
    let n: u64 = s >> d;
    let half: u64 = 1u64 << (d - 1);
    proof {
        let b = pow2(d as nat) as int;
        assert(n * half + n * half <= s) by (nonlinear_arith)
            requires
                s == b * n + s as int % b,
                s as int % b >= 0,
                b == 2 * half,
        ;
        assert(n * half >= 0) by (nonlinear_arith);
        assert(n <= s) by (nonlinear_arith)
            requires
                s == b * n + s as int % b,
                s as int % b >= 0,
                b >= 1,
                n >= 0,
        ;
    }
    let rest: u64 = (s - n * half) - n * half;
    proof {
        let b = pow2(d as nat) as int;
        assert(rest == s as int % b) by (nonlinear_arith)
            requires
                rest == s - n * half - n * half,
                s == b * n + s as int % b,
                b == 2 * half,
        ;
    }
    (n, rest != 0, rest >= half)
}

proof fn lemma_split_integer(f: Format, q: nat, s: nat, d: nat)
    requires
        d == f.scale - q,
        q < f.scale,
    ensures
        (s * pow2(q)) as int / f.one() == s / pow2(d),
        (s * pow2(q)) as int % f.one() == (s % pow2(d)) * pow2(q),
        f.one() == pow2(d) * pow2(q),
        ((s * pow2(q)) as int % f.one() != 0) == (s % pow2(d) != 0),
        (2 * ((s * pow2(q)) as int % f.one()) >= f.one()) == (2 * (s % pow2(d)) >= pow2(d)),
{
    vstd::arithmetic::power2::lemma_pow2_adds(d, q);
    lemma_pow2_step(d);
    lemma_pow2_step(q);
    let b = pow2(d) as int;
    let c = pow2(q) as int;
    let n = s as int / b;
    let r = s as int % b;
    vstd::arithmetic::div_mod::lemma_fundamental_div_mod(s as int, b);
    vstd::arithmetic::div_mod::lemma_mod_bound(s as int, b);
    assert(s * c == n * (b * c) + r * c) by (nonlinear_arith)
        requires
            s == b * n + r,
    ;
    assert(0 <= r * c < b * c) by (nonlinear_arith)
        requires
            0 <= r < b,
            c > 0,
    ;
    vstd::arithmetic::div_mod::lemma_fundamental_div_mod_converse(s * c, b * c, n, r * c);
    assert(r * c != 0 <==> r != 0) by (nonlinear_arith)
        requires
            c > 0,
    ;
    assert(2 * (r * c) >= b * c <==> 2 * r >= b) by (nonlinear_arith)
        requires
            c > 0,
    ;
}

/// A number from the binade of one on upwards whose unit is an integer.
proof fn lemma_integer_already(f: Format, q: nat, s: nat)
    requires
        f.wf(),
        q >= f.scale,
    ensures
        (s * pow2(q)) as int % f.one() == 0,
        (s * pow2(q)) as int / f.one() == s * pow2((q - f.scale) as nat),
        ((s * pow2(q)) as int / f.one()) * f.one() == s * pow2(q),
{
    vstd::arithmetic::power2::lemma_pow2_adds((q - f.scale) as nat, f.scale as nat);
    lemma_pow2_step(f.scale as nat);
    let n = s * pow2((q - f.scale) as nat);
    assert(s * pow2(q) == n * f.one() + 0) by (nonlinear_arith)
        requires
            n == s * pow2((q - f.scale) as nat),
            pow2(q) == pow2((q - f.scale) as nat) * f.one(),
    ;
    vstd::arithmetic::div_mod::lemma_fundamental_div_mod_converse(
        (s * pow2(q)) as int,
        f.one(),
        n as int,
        0,
    );
}

/// The integer in the given direction.
pub fn integral_datum(f: Format, a: Datum, direction: Direction) -> (r: Datum)
    requires
        f.wf(),
    ensures
        r == integral(f, a, direction),
        r.number <= f.infinity + f.first / 2,
{
    proof {
        reveal(integral);
    }
    if a.number > f.infinity {
        return nan_of(f);
    }
    if a.number == f.infinity {
        return a;
    }
    let (q, s): (u32, u64) = parts(f, a.number);
    proof {
        lemma_pow2_step(f.scale as nat);
        lemma_exact(f, a.number);
    }
    if q >= f.scale {
        proof {
            lemma_integer_already(f, q as nat, s as nat);
        }
        return a;
    }
    let (n, inexact, half): (u64, bool, bool) = split_integer(f, q, s);
    let away: bool = match direction {
        Direction::Down => a.negative && inexact,
        Direction::Up => !a.negative && inexact,
        Direction::HalfAway => half,
    };
    let n: u64 = if away {
        n + 1
    } else {
        n
    };
    let k: u64 = rounded(f, n as u128, f.scale as i32, false);
    proof {
        lemma_integer_encloses(f, n as nat);
    }
    Datum { negative: a.negative, number: k }
}

/// The integer part of the absolute value of a finite number, at most `cap`.
pub fn truncated_magnitude(f: Format, k: u64, cap: u64) -> (n: u64)
    requires
        f.wf(),
        k < f.infinity,
    ensures
        n == (if f.magnitude(k) / f.one() > cap { cap as int } else { f.magnitude(k) / f.one() }),
{
    let (q, s): (u32, u64) = parts(f, k);
    if q < f.scale {
        let (n, _inexact, _half): (u64, bool, bool) = split_integer(f, q, s);
        if n > cap {
            cap
        } else {
            n
        }
    } else {
        let up: u32 = q - f.scale;
        proof {
            lemma_integer_already(f, q as nat, s as nat);
            vstd::arithmetic::power2::lemma2_to64();
            lemma_first_bounds(f);
            if up > 70 {
                vstd::arithmetic::power2::lemma_pow2_strictly_increases(64, up as nat);
                assert(s * pow2(up as nat) >= pow2(64)) by (nonlinear_arith)
                    requires
                        s >= 1,
                        pow2(up as nat) >= pow2(64),
                ;
            } else {
                lemma_shift_fits(s as nat, up as nat);
                lemma_shift_left(s as u128, up as u128);
            }
        }
        if up > 70 {
            cap
        } else {
            let wide: u128 = (s as u128) << up;
            if wide > cap as u128 {
                cap
            } else {
                wide as u64
            }
        }
    }
}

/// The integer part, brought between `-low` and `high`.
pub fn truncate_datum(f: Format, a: Datum, low: u64, high: u64) -> (n: i128)
    requires
        f.wf(),
    ensures
        n == truncated(f, a, -low, high as int),
        -low <= n <= high,
{
    proof {
        reveal(truncated);
        lemma_pow2_step(f.scale as nat);
        assert(f.magnitude(a.number) / f.one() >= 0) by (nonlinear_arith)
            requires
                f.magnitude(a.number) >= 0,
                f.one() > 0,
        ;
    }
    if a.number > f.infinity {
        0
    } else if a.number == f.infinity {
        if a.negative {
            -(low as i128)
        } else {
            high as i128
        }
    } else if a.negative {
        -(truncated_magnitude(f, a.number, low) as i128)
    } else {
        truncated_magnitude(f, a.number, high) as i128
    }
}

pub proof fn lemma_single_format()
    ensures
        super::single::single_format().wf(),
{
    vstd::arithmetic::power2::lemma2_to64();
}

pub proof fn lemma_double_format()
    ensures
        super::double::double_format().wf(),
{
    vstd::arithmetic::power2::lemma2_to64_rest();
}

} // verus!

//! Rounding of an integer times a power of two, as every arithmetic operation
//! leaves it behind.
use vstd::prelude::*;
use vstd::arithmetic::power2::pow2;
use super::rounding::{
    first_normal, lemma_magnitude_increases, lemma_magnitude_of_parts, lemma_pow2_step,
    lemma_round_to_nearest, magnitude, nearest, round_to_nearest,
};

verus! {

/// The positive part of an exponent, as a power of two.
pub open spec fn pow2_up(e: int) -> nat {
    if e >= 0 {
        pow2(e as nat)
    } else {
        1
    }
}

/// The negative part of an exponent, as a power of two.
pub open spec fn pow2_down(e: int) -> nat {
    if e < 0 {
        pow2((-e) as nat)
    } else {
        1
    }
}

/// `num / den` lies in the cell from `m * 2^e` up to `(m + 1) * 2^e`, at the
/// lower end unless `sticky`.
pub open spec fn encloses(m: nat, e: int, sticky: bool, num: int, den: int) -> bool {
    &&& den > 0
    &&& m * (pow2_up(e) * den) <= num * pow2_down(e)
    &&& num * pow2_down(e) < (m + 1) * (pow2_up(e) * den)
    &&& sticky == (m * (pow2_up(e) * den) != num * pow2_down(e))
}

/// Shifting left multiplies, as long as nothing is lost.
pub proof fn lemma_shift_left(x: u128, s: u128)
    requires
        s < 128,
        x * pow2(s as nat) <= u128::MAX,
    ensures
        x << s == x * pow2(s as nat),
    decreases s,
{
    if s == 0 {
        lemma_pow2_step(0);
        assert(x << s == x) by (bit_vector)
            requires
                s == 0,
        ;
        assert(x * 1 == x) by (nonlinear_arith);
    } else {
        let t: u128 = (s - 1) as u128;
        lemma_pow2_step(t as nat);
        assert(x * (2 * pow2(t as nat)) == 2 * (x * pow2(t as nat))) by (nonlinear_arith);
        assert(x * pow2(t as nat) >= 0) by (nonlinear_arith);
        lemma_shift_left(x, t);
        let y: u128 = x << t;
        assert(x << s == (x << t) << 1u128) by (bit_vector)
            requires
                t < 127,
                s == t + 1,
        ;
        assert(y << 1u128 == y * 2) by (bit_vector)
            requires
                y <= 0x7fff_ffff_ffff_ffff_ffff_ffff_ffff_ffffu128,
        ;
    }
}

/// `x` is what remains of `m` once its lowest `n` digits are dropped.
#[verifier::opaque]
spec fn leads(x: nat, m: nat, n: nat) -> bool {
    x * pow2(n) <= m < (x + 1) * pow2(n)
}

proof fn lemma_leads_step(x: nat, m: nat, n: nat, k: nat)
    requires
        leads(x, m, n),
    ensures
        leads(x / pow2(k), m, n + k),
{
    reveal(leads);
    let y = x / pow2(k);
    lemma_pow2_step(n);
    lemma_pow2_step(k);
    vstd::arithmetic::power2::lemma_pow2_adds(n, k);
    vstd::arithmetic::div_mod::lemma_fundamental_div_mod(x as int, pow2(k) as int);
    vstd::arithmetic::div_mod::lemma_mod_bound(x as int, pow2(k) as int);
    let a = pow2(n) as int;
    let b = pow2(k) as int;
    assert(y * (a * b) <= x * a) by (nonlinear_arith)
        requires
            x >= b * y,
            a > 0,
    ;
    assert((x + 1) * a <= (y + 1) * (a * b)) by (nonlinear_arith)
        requires
            x + 1 <= b * y + b,
            a > 0,
    ;
}

/// Drops the lowest `k` digits if there are more than `k`.
fn drop_digits(x: u128, n: u32, k: u32, bound: u128, Ghost(m): Ghost<nat>) -> (r: (u128, u32))
    requires
        leads(x as nat, m, n as nat),
        bound == pow2(k as nat),
        x < bound * bound,
        n + k <= 200,
        k < 128,
        x == 0 ==> n == 0,
    ensures
        leads(r.0 as nat, m, r.1 as nat),
        r.0 < bound,
        r.1 <= n + k,
        r.0 == 0 ==> r.1 == 0,
{
    if x >= bound {
        proof {
            lemma_leads_step(x as nat, m, n as nat, k as nat);
            vstd::bits::lemma_u128_shr_is_div(x, k as u128);
            vstd::arithmetic::div_mod::lemma_fundamental_div_mod(x as int, bound as int);
            vstd::arithmetic::div_mod::lemma_mod_bound(x as int, bound as int);
            let y = x as int / bound as int;
            assert(0 < y < bound) by (nonlinear_arith)
                requires
                    x == bound * y + x as int % bound as int,
                    0 <= x as int % bound as int,
                    (x as int % bound as int) < bound,
                    bound <= x,
                    x < bound * bound,
            ;
        }
        (x >> k, n + k)
    } else {
        (x, n)
    }
}

/// The number of binary digits of `m`.
pub fn bit_length(m: u128) -> (n: u32)
    ensures
        n <= 128,
        m < pow2(n as nat),
        n > 0 ==> m >= pow2((n - 1) as nat),
        n == 0 <==> m == 0,
{
    proof {
        lemma_pow2_step(0);
        vstd::arithmetic::power2::lemma2_to64();
        reveal(leads);
    }
    let (x, n): (u128, u32) = drop_digits(m, 0, 64, 0x1_0000_0000_0000_0000, Ghost(m as nat));
    let (x, n): (u128, u32) = drop_digits(x, n, 32, 0x1_0000_0000, Ghost(m as nat));
    let (x, n): (u128, u32) = drop_digits(x, n, 16, 0x1_0000, Ghost(m as nat));
    let (x, n): (u128, u32) = drop_digits(x, n, 8, 0x100, Ghost(m as nat));
    let (x, n): (u128, u32) = drop_digits(x, n, 4, 0x10, Ghost(m as nat));
    let (x, n): (u128, u32) = drop_digits(x, n, 2, 4, Ghost(m as nat));
    let (x, n): (u128, u32) = drop_digits(x, n, 1, 2, Ghost(m as nat));
    proof {
        lemma_pow2_step(n as nat);
        assert(1 * pow2(n as nat) == pow2(n as nat)) by (nonlinear_arith);
        assert(2 * pow2(n as nat) == pow2(n as nat) + pow2(n as nat)) by (nonlinear_arith);
    }
    if x == 1 {
        n + 1
    } else {
        n
    }
}

/// The number that the position of `num / den` within its cell selects: the
/// lower end of the cell, or the upper one if `up`.
proof fn lemma_cell_end_is_nearest(
    p: nat,
    inf: nat,
    q: nat,
    sig: nat,
    up: bool,
    dn: int,
    num: int,
    den: int,
)
    requires
        p >= 2,
        den > 0,
        dn > 0,
        sig < 2 * first_normal(p),
        q == 0 || sig >= first_normal(p),
        ({
            let w = pow2(q) * (dn * den);
            let n = num * dn;
            &&& sig * w <= n
            &&& n < (sig + 1) * w
            &&& !up ==> 2 * n < (2 * sig + 1) * w || (2 * n == (2 * sig + 1) * w && sig % 2 == 0)
            &&& up ==> 2 * n > (2 * sig + 1) * w || (2 * n == (2 * sig + 1) * w && sig % 2 == 1)
        }),
    ensures
        ({
            let k = q * first_normal(p) + sig + if up { 1int } else { 0 };
            nearest(p, inf, (if k < inf { k } else { inf as int }) as nat, num, den)
        }),
{
    let h = first_normal(p);
    let k0 = (q * h + sig) as nat;
    let b = pow2(q) as int;
    let w = b * (dn * den);
    let n = num * dn;
    lemma_pow2_step((p - 2) as nat);
    lemma_pow2_step(q);
    lemma_magnitude_of_parts(p, q, sig);
    lemma_magnitude_of_parts(p, q, sig + 1);
    assert(q * h % 2 == 0) by {
        let half = pow2((p - 2) as nat);
        assert(h == 2 * half);
        assert(q * (2 * half) == 2 * (q * half)) by (nonlinear_arith);
    }
    let low = magnitude(p, k0) as int;
    let high = magnitude(p, k0 + 1) as int;
    // In units of the format rather than of the cell.
    assert(low * den <= num) by (nonlinear_arith)
        requires
            low == sig * b,
            sig * (b * (dn * den)) <= num * dn,
            dn > 0,
    ;
    assert(num < high * den) by (nonlinear_arith)
        requires
            high == (sig + 1) * b,
            num * dn < (sig + 1) * (b * (dn * den)),
            dn > 0,
    ;
    let mid = (low + high) * den;
    assert((2 * sig + 1) * w == mid * dn) by (nonlinear_arith)
        requires
            low == sig * b,
            high == (sig + 1) * b,
            mid == (low + high) * den,
            w == b * (dn * den),
    ;
    assert(2 * n == (2 * num) * dn) by (nonlinear_arith)
        requires
            n == num * dn,
    ;
    assert(2 * n < mid * dn ==> 2 * num < mid) by (nonlinear_arith)
        requires
            2 * n == (2 * num) * dn,
            dn > 0,
    ;
    assert(2 * n > mid * dn ==> 2 * num > mid) by (nonlinear_arith)
        requires
            2 * n == (2 * num) * dn,
            dn > 0,
    ;
    assert(2 * n == mid * dn ==> 2 * num == mid) by (nonlinear_arith)
        requires
            2 * n == (2 * num) * dn,
            dn > 0,
    ;
    let k = (k0 + if up { 1int } else { 0 }) as nat;
    let r = (if k < inf { k } else { inf }) as nat;
    // Below the chosen number.
    if r > 0 {
        let below = magnitude(p, (r - 1) as nat) as int;
        let here = magnitude(p, r) as int;
        if r == k0 + 1 {
            assert(up);
        } else {
            lemma_magnitude_increases(p, (r - 1) as nat, r);
            if r < k0 {
                lemma_magnitude_increases(p, r, k0);
            }
            assert((below + here) * den < 2 * (low * den)) by (nonlinear_arith)
                requires
                    below < here,
                    here <= low,
                    den > 0,
            ;
        }
    }
    // Above it.
    if r < inf {
        let here = magnitude(p, r) as int;
        let above = magnitude(p, r + 1) as int;
        if up {
            lemma_magnitude_increases(p, r, r + 1);
            assert(2 * (high * den) < (here + above) * den) by (nonlinear_arith)
                requires
                    here == high,
                    here < above,
                    den > 0,
            ;
        }
    }
}

proof fn lemma_pow2_below_128(n: nat)
    requires
        n < 128,
    ensures
        pow2(n) <= 0x8000_0000_0000_0000_0000_0000_0000_0000,
{
    vstd::arithmetic::power2::lemma2_to64();
    vstd::arithmetic::power2::lemma2_to64_rest();
    vstd::arithmetic::power2::lemma_pow2_adds(64, 63);
    if n < 127 {
        vstd::arithmetic::power2::lemma_pow2_strictly_increases(n, 127);
    }
}

/// Shifting a number of `len` digits left by `left` keeps it within `p` digits.
proof fn lemma_shift_left_small(m: nat, len: nat, left: nat, p: nat)
    requires
        m < pow2(len),
        len + left <= p,
    ensures
        m * pow2(left) < pow2(p),
{
    lemma_pow2_step(left);
    vstd::arithmetic::power2::lemma_pow2_adds(len, left);
    if len + left < p {
        vstd::arithmetic::power2::lemma_pow2_strictly_increases(len + left, p);
    }
    assert(m * pow2(left) < pow2(len) * pow2(left)) by (nonlinear_arith)
        requires
            m < pow2(len),
            pow2(left) > 0,
    ;
}

/// Shifting a number of `len` digits left to `p` digits fills all of them.
proof fn lemma_shift_left_large(m: nat, len: nat, left: nat, p: nat)
    requires
        len > 0,
        m >= pow2((len - 1) as nat),
        len + left == p,
    ensures
        m * pow2(left) >= pow2((p - 1) as nat),
{
    lemma_pow2_step(left);
    vstd::arithmetic::power2::lemma_pow2_adds((len - 1) as nat, left);
    assert(m * pow2(left) >= pow2((len - 1) as nat) * pow2(left)) by (nonlinear_arith)
        requires
            m >= pow2((len - 1) as nat),
            pow2(left) > 0,
    ;
}

/// Dropping `right` digits of a number of `len` digits leaves at most `p`, and
/// `p` of them outside the lowest binade.
proof fn lemma_top_bits(m: nat, len: nat, right: nat, p: nat, q: nat)
    requires
        len > 0,
        p > 0,
        pow2((len - 1) as nat) <= m < pow2(len),
        q == 0 ==> len <= right + p,
        q > 0 ==> len == right + p,
    ensures
        m / pow2(right) < pow2(p),
        q > 0 ==> m / pow2(right) >= pow2((p - 1) as nat),
{
    lemma_pow2_step(right);
    vstd::arithmetic::power2::lemma_pow2_adds(right, p);
    let b = pow2(right) as int;
    let t = m / pow2(right);
    vstd::arithmetic::div_mod::lemma_fundamental_div_mod(m as int, b);
    vstd::arithmetic::div_mod::lemma_mod_bound(m as int, b);
    if len < right + p {
        vstd::arithmetic::power2::lemma_pow2_strictly_increases(len, right + p);
    }
    let c = pow2(p) as int;
    assert(t < c) by (nonlinear_arith)
        requires
            m == b * t + m as int % b,
            m as int % b >= 0,
            m < b * c,
            b > 0,
    ;
    if q > 0 {
        vstd::arithmetic::power2::lemma_pow2_adds(right, (p - 1) as nat);
        let d = pow2((p - 1) as nat) as int;
        assert(t >= d) by (nonlinear_arith)
            requires
                m == b * t + m as int % b,
                (m as int % b) < b,
                m >= b * d,
                b > 0,
        ;
    }
}

/// Rounding after `right` digits of `m` have been dropped.
proof fn lemma_round_right(
    p: nat,
    inf: nat,
    m: int,
    e: int,
    sticky: bool,
    q: nat,
    right: nat,
    sig: nat,
    rem: int,
    half: int,
    up: bool,
    num: int,
    den: int,
)
    requires
        p >= 2,
        m >= 0,
        encloses(m as nat, e, sticky, num, den),
        right == q - e,
        sig < 2 * first_normal(p),
        q == 0 || sig >= first_normal(p),
        half > 0,
        pow2(right) == 2 * half,
        m == sig * (2 * half) + rem,
        0 <= rem < 2 * half,
        up == (rem > half || (rem == half && (sticky || sig % 2 == 1))),
    ensures
        ({
            let k = q * first_normal(p) + sig + if up { 1int } else { 0 };
            nearest(p, inf, (if k < inf { k } else { inf as int }) as nat, num, den)
        }),
{
    let dn = pow2_down(e) as int;
    let a = pow2_up(e) * den;
    let n = num * dn;
    let w = pow2(q) * (dn * den);
    if e >= 0 {
        lemma_pow2_step(e as nat);
        vstd::arithmetic::power2::lemma_pow2_adds(right, e as nat);
    } else {
        lemma_pow2_step((-e) as nat);
        vstd::arithmetic::power2::lemma_pow2_adds(q, (-e) as nat);
    }
    assert(a > 0) by (nonlinear_arith)
        requires
            a == pow2_up(e) * den,
            pow2_up(e) > 0,
            den > 0,
    ;
    assert(w == (2 * half) * a) by (nonlinear_arith)
        requires
            w == pow2(q) * (dn * den),
            a == pow2_up(e) * den,
            pow2(q) * dn == (2 * half) * pow2_up(e),
    ;
    assert(sig * w <= n) by (nonlinear_arith)
        requires
            w == (2 * half) * a,
            m * a <= n,
            m == sig * (2 * half) + rem,
            rem >= 0,
            a > 0,
    ;
    assert(n < (sig + 1) * w) by (nonlinear_arith)
        requires
            w == (2 * half) * a,
            n < (m + 1) * a,
            m == sig * (2 * half) + rem,
            rem + 1 <= 2 * half,
            a > 0,
    ;
    let mid = sig * (2 * half) + half;
    assert((2 * sig + 1) * w == 2 * (mid * a)) by (nonlinear_arith)
        requires
            w == (2 * half) * a,
            mid == sig * (2 * half) + half,
    ;
    if rem < half {
        assert(n < mid * a) by (nonlinear_arith)
            requires
                n < (m + 1) * a,
                m + 1 <= mid,
                a > 0,
        ;
    } else if rem > half {
        assert(n > mid * a) by (nonlinear_arith)
            requires
                n >= m * a,
                m > mid,
                a > 0,
        ;
    } else {
        assert(m == mid);
    }
    lemma_cell_end_is_nearest(p, inf, q, sig, up, dn, num, den);
}

/// Rounds `m * 2^e`, or anything strictly between it and `(m + 1) * 2^e` if
/// `sticky`, to the format with `p` significant bits.
pub fn round_scaled(p: u32, h: u64, inf: u64, m: u128, e: i32, sticky: bool) -> (k: u64)
    requires
        2 <= p <= 53,
        h == first_normal(p as nat),
        m < 0x8000_0000_0000_0000_0000_0000_0000_0000,
        -3100 <= e <= 3100,
        sticky ==> m >= pow2((p + 1) as nat),
    ensures
        k <= inf,
        forall|num: int, den: int|
            #[trigger] encloses(m as nat, e as int, sticky, num, den) ==> k == round_to_nearest(
                p as nat,
                inf as nat,
                num,
                den,
            ),
{
    if m == 0 {
        proof {
            lemma_pow2_step((p + 1) as nat);
            assert forall|num: int, den: int| #[trigger]
                encloses(m as nat, e as int, sticky, num, den) implies 0 == round_to_nearest(
                p as nat,
                inf as nat,
                num,
                den,
            ) by {
                if e < 0 {
                    lemma_pow2_step((-e) as nat);
                }
                assert(num == 0) by (nonlinear_arith)
                    requires
                        num * pow2_down(e as int) == 0,
                        pow2_down(e as int) > 0,
                ;
                lemma_pow2_step((p - 1) as nat);
                lemma_magnitude_of_parts(p as nat, 0, 0);
                lemma_magnitude_of_parts(p as nat, 0, 1);
                lemma_round_to_nearest(p as nat, inf as nat, 0, num, den);
            }
        }
        return 0;
    }
    let len: i32 = bit_length(m) as i32;
    let q: i32 = if len + e > p as i32 {
        len + e - p as i32
    } else {
        0
    };
    let s: i32 = q - e;
    let mut sig: u64 = 0;
    let mut up: bool = false;
    proof {
        lemma_pow2_step((p - 1) as nat);
        if len > 0 && len - 1 >= 127 {
            vstd::arithmetic::power2::lemma_pow2_adds(64, 63);
            vstd::arithmetic::power2::lemma2_to64();
            vstd::arithmetic::power2::lemma2_to64_rest();
            if len - 1 > 127 {
                vstd::arithmetic::power2::lemma_pow2_strictly_increases(127, (len - 1) as nat);
            }
        }
        assert(len <= 127);
        if sticky && len <= p + 1 {
            if len < p + 1 {
                vstd::arithmetic::power2::lemma_pow2_strictly_increases(len as nat, (p + 1) as nat);
            }
        }
        assert(sticky ==> len >= p + 2);
        vstd::arithmetic::power2::lemma2_to64();
        vstd::arithmetic::power2::lemma2_to64_rest();
        if p < 53 {
            vstd::arithmetic::power2::lemma_pow2_strictly_increases(p as nat, 53);
        }
    }
    if s <= 0 {
        let left: u32 = (e - q) as u32;
        proof {
            lemma_shift_left_small(m as nat, len as nat, left as nat, p as nat);
            assert(m * pow2(left as nat) < pow2(p as nat));
            lemma_shift_left(m, left as u128);
        }
        sig = (m << left) as u64;
        proof {
            assert forall|num: int, den: int| #[trigger]
                encloses(m as nat, e as int, sticky, num, den) implies nearest(
                p as nat,
                inf as nat,
                (if q * h + sig < inf {
                    q * h + sig
                } else {
                    inf as int
                }) as nat,
                num,
                den,
            ) by {
                vstd::arithmetic::power2::lemma_pow2_adds(left as nat, q as nat);
                let w = pow2(q as nat) * (1 * den);
                lemma_pow2_step(q as nat);
                assert(sig * w == m * (pow2(e as nat) * den)) by (nonlinear_arith)
                    requires
                        sig == m * pow2(left as nat),
                        w == pow2(q as nat) * den,
                        pow2(e as nat) == pow2(left as nat) * pow2(q as nat),
                ;
                assert(w > 0) by (nonlinear_arith)
                    requires
                        w == pow2(q as nat) * den,
                        pow2(q as nat) > 0,
                        den > 0,
                ;
                assert(num == sig * w);
                assert((sig + 1) * w == sig * w + w) by (nonlinear_arith);
                assert((2 * sig + 1) * w == 2 * (sig * w) + w) by (nonlinear_arith);
                if q > 0 {
                    assert(len + e - p == q);
                    assert(left == p - len);
                    lemma_shift_left_large(m as nat, len as nat, left as nat, p as nat);
                }
                lemma_cell_end_is_nearest(
                    p as nat,
                    inf as nat,
                    q as nat,
                    sig as nat,
                    false,
                    1,
                    num,
                    den,
                );
            }
        }
    } else if s < 128 {
        let right: u32 = s as u32;
        proof {
            vstd::bits::lemma_u128_shr_is_div(m, right as u128);
            lemma_pow2_step((right - 1) as nat);
            lemma_pow2_below_128((right - 1) as nat);
            lemma_shift_left(1, (right - 1) as u128);
            assert(1u128 * pow2((right - 1) as nat) == pow2((right - 1) as nat));
            vstd::arithmetic::div_mod::lemma_fundamental_div_mod(m as int, pow2(right as nat) as int);
            vstd::arithmetic::div_mod::lemma_mod_bound(m as int, pow2(right as nat) as int);
        }
        let top: u128 = m >> right;
        let half: u128 = 1u128 << (right - 1);
        proof {
            let pr = pow2(right as nat) as int;
            assert(top == m as int / pr);
            assert(half as int * 2 == pr);
            assert(top * half + top * half <= m) by (nonlinear_arith)
                requires
                    m == pr * top + m as int % pr,
                    m as int % pr >= 0,
                    pr == 2 * half,
            ;
            assert(top * half >= 0) by (nonlinear_arith);
            lemma_top_bits(m as nat, len as nat, right as nat, p as nat, q as nat);
        }
        let rem: u128 = (m - top * half) - top * half;
        sig = top as u64;
        up = rem > half || (rem == half && (sticky || sig % 2 == 1));
        proof {
            let pr = pow2(right as nat) as int;
            assert(top * half + top * half == top * pr) by (nonlinear_arith)
                requires
                    pr == 2 * half,
            ;
            assert(rem == m as int % pr) by (nonlinear_arith)
                requires
                    rem == m - top * pr,
                    m == pr * top + m as int % pr,
            ;
            assert forall|num: int, den: int| #[trigger]
                encloses(m as nat, e as int, sticky, num, den) implies nearest(
                p as nat,
                inf as nat,
                (if q * h + sig + (if up {
                    1int
                } else {
                    0
                }) < inf {
                    q * h + sig + if up {
                        1int
                    } else {
                        0
                    }
                } else {
                    inf as int
                }) as nat,
                num,
                den,
            ) by {
                lemma_round_right(
                    p as nat,
                    inf as nat,
                    m as int,
                    e as int,
                    sticky,
                    q as nat,
                    right as nat,
                    sig as nat,
                    rem as int,
                    half as int,
                    up,
                    num,
                    den,
                );
            }
        }
    } else {
        proof {
            assert(q == 0);
            assert forall|num: int, den: int| #[trigger]
                encloses(m as nat, e as int, sticky, num, den) implies nearest(
                p as nat,
                inf as nat,
                0,
                num,
                den,
            ) by {
                let dn = pow2((-e) as nat) as int;
                vstd::arithmetic::power2::lemma_pow2_adds(64, 63);
                vstd::arithmetic::power2::lemma_pow2_unfold(128);
                if -e > 128 {
                    vstd::arithmetic::power2::lemma_pow2_strictly_increases(128, (-e) as nat);
                }
                assert(2 * (m + 1) <= dn);
                assert(2 * num < den) by (nonlinear_arith)
                    requires
                        num * dn < (m + 1) * (1 * den),
                        2 * (m + 1) <= dn,
                        dn > 0,
                        den > 0,
                ;
                assert(magnitude(p as nat, 0) == 0 && magnitude(p as nat, 1) == 1) by {
                    lemma_magnitude_of_parts(p as nat, 0, 0);
                    lemma_magnitude_of_parts(p as nat, 0, 1);
                }
            }
        }
    }
    proof {
        assert(q * h + sig + 1 <= u64::MAX) by (nonlinear_arith)
            requires
                q <= 3227,
                q >= 0,
                h <= 0x10_0000_0000_0000,
                sig <= 0x20_0000_0000_0000,
        ;
        assert(q * h >= 0) by (nonlinear_arith)
            requires
                q >= 0,
                h >= 0,
        ;
    }
    let mut k: u64 = q as u64 * h + sig;
    if up {
        k = k + 1;
    }
    if k > inf {
        k = inf;
    }
    proof {
        assert forall|num: int, den: int| #[trigger]
            encloses(m as nat, e as int, sticky, num, den) implies k == round_to_nearest(
            p as nat,
            inf as nat,
            num,
            den,
        ) by {
            lemma_round_to_nearest(p as nat, inf as nat, k as nat, num, den);
        }
    }
    k
}

} // verus!

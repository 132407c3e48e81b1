//! Rounding to a binary floating-point format.
//!
//! The non-negative numbers of a format are counted upwards from zero: number
//! `k` is the one whose bit pattern, read as an unsigned integer, is `k`. Its
//! value is measured in units of the smallest positive number of the format,
//! so that every value is an integer.
use vstd::prelude::*;
use vstd::arithmetic::power2::pow2;

verus! {

/// Half the number of significands of a full binade: the first normal number.
pub open spec fn first_normal(p: nat) -> nat {
    pow2((p - 1) as nat)
}

/// The value of number `k` of a format with `p` significant bits, in units of
/// the smallest positive number.
pub open spec fn magnitude(p: nat, k: nat) -> nat {
    let h = first_normal(p);
    if k < h {
        k
    } else {
        (h + k % h) * pow2((k / h - 1) as nat)
    }
}

/// `k` is the number closest to `num / den`, an even `k` winning a tie. The
/// number `inf` stands for everything from the first value that is too large.
pub open spec fn nearest(p: nat, inf: nat, k: nat, num: int, den: int) -> bool {
    &&& k <= inf
    &&& k > 0 ==> {
        let low = (magnitude(p, (k - 1) as nat) + magnitude(p, k)) * den;
        2 * num > low || (2 * num == low && k % 2 == 0)
    }
    &&& k < inf ==> {
        let high = (magnitude(p, k) + magnitude(p, k + 1)) * den;
        2 * num < high || (2 * num == high && k % 2 == 0)
    }
}

/// The number to which `num / den` is rounded.
pub open spec fn round_to_nearest(p: nat, inf: nat, num: int, den: int) -> nat {
    choose|k: nat| nearest(p, inf, k, num, den)
}

/// Powers of two that the proofs need by value.
pub proof fn lemma_pow2_step(e: nat)
    ensures
        pow2(e) > 0,
        pow2(e + 1) == 2 * pow2(e),
        pow2(0) == 1,
        pow2(1) == 2,
{
    vstd::arithmetic::power2::lemma_pow2_pos(e);
    vstd::arithmetic::power2::lemma_pow2_unfold(e + 1);
    vstd::arithmetic::power2::lemma2_to64();
}

/// A significand `sig` at binade `q` is number `q * 2^(p - 1) + sig`.
pub proof fn lemma_magnitude_of_parts(p: nat, q: nat, sig: nat)
    requires
        p >= 1,
        sig <= 2 * first_normal(p),
        q == 0 || sig >= first_normal(p),
    ensures
        magnitude(p, q * first_normal(p) + sig) == sig * pow2(q),
{
    let h = first_normal(p);
    let k = q * h + sig;
    lemma_pow2_step((p - 1) as nat);
    lemma_pow2_step(q);
    if sig < h {
        assert(k == sig) by (nonlinear_arith)
            requires
                k == q * h + sig,
                q == 0,
        ;
    } else {
        let r = (sig - h) as nat;
        if r < h {
            assert(k == (q + 1) * h + r) by (nonlinear_arith)
                requires
                    k == q * h + sig,
                    sig == h + r,
            ;
            vstd::arithmetic::div_mod::lemma_fundamental_div_mod_converse(
                k as int,
                h as int,
                (q + 1) as int,
                r as int,
            );
        } else {
            assert(k == (q + 2) * h + 0) by (nonlinear_arith)
                requires
                    k == q * h + sig,
                    sig == 2 * h,
            ;
            vstd::arithmetic::div_mod::lemma_fundamental_div_mod_converse(
                k as int,
                h as int,
                (q + 2) as int,
                0,
            );
            assert(h * (2 * pow2(q)) == (2 * h) * pow2(q)) by (nonlinear_arith);
        }
        assert(k >= h) by (nonlinear_arith)
            requires
                k == q * h + sig,
                sig >= h,
        ;
    }
}

/// The binade of number `k`.
pub open spec fn binade(p: nat, k: nat) -> nat {
    let h = first_normal(p);
    if k < 2 * h {
        0
    } else {
        (k / h - 1) as nat
    }
}

/// The significand of number `k` within its binade.
pub open spec fn significand(p: nat, k: nat) -> nat {
    let h = first_normal(p);
    if k < 2 * h {
        k
    } else {
        h + k % h
    }
}

pub proof fn lemma_parts_of_number(p: nat, k: nat)
    requires
        p >= 1,
    ensures
        k == binade(p, k) * first_normal(p) + significand(p, k),
        significand(p, k) < 2 * first_normal(p),
        binade(p, k) == 0 || significand(p, k) >= first_normal(p),
        magnitude(p, k) == significand(p, k) * pow2(binade(p, k)),
        magnitude(p, k + 1) == magnitude(p, k) + pow2(binade(p, k)),
        pow2(binade(p, k)) >= 1,
        magnitude(p, k) < magnitude(p, k + 1),
{
    let h = first_normal(p);
    let q = binade(p, k);
    let s = significand(p, k);
    lemma_pow2_step((p - 1) as nat);
    lemma_pow2_step(q);
    if k >= 2 * h {
        vstd::arithmetic::div_mod::lemma_fundamental_div_mod(k as int, h as int);
        vstd::arithmetic::div_mod::lemma_mod_bound(k as int, h as int);
        assert(k / h >= 2) by (nonlinear_arith)
            requires
                k >= 2 * h,
                h > 0,
        ;
        assert(k == q * h + s) by (nonlinear_arith)
            requires
                k == h * (k / h) + k % h,
                q == k / h - 1,
                s == h + k % h,
        ;
    } else {
        assert(0 * h == 0);
    }
    lemma_magnitude_of_parts(p, q, s);
    lemma_magnitude_of_parts(p, q, s + 1);
    assert((s + 1) * pow2(q) == s * pow2(q) + pow2(q)) by (nonlinear_arith);
}

/// Counting upwards visits the values in increasing order.
pub proof fn lemma_magnitude_increases(p: nat, j: nat, k: nat)
    requires
        p >= 1,
        j < k,
    ensures
        magnitude(p, j) < magnitude(p, k),
    decreases k - j,
{
    lemma_parts_of_number(p, j);
    if j + 1 < k {
        lemma_magnitude_increases(p, j + 1, k);
    }
}

/// At most one number is nearest.
pub proof fn lemma_nearest_is_unique(p: nat, inf: nat, j: nat, k: nat, num: int, den: int)
    requires
        p >= 1,
        den > 0,
        nearest(p, inf, j, num, den),
        nearest(p, inf, k, num, den),
    ensures
        j == k,
{
    lemma_nearest_is_not_below(p, inf, j, k, num, den);
    lemma_nearest_is_not_below(p, inf, k, j, num, den);
}

proof fn lemma_nearest_is_not_below(p: nat, inf: nat, j: nat, k: nat, num: int, den: int)
    requires
        p >= 1,
        den > 0,
        nearest(p, inf, j, num, den),
        nearest(p, inf, k, num, den),
    ensures
        k <= j,
{
    if j < k {
        let above_j = magnitude(p, j) + magnitude(p, j + 1);
        let below_k = magnitude(p, (k - 1) as nat) + magnitude(p, k);
        lemma_parts_of_number(p, j);
        if j + 1 < k {
            lemma_magnitude_increases(p, j + 1, k);
            if j + 1 < k - 1 {
                lemma_magnitude_increases(p, j + 1, (k - 1) as nat);
            }
            assert(above_j < below_k);
            assert(above_j * den < below_k * den) by (nonlinear_arith)
                requires
                    above_j < below_k,
                    den > 0,
            ;
        } else {
            assert(above_j == below_k);
        }
    }
}

pub proof fn lemma_round_to_nearest(p: nat, inf: nat, k: nat, num: int, den: int)
    requires
        p >= 1,
        den > 0,
        nearest(p, inf, k, num, den),
    ensures
        round_to_nearest(p, inf, num, den) == k,
{
    lemma_nearest_is_unique(p, inf, k, round_to_nearest(p, inf, num, den), num, den);
}

} // verus!

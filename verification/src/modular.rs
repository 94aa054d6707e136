//! Overflow-free modular arithmetic on 64-bit integers.

use vstd::arithmetic::div_mod::*;
use vstd::arithmetic::mul::*;
use vstd::arithmetic::power::*;
use vstd::prelude::*;

verus! {

/// `g` is the greatest common divisor of `a` and `b`; by convention the
/// greatest common divisor of zero and zero is zero.
pub open spec fn is_gcd(a: nat, b: nat, g: nat) -> bool {
    if a == 0 && b == 0 {
        g == 0
    } else {
        &&& g > 0
        &&& a % g == 0
        &&& b % g == 0
        &&& forall|d: nat| d > 0 && #[trigger] (a % d) == 0 && #[trigger] (b % d) == 0 ==> d <= g
    }
}

/// A sum of two multiples of `d` is a multiple of `d`.
pub proof fn lemma_mod_zero_combination(q: int, b: int, r: int, d: int)
    requires
        d > 0,
        b % d == 0,
        r % d == 0,
    ensures
        (q * b + r) % d == 0,
{
    lemma_fundamental_div_mod(b, d);
    lemma_fundamental_div_mod(r, d);
    assert(q * b + r == (q * (b / d) + r / d) * d) by (nonlinear_arith)
        requires
            b == d * (b / d),
            r == d * (r / d),
    ;
    lemma_mod_multiples_basic(q * (b / d) + r / d, d);
}

/// What is left of a multiple of `d` after a multiple of `d` is taken away
/// is a multiple of `d`.
pub proof fn lemma_mod_zero_remainder(q: int, b: int, r: int, d: int)
    requires
        d > 0,
        b % d == 0,
        (q * b + r) % d == 0,
    ensures
        r % d == 0,
{
    lemma_mod_zero_combination(-q, b, q * b + r, d);
    assert((-q) * b + (q * b + r) == r) by (nonlinear_arith);
}

/// `(a * b) mod m`, computed through a 128-bit product.
pub fn mod_mul(a: u64, b: u64, m: u64) -> (r: u64)
    requires
        m > 0,
    ensures
        r == (a * b) % (m as int),
{
    assert(a * b <= 0xFFFF_FFFF_FFFF_FFFF * 0xFFFF_FFFF_FFFF_FFFF) by (nonlinear_arith)
        requires
            0 <= a <= 0xFFFF_FFFF_FFFF_FFFF,
            0 <= b <= 0xFFFF_FFFF_FFFF_FFFF,
    ;
    let wide: u128 = (a as u128) * (b as u128);
    (wide % (m as u128)) as u64
}

/// `base^exp mod m` by repeated squaring.
pub fn mod_pow(base: u64, exp: u64, m: u64) -> (r: u64)
    requires
        m > 0,
    ensures
        r == pow(base as int, exp as nat) % (m as int),
{
    let mut res: u64 = 1 % m;
    let mut b: u64 = base % m;
    let mut e: u64 = exp;
    proof {
        lemma_pow_mod_noop(base as int, exp as nat, m as int);
        lemma_mul_mod_noop_left(1, pow(b as int, e as nat), m as int);
    }
    while e > 0
        invariant
            m > 0,
            res < m,
            b < m,
            (res * pow(b as int, e as nat)) % (m as int) == pow(base as int, exp as nat) % (
            m as int),
        decreases e,
    {
        let ghost old_res = res as int;
        let ghost old_b = b as int;
        let ghost old_e = e as nat;
        let ghost mi = m as int;
        if e % 2 == 1 {
            res = mod_mul(res, b, m);
        }
        b = mod_mul(b, b, m);
        e = e / 2;
        proof {
            let half = e as nat;
            let sq = old_b * old_b;
            // pow(old_b, old_e) splits into a power of the square and one odd factor
            lemma_pow_multiplies(old_b, 2, half);
            lemma_square_is_pow2(old_b);
            assert(pow(old_b, 2 * half) == pow(sq, half));
            lemma_pow_mod_noop(sq, half, mi);
            assert(pow(b as int, half) % mi == pow(sq, half) % mi);
            if old_e % 2 == 1 {
                assert(old_e == 2 * half + 1);
                lemma_pow_adds(old_b, 2 * half, 1);
                lemma_pow1(old_b);
                assert(pow(old_b, old_e) == pow(sq, half) * old_b);
                assert(old_res * pow(old_b, old_e) == (old_res * old_b) * pow(sq, half))
                    by (nonlinear_arith)
                    requires
                        pow(old_b, old_e) == pow(sq, half) * old_b,
                ;
                lemma_mul_mod_noop_general(old_res * old_b, pow(sq, half), mi);
                lemma_mul_mod_noop_general(res as int, pow(b as int, half), mi);
            } else {
                assert(old_e == 2 * half);
                lemma_mul_mod_noop_general(old_res, pow(sq, half), mi);
                lemma_mul_mod_noop_general(res as int, pow(b as int, half), mi);
            }
        }
    }
    proof {
        lemma_pow0(b as int);
        lemma_small_mod(res as nat, m as nat);
    }
    res
}

/// The greatest common divisor of `a` and `b`, by Euclid's algorithm.
pub fn gcd(a: u64, b: u64) -> (g: u64)
    ensures
        is_gcd(a as nat, b as nat, g as nat),
    decreases b,
{
    if b == 0 {
        proof {
            if a != 0 {
                lemma_mod_self_0(a as int);
                assert forall|d: nat| d > 0 && #[trigger] (a as nat % d) == 0 && #[trigger] (0nat
                    % d) == 0 implies d <= a by {
                    if d > a {
                        lemma_small_mod(a as nat, d);
                    }
                }
            }
        }
        a
    } else {
        let r = a % b;
        let g = gcd(b, r);
        proof {
            let q = (a / b) as int;
            lemma_fundamental_div_mod(a as int, b as int);
            assert(a as int == q * (b as int) + (r as int)) by (nonlinear_arith)
                requires
                    a as int == (b as int) * q + (r as int),
            ;
            lemma_mod_zero_combination(q, b as int, r as int, g as int);
            assert forall|d: nat| d > 0 && #[trigger] (a as nat % d) == 0 && #[trigger] (b as nat
                % d) == 0 implies d <= g by {
                lemma_mod_zero_remainder(q, b as int, r as int, d as int);
                assert(r as nat % d == 0);
            }
        }
        g
    }
}

} // verus!

//! The Miller-Rabin primality test on 64-bit integers.

use crate::modular::{mod_mul, mod_pow};
use crate::number_theory::{is_prime, lemma_fermat, lemma_square_root_of_one};
use vstd::arithmetic::div_mod::*;
use vstd::arithmetic::mul::*;
use vstd::arithmetic::power::*;
use vstd::arithmetic::power2::*;
use vstd::prelude::*;

verus! {

/// The bases against which a candidate is tested. No prime fails the test
/// to any base, which is proved below. That a number below 2^64 which
/// passes the test to all twelve is prime is a published computation and is
/// not proved here.
pub const MILLER_RABIN_BASES: [u64; 12] = [2, 3, 5, 7, 11, 13, 17, 19, 23, 29, 31, 37];

/// The odd number `d` with `m == d * 2^s`, for positive `m`.
pub open spec fn odd_part(m: nat) -> nat
    decreases m,
{
    if m == 0 || m % 2 == 1 {
        m
    } else {
        odd_part(m / 2)
    }
}

/// The exponent `s` with `m == d * 2^s` and `d` odd, for positive `m`.
pub open spec fn two_exponent(m: nat) -> nat
    decreases m,
{
    if m == 0 || m % 2 == 1 {
        0
    } else {
        1 + two_exponent(m / 2)
    }
}

/// `a^(d * 2^r) mod n`, where `d` is the odd part of `n - 1`.
pub open spec fn squared_power(n: nat, a: nat, r: nat) -> int {
    pow(a as int, odd_part((n - 1) as nat) * pow2(r)) % (n as int)
}

/// `n` is a strong probable prime to base `a`: with `n - 1 == d * 2^s` and
/// `d` odd, either `a^d` is 1 modulo `n`, or one of `a^d`, `a^(2d)`, ...,
/// `a^(2^(s-1) d)` is -1 modulo `n`.
pub open spec fn strong_probable_prime(n: nat, a: nat) -> bool {
    ||| squared_power(n, a, 0) == 1
    ||| exists|r: nat|
        r < two_exponent((n - 1) as nat) && #[trigger] squared_power(n, a, r) == n - 1
}

/// The verdict of the Miller-Rabin test with the twelve fixed bases: 2 and 3
/// are accepted, other multiples of 2 and 3 and numbers below 2 are
/// rejected, and any other `n` is accepted when it is a strong probable
/// prime to every base smaller than `n`.
pub open spec fn miller_rabin_accepts(n: nat) -> bool {
    ||| n == 2
    ||| n == 3
    ||| {
        &&& n >= 5
        &&& n % 2 != 0
        &&& n % 3 != 0
        &&& forall|i: int|
            0 <= i < 12 && MILLER_RABIN_BASES[i] < n ==> strong_probable_prime(
                n,
                #[trigger] MILLER_RABIN_BASES[i] as nat,
            )
    }
}

/// Squaring `a^(d * 2^r) mod n` gives `a^(d * 2^(r+1)) mod n`.
pub proof fn lemma_squared_power_step(n: nat, a: nat, r: nat)
    requires
        n > 0,
    ensures
        squared_power(n, a, r + 1) == (squared_power(n, a, r) * squared_power(n, a, r)) % (
        n as int),
{
    let d = odd_part((n - 1) as nat);
    let e = d * pow2(r);
    let p = pow(a as int, e);
    lemma_pow2_unfold(r + 1);
    assert(d * pow2(r + 1) == e * 2) by (nonlinear_arith)
        requires
            pow2(r + 1) == 2 * pow2(r),
            e == d * pow2(r),
    ;
    lemma_pow_multiplies(a as int, e, 2);
    lemma_square_is_pow2(p);
    assert(pow(a as int, e * 2) == p * p);
    lemma_mul_mod_noop_general(p, p, n as int);
}

/// A positive number is its odd part times a power of two.
pub proof fn lemma_odd_part_decomposition(m: nat)
    requires
        m > 0,
    ensures
        odd_part(m) * pow2(two_exponent(m)) == m,
        odd_part(m) % 2 == 1,
    decreases m,
{
    lemma2_to64();
    if m % 2 == 1 {
        assert(m * 1 == m) by (nonlinear_arith);
    } else {
        let half = m / 2;
        lemma_odd_part_decomposition(half);
        lemma_pow2_unfold(two_exponent(m));
        let d = odd_part(half);
        let x = pow2(two_exponent(half));
        assert(d * (2 * x) == m) by (nonlinear_arith)
            requires
                d * x == half,
                m == 2 * half,
        ;
    }
}

/// Modulo a prime, a chain of squarings that arrives at 1 started at 1 or
/// passed through -1.
proof fn lemma_chain_before_one(n: nat, a: nat, r: nat)
    requires
        is_prime(n),
        n >= 3,
        squared_power(n, a, r) == 1,
    ensures
        squared_power(n, a, 0) == 1 || exists|j: nat|
            j < r && #[trigger] squared_power(n, a, j) == n - 1,
    decreases r,
{
    if r > 0 {
        let before = (r - 1) as nat;
        let x = squared_power(n, a, before);
        lemma_squared_power_step(n, a, before);
        lemma_mod_bound(pow(a as int, odd_part((n - 1) as nat) * pow2(before)), n as int);
        lemma_square_root_of_one(n, x as nat);
        if x == 1 {
            lemma_chain_before_one(n, a, before);
        } else {
            assert(before < r && squared_power(n, a, before) == n - 1);
        }
    }
}

/// A prime is a strong probable prime to every base that it does not
/// divide.
pub proof fn lemma_prime_is_strong_probable_prime(n: nat, a: nat)
    requires
        is_prime(n),
        n >= 3,
        a % n != 0,
    ensures
        strong_probable_prime(n, a),
{
    let m = (n - 1) as nat;
    lemma_odd_part_decomposition(m);
    lemma_fermat(n, a);
    assert(squared_power(n, a, two_exponent(m)) == 1);
    lemma_chain_before_one(n, a, two_exponent(m));
}

/// The test accepts every prime: a number that it rejects is composite or
/// below 2.
pub proof fn lemma_primes_are_accepted(n: nat)
    requires
        is_prime(n),
    ensures
        miller_rabin_accepts(n),
{
    if n > 3 {
        assert(n % 2 != 0);
        assert(n % 3 != 0);
        assert forall|i: int|
            0 <= i < 12 && MILLER_RABIN_BASES[i] < n implies strong_probable_prime(
            n,
            #[trigger] MILLER_RABIN_BASES[i] as nat,
        ) by {
            let a = MILLER_RABIN_BASES[i] as nat;
            assert(a >= 2);
            lemma_small_mod(a, n);
            lemma_prime_is_strong_probable_prime(n, a);
        }
    }
}

/// Whether `n` is a strong probable prime to base `a`, given the odd part
/// `d` and the exponent `s` of `n - 1`.
fn passes_base(n: u64, a: u64, d: u64, s: u64) -> (ok: bool)
    requires
        n >= 5,
        n % 2 == 1,
        d == odd_part((n - 1) as nat),
        s == two_exponent((n - 1) as nat),
    ensures
        ok == strong_probable_prime(n as nat, a as nat),
{
    let mut x = mod_pow(a, d, n);
    proof {
        lemma2_to64();
        assert(d * pow2(0) == d) by (nonlinear_arith)
            requires
                pow2(0) == 1,
        ;
        assert(x == squared_power(n as nat, a as nat, 0));
    }
    if x == 1 || x == n - 1 {
        if x != 1 {
            // n - 1 is even and at least 4, so s is at least 1
            assert(two_exponent((n - 1) as nat) >= 1);
            assert(0 < s && squared_power(n as nat, a as nat, 0) == n - 1);
        }
        return true;
    }
    let mut r: u64 = 1;
    while r < s
        invariant
            n >= 5,
            s == two_exponent((n - 1) as nat),
            1 <= r,
            x == squared_power(n as nat, a as nat, (r - 1) as nat),
            squared_power(n as nat, a as nat, 0) != 1,
            forall|k: nat| k < r ==> #[trigger] squared_power(n as nat, a as nat, k) != n - 1,
        decreases s - r,
    {
        proof {
            lemma_squared_power_step(n as nat, a as nat, (r - 1) as nat);
        }
        x = mod_mul(x, x, n);
        if x == n - 1 {
            assert(squared_power(n as nat, a as nat, r as nat) == n - 1);
            return true;
        }
        r = r + 1;
    }
    false
}

/// The Miller-Rabin test with the twelve fixed bases.
pub fn is_prime_miller_rabin(n: u64) -> (accepted: bool)
    ensures
        accepted == miller_rabin_accepts(n as nat),
{
    if n < 2 {
        return false;
    }
    if n == 2 || n == 3 {
        return true;
    }
    if n % 2 == 0 || n % 3 == 0 {
        return false;
    }
    let mut d: u64 = n - 1;
    let mut s: u64 = 0;
    while d % 2 == 0
        invariant
            d >= 1,
            odd_part(d as nat) == odd_part((n - 1) as nat),
            two_exponent(d as nat) + s == two_exponent((n - 1) as nat),
            s + d <= n - 1,
        decreases d,
    {
        d = d / 2;
        s = s + 1;
    }
    let mut i: usize = 0;
    while i < 12
        invariant
            n >= 5,
            n % 2 == 1,
            i <= 12,
            d == odd_part((n - 1) as nat),
            s == two_exponent((n - 1) as nat),
            forall|j: int|
                0 <= j < i && MILLER_RABIN_BASES[j] < n ==> strong_probable_prime(
                    n as nat,
                    #[trigger] MILLER_RABIN_BASES[j] as nat,
                ),
        decreases 12 - i,
    {
        let a = MILLER_RABIN_BASES[i];
        if a < n {
            if !passes_base(n, a, d, s) {
                return false;
            }
        }
        i = i + 1;
    }
    true
}

} // verus!

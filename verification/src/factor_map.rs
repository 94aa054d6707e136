//! The map of a factorization: each factor with its multiplicity, and the
//! product that the map stands for.

use crate::number_theory::{
    is_prime,
    lemma_divisor_at_most,
    lemma_multiple_times,
    lemma_pow_base_increases,
    lemma_prime_divides_product,
};
use crate::primality::miller_rabin_accepts;
use std::collections::BTreeMap;
use vstd::arithmetic::div_mod::*;
use vstd::arithmetic::power::*;
use vstd::arithmetic::power2::*;
use vstd::prelude::*;

verus! {

/// The product of `p^e` over the entries `p => e` of `f` with `p < bound`.
pub open spec fn factor_product_below(f: Map<u64, i64>, bound: nat) -> int
    decreases bound,
{
    if bound == 0 {
        1
    } else {
        let p = (bound - 1) as nat;
        let rest = factor_product_below(f, p);
        if p <= u64::MAX && f.contains_key(p as u64) {
            rest * pow(p as int, f[p as u64] as nat)
        } else {
            rest
        }
    }
}

/// The product of `p^e` over all entries `p => e` of `f`.
pub open spec fn factor_product(f: Map<u64, i64>) -> int {
    factor_product_below(f, 0x1_0000_0000_0000_0000)
}

/// Every key is at least 2 and accepted by the Miller-Rabin test, and
/// every exponent is positive.
pub open spec fn well_formed_factors(f: Map<u64, i64>) -> bool {
    forall|p: u64| #[trigger]
        f.contains_key(p) ==> p >= 2 && f[p] >= 1 && miller_rabin_accepts(p as nat)
}

/// How often `p` occurs in `f`.
pub open spec fn exponent_of(f: Map<u64, i64>, p: u64) -> int {
    if f.contains_key(p) {
        f[p] as int
    } else {
        0
    }
}

/// The empty product is 1.
pub proof fn lemma_product_of_empty(bound: nat)
    ensures
        factor_product_below(Map::<u64, i64>::empty(), bound) == 1,
    decreases bound,
{
    if bound > 0 {
        lemma_product_of_empty((bound - 1) as nat);
    }
}

/// A product over positive keys is positive.
pub proof fn lemma_product_positive(f: Map<u64, i64>, bound: nat)
    requires
        forall|p: u64| #[trigger] f.contains_key(p) ==> p >= 1,
    ensures
        factor_product_below(f, bound) >= 1,
    decreases bound,
{
    if bound > 0 {
        let q = (bound - 1) as nat;
        lemma_product_positive(f, q);
        if q <= u64::MAX && f.contains_key(q as u64) {
            let x = pow(q as int, f[q as u64] as nat);
            lemma_pow_positive(q as int, f[q as u64] as nat);
            assert(factor_product_below(f, q) * x >= 1) by (nonlinear_arith)
                requires
                    factor_product_below(f, q) >= 1,
                    x >= 1,
            ;
        }
    }
}

/// Setting the exponent of `p` to `e` multiplies the product of the other
/// entries by `p^e`.
pub proof fn lemma_product_insert(f: Map<u64, i64>, p: u64, e: i64, bound: nat)
    ensures
        factor_product_below(f.insert(p, e), bound) == factor_product_below(f.remove(p), bound)
            * (if p < bound {
            pow(p as int, e as nat)
        } else {
            1
        }),
    decreases bound,
{
    if bound > 0 {
        let q = (bound - 1) as nat;
        lemma_product_insert(f, p, e, q);
        let g = f.insert(p, e);
        let h = f.remove(p);
        let a = factor_product_below(h, q);
        if q == p {
            assert(g.contains_key(q as u64) && g[q as u64] == e);
            assert(!h.contains_key(q as u64));
            assert(factor_product_below(g, q) == a * 1);
            assert(factor_product_below(g, q) == a) by (nonlinear_arith)
                requires
                    factor_product_below(g, q) == a * 1,
            ;
        } else if q <= u64::MAX && f.contains_key(q as u64) {
            let x = pow(q as int, f[q as u64] as nat);
            let m = if p < q {
                pow(p as int, e as nat)
            } else {
                1
            };
            assert(g.contains_key(q as u64) && g[q as u64] == f[q as u64]);
            assert(h.contains_key(q as u64) && h[q as u64] == f[q as u64]);
            assert((a * m) * x == (a * x) * m) by (nonlinear_arith);
        } else {
            assert(q > u64::MAX || !g.contains_key(q as u64));
            assert(q > u64::MAX || !h.contains_key(q as u64));
        }
    }
}

/// One more occurrence of `p` multiplies the product by `p`.
pub proof fn lemma_product_with_one_more(f: Map<u64, i64>, p: u64)
    requires
        0 <= exponent_of(f, p) < i64::MAX,
    ensures
        factor_product(f.insert(p, (exponent_of(f, p) + 1) as i64)) == factor_product(f) * p,
{
    let bound: nat = 0x1_0000_0000_0000_0000;
    let e0 = exponent_of(f, p);
    let h = f.remove(p);
    let a = factor_product_below(h, bound);
    lemma_product_insert(f, p, (e0 + 1) as i64, bound);
    lemma_pow_adds(p as int, e0 as nat, 1);
    lemma_pow1(p as int);
    let x = pow(p as int, e0 as nat);
    assert(pow(p as int, (e0 + 1) as nat) == x * p);
    assert(a * (x * p) == (a * x) * p) by (nonlinear_arith);
    if f.contains_key(p) {
        assert(f =~= h.insert(p, f[p]));
        assert(h.remove(p) =~= h);
        lemma_product_insert(h, p, f[p], bound);
    } else {
        assert(h =~= f);
        lemma_pow0(p as int);
        assert(a * 1 == a) by (nonlinear_arith);
    }
}

/// Every key of a map with positive exponents divides the product.
pub proof fn lemma_key_divides_product(f: Map<u64, i64>, p: u64, bound: nat)
    requires
        f.contains_key(p),
        f[p] >= 1,
        p >= 1,
        p < bound,
    ensures
        factor_product_below(f, bound) % (p as int) == 0,
    decreases bound,
{
    let q = (bound - 1) as nat;
    let rest = factor_product_below(f, q);
    if q == p {
        let e = f[p] as nat;
        lemma_pow_adds(p as int, (e - 1) as nat, 1);
        lemma_pow1(p as int);
        let y = pow(p as int, (e - 1) as nat);
        assert(pow(p as int, e) == y * p);
        assert(rest * (y * p) == (rest * y) * p) by (nonlinear_arith);
        lemma_mod_multiples_basic(rest * y, p as int);
    } else {
        lemma_key_divides_product(f, p, q);
        if q <= u64::MAX && f.contains_key(q as u64) {
            lemma_multiple_times(rest, pow(q as int, f[q as u64] as nat), p as int);
        }
    }
}

/// The power of a key is at most the product.
pub proof fn lemma_key_power_at_most_product(f: Map<u64, i64>, p: u64, bound: nat)
    requires
        forall|k: u64| #[trigger] f.contains_key(k) ==> k >= 1,
        f.contains_key(p),
        p < bound,
    ensures
        pow(p as int, f[p] as nat) <= factor_product_below(f, bound),
    decreases bound,
{
    let q = (bound - 1) as nat;
    let rest = factor_product_below(f, q);
    lemma_product_positive(f, q);
    if q == p {
        let x = pow(p as int, f[p] as nat);
        lemma_pow_positive(p as int, f[p] as nat);
        assert(x <= rest * x) by (nonlinear_arith)
            requires
                rest >= 1,
                x >= 1,
        ;
    } else {
        lemma_key_power_at_most_product(f, p, q);
        if q <= u64::MAX && f.contains_key(q as u64) {
            let x = pow(q as int, f[q as u64] as nat);
            lemma_pow_positive(q as int, f[q as u64] as nat);
            assert(rest <= rest * x) by (nonlinear_arith)
                requires
                    rest >= 1,
                    x >= 1,
            ;
        }
    }
}

/// In a map whose product fits in 64 bits no exponent reaches 64.
pub proof fn lemma_exponent_below_64(f: Map<u64, i64>, p: u64)
    requires
        well_formed_factors(f),
        f.contains_key(p),
        factor_product(f) <= u64::MAX,
    ensures
        f[p] < 64,
{
    let e = f[p] as nat;
    lemma_key_power_at_most_product(f, p, 0x1_0000_0000_0000_0000);
    lemma_pow_base_increases(2, p as int, e);
    if e >= 64 {
        lemma_pow_increases(2, 64, e);
        lemma_pow2(64);
        lemma2_to64();
    }
}

/// A map over a prime `n` whose product is `n` holds `n` once and nothing
/// else.
pub proof fn lemma_factors_of_prime(f: Map<u64, i64>, n: u64)
    requires
        is_prime(n as nat),
        well_formed_factors(f),
        factor_product(f) == n,
    ensures
        f =~= map![n => 1i64],
{
    let bound: nat = 0x1_0000_0000_0000_0000;
    let nothing = Map::<u64, i64>::empty();
    assert forall|p: u64| f.contains_key(p) implies p == n by {
        lemma_key_divides_product(f, p, bound);
        lemma_divisor_at_most(n as nat, p as nat);
        assert((n as nat) % (p as nat) == 0);
    }
    lemma_product_of_empty(bound);
    if !f.contains_key(n) {
        assert(f =~= nothing);
    }
    let e = f[n];
    assert(f =~= nothing.insert(n, e));
    lemma_product_insert(nothing, n, e, bound);
    assert(nothing.remove(n) =~= nothing);
    assert(1 * pow(n as int, e as nat) == pow(n as int, e as nat)) by (nonlinear_arith);
    lemma_pow1(n as int);
    if e >= 2 {
        lemma_pow_strictly_increases(n as nat, 1, e as nat);
    }
}

/// Every key is a prime and every exponent is positive.
pub open spec fn prime_powers(f: Map<u64, i64>) -> bool {
    forall|p: u64| #[trigger] f.contains_key(p) ==> is_prime(p as nat) && f[p] >= 1
}

/// The map with one occurrence of `p` less.
pub open spec fn with_one_less(f: Map<u64, i64>, p: u64) -> Map<u64, i64> {
    if f[p] > 1 {
        f.insert(p, (f[p] - 1) as i64)
    } else {
        f.remove(p)
    }
}

/// A prime that divides a power divides its base.
pub proof fn lemma_prime_divides_power(q: nat, b: int, e: nat)
    requires
        is_prime(q),
        pow(b, e) % (q as int) == 0,
    ensures
        b % (q as int) == 0,
    decreases e,
{
    if e == 0 {
        lemma_pow0(b);
        lemma_small_mod(1, q);
    } else {
        let before = (e - 1) as nat;
        lemma_pow_adds(b, before, 1);
        lemma_pow1(b);
        assert(pow(b, e) == pow(b, before) * b);
        lemma_prime_divides_product(q, pow(b, before), b);
        if b % (q as int) != 0 {
            lemma_prime_divides_power(q, b, before);
        }
    }
}

/// A prime that divides the product of a map of primes is a key of the
/// map.
pub proof fn lemma_prime_divisor_is_key(g: Map<u64, i64>, q: nat, bound: nat)
    requires
        prime_powers(g),
        is_prime(q),
        factor_product_below(g, bound) % (q as int) == 0,
    ensures
        q < bound,
        q <= u64::MAX,
        g.contains_key(q as u64),
    decreases bound,
{
    if bound == 0 {
        lemma_small_mod(1, q);
    } else {
        let p = (bound - 1) as nat;
        let rest = factor_product_below(g, p);
        if p <= u64::MAX && g.contains_key(p as u64) {
            let e = g[p as u64] as nat;
            lemma_prime_divides_product(q, rest, pow(p as int, e));
            if rest % (q as int) == 0 {
                lemma_prime_divisor_is_key(g, q, p);
            } else {
                lemma_prime_divides_power(q, p as int, e);
                lemma_divisor_at_most(p, q);
                assert(p % q == 0);
            }
        } else {
            lemma_prime_divisor_is_key(g, q, p);
        }
    }
}

/// A number has one prime factorization: two maps of primes with the same
/// product are the same map.
pub proof fn lemma_unique_factorization(f: Map<u64, i64>, g: Map<u64, i64>)
    requires
        prime_powers(f),
        prime_powers(g),
        factor_product(f) == factor_product(g),
    ensures
        f =~= g,
    decreases factor_product(f),
{
    let bound: nat = 0x1_0000_0000_0000_0000;
    lemma_product_positive(f, bound);
    if exists|p: u64| f.contains_key(p) {
        let p = choose|p: u64| f.contains_key(p);
        lemma_key_divides_product(f, p, bound);
        lemma_prime_divisor_is_key(g, p as nat, bound);
        let less_f = with_one_less(f, p);
        let less_g = with_one_less(g, p);
        assert(f =~= less_f.insert(p, (exponent_of(less_f, p) + 1) as i64));
        assert(g =~= less_g.insert(p, (exponent_of(less_g, p) + 1) as i64));
        lemma_product_with_one_more(less_f, p);
        lemma_product_with_one_more(less_g, p);
        lemma_product_positive(less_f, bound);
        let a = factor_product(less_f);
        let b = factor_product(less_g);
        assert(a == b && a < factor_product(f)) by (nonlinear_arith)
            requires
                a * p == b * p,
                a * p == factor_product(f),
                a >= 1,
                p >= 2,
        ;
        lemma_unique_factorization(less_f, less_g);
    } else {
        assert(f =~= Map::<u64, i64>::empty());
        lemma_product_of_empty(bound);
        if exists|q: u64| g.contains_key(q) {
            let q = choose|q: u64| g.contains_key(q);
            lemma_key_divides_product(g, q, bound);
            lemma_small_mod(1, q as nat);
        }
    }
}

/// Adds one occurrence of `p` to the map.
pub fn record_factor(factors: &mut BTreeMap<u64, i64>, p: u64)
    requires
        well_formed_factors(old(factors)@),
        p >= 2,
        miller_rabin_accepts(p as nat),
        factor_product(old(factors)@) * p <= u64::MAX,
    ensures
        well_formed_factors(final(factors)@),
        factor_product(final(factors)@) == factor_product(old(factors)@) * p,
        forall|k: u64|
            final(factors)@.contains_key(k) <==> old(factors)@.contains_key(k) || k == p,
{
    let count: i64 = match factors.get(&p) {
        Some(c) => *c,
        None => 0,
    };
    proof {
        let product = factor_product(factors@);
        lemma_product_positive(factors@, 0x1_0000_0000_0000_0000);
        assert(product <= u64::MAX) by (nonlinear_arith)
            requires
                product >= 1,
                p >= 2,
                product * p <= u64::MAX,
        ;
        if factors@.contains_key(p) {
            lemma_exponent_below_64(factors@, p);
        }
        assert(count == exponent_of(factors@, p));
        lemma_product_with_one_more(factors@, p);
    }
    factors.insert(p, count + 1);
}

} // verus!

//! Prime factorization: trial division by small primes, then Miller-Rabin
//! and Pollard's rho on what is left.

use crate::factor_map::{
    factor_product,
    lemma_factors_of_prime,
    lemma_key_divides_product,
    lemma_product_of_empty,
    lemma_product_positive,
    record_factor,
    well_formed_factors,
};
use crate::number_theory::{
    is_prime,
    lemma_divides_transitive,
    lemma_divisor_at_most,
    lemma_multiple_times,
};
use crate::primality::{is_prime_miller_rabin, lemma_primes_are_accepted, miller_rabin_accepts};
use crate::rho::pollards_rho;
use crate::trial_table::{
    lemma_no_small_divisor,
    lemma_small_key_is_prime,
    lemma_trial_primes_are_prime,
    no_divisor_up_to,
    TRIAL_DIVISION_PRIMES,
};
use std::collections::BTreeMap;
use vstd::arithmetic::div_mod::*;
use vstd::prelude::*;

verus! {

/// Splits `m` into factors that the Miller-Rabin test accepts and records
/// each.
fn split_into_primes(m: u64, factors: &mut BTreeMap<u64, i64>)
    requires
        m >= 2,
        well_formed_factors(old(factors)@),
        factor_product(old(factors)@) * m <= u64::MAX,
    ensures
        well_formed_factors(final(factors)@),
        factor_product(final(factors)@) == factor_product(old(factors)@) * m,
        forall|k: u64|
            final(factors)@.contains_key(k) ==> old(factors)@.contains_key(k) || m % k == 0,
    decreases m,
{
    if is_prime_miller_rabin(m) {
        record_factor(factors, m);
        proof {
            lemma_mod_self_0(m as int);
        }
        return ;
    }
    let d = pollards_rho(m);
    let rest = m / d;
    let ghost before = factor_product(factors@);
    proof {
        lemma_product_positive(factors@, 0x1_0000_0000_0000_0000);
        lemma_fundamental_div_mod(m as int, d as int);
        assert(m == d * rest);
        assert(rest >= 2 && rest < m) by (nonlinear_arith)
            requires
                m == d * rest,
                1 < d < m,
        ;
        assert(before * d <= before * m) by (nonlinear_arith)
            requires
                before >= 1,
                d <= m,
        ;
        assert((before * d) * rest == before * m) by (nonlinear_arith)
            requires
                m == d * rest,
        ;
    }
    split_into_primes(d, factors);
    let ghost between = factors@;
    split_into_primes(rest, factors);
    proof {
        lemma_mod_multiples_basic(d as int, rest as int);
        assert(m % rest == 0) by {
            assert(d * rest == m);
        }
        assert forall|k: u64| factors@.contains_key(k) implies old(factors)@.contains_key(k) || m
            % k == 0 by {
            if !old(factors)@.contains_key(k) {
                if between.contains_key(k) {
                    lemma_divides_transitive(k as nat, d as nat, m as nat);
                } else {
                    lemma_divides_transitive(k as nat, rest as nat, m as nat);
                }
            }
        }
    }
}

/// The prime factorization of `n`: each prime factor with its multiplicity.
/// A number below 2 has no prime factor and gives the empty map.
///
/// The primes below 200 are divided out first. What is left is split by
/// Pollard's rho until the Miller-Rabin test accepts every part. The
/// product of the factors is `n`; a factor below 211^2 is proved prime, and
/// a larger one is prime as far as the test is right about it.
pub fn prime_factorize(n: u64) -> (factors: BTreeMap<u64, i64>)
    ensures
        n < 2 ==> factors@ =~= Map::<u64, i64>::empty(),
        n >= 2 ==> factor_product(factors@) == n,
        well_formed_factors(factors@),
        forall|p: u64| factors@.contains_key(p) ==> n % p == 0,
        forall|p: u64| factors@.contains_key(p) && p < 44521 ==> is_prime(p as nat),
        is_prime(n as nat) ==> factors@ =~= map![n => 1i64],
{
    let mut factors: BTreeMap<u64, i64> = BTreeMap::new();
    if n < 2 {
        return factors;
    }
    proof {
        lemma_product_of_empty(0x1_0000_0000_0000_0000);
    }
    let mut m: u64 = n;
    let mut i: usize = 0;
    while i < 46
        invariant
            i <= 46,
            m >= 1,
            well_formed_factors(factors@),
            factor_product(factors@) * m == n,
            forall|k: u64| factors@.contains_key(k) ==> no_divisor_up_to(k as nat, 210),
            forall|j: int| 0 <= j < i ==> m % (#[trigger] TRIAL_DIVISION_PRIMES[j]) != 0,
        decreases 46 - i,
    {
        let p = TRIAL_DIVISION_PRIMES[i];
        proof {
            lemma_trial_primes_are_prime(i as int);
            lemma_primes_are_accepted(p as nat);
        }
        while m % p == 0
            invariant
                i < 46,
                m >= 1,
                p >= 2,
                is_prime(p as nat),
                miller_rabin_accepts(p as nat),
                well_formed_factors(factors@),
                factor_product(factors@) * m == n,
                forall|k: u64| factors@.contains_key(k) ==> no_divisor_up_to(k as nat, 210),
                forall|j: int| 0 <= j < i ==> m % (#[trigger] TRIAL_DIVISION_PRIMES[j]) != 0,
            decreases m,
        {
            let ghost before = factor_product(factors@);
            let ghost q = (m / p) as int;
            proof {
                lemma_product_positive(factors@, 0x1_0000_0000_0000_0000);
                lemma_divisor_at_most(m as nat, p as nat);
                lemma_fundamental_div_mod(m as int, p as int);
                assert(before * p <= before * m) by (nonlinear_arith)
                    requires
                        before >= 1,
                        p <= m,
                ;
                assert((before * p) * q == before * m) by (nonlinear_arith)
                    requires
                        m == p * q,
                ;
                assert(1 <= q < m) by (nonlinear_arith)
                    requires
                        m == p * q,
                        p >= 2,
                        m >= 1,
                ;
                assert forall|j: int| 0 <= j < i implies (m / p) % (
                #[trigger] TRIAL_DIVISION_PRIMES[j]) != 0 by {
                    let t = TRIAL_DIVISION_PRIMES[j] as int;
                    lemma_trial_primes_are_prime(j);
                    if q % t == 0 {
                        lemma_multiple_times(q, p as int, t);
                        assert(q * p == m) by (nonlinear_arith)
                            requires
                                m == p * q,
                        ;
                    }
                }
            }
            record_factor(&mut factors, p);
            m = m / p;
        }
        i = i + 1;
    }
    if m > 1 {
        let ghost before = factors@;
        split_into_primes(m, &mut factors);
        proof {
            lemma_no_small_divisor(m as nat);
            assert forall|k: u64| factors@.contains_key(k) implies no_divisor_up_to(
                k as nat,
                210,
            ) by {
                if !before.contains_key(k) {
                    assert forall|d: nat| 1 < d <= 210 && d < k implies #[trigger] (k as nat % d)
                        != 0 by {
                        if k as nat % d == 0 {
                            lemma_divides_transitive(d, k as nat, m as nat);
                        }
                    }
                }
            }
        }
    }
    proof {
        assert forall|p: u64| factors@.contains_key(p) implies n % p == 0 by {
            lemma_key_divides_product(factors@, p, 0x1_0000_0000_0000_0000);
        }
        assert forall|p: u64| factors@.contains_key(p) && p < 44521 implies is_prime(
            p as nat,
        ) by {
            lemma_small_key_is_prime(p as nat);
        }
        if is_prime(n as nat) {
            lemma_factors_of_prime(factors@, n);
        }
    }
    factors
}

} // verus!

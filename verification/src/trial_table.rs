//! The table of small primes that are divided out first, and what it
//! means for a number that none of them divides.

use crate::number_theory::{is_prime, lemma_divides_transitive, lemma_prime_from_bounded_search};
use vstd::arithmetic::div_mod::*;
use vstd::prelude::*;

verus! {

/// The primes below 200, which are divided out first.
pub const TRIAL_DIVISION_PRIMES: [u64; 46] = [
    2, 3, 5, 7, 11, 13, 17, 19, 23, 29, 31, 37,
    41, 43, 47, 53, 59, 61, 67, 71, 73, 79, 83, 89,
    97, 101, 103, 107, 109, 113, 127, 131, 137, 139, 149, 151,
    157, 163, 167, 173, 179, 181, 191, 193, 197, 199,
];

/// `q` stands in the trial division table.
pub open spec fn is_trial_prime(q: nat) -> bool {
    exists|i: int| 0 <= i < 46 && (#[trigger] TRIAL_DIVISION_PRIMES[i]) == q
}

/// No number from 2 to `k` divides `p`, but for `p` itself.
pub open spec fn no_divisor_up_to(p: nat, k: nat) -> bool {
    forall|d: nat| 1 < d <= k && d < p ==> #[trigger] (p % d) != 0
}

/// `q` is one of the 46 primes below 200.
pub open spec fn is_prime_below_200(q: nat) -> bool {
    ||| q == 2 || q == 3 || q == 5 || q == 7 || q == 11 || q == 13 || q == 17 || q == 19
    ||| q == 23 || q == 29 || q == 31 || q == 37 || q == 41 || q == 43 || q == 47 || q == 53
    ||| q == 59 || q == 61 || q == 67 || q == 71 || q == 73 || q == 79 || q == 83 || q == 89
    ||| q == 97 || q == 101 || q == 103 || q == 107 || q == 109 || q == 113 || q == 127
    ||| q == 131 || q == 137 || q == 139 || q == 149 || q == 151 || q == 157 || q == 163
    ||| q == 167 || q == 173 || q == 179 || q == 181 || q == 191 || q == 193 || q == 197
    ||| q == 199
}

/// A number below 289 that none of 2, 3, 5, 7, 11 and 13 divides properly
/// is prime.
pub proof fn lemma_small_prime(p: nat)
    requires
        2 <= p < 289,
        p > 2 ==> p % 2 != 0,
        p > 3 ==> p % 3 != 0,
        p > 5 ==> p % 5 != 0,
        p > 7 ==> p % 7 != 0,
        p > 11 ==> p % 11 != 0,
        p > 13 ==> p % 13 != 0,
    ensures
        is_prime(p),
{
    assert forall|d: nat| 1 < d <= 16 && d < p implies #[trigger] (p % d) != 0 by {
        if d == 2 {
            assert(p % 2 != 0);
        } else if d == 3 {
            assert(p % 3 != 0);
        } else if d == 4 {
            assert(p % 4 != 0);
        } else if d == 5 {
            assert(p % 5 != 0);
        } else if d == 6 {
            assert(p % 6 != 0);
        } else if d == 7 {
            assert(p % 7 != 0);
        } else if d == 8 {
            assert(p % 8 != 0);
        } else if d == 9 {
            assert(p % 9 != 0);
        } else if d == 10 {
            assert(p % 10 != 0);
        } else if d == 11 {
            assert(p % 11 != 0);
        } else if d == 12 {
            assert(p % 12 != 0);
        } else if d == 13 {
            assert(p % 13 != 0);
        } else if d == 14 {
            assert(p % 14 != 0);
        } else if d == 15 {
            assert(p % 15 != 0);
        } else {
            assert(p % 16 != 0);
        }
    }
    let k: nat = 16;
    assert((k + 1) * (k + 1) == 289) by (nonlinear_arith)
        requires
            k == 16,
    ;
    lemma_prime_from_bounded_search(p, k);
}

/// Every entry of the trial division table is prime.
pub proof fn lemma_trial_primes_are_prime(i: int)
    requires
        0 <= i < 46,
    ensures
        2 <= TRIAL_DIVISION_PRIMES[i] <= 199,
        is_prime(TRIAL_DIVISION_PRIMES[i] as nat),
{
    lemma_small_prime(TRIAL_DIVISION_PRIMES[i] as nat);
}

/// What the six smallest primes leave over up to 210 are the other primes
/// below 200.
proof fn lemma_sieve(d: nat)
    requires
        2 <= d <= 210,
        d > 2 ==> d % 2 != 0,
        d > 3 ==> d % 3 != 0,
        d > 5 ==> d % 5 != 0,
        d > 7 ==> d % 7 != 0,
        d > 11 ==> d % 11 != 0,
        d > 13 ==> d % 13 != 0,
    ensures
        is_prime_below_200(d),
{
    let x = d as u8;
    assert(2 <= x <= 210 && (x > 2 ==> x % 2 != 0) && (x > 3 ==> x % 3 != 0) && (x > 5 ==> x % 5
        != 0) && (x > 7 ==> x % 7 != 0) && (x > 11 ==> x % 11 != 0) && (x > 13 ==> x % 13 != 0)
        ==> (x == 2 || x == 3 || x == 5 || x == 7 || x == 11 || x == 13 || x == 17 || x == 19
        || x == 23 || x == 29 || x == 31 || x == 37 || x == 41 || x == 43 || x == 47 || x == 53
        || x == 59 || x == 61 || x == 67 || x == 71 || x == 73 || x == 79 || x == 83 || x == 89
        || x == 97 || x == 101 || x == 103 || x == 107 || x == 109 || x == 113 || x == 127 || x
        == 131 || x == 137 || x == 139 || x == 149 || x == 151 || x == 157 || x == 163 || x
        == 167 || x == 173 || x == 179 || x == 181 || x == 191 || x == 193 || x == 197 || x
        == 199)) by (bit_vector);
}

/// The table holds the primes below 200.
proof fn lemma_table_holds(q: nat)
    requires
        is_prime_below_200(q),
    ensures
        is_trial_prime(q),
{
}

/// The trial division table holds every prime up to 210.
proof fn lemma_prime_in_table(d: nat)
    requires
        is_prime(d),
        d <= 210,
    ensures
        is_trial_prime(d),
{
    assert(d > 2 ==> d % 2 != 0);
    assert(d > 3 ==> d % 3 != 0);
    assert(d > 5 ==> d % 5 != 0);
    assert(d > 7 ==> d % 7 != 0);
    assert(d > 11 ==> d % 11 != 0);
    assert(d > 13 ==> d % 13 != 0);
    lemma_sieve(d);
    lemma_table_holds(d);
}

/// Every number from 2 to 210 has a divisor in the trial division table.
proof fn lemma_trial_factor(d: nat) -> (q: nat)
    requires
        2 <= d <= 210,
    ensures
        is_trial_prime(q),
        q >= 2,
        d % q == 0,
    decreases d,
{
    if is_prime(d) {
        lemma_prime_in_table(d);
        lemma_mod_self_0(d as int);
        d
    } else {
        let e = choose|e: nat| 1 < e < d && #[trigger] (d % e) == 0;
        let q = lemma_trial_factor(e);
        lemma_divides_transitive(q, e, d);
        q
    }
}

/// A number that no entry of the trial division table divides has no
/// divisor from 2 to 210.
pub proof fn lemma_no_small_divisor(m: nat)
    requires
        m >= 1,
        forall|j: int| 0 <= j < 46 ==> m % ((#[trigger] TRIAL_DIVISION_PRIMES[j]) as nat) != 0,
    ensures
        forall|d: nat| 1 < d <= 210 ==> #[trigger] (m % d) != 0,
{
    assert forall|d: nat| 1 < d <= 210 implies #[trigger] (m % d) != 0 by {
        if m % d == 0 {
            let q = lemma_trial_factor(d);
            lemma_divides_transitive(q, d, m);
            let j = choose|j: int| 0 <= j < 46 && (#[trigger] TRIAL_DIVISION_PRIMES[j]) == q;
            assert(m % (TRIAL_DIVISION_PRIMES[j] as nat) == 0);
        }
    }
}

/// A number below 211^2 with no divisor from 2 to 210 but itself is prime.
pub proof fn lemma_small_key_is_prime(p: nat)
    requires
        2 <= p < 44521,
        no_divisor_up_to(p, 210),
    ensures
        is_prime(p),
{
    let k: nat = 210;
    assert((k + 1) * (k + 1) == 44521) by (nonlinear_arith)
        requires
            k == 210,
    ;
    lemma_prime_from_bounded_search(p, k);
}

} // verus!

use numeric_puzzles::factor_map::record_factor;
use numeric_puzzles::factorization::prime_factorize;
use numeric_puzzles::modular::{gcd, mod_mul, mod_pow};
use numeric_puzzles::rho::{pollards_rho, rho_step, smallest_odd_divisor};
use numeric_puzzles::trial_table::TRIAL_DIVISION_PRIMES;
use numeric_puzzles::primality::{is_prime_miller_rabin, MILLER_RABIN_BASES};
use std::collections::BTreeMap;

fn product_of(factors: &BTreeMap<u64, i64>) -> u128 {
    let mut product: u128 = 1;
    for (prime, exponent) in factors.iter() {
        assert!(*exponent >= 1);
        for _ in 0..*exponent {
            product *= *prime as u128;
        }
    }
    product
}

fn map_of(entries: &[(u64, i64)]) -> BTreeMap<u64, i64> {
    let mut expected = BTreeMap::new();
    for (prime, exponent) in entries {
        expected.insert(*prime, *exponent);
    }
    expected
}

#[test]
fn mod_mul_keeps_wide_products_exact() {
    assert_eq!(mod_mul(7, 8, 5), 1);
    assert_eq!(mod_mul(0, 8, 5), 0);
    assert_eq!(mod_mul(u64::MAX, u64::MAX, u64::MAX), 0);
    assert_eq!(mod_mul(u64::MAX, u64::MAX, 1_000_000_007), 114_944_269);
    assert_eq!(mod_mul(u64::MAX - 1, u64::MAX - 1, u64::MAX), 1);
}

#[test]
fn mod_pow_matches_known_powers() {
    assert_eq!(mod_pow(2, 10, 1000), 24);
    assert_eq!(mod_pow(3, 0, 7), 1);
    assert_eq!(mod_pow(3, 0, 1), 0);
    assert_eq!(mod_pow(0, 0, 5), 1);
    assert_eq!(mod_pow(0, 3, 5), 0);
    assert_eq!(mod_pow(2, 64, u64::MAX), 1);
    assert_eq!(mod_pow(5, 996, 997), 1);
    assert_eq!(mod_pow(10, 18, 1_000_000_007), 49);
}

#[test]
fn gcd_of_known_pairs() {
    assert_eq!(gcd(12, 18), 6);
    assert_eq!(gcd(18, 12), 6);
    assert_eq!(gcd(17, 5), 1);
    assert_eq!(gcd(0, 9), 9);
    assert_eq!(gcd(9, 0), 9);
    assert_eq!(gcd(0, 0), 0);
    assert_eq!(gcd(u64::MAX, u64::MAX - 1), 1);
}

#[test]
fn tables_hold_the_expected_primes() {
    assert_eq!(TRIAL_DIVISION_PRIMES.len(), 46);
    assert_eq!(TRIAL_DIVISION_PRIMES[0], 2);
    assert_eq!(TRIAL_DIVISION_PRIMES[45], 199);
    assert_eq!(MILLER_RABIN_BASES, [2, 3, 5, 7, 11, 13, 17, 19, 23, 29, 31, 37]);
    for prime in TRIAL_DIVISION_PRIMES {
        assert!(is_prime_miller_rabin(prime));
    }
}

#[test]
fn miller_rabin_accepts_primes() {
    for prime in [2u64, 3, 5, 97, 7919] {
        assert!(is_prime_miller_rabin(prime), "{} is prime", prime);
    }
    for prime in [7u64, 11, 13, 37, 41, 997, 1_000_000_007, 2_305_843_009_213_693_951] {
        assert!(is_prime_miller_rabin(prime), "{} is prime", prime);
    }
    assert!(is_prime_miller_rabin(18_446_744_073_709_551_557));
}

#[test]
fn miller_rabin_rejects_composites() {
    for composite in [1u64, 4, 100, 9991] {
        assert!(!is_prime_miller_rabin(composite), "{} is not prime", composite);
    }
    for composite in [0u64, 9, 15, 25, 35, 49, 561, 1105, 3_215_031_751, u64::MAX] {
        assert!(!is_prime_miller_rabin(composite), "{} is not prime", composite);
    }
    assert!(!is_prime_miller_rabin(3_825_123_056_546_413_051));
}

#[test]
fn miller_rabin_agrees_with_trial_division_below_two_thousand() {
    for n in 0u64..2000 {
        let mut prime = n >= 2;
        let mut d = 2;
        while d * d <= n {
            if n % d == 0 {
                prime = false;
            }
            d += 1;
        }
        assert_eq!(is_prime_miller_rabin(n), prime, "at {}", n);
    }
}

#[test]
fn rho_step_is_square_plus_constant() {
    assert_eq!(rho_step(2, 1, 8051), 5);
    assert_eq!(rho_step(5, 1, 8051), 26);
    assert_eq!(rho_step(26, 1, 8051), 677);
    assert_eq!(rho_step(u64::MAX, u64::MAX, u64::MAX), 0);
    assert_eq!(rho_step(3, 4, 1), 0);
}

#[test]
fn smallest_odd_divisor_finds_the_least() {
    assert_eq!(smallest_odd_divisor(1), 1);
    assert_eq!(smallest_odd_divisor(3), 3);
    assert_eq!(smallest_odd_divisor(9), 3);
    assert_eq!(smallest_odd_divisor(35), 5);
    assert_eq!(smallest_odd_divisor(9991), 97);
    assert_eq!(smallest_odd_divisor(7919), 7919);
    assert_eq!(smallest_odd_divisor(49), 7);
}

#[test]
fn pollards_rho_on_even_and_prime_numbers() {
    assert_eq!(pollards_rho(0), 2);
    assert_eq!(pollards_rho(2), 2);
    assert_eq!(pollards_rho(10), 2);
    assert_eq!(pollards_rho(1), 1);
    assert_eq!(pollards_rho(3), 3);
    assert_eq!(pollards_rho(7919), 7919);
    assert_eq!(pollards_rho(1_000_000_007), 1_000_000_007);
}

#[test]
fn pollards_rho_splits_composites() {
    assert_eq!(pollards_rho(8051), 97);
    for n in [9u64, 15, 25, 9991, 8051, 10403, 1_000_036_000_099, 4_295_098_369] {
        let d = pollards_rho(n);
        assert!(1 < d && d < n, "{} of {}", d, n);
        assert_eq!(n % d, 0);
    }
}

#[test]
fn factorize_scenarios() {
    assert_eq!(prime_factorize(12), map_of(&[(2, 2), (3, 1)]));
    assert_eq!(prime_factorize(997), map_of(&[(997, 1)]));
    assert_eq!(prime_factorize(1), map_of(&[]));
}

#[test]
fn factorize_below_two_is_empty() {
    assert!(prime_factorize(0).is_empty());
    assert!(prime_factorize(1).is_empty());
}

#[test]
fn factorize_a_prime_gives_it_once() {
    for prime in [2u64, 3, 199, 211, 7919, 1_000_000_007, 18_446_744_073_709_551_557] {
        assert_eq!(prime_factorize(prime), map_of(&[(prime, 1)]));
    }
}

#[test]
fn factorize_known_numbers() {
    assert_eq!(prime_factorize(360), map_of(&[(2, 3), (3, 2), (5, 1)]));
    assert_eq!(prime_factorize(9991), map_of(&[(97, 1), (103, 1)]));
    assert_eq!(prime_factorize(1 << 63), map_of(&[(2, 63)]));
    assert_eq!(prime_factorize(44521), map_of(&[(211, 2)]));
    assert_eq!(prime_factorize(9_393_931), map_of(&[(211, 3)]));
    assert_eq!(
        prime_factorize(1_000_036_000_099),
        map_of(&[(1_000_003, 1), (1_000_033, 1)])
    );
    assert_eq!(
        prime_factorize(u64::MAX),
        map_of(&[(3, 1), (5, 1), (17, 1), (257, 1), (641, 1), (65537, 1), (6_700_417, 1)])
    );
    assert_eq!(
        prime_factorize(600_851_475_143),
        map_of(&[(71, 1), (839, 1), (1471, 1), (6857, 1)])
    );
}

#[test]
fn factorize_round_trip() {
    let mut n: u64 = 2;
    while n < 5000 {
        let factors = prime_factorize(n);
        assert_eq!(product_of(&factors), n as u128);
        for prime in factors.keys() {
            assert!(is_prime_miller_rabin(*prime));
        }
        n += 1;
    }
    for n in [
        1_000_000_007u64 * 998_244_353,
        4_294_967_291 * 4_294_967_279,
        18_446_744_073_709_551_615,
        18_446_744_073_709_551_556,
        12_345_678_901_234_567_890,
    ] {
        let factors = prime_factorize(n);
        assert_eq!(product_of(&factors), n as u128);
        for prime in factors.keys() {
            assert!(is_prime_miller_rabin(*prime));
        }
    }
}

#[test]
fn factorize_orders_primes_ascending() {
    let factors = prime_factorize(2 * 3 * 5 * 7 * 211 * 223);
    let primes: Vec<u64> = factors.keys().copied().collect();
    assert_eq!(primes, vec![2, 3, 5, 7, 211, 223]);
}

#[test]
fn recording_a_factor_counts_it() {
    let mut factors = BTreeMap::new();
    record_factor(&mut factors, 3);
    record_factor(&mut factors, 2);
    record_factor(&mut factors, 3);
    assert_eq!(factors, map_of(&[(2, 1), (3, 2)]));
}

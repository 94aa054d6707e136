//! Prime numbers: Euclid's lemma, Fermat's little theorem and the square
//! roots of 1 modulo a prime.

use crate::modular::lemma_mod_zero_combination;
use vstd::arithmetic::div_mod::*;
use vstd::arithmetic::mul::*;
use vstd::arithmetic::power::*;
use vstd::prelude::*;
use vstd::set_lib::*;

verus! {

/// `n` is a prime number.
pub open spec fn is_prime(n: nat) -> bool {
    n >= 2 && forall|d: nat| 1 < d < n ==> #[trigger] (n % d) != 0
}

/// The product of the numbers from 1 to `k`.
pub open spec fn factorial(k: nat) -> nat
    decreases k,
{
    if k == 0 {
        1
    } else {
        k * factorial((k - 1) as nat)
    }
}

/// `a * j mod p`.
pub open spec fn scaled(a: nat, j: nat, p: nat) -> int {
    ((a * j) as int) % (p as int)
}

/// The product of `a * j mod p` over `j` from 1 to `k`.
pub open spec fn scaled_product(a: nat, k: nat, p: nat) -> int
    decreases k,
{
    if k == 0 {
        1
    } else {
        scaled_product(a, (k - 1) as nat, p) * scaled(a, k, p)
    }
}

/// The product of the elements of `s` from 0 up to `bound`, `bound` left
/// out.
pub open spec fn set_product(s: Set<int>, bound: nat) -> int
    decreases bound,
{
    if bound == 0 {
        1
    } else {
        let rest = set_product(s, (bound - 1) as nat);
        if s.contains(bound - 1) {
            rest * (bound - 1)
        } else {
            rest
        }
    }
}

/// The numbers `a * j mod p` for `j` from 1 to `k`.
pub open spec fn image(a: nat, k: nat, p: nat) -> Set<int> {
    Set::new(|x: int| exists|j: nat| 1 <= j <= k && #[trigger] scaled(a, j, p) == x)
}

/// A number with no proper divisor from 2 up to `k`, where `(k + 1)^2`
/// exceeds it, is prime.
pub proof fn lemma_prime_from_bounded_search(n: nat, k: nat)
    requires
        n >= 2,
        forall|d: nat| 1 < d <= k && d < n ==> #[trigger] (n % d) != 0,
        (k + 1) * (k + 1) > n,
    ensures
        is_prime(n),
{
    assert forall|d: nat| 1 < d < n implies #[trigger] (n % d) != 0 by {
        if n % d == 0 && d > k {
            let e = n / d;
            lemma_fundamental_div_mod(n as int, d as int);
            assert(n == d * e);
            assert(e >= 2) by (nonlinear_arith)
                requires
                    n == d * e,
                    1 < d < n,
            ;
            assert(e <= k) by (nonlinear_arith)
                requires
                    n == d * e,
                    d >= k + 1,
                    (k + 1) * (k + 1) > n,
            ;
            assert(e < n) by (nonlinear_arith)
                requires
                    n == d * e,
                    1 < d,
                    e >= 2,
            ;
            lemma_mod_multiples_basic(d as int, e as int);
            assert(n % e == 0);
        }
    }
}

/// A multiple of `p` times anything is a multiple of `p`.
pub proof fn lemma_multiple_times(a: int, x: int, p: int)
    requires
        p > 0,
        a % p == 0,
    ensures
        (a * x) % p == 0,
{
    lemma_fundamental_div_mod(a, p);
    assert(a * x == ((a / p) * x) * p) by (nonlinear_arith)
        requires
            a == p * (a / p),
    ;
    lemma_mod_multiples_basic((a / p) * x, p);
}

/// A divisor of a divisor is a divisor.
pub proof fn lemma_divides_transitive(a: nat, b: nat, c: nat)
    requires
        a > 0,
        b > 0,
        b % a == 0,
        c % b == 0,
    ensures
        c % a == 0,
{
    lemma_fundamental_div_mod(c as int, b as int);
    lemma_multiple_times(b as int, (c / b) as int, a as int);
}

/// A positive number is at least as large as each of its divisors.
pub proof fn lemma_divisor_at_most(n: nat, d: nat)
    requires
        n > 0,
        d > 0,
        n % d == 0,
    ensures
        d <= n,
{
    if d > n {
        lemma_small_mod(n, d);
    }
}

/// An odd number has no even divisor.
pub proof fn lemma_odd_has_no_even_divisor(n: nat, d: nat)
    requires
        n % 2 == 1,
        d > 0,
        d % 2 == 0,
    ensures
        n % d != 0,
{
    if n % d == 0 {
        lemma_fundamental_div_mod(n as int, d as int);
        lemma_fundamental_div_mod(d as int, 2);
        let x = (d / 2) * (n / d);
        assert(n == x * 2) by (nonlinear_arith)
            requires
                n == d * (n / d),
                d == 2 * (d / 2),
                x == (d / 2) * (n / d),
        ;
        lemma_mod_multiples_basic(x as int, 2);
    }
}

/// A power grows with its base.
pub proof fn lemma_pow_base_increases(a: int, b: int, e: nat)
    requires
        0 <= a <= b,
    ensures
        0 <= pow(a, e) <= pow(b, e),
    decreases e,
{
    if e == 0 {
        lemma_pow0(a);
        lemma_pow0(b);
    } else {
        lemma_pow_base_increases(a, b, (e - 1) as nat);
        lemma_pow_adds(a, (e - 1) as nat, 1);
        lemma_pow_adds(b, (e - 1) as nat, 1);
        lemma_pow1(a);
        lemma_pow1(b);
        let x = pow(a, (e - 1) as nat);
        let y = pow(b, (e - 1) as nat);
        assert(0 <= x * a <= y * b) by (nonlinear_arith)
            requires
                0 <= a <= b,
                0 <= x <= y,
        ;
    }
}

/// A prime that divides `a * b`, with `a` between 0 and the prime, divides
/// `b`.
proof fn lemma_euclid_below(p: nat, a: nat, b: int)
    requires
        is_prime(p),
        0 < a < p,
        (a * b) % (p as int) == 0,
    ensures
        b % (p as int) == 0,
    decreases a,
{
    let pi = p as int;
    if a == 1 {
        assert(a * b == b) by (nonlinear_arith)
            requires
                a == 1,
        ;
    } else {
        let q = (p / a) as int;
        let r = (p % a) as int;
        assert(p % a != 0);
        lemma_fundamental_div_mod(pi, a as int);
        lemma_mod_bound(pi, a as int);
        lemma_mod_multiples_basic(b, pi);
        lemma_mod_zero_combination(-q, a * b, b * pi, pi);
        assert((-q) * (a * b) + b * pi == r * b) by (nonlinear_arith)
            requires
                pi == a * q + r,
        ;
        lemma_euclid_below(p, r as nat, b);
    }
}

/// Euclid's lemma: a prime that divides a product divides a factor.
pub proof fn lemma_prime_divides_product(p: nat, a: int, b: int)
    requires
        is_prime(p),
        (a * b) % (p as int) == 0,
    ensures
        a % (p as int) == 0 || b % (p as int) == 0,
{
    let pi = p as int;
    let a0 = a % pi;
    if a0 != 0 {
        lemma_mod_bound(a, pi);
        lemma_mul_mod_noop_left(a, b, pi);
        lemma_euclid_below(p, a0 as nat, b);
    }
}

/// A prime does not divide the factorial of a smaller number.
pub proof fn lemma_factorial_coprime(p: nat, k: nat)
    requires
        is_prime(p),
        k < p,
    ensures
        factorial(k) % p != 0,
    decreases k,
{
    if k == 0 {
        lemma_small_mod(1, p);
    } else {
        lemma_factorial_coprime(p, (k - 1) as nat);
        if factorial(k) % p == 0 {
            lemma_prime_divides_product(p, k as int, factorial((k - 1) as nat) as int);
            lemma_small_mod(k, p);
        }
    }
}

/// The product of the `a * j mod p` is `a^k * k!` modulo `p`.
proof fn lemma_scaled_product_congruent(a: nat, k: nat, p: nat)
    requires
        p > 0,
    ensures
        scaled_product(a, k, p) % (p as int) == (pow(a as int, k) * factorial(k)) % (p as int),
    decreases k,
{
    let pi = p as int;
    if k == 0 {
        lemma_pow0(a as int);
    } else {
        let k1 = (k - 1) as nat;
        lemma_scaled_product_congruent(a, k1, p);
        let sp = scaled_product(a, k1, p);
        let full = pow(a as int, k1) * factorial(k1);
        let step = (a * k) as int;
        lemma_mul_mod_noop_right(sp, step, pi);
        lemma_mul_mod_noop_left(sp, step, pi);
        lemma_mul_mod_noop_left(full, step, pi);
        lemma_pow_adds(a as int, k1, 1);
        lemma_pow1(a as int);
        assert(full * step == pow(a as int, k) * factorial(k)) by (nonlinear_arith)
            requires
                pow(a as int, k) == pow(a as int, k1) * a,
                factorial(k) == k * factorial(k1),
                full == pow(a as int, k1) * factorial(k1),
                step == a * k,
        ;
    }
}

/// The product over no elements is 1.
proof fn lemma_set_product_empty(bound: nat)
    ensures
        set_product(Set::<int>::empty(), bound) == 1,
    decreases bound,
{
    if bound > 0 {
        lemma_set_product_empty((bound - 1) as nat);
    }
}

/// A new element below the bound multiplies the product by itself.
proof fn lemma_set_product_insert(s: Set<int>, x: int, bound: nat)
    requires
        !s.contains(x),
        0 <= x,
    ensures
        set_product(s.insert(x), bound) == set_product(s, bound) * (if x < bound {
            x
        } else {
            1
        }),
    decreases bound,
{
    if bound > 0 {
        let b1 = (bound - 1) as nat;
        lemma_set_product_insert(s, x, b1);
        let t = s.insert(x);
        let r = set_product(s, b1);
        if x == bound - 1 {
            assert(set_product(t, b1) == r * 1);
            assert((r * 1) * x == r * x) by (nonlinear_arith);
        } else if s.contains(bound - 1) {
            let m = if x < b1 {
                x
            } else {
                1
            };
            assert(t.contains(bound - 1));
            assert((r * m) * (bound - 1) == (r * (bound - 1)) * m) by (nonlinear_arith);
        } else {
            assert(!t.contains(bound - 1));
        }
    } else {
        assert(1 * 1 == 1) by (nonlinear_arith);
    }
}

/// The product of the numbers from 1 up to `p`, `p` left out, over those
/// below `bound`, is a factorial.
proof fn lemma_range_product(p: nat, bound: nat)
    requires
        1 <= bound <= p,
    ensures
        set_product(set_int_range(1, p as int), bound) == factorial((bound - 1) as nat),
    decreases bound,
{
    let s = set_int_range(1, p as int);
    if bound == 1 {
        assert(!s.contains(0));
        assert(set_product(s, 0) == 1);
    } else {
        lemma_range_product(p, (bound - 1) as nat);
        assert(s.contains(bound - 1));
        let f = factorial((bound - 2) as nat);
        assert(f * (bound - 1) == (bound - 1) * f) by (nonlinear_arith);
    }
}

/// For a prime `p` that does not divide `a`, `a * j mod p` is not zero for
/// `j` from 1 to `p - 1`.
proof fn lemma_scaled_range(p: nat, a: nat, j: nat)
    requires
        is_prime(p),
        a % p != 0,
        1 <= j < p,
    ensures
        1 <= scaled(a, j, p) < p,
{
    lemma_mod_bound((a * j) as int, p as int);
    if scaled(a, j, p) == 0 {
        lemma_prime_divides_product(p, a as int, j as int);
        lemma_small_mod(j, p);
    }
}

/// For a prime `p` that does not divide `a`, the numbers `a * j mod p` for
/// `j` from 1 to `p - 1` differ from each other.
proof fn lemma_scaled_injective(p: nat, a: nat, i: nat, j: nat)
    requires
        is_prime(p),
        a % p != 0,
        1 <= i < j < p,
    ensures
        scaled(a, i, p) != scaled(a, j, p),
{
    if scaled(a, i, p) == scaled(a, j, p) {
        lemma_mod_equivalence((a * j) as int, (a * i) as int, p as int);
        assert(a * j - a * i == a * (j - i)) by (nonlinear_arith);
        lemma_prime_divides_product(p, a as int, j - i);
        lemma_small_mod((j - i) as nat, p);
    }
}

/// The first `k` of the numbers `a * j mod p` are `k` different numbers
/// from 1 to `p - 1`, and their product is the product over their set.
proof fn lemma_image_facts(p: nat, a: nat, k: nat)
    requires
        is_prime(p),
        a % p != 0,
        k < p,
    ensures
        image(a, k, p).finite(),
        image(a, k, p).len() == k,
        image(a, k, p).subset_of(set_int_range(1, p as int)),
        scaled_product(a, k, p) == set_product(image(a, k, p), p),
    decreases k,
{
    if k == 0 {
        assert(image(a, k, p) =~= Set::<int>::empty());
        lemma_set_product_empty(p);
    } else {
        let k1 = (k - 1) as nat;
        let before = image(a, k1, p);
        let x = scaled(a, k, p);
        lemma_image_facts(p, a, k1);
        lemma_scaled_range(p, a, k);
        assert(!before.contains(x)) by {
            if before.contains(x) {
                let j = choose|j: nat| 1 <= j <= k1 && #[trigger] scaled(a, j, p) == x;
                lemma_scaled_injective(p, a, j, k);
            }
        }
        assert(image(a, k, p) =~= before.insert(x)) by {
            assert forall|y: int| image(a, k, p).contains(y) implies before.insert(x).contains(
                y,
            ) by {
                let j = choose|j: nat| 1 <= j <= k && #[trigger] scaled(a, j, p) == y;
                if j < k {
                    assert(before.contains(y));
                }
            }
            assert forall|y: int| before.insert(x).contains(y) implies image(a, k, p).contains(
                y,
            ) by {
                if y != x {
                    let j = choose|j: nat| 1 <= j <= k1 && #[trigger] scaled(a, j, p) == y;
                    assert(1 <= j <= k && scaled(a, j, p) == y);
                } else {
                    assert(1 <= k <= k && scaled(a, k, p) == y);
                }
            }
        }
        lemma_set_product_insert(before, x, p);
    }
}

/// Fermat's little theorem: for a prime `p` that does not divide `a`,
/// `a^(p-1)` is 1 modulo `p`.
pub proof fn lemma_fermat(p: nat, a: nat)
    requires
        is_prime(p),
        a % p != 0,
    ensures
        pow(a as int, (p - 1) as nat) % (p as int) == 1,
{
    let pi = p as int;
    let k = (p - 1) as nat;
    let f = factorial(k) as int;
    let w = pow(a as int, k);
    lemma_image_facts(p, a, k);
    lemma_int_range(1, pi);
    lemma_subset_equality(image(a, k, p), set_int_range(1, pi));
    lemma_range_product(p, p);
    assert(scaled_product(a, k, p) == f);
    lemma_scaled_product_congruent(a, k, p);
    // w * f and f leave the same remainder, so p divides (w - 1) * f
    lemma_mod_equivalence(w * f, f, pi);
    assert(w * f - f == (w - 1) * f) by (nonlinear_arith);
    lemma_prime_divides_product(p, w - 1, f);
    lemma_factorial_coprime(p, k);
    lemma_mod_equivalence(w, 1, pi);
    lemma_small_mod(1, p);
}

/// Modulo a prime, 1 has no square roots but 1 and -1.
pub proof fn lemma_square_root_of_one(p: nat, x: nat)
    requires
        is_prime(p),
        x < p,
        (x * x) % p == 1,
    ensures
        x == 1 || x == p - 1,
{
    let pi = p as int;
    lemma_small_mod(1, p);
    lemma_mod_equivalence((x * x) as int, 1, pi);
    assert(x * x - 1 == (x - 1) * (x + 1)) by (nonlinear_arith);
    lemma_prime_divides_product(p, x - 1, (x + 1) as int);
    if (x - 1) % pi == 0 {
        if x == 0 {
            lemma_mod_equivalence(-1, 0, pi);
            lemma_mod_equivalence(0, -1, pi);
            lemma_mod_equivalence(1, 0, pi);
            lemma_small_mod(0, p);
        } else {
            lemma_small_mod((x - 1) as nat, p);
        }
    } else {
        if x + 1 < p {
            lemma_small_mod((x + 1) as nat, p);
        }
    }
}

} // verus!

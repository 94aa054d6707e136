//! Pollard's rho method for finding a factor of a composite number.

use crate::modular::{gcd, is_gcd};
use crate::number_theory::{
    is_prime,
    lemma_divisor_at_most,
    lemma_odd_has_no_even_divisor,
    lemma_prime_from_bounded_search,
};
use crate::primality::{is_prime_miller_rabin, lemma_primes_are_accepted, miller_rabin_accepts};
use vstd::arithmetic::div_mod::*;
use vstd::prelude::*;

verus! {

/// Where the walk `v -> (v^2 + c) mod n` stands after `k` steps from 2.
pub open spec fn rho_walk(n: nat, c: nat, k: nat) -> nat
    decreases k,
{
    if k == 0 {
        2
    } else {
        let v = rho_walk(n, c, (k - 1) as nat);
        (v * v + c) % n
    }
}

/// The distance, after `k` rounds, between the walker that takes one step
/// a round and the walker that takes two.
pub open spec fn rho_gap(n: nat, c: nat, k: nat) -> nat {
    let slow = rho_walk(n, c, k);
    let fast = rho_walk(n, c, 2 * k);
    if slow > fast {
        (slow - fast) as nat
    } else {
        (fast - slow) as nat
    }
}

/// In each of the rounds before round `k`, the distance of the walkers has
/// no factor in common with `n`.
pub open spec fn rho_quiet_before(n: nat, c: nat, k: nat) -> bool {
    forall|j: nat| 1 <= j < k ==> is_gcd(#[trigger] rho_gap(n, c, j), n, 1)
}

/// Round `k` is the first in which the distance of the walkers has a
/// factor in common with `n`, and `d` is the greatest such factor.
pub open spec fn rho_hit(n: nat, c: nat, k: nat, d: nat) -> bool {
    &&& 1 <= k <= n
    &&& rho_quiet_before(n, c, k)
    &&& is_gcd(rho_gap(n, c, k), n, d)
    &&& d > 1
}

/// The walk with the constant `c` yields no proper factor: the first common
/// factor that it meets is `n` itself, or it meets none in `n` rounds.
pub open spec fn rho_round_fails(n: nat, c: nat) -> bool {
    rho_quiet_before(n, c, n + 1) || exists|k: nat| rho_hit(n, c, k, n)
}

/// The constants before `c` all fail, and the walk with `c` meets `d` first.
pub open spec fn rho_yields(n: nat, c: nat, k: nat, d: nat) -> bool {
    &&& 1 <= c <= n
    &&& forall|b: nat| 1 <= b < c ==> #[trigger] rho_round_fails(n, b)
    &&& rho_hit(n, c, k, d)
    &&& d < n
}

/// The rho method finds the factor `d` of `n`.
pub open spec fn rho_finds(n: nat, d: nat) -> bool {
    exists|c: nat, k: nat| rho_yields(n, c, k, d)
}

/// The rho method finds no factor of `n`: every constant from 1 to `n`
/// fails.
pub open spec fn rho_finds_nothing(n: nat) -> bool {
    forall|c: nat| 1 <= c <= n ==> #[trigger] rho_round_fails(n, c)
}

/// `d` is the least divisor of `n` that is greater than 1.
pub open spec fn is_least_divisor(n: nat, d: nat) -> bool {
    &&& 1 < d <= n
    &&& n % d == 0
    &&& forall|k: nat| 1 < k < d ==> #[trigger] (n % k) != 0
}

/// The least divisor of an odd number that is greater than 1, found by
/// trying the odd numbers in turn; the number itself where it is prime.
pub fn smallest_odd_divisor(n: u64) -> (d: u64)
    requires
        n % 2 == 1,
    ensures
        1 <= d <= n,
        n > 1 ==> d > 1,
        n % d == 0,
        forall|k: nat| 1 < k < d ==> #[trigger] (n as nat % k) != 0,
{
    let mut k: u64 = 3;
    while k <= n / k
        invariant
            n % 2 == 1,
            3 <= k <= 0x1_0000_0001,
            k % 2 == 1,
            forall|j: nat| 1 < j < k ==> #[trigger] (n as nat % j) != 0,
        decreases n - k,
    {
        proof {
            lemma_fundamental_div_mod(n as int, k as int);
            let q = (n / k) as int;
            let r = (n % k) as int;
            assert(k * k <= n) by (nonlinear_arith)
                requires
                    n == k * q + r,
                    k <= q,
                    0 <= r,
                    k >= 3,
            ;
            assert(k < 0x1_0000_0000 && k + 2 <= n) by (nonlinear_arith)
                requires
                    k * k <= n,
                    n <= 0xFFFF_FFFF_FFFF_FFFF,
                    k >= 3,
            ;
        }
        if n % k == 0 {
            return k;
        }
        proof {
            lemma_odd_has_no_even_divisor(n as nat, (k + 1) as nat);
        }
        k = k + 2;
    }
    proof {
        if n > 1 {
            lemma_fundamental_div_mod(n as int, k as int);
            let q = (n / k) as int;
            let r = (n % k) as int;
            lemma_mod_bound(n as int, k as int);
            assert(k * k > n) by (nonlinear_arith)
                requires
                    n == k * q + r,
                    q < k,
                    r < k,
                    k >= 3,
            ;
            let below = (k - 1) as nat;
            assert((below + 1) * (below + 1) > n);
            lemma_prime_from_bounded_search(n as nat, below);
        }
        lemma_mod_self_0(n as int);
    }
    n
}

/// One step of the rho sequence: `(v^2 + c) mod n`.
pub fn rho_step(v: u64, c: u64, n: u64) -> (r: u64)
    requires
        n > 0,
    ensures
        r == (v * v + c) % (n as int),
{
    assert(v * v + c <= 0xFFFF_FFFF_FFFF_FFFF * 0xFFFF_FFFF_FFFF_FFFF + 0xFFFF_FFFF_FFFF_FFFF)
        by (nonlinear_arith)
        requires
            0 <= v <= 0xFFFF_FFFF_FFFF_FFFF,
            0 <= c <= 0xFFFF_FFFF_FFFF_FFFF,
    ;
    let wide: u128 = (v as u128) * (v as u128) + (c as u128);
    (wide % (n as u128)) as u64
}

/// A factor of `n` by Pollard's rho method.
///
/// An even `n` gives 2, and an odd `n` that the Miller-Rabin test accepts
/// is returned unchanged, as is 1. Otherwise two walkers run through the
/// sequence `v -> (v^2 + c) mod n` from 2, one at twice the speed of the
/// other, until their distance shares a factor with `n`, which is returned.
/// Where that factor is `n` itself, or none has shown after `n` rounds, the
/// search starts again with the next constant `c`, from 1 up to `n`.
///
/// The method is a heuristic. If every constant fails, the odd numbers are
/// tried in turn. A number that the Miller-Rabin test rejects is not prime,
/// so a proper factor is found for every such `n` above 1.
pub fn pollards_rho(n: u64) -> (d: u64)
    ensures
        n % 2 == 0 ==> d == 2,
        n % 2 == 1 && (n == 1 || miller_rabin_accepts(n as nat)) ==> d == n,
        n > 1 && n % 2 == 1 && !miller_rabin_accepts(n as nat) ==> {
            &&& 1 < d < n
            &&& n % d == 0
            &&& {
                ||| rho_finds(n as nat, d as nat)
                ||| rho_finds_nothing(n as nat) && is_least_divisor(n as nat, d as nat)
            }
        },
{
    if n % 2 == 0 {
        return 2;
    }
    if n == 1 || is_prime_miller_rabin(n) {
        proof {
            lemma_mod_self_0(n as int);
        }
        return n;
    }
    let mut c: u64 = 1;
    loop
        invariant
            n >= 3,
            n % 2 == 1,
            !miller_rabin_accepts(n as nat),
            1 <= c <= n,
            forall|b: nat| 1 <= b < c ==> #[trigger] rho_round_fails(n as nat, b),
        ensures
            rho_finds_nothing(n as nat),
        decreases n - c,
    {
        let mut x: u64 = 2;
        let mut y: u64 = 2;
        let mut steps: u64 = 0;
        let mut met = false;
        while !met && steps < n
            invariant
                n >= 3,
                n % 2 == 1,
                !miller_rabin_accepts(n as nat),
                1 <= c <= n,
                forall|b: nat| 1 <= b < c ==> #[trigger] rho_round_fails(n as nat, b),
                steps <= n,
                !met ==> x == rho_walk(n as nat, c as nat, steps as nat),
                !met ==> y == rho_walk(n as nat, c as nat, 2 * (steps as nat)),
                !met ==> rho_quiet_before(n as nat, c as nat, (steps + 1) as nat),
                met ==> rho_round_fails(n as nat, c as nat),
            decreases n - steps + (if met { 0int } else { 1int }),
        {
            proof {
                let k = (steps + 1) as nat;
                let middle = rho_walk(n as nat, c as nat, (2 * k - 1) as nat);
                assert(middle == (y * y + c) % (n as int));
                assert(rho_walk(n as nat, c as nat, 2 * k) == (middle * middle + c) % (n as int));
            }
            x = rho_step(x, c, n);
            y = rho_step(y, c, n);
            y = rho_step(y, c, n);
            let diff = if x > y {
                x - y
            } else {
                y - x
            };
            let g = gcd(diff, n);
            proof {
                lemma_divisor_at_most(n as nat, g as nat);
                assert(diff == rho_gap(n as nat, c as nat, (steps + 1) as nat));
            }
            if g == n {
                proof {
                    assert(rho_hit(n as nat, c as nat, (steps + 1) as nat, n as nat));
                }
                met = true;
            } else if g != 1 {
                proof {
                    assert(rho_hit(n as nat, c as nat, (steps + 1) as nat, g as nat));
                    assert(rho_yields(n as nat, c as nat, (steps + 1) as nat, g as nat));
                }
                return g;
            } else {
                steps = steps + 1;
            }
        }
        if c == n {
            break ;
        }
        c = c + 1;
    }
    let d = smallest_odd_divisor(n);
    proof {
        if d == n {
            assert(is_prime(n as nat));
            lemma_primes_are_accepted(n as nat);
        }
    }
    d
}

} // verus!

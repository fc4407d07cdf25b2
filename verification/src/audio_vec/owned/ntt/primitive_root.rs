//! Search for a primitive root of a modulus.

use crate::arith::{
    cong, is_prime, lemma_cong_mod, lemma_cong_mul, lemma_cong_pow, lemma_pow_even, lemma_pow_odd,
};
use vstd::arithmetic::div_mod::*;
use vstd::arithmetic::power::*;
use vstd::prelude::*;

verus! {

/// `a` to the power `b`, reduced modulo `m`, by repeated squaring.
pub fn pow_mod(a: u64, b: u64, m: u64) -> (r: u64)
    requires
        0 < m < 0x1_0000_0000,
    ensures
        r == pow(a as int, b as nat) % (m as int),
{
    let mut base = a % m;
    let mut e = b;
    let mut r = 1 % m;
    proof {
        lemma_cong_mod(a as int, m as int);
        lemma_cong_pow(base as int, a as int, b as nat, m as int);
        lemma_cong_mod(1, m as int);
        lemma_cong_mul(r as int, 1, pow(base as int, b as nat), pow(a as int, b as nat), m as int);
        assert(1 * pow(a as int, b as nat) == pow(a as int, b as nat));
    }
    while e != 0
        invariant
            0 < m < 0x1_0000_0000,
            base < m,
            r < m,
            cong(r * pow(base as int, e as nat), pow(a as int, b as nat), m as int),
        decreases e,
    {
        let ghost b0 = base as int;
        let ghost r0 = r as int;
        let ghost e0 = e;
        proof {
            assert(r * base < 0x1_0000_0000 * 0x1_0000_0000) by (nonlinear_arith)
                requires
                    r < 0x1_0000_0000,
                    base < 0x1_0000_0000,
            ;
            assert(base * base < 0x1_0000_0000 * 0x1_0000_0000) by (nonlinear_arith)
                requires
                    base < 0x1_0000_0000,
            ;
        }
        if e % 2 != 0 {
            r = r * base % m;
        }
        base = base * base % m;
        e = e / 2;
        proof {
            let k = e as nat;
            let mi = m as int;
            lemma_cong_mod(b0 * b0, mi);
            lemma_cong_pow(base as int, b0 * b0, k, mi);
            if e0 % 2 != 0 {
                assert(e0 == 2 * k + 1);
                lemma_pow_odd(b0, k);
                lemma_cong_mod(r0 * b0, mi);
                lemma_cong_mul(r as int, r0 * b0, pow(base as int, k), pow(b0 * b0, k), mi);
                assert(r0 * b0 * pow(b0 * b0, k) == r0 * (b0 * pow(b0 * b0, k))) by (nonlinear_arith);
            } else {
                assert(e0 == 2 * k);
                lemma_pow_even(b0, k);
                lemma_cong_mul(r as int, r0, pow(base as int, k), pow(b0 * b0, k), mi);
            }
        }
    }
    proof {
        lemma_pow0(base as int);
        assert(r * 1 == r);
        lemma_small_mod(r as nat, m as nat);
    }
    r
}

/// Divisibility passes on: a divisor of a divisor of `b` divides `b`.
pub proof fn lemma_divides_transitive(d: int, a: int, b: int)
    requires
        d > 0,
        a > 0,
        a % d == 0,
        b % a == 0,
    ensures
        b % d == 0,
{
    let j = a / d;
    let k = b / a;
    lemma_fundamental_div_mod(a, d);
    lemma_fundamental_div_mod(b, a);
    assert(b == (j * k) * d) by (nonlinear_arith)
        requires
            a == d * j,
            b == a * k,
    ;
    lemma_mod_multiples_basic(j * k, d);
}

/// Euclid's lemma: a prime that divides a product divides one of the
/// factors.
pub proof fn lemma_euclid(p: int, a: int, b: int)
    requires
        is_prime(p),
        a >= 1,
        (a * b) % p == 0,
        a % p != 0,
    ensures
        b % p == 0,
    decreases a,
{
    let r = a % p;
    lemma_mod_bound(a, p);
    assert(r <= a) by {
        lemma_mod_decreases(a as nat, p as nat);
    }
    // r * b is a multiple of p as a * b is
    lemma_mul_mod_noop_left(a, b, p);
    assert((r * b) % p == 0);
    if r == 1 {
        assert(1 * b == b);
    } else {
        // p is no multiple of r, and p % r times b is a multiple of p
        assert(p % r != 0);
        let r2 = p % r;
        let q = p / r;
        lemma_mod_bound(p, r);
        lemma_fundamental_div_mod(p, r);
        assert(r2 * b == p * b + (-q) * (r * b)) by (nonlinear_arith)
            requires
                p == r * q + r2,
        ;
        assert((r2 * b) % p == 0) by {
            let k = (r * b) / p;
            lemma_fundamental_div_mod(r * b, p);
            assert(r2 * b == (b + (-q) * k) * p) by (nonlinear_arith)
                requires
                    r2 * b == p * b + (-q) * (r * b),
                    r * b == p * k,
            ;
            lemma_mod_multiples_basic(b + (-q) * k, p);
        }
        lemma_small_mod(r2 as nat, p as nat);
        lemma_euclid(p, r2, b);
    }
}

/// A number above one with no divisor from 2 up to `bound - 1`, where
/// `bound * bound` exceeds it, is prime.
pub proof fn lemma_prime_by_trial(n: int, bound: int)
    requires
        n >= 2,
        bound >= 2,
        bound * bound > n,
        forall|d: int| 2 <= d < bound ==> #[trigger] (n % d) != 0,
    ensures
        is_prime(n),
{
    assert forall|d: int| 1 < d < n implies #[trigger] (n % d) != 0 by {
        if d >= bound && n % d == 0 {
            let e = n / d;
            lemma_fundamental_div_mod(n, d);
            assert(2 <= e < bound) by (nonlinear_arith)
                requires
                    n == d * e,
                    d >= bound,
                    bound >= 2,
                    bound * bound > n,
                    d < n,
                    n >= 2,
            ;
            assert(n == e * d) by (nonlinear_arith)
                requires
                    n == d * e,
            ;
            lemma_mod_multiples_basic(d, e);
            assert(n % e == 0);
        }
    }
}

/// The distinct prime factors of `n` in rising order, by trial division.
pub fn prime_factors(n: u32) -> (factors: Vec<u64>)
    requires
        n >= 1,
    ensures
        forall|j: int, k: int| 0 <= j < k < factors@.len() ==> factors@[j] < factors@[k],
        forall|k: int|
            0 <= k < factors@.len() ==> is_prime(#[trigger] factors@[k] as int) && (n as int) % (
            factors@[k] as int) == 0,
        forall|q: int|
            is_prime(q) && #[trigger] ((n as int) % q) == 0 ==> factors@.contains(q as u64) && q
                <= n,
{
    let mut factors: Vec<u64> = Vec::new();
    let mut rest = n as u64;
    let mut i: u64 = 2;
    proof {
        lemma_mod_self_0(n as int);
    }
    loop
        invariant
            1 <= rest <= n,
            (n as int) % (rest as int) == 0,
            2 <= i <= 0x1_0000,
            forall|d: int| 2 <= d < i ==> #[trigger] ((rest as int) % d) != 0,
            forall|k: int| 0 <= k < factors@.len() ==> #[trigger] factors@[k] < i,
            forall|j: int, k: int| 0 <= j < k < factors@.len() ==> factors@[j] < factors@[k],
            forall|k: int|
                0 <= k < factors@.len() ==> is_prime(#[trigger] factors@[k] as int) && (n as int)
                    % (factors@[k] as int) == 0,
            forall|q: int|
                is_prime(q) && #[trigger] ((n as int) % q) == 0 ==> factors@.contains(q as u64)
                    || (rest as int) % q == 0,
        ensures
            i * i > rest,
        decreases 0x1_0000 - i,
    {
        proof {
            assert(i * i <= 0x1_0000 * 0x1_0000) by (nonlinear_arith)
                requires
                    i <= 0x1_0000,
            ;
        }
        if i * i > rest {
            break ;
        }
        proof {
            assert(i < 0x1_0000) by (nonlinear_arith)
                requires
                    i * i <= rest,
                    rest < 0x1_0000_0000,
            ;
        }
        if rest % i == 0 {
            proof {
                // i is prime: a divisor of i below it would divide rest
                assert forall|d: int| 1 < d < i implies #[trigger] ((i as int) % d) != 0 by {
                    if (i as int) % d == 0 {
                        lemma_divides_transitive(d, i as int, rest as int);
                    }
                }
                lemma_divides_transitive(i as int, rest as int, n as int);
            }
            let ghost before = factors@;
            factors.push(i);
            proof {
                assert(factors@[before.len() as int] == i);
                assert forall|q: int| is_prime(q) && #[trigger] ((n as int) % q) == 0 implies factors@.contains(
                    q as u64,
                ) || (rest as int) % q == 0 by {
                    if before.contains(q as u64) {
                        let k = choose|k: int| 0 <= k < before.len() && before[k] == q as u64;
                        assert(factors@[k] == q as u64);
                    }
                }
            }
            while rest % i == 0
                invariant
                    1 <= rest <= n,
                    (n as int) % (rest as int) == 0,
                    2 <= i < 0x1_0000,
                    is_prime(i as int),
                    factors@.contains(i),
                    forall|k: int| 0 <= k < factors@.len() ==> #[trigger] factors@[k] <= i,
                    forall|j: int, k: int| 0 <= j < k < factors@.len() ==> factors@[j] < factors@[k],
                    forall|d: int| 2 <= d < i ==> #[trigger] ((rest as int) % d) != 0,
                    forall|q: int|
                        is_prime(q) && #[trigger] ((n as int) % q) == 0 ==> factors@.contains(
                            q as u64,
                        ) || (rest as int) % q == 0,
                decreases rest,
            {
                let ghost r0 = rest as int;
                proof {
                    lemma_fundamental_div_mod(rest as int, i as int);
                    assert(1 <= rest / i < rest) by (nonlinear_arith)
                        requires
                            rest == i * (rest / i) + 0,
                            rest >= 1,
                            i >= 2,
                    ;
                }
                rest = rest / i;
                proof {
                    let r1 = rest as int;
                    let ii = i as int;
                    assert(r0 == ii * r1);
                    assert(r0 == r1 * ii) by (nonlinear_arith)
                        requires
                            r0 == ii * r1,
                    ;
                    lemma_mod_multiples_basic(ii, r1);
                    lemma_divides_transitive(r1, r0, n as int);
                    assert forall|d: int| 2 <= d < i implies #[trigger] (r1 % d) != 0 by {
                        if r1 % d == 0 {
                            lemma_divides_transitive(d, r1, r0);
                        }
                    }
                    assert forall|q: int| is_prime(q) && #[trigger] ((n as int) % q) == 0 implies factors@.contains(
                        q as u64,
                    ) || r1 % q == 0 by {
                        if !factors@.contains(q as u64) {
                            // q divides i * r1 and not i, so it divides r1
                            assert(r0 % q == 0);
                            assert(q != ii);
                            assert(ii % q != 0) by {
                                if q < ii {
                                } else {
                                    lemma_small_mod(ii as nat, q as nat);
                                }
                            }
                            lemma_euclid(q, ii, r1);
                        }
                    }
                }
            }
        }
        i = i + 1;
    }
    if rest != 1 {
        proof {
            lemma_prime_by_trial(rest as int, i as int);
            // rest has no divisor below i, itself least of all
            if rest < i {
                lemma_mod_self_0(rest as int);
            }
        }
        let ghost before = factors@;
        factors.push(rest);
        proof {
            assert(factors@[before.len() as int] == rest);
            assert forall|q: int| is_prime(q) && #[trigger] ((n as int) % q) == 0 implies factors@.contains(
                q as u64,
            ) && q <= n by {
                if before.contains(q as u64) {
                    let k = choose|k: int| 0 <= k < before.len() && before[k] == q as u64;
                    assert(factors@[k] == q as u64);
                } else {
                    // q divides the prime rest, so it is rest
                    if q < rest {
                        assert((rest as int) % q != 0);
                    } else if q > rest {
                        lemma_small_mod(rest as nat, q as nat);
                    }
                    assert(q == rest);
                }
                lemma_divisor_bound(q, n as int);
            }
        }
    } else {
        proof {
            assert forall|q: int| is_prime(q) && #[trigger] ((n as int) % q) == 0 implies factors@.contains(
                q as u64,
            ) && q <= n by {
                if !factors@.contains(q as u64) {
                    lemma_small_mod(1, q as nat);
                }
                lemma_divisor_bound(q, n as int);
            }
        }
    }
    factors
}

/// A divisor of a positive number is no greater than it.
pub proof fn lemma_divisor_bound(d: int, n: int)
    requires
        d > 0,
        n > 0,
        n % d == 0,
    ensures
        d <= n,
{
    if d > n {
        lemma_small_mod(n as nat, d as nat);
    }
}

/// The power of `g` that the root test looks at for the prime factor `q` of
/// `m - 1`.
pub open spec fn root_power(g: int, m: int, q: int) -> int {
    pow(g, ((m - 1) / q) as nat) % m
}

/// `g` passes the root test modulo `m`: for no prime factor `q` of `m - 1`
/// is `g^((m - 1) / q)` congruent to one. For a prime `m` these are the
/// primitive roots.
pub open spec fn passes_root_test(g: int, m: int) -> bool {
    forall|q: int| is_prime(q) && (m - 1) % q == 0 ==> #[trigger] root_power(g, m, q) != 1
}

/// `g` is the least number from 2 on that passes the root test modulo `m`.
pub open spec fn is_least_root(g: int, m: int) -> bool {
    &&& 2 <= g < m
    &&& passes_root_test(g, m)
    &&& forall|h: int| 2 <= h < g ==> !#[trigger] passes_root_test(h, m)
}

/// The least `g` in `[2, modulo)` that passes the root test, if there is
/// one: for a prime modulus, its least primitive root.
pub fn primitive_root(modulo: u32) -> (root: Option<u32>)
    requires
        modulo >= 3,
    ensures
        root matches Some(g) ==> is_least_root(g as int, modulo as int),
        root is None ==> forall|h: int| 2 <= h < modulo ==> !#[trigger] passes_root_test(h, modulo as int),
{
    let n = modulo - 1;
    let factors = prime_factors(n);
    let ghost m = modulo as int;
    let mut g: u32 = 2;
    while g < modulo
        invariant
            2 <= g <= modulo,
            n == modulo - 1,
            m == modulo as int,
            forall|k: int|
                0 <= k < factors@.len() ==> is_prime(#[trigger] factors@[k] as int) && (n as int)
                    % (factors@[k] as int) == 0,
            forall|q: int|
                is_prime(q) && #[trigger] ((n as int) % q) == 0 ==> factors@.contains(q as u64) && q
                    <= n,
            forall|h: int| 2 <= h < g ==> !#[trigger] passes_root_test(h, m),
        decreases modulo - g,
    {
        let mut passes = true;
        let mut k: usize = 0;
        while k < factors.len()
            invariant_except_break
                passes,
            invariant
                k <= factors.len(),
                n == modulo - 1,
                m == modulo as int,
                modulo >= 3,
                2 <= g < modulo,
                forall|k: int|
                    0 <= k < factors@.len() ==> is_prime(#[trigger] factors@[k] as int) && (
                    n as int) % (factors@[k] as int) == 0,
                forall|j: int|
                    0 <= j < k ==> root_power(g as int, m, #[trigger] factors@[j] as int) != 1,
            ensures
                passes ==> k == factors.len(),
                !passes ==> !passes_root_test(g as int, m),
            decreases factors.len() - k,
        {
            let q = factors[k];
            proof {
                lemma_divisor_bound(q as int, n as int);
            }
            if pow_mod(g as u64, n as u64 / q, modulo as u64) == 1 {
                passes = false;
                proof {
                    assert(root_power(g as int, m, q as int) == 1);
                }
                break ;
            }
            k = k + 1;
        }
        if passes {
            proof {
                assert forall|q: int| is_prime(q) && (m - 1) % q == 0 implies #[trigger] root_power(
                    g as int,
                    m,
                    q,
                ) != 1 by {
                    assert((n as int) % q == 0);
                    let j = choose|j: int| 0 <= j < factors@.len() && factors@[j] == q as u64;
                    assert(root_power(g as int, m, factors@[j] as int) != 1);
                }
            }
            return Some(g);
        }
        g = g + 1;
    }
    None
}

} // verus!

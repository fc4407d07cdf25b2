//! Congruences and powers over the integers.

use vstd::arithmetic::div_mod::*;
use vstd::arithmetic::mul::*;
use vstd::arithmetic::power::*;
use vstd::prelude::*;

verus! {

/// `n` has no divisor strictly between 1 and itself.
pub open spec fn is_prime(n: int) -> bool {
    n >= 2 && forall|d: int| 1 < d < n ==> #[trigger] (n % d) != 0
}

/// `a` and `b` leave the same remainder modulo `m`.
pub open spec fn cong(a: int, b: int, m: int) -> bool {
    a % m == b % m
}

pub proof fn lemma_cong_add(a: int, a2: int, b: int, b2: int, m: int)
    requires
        m > 0,
        cong(a, a2, m),
        cong(b, b2, m),
    ensures
        cong(a + b, a2 + b2, m),
{
    lemma_add_mod_noop(a, b, m);
    lemma_add_mod_noop(a2, b2, m);
}

pub proof fn lemma_cong_sub(a: int, a2: int, b: int, b2: int, m: int)
    requires
        m > 0,
        cong(a, a2, m),
        cong(b, b2, m),
    ensures
        cong(a - b, a2 - b2, m),
{
    lemma_sub_mod_noop(a, b, m);
    lemma_sub_mod_noop(a2, b2, m);
}

pub proof fn lemma_cong_mul(a: int, a2: int, b: int, b2: int, m: int)
    requires
        m > 0,
        cong(a, a2, m),
        cong(b, b2, m),
    ensures
        cong(a * b, a2 * b2, m),
{
    lemma_mul_mod_noop(a, b, m);
    lemma_mul_mod_noop(a2, b2, m);
}

pub proof fn lemma_cong_pow(a: int, a2: int, e: nat, m: int)
    requires
        m > 0,
        cong(a, a2, m),
    ensures
        cong(pow(a, e), pow(a2, e), m),
{
    lemma_pow_mod_noop(a, e, m);
    lemma_pow_mod_noop(a2, e, m);
}

/// A value is congruent to its own remainder.
pub proof fn lemma_cong_mod(a: int, m: int)
    requires
        m > 0,
    ensures
        cong(a % m, a, m),
{
    lemma_mod_twice(a, m);
}

/// Adding a multiple of the modulus changes nothing.
pub proof fn lemma_cong_add_multiple(a: int, k: int, m: int)
    requires
        m > 0,
    ensures
        cong(a + k * m, a, m),
{
    lemma_mod_multiples_vanish(k, a, m);
    assert(k * m + a == a + k * m);
    assert(m * k == k * m) by (nonlinear_arith);
}

/// A remainder in range is the remainder.
pub proof fn lemma_cong_small(a: int, b: int, m: int)
    requires
        m > 0,
        0 <= a < m,
        cong(a, b, m),
    ensures
        a == b % m,
{
    lemma_small_mod(a as nat, m as nat);
}

/// Squaring the base halves an even exponent.
pub proof fn lemma_pow_even(b: int, k: nat)
    ensures
        pow(b, 2 * k) == pow(b * b, k),
{
    lemma_pow_multiplies(b, 2, k);
    lemma_square_is_pow2(b);
}

/// An odd exponent splits off one factor.
pub proof fn lemma_pow_odd(b: int, k: nat)
    ensures
        pow(b, 2 * k + 1) == b * pow(b * b, k),
{
    lemma_pow_even(b, k);
    reveal(pow);
}

/// The least non-negative remainder of a signed `n` by a positive `m`.
pub fn rem_euclid(n: i64, m: i64) -> (r: i64)
    requires
        m > 0,
    ensures
        0 <= r < m,
        r == (n as int) % (m as int),
{
    if n >= 0 {
        proof {
            lemma_mod_bound(n as int, m as int);
        }
        n % m
    } else {
        let k = (-(n + 1)) % m;
        proof {
            let q = (-(n + 1)) / (m as int);
            lemma_mod_bound(-(n + 1), m as int);
            lemma_fundamental_div_mod(-(n + 1), m as int);
            assert(n == (-q - 1) * m + (m - 1 - k)) by (nonlinear_arith)
                requires
                    -(n + 1) == m * q + k,
            ;
            lemma_fundamental_div_mod_converse(n as int, m as int, -q - 1, m - 1 - k);
        }
        m - 1 - k
    }
}

/// A multiple of `m` strictly between `-m` and `m` is zero.
pub proof fn lemma_small_multiple_is_zero(k: int, m: int)
    requires
        m > 0,
        -m < k < m,
        k % m == 0,
    ensures
        k == 0,
{
    if k > 0 {
        lemma_small_mod(k as nat, m as nat);
    } else if k < 0 {
        lemma_small_mod((-k) as nat, m as nat);
        lemma_sub_mod_noop(0, k, m);
        lemma_small_mod(0, m as nat);
        assert(0 - k == -k);
    }
}

} // verus!

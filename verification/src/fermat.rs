//! Fermat's little theorem, by way of the binomial theorem.

use crate::arith::{cong, is_prime, lemma_cong_add, lemma_cong_mod, lemma_cong_pow, lemma_cong_sub};
use crate::audio_vec::owned::ntt::dft::{eval, lemma_eval_cong_seq, poly_eval};
use crate::audio_vec::owned::ntt::primitive_root::lemma_euclid;
use crate::audio_vec::owned::ntt::product::{at, lemma_eval_linear, lemma_eval_shift, lemma_eval_tail, pad};
use vstd::arithmetic::div_mod::*;
use vstd::arithmetic::power::*;
use vstd::prelude::*;

verus! {

/// Row `n` of Pascal's triangle: the binomial coefficients of `n`.
pub open spec fn binomial_row(n: nat) -> Seq<int>
    decreases n,
{
    if n == 0 {
        seq![1int]
    } else {
        let prev = binomial_row((n - 1) as nat);
        Seq::new(n + 1, |t: int| at(prev, t) + at(prev, t - 1))
    }
}

/// Row `n` has `n + 1` entries, and ones at both ends.
pub proof fn lemma_row_ends(n: nat)
    ensures
        binomial_row(n).len() == n + 1,
        binomial_row(n)[0] == 1,
        binomial_row(n)[n as int] == 1,
    decreases n,
{
    if n > 0 {
        lemma_row_ends((n - 1) as nat);
    }
}

/// The binomial theorem: row `n` is the polynomial `(1 + x)^n`.
pub proof fn lemma_binomial_theorem(n: nat, a: int)
    ensures
        poly_eval(binomial_row(n), a) == pow(a + 1, n),
    decreases n,
{
    if n == 0 {
        lemma_pow0(a + 1);
        lemma_pow0(a);
        let r = binomial_row(0);
        assert(eval(r, 0, 1, a, 0) == 0);
        assert(0 + (1 - 1) * 1 == 0);
        assert(r[0] * 1 == 1);
    } else {
        let k = (n - 1) as nat;
        lemma_binomial_theorem(k, a);
        lemma_row_ends(k);
        lemma_row_ends(n);
        let prev = binomial_row(k);
        let row = binomial_row(n);
        let p = pad(prev, n + 1);
        let sh = Seq::new(n + 1, |t: int| at(prev, t - 1));
        assert forall|t: int| 0 <= t < n + 1 implies #[trigger] row[0 + t * 1] == p[0 + t * 1] + 1
            * sh[0 + t * 1] by {}
        lemma_eval_linear(row, p, sh, 1, 0, 1, a, n + 1);
        assert forall|t: int| 0 <= t < n + 1 implies #[trigger] sh[t] == if t >= 1 {
            p[t - 1]
        } else {
            0
        } by {}
        lemma_eval_shift(p, sh, a, 1, n + 1);
        lemma_pow1(a);
        // the padding adds nothing
        assert forall|t: int| n <= t < n + 1 implies #[trigger] p[t] == 0 by {}
        lemma_eval_tail(p, a, n, n + 1);
        assert forall|t: int| 0 <= t < n implies cong(#[trigger] p[0 + t * 1], prev[0 + t * 1], 1) by {}
        lemma_eval_same(p, prev, a, n);
        reveal(pow);
        assert(pow(a + 1, n) == (a + 1) * pow(a + 1, k));
        let e = poly_eval(prev, a);
        assert(e + 1 * (a * e) == (a + 1) * e) by (nonlinear_arith);
    }
}

/// Sequences that agree on the first `cnt` entries have the same value there.
proof fn lemma_eval_same(v: Seq<int>, v2: Seq<int>, r: int, cnt: nat)
    requires
        forall|t: int| 0 <= t < cnt ==> #[trigger] v[t] == v2[t],
    ensures
        eval(v, 0, 1, r, cnt) == eval(v2, 0, 1, r, cnt),
    decreases cnt,
{
    if cnt > 0 {
        lemma_eval_same(v, v2, r, (cnt - 1) as nat);
        assert(0 + (cnt - 1) * 1 == cnt - 1);
        assert(v[cnt - 1] == v2[cnt - 1]);
    }
}

/// The absorption identity: `k * C(n, k) == n * C(n - 1, k - 1)`.
pub proof fn lemma_absorption(n: nat, k: nat)
    requires
        1 <= k <= n,
    ensures
        k * binomial_row(n)[k as int] == n * binomial_row((n - 1) as nat)[k - 1],
    decreases n,
{
    let m = (n - 1) as nat;
    lemma_row_ends(n);
    lemma_row_ends(m);
    let row = binomial_row(n);
    let prev = binomial_row(m);
    if k == n {
        assert(row[k as int] == at(prev, k as int) + at(prev, k - 1));
        assert(k * 1 == n * 1);
    } else {
        // 1 <= k < n, so n >= 2
        let m2 = (m - 1) as nat;
        lemma_row_ends(m2);
        let prev2 = binomial_row(m2);
        lemma_absorption(m, k);
        assert(row[k as int] == prev[k as int] + prev[k - 1]);
        assert(prev[k - 1] == at(prev2, k - 1) + at(prev2, k - 2));
        assert(at(prev2, k - 1) == prev2[k - 1]);
        let x = prev2[k - 1];
        let y = at(prev2, k - 2);
        if k >= 2 {
            lemma_absorption(m, (k - 1) as nat);
            assert((k - 1) * prev[k - 1] == m * prev2[k - 2]);
            assert(y == prev2[k - 2]);
        } else {
            assert(y == 0);
            assert((k - 1) * prev[k - 1] == 0) by (nonlinear_arith)
                requires
                    k == 1,
            ;
            assert(m * y == 0) by (nonlinear_arith)
                requires
                    y == 0,
            ;
        }
        assert(k * (prev[k as int] + prev[k - 1]) == n * prev[k - 1]) by (nonlinear_arith)
            requires
                k * prev[k as int] == m * x,
                (k - 1) * prev[k - 1] == m * y,
                prev[k - 1] == x + y,
                n == m + 1,
        ;
    }
}

/// A prime divides the inner binomial coefficients of its own row.
pub proof fn lemma_prime_divides_binomial(p: nat, k: nat)
    requires
        is_prime(p as int),
        0 < k < p,
    ensures
        binomial_row(p)[k as int] % (p as int) == 0,
{
    lemma_absorption(p, k);
    let c = binomial_row(p)[k as int];
    let d = binomial_row((p - 1) as nat)[k - 1];
    assert(k * c == d * p) by (nonlinear_arith)
        requires
            k * c == p * d,
    ;
    lemma_mod_multiples_basic(d, p as int);
    lemma_small_mod(k, p);
    lemma_euclid(p as int, k as int, c);
}

/// Modulo a prime `p`, `(a + 1)^p` is `a^p + 1`.
pub proof fn lemma_freshman(p: nat, a: int)
    requires
        is_prime(p as int),
    ensures
        cong(pow(a + 1, p), pow(a, p) + 1, p as int),
{
    let row = binomial_row(p);
    let ends = Seq::new(p + 1, |t: int| if t == 0 || t == p { 1int } else { 0int });
    lemma_row_ends(p);
    lemma_binomial_theorem(p, a);
    assert forall|t: int| 0 <= t < p + 1 implies cong(
        #[trigger] row[0 + t * 1],
        ends[0 + t * 1],
        p as int,
    ) by {
        if 0 < t < p {
            lemma_prime_divides_binomial(p, t as nat);
            lemma_small_mod(0, p);
        }
    }
    lemma_eval_cong_seq(row, ends, 0, 1, a, p + 1, p as int);
    // the value of the polynomial 1 + x^p
    assert(0 + ((p + 1) - 1) * 1 == p);
    assert(eval(ends, 0, 1, a, p + 1) == eval(ends, 0, 1, a, p) + ends[p as int] * pow(a, p));
    assert forall|t: int| 1 <= t < p implies #[trigger] ends[t] == 0 by {}
    lemma_eval_tail(ends, a, 1, p);
    assert(eval(ends, 0, 1, a, 0) == 0);
    assert(0 + (1 - 1) * 1 == 0);
    lemma_pow0(a);
    assert(eval(ends, 0, 1, a, 1) == 0 + ends[0] * pow(a, 0));
    assert(1 * pow(a, p) == pow(a, p));
    assert(1 * 1 == 1int);
}

/// Fermat's little theorem: modulo a prime `p`, `a^p` is `a`.
pub proof fn lemma_fermat_power(p: nat, a: nat)
    requires
        is_prime(p as int),
    ensures
        cong(pow(a as int, p), a as int, p as int),
    decreases a,
{
    if a == 0 {
        lemma0_pow(p);
    } else {
        lemma_fermat_power(p, (a - 1) as nat);
        lemma_freshman(p, a - 1);
        lemma_cong_add(pow((a - 1) as int, p), (a - 1) as int, 1, 1, p as int);
    }
}

/// Fermat's little theorem for what is not a multiple of the prime `m`:
/// the power `m - 1` is one.
pub proof fn lemma_fermat(a: int, m: int)
    requires
        is_prime(m),
        a % m != 0,
    ensures
        pow(a, (m - 1) as nat) % m == 1,
{
    let r = a % m;
    let e = (m - 1) as nat;
    lemma_mod_bound(a, m);
    lemma_cong_mod(a, m);
    lemma_cong_pow(r, a, e, m);
    lemma_fermat_power(m as nat, r as nat);
    reveal(pow);
    assert(pow(r, m as nat) == r * pow(r, e));
    // r * (r^(m-1) - 1) is a multiple of m, and r is not
    lemma_cong_sub(r * pow(r, e), r, r, r, m);
    assert(r * (pow(r, e) - 1) == r * pow(r, e) - r) by (nonlinear_arith);
    lemma_small_mod(0, m as nat);
    lemma_small_mod(r as nat, m as nat);
    lemma_euclid(m, r, pow(r, e) - 1);
    lemma_mod_equivalence(pow(r, e), 1, m);
    lemma_small_mod(1, m as nat);
}

/// Modulo a prime `m`, the power `m - 2` of what is not a multiple of `m`
/// is its inverse.
pub proof fn lemma_fermat_inverse(a: int, m: int)
    requires
        is_prime(m),
        a % m != 0,
    ensures
        (a * (pow(a, (m - 2) as nat) % m)) % m == 1,
{
    lemma_fermat(a, m);
    reveal(pow);
    assert(pow(a, (m - 1) as nat) == a * pow(a, (m - 2) as nat));
    lemma_mul_mod_noop_right(a, pow(a, (m - 2) as nat), m);
}

/// A residue plus its negative is zero.
pub proof fn lemma_add_negative(a: int, m: int)
    requires
        m > 0,
    ensures
        (a + (m - a)) % m == 0,
        (a + (-a) % m) % m == 0,
{
    lemma_mod_self_0(m);
    lemma_add_mod_noop_right(a, -a, m);
    lemma_small_mod(0, m as nat);
}

} // verus!

//! Tables of roots of unity of two-power order, and the evaluation points
//! that the butterflies walk through.

use crate::arith::{cong, lemma_cong_mul};
use vstd::arithmetic::div_mod::*;
use vstd::arithmetic::power2::*;
use vstd::prelude::*;

verus! {

/// Number of trailing zero bits of a positive integer.
pub open spec fn trailing_zeros(n: nat) -> nat
    decreases n,
{
    if n == 0 || n % 2 == 1 {
        0
    } else {
        1 + trailing_zeros(n / 2)
    }
}

/// `w[i]` is a root of unity of order `2^(i+1)` modulo `m` and `y[i]` its
/// inverse: `w[0] == -1`, each entry is the square of the next, and
/// `w[i] * y[i] == 1`.
pub open spec fn roots_ok(w: Seq<int>, y: Seq<int>, m: int) -> bool {
    &&& m > 1
    &&& w.len() == y.len()
    &&& w.len() >= 1
    &&& cong(w[0], -1, m)
    &&& forall|i: int| 0 <= i < w.len() - 1 ==> cong(#[trigger] w[i + 1] * w[i + 1], w[i], m)
    &&& forall|i: int| 0 <= i < w.len() ==> cong(#[trigger] w[i] * y[i], 1, m)
}

/// The product of `w[b + j]` over the set bits `b` of `s`.
pub open spec fn bit_prod(w: Seq<int>, s: nat, j: int) -> int
    decreases s,
{
    if s == 0 {
        1
    } else if s % 2 == 1 {
        w[j] * bit_prod(w, s / 2, j + 1)
    } else {
        bit_prod(w, s / 2, j + 1)
    }
}

/// The evaluation point of output slot `s`: the product of `w[b]` over the
/// set bits `b` of `s`, that is the primitive root raised to the bit-reversed
/// index.
pub open spec fn point(w: Seq<int>, s: nat) -> int {
    bit_prod(w, s, 0)
}

/// The factor that advances the running twiddle from one block to the next:
/// `w[t + j]` times the inverses `y[j], .., y[t + j - 1]`.
pub open spec fn diff_root(w: Seq<int>, y: Seq<int>, t: nat, j: int) -> int
    decreases t,
{
    if t == 0 {
        w[j]
    } else {
        y[j] * diff_root(w, y, (t - 1) as nat, j + 1)
    }
}

/// The inverses form a table of the same kind.
pub proof fn lemma_inverse_roots(w: Seq<int>, y: Seq<int>, m: int)
    requires
        roots_ok(w, y, m),
    ensures
        roots_ok(y, w, m),
{
    // y[0] == -1: y[0] == y[0] * (w[0] * w[0]) == (w[0] * y[0]) * w[0] == w[0]
    assert(cong(w[0] * y[0], 1, m));
    assert(cong(w[0] * w[0], 1, m)) by {
        lemma_cong_mul(w[0], -1, w[0], -1, m);
        assert((-1) * (-1) == 1int);
    }
    assert(cong(y[0], -1, m)) by {
        lemma_cong_mul(y[0], y[0], w[0] * w[0], 1, m);
        assert(y[0] * 1 == y[0]);
        assert(y[0] * (w[0] * w[0]) == (w[0] * y[0]) * w[0]) by (nonlinear_arith);
        lemma_cong_mul(w[0] * y[0], 1, w[0], w[0], m);
        assert(1 * w[0] == w[0]);
    }
    assert forall|i: int| 0 <= i < y.len() - 1 implies cong(
        #[trigger] y[i + 1] * y[i + 1],
        y[i],
        m,
    ) by {
        let a = w[i + 1];
        let b = y[i + 1];
        assert(cong(w[i + 1] * w[i + 1], w[i], m));
        assert(cong(w[i + 1] * y[i + 1], 1, m));
        assert(cong(w[i] * y[i], 1, m));
        // b * b == b * b * (w[i] * y[i]) == (b * b * a * a) * y[i] == y[i]
        lemma_cong_mul(b * b, b * b, w[i] * y[i], 1, m);
        assert(b * b * 1 == b * b);
        lemma_cong_mul(a * b, 1, a * b, 1, m);
        assert(1 * 1 == 1int);
        lemma_cong_mul(b * b, b * b, a * a, w[i], m);
        lemma_cong_mul((b * b) * w[i], (b * b) * (a * a), y[i], y[i], m);
        assert((b * b) * (a * a) == (a * b) * (a * b)) by (nonlinear_arith);
        lemma_cong_mul((a * b) * (a * b), 1, y[i], y[i], m);
        assert(1 * y[i] == y[i]);
        assert((b * b) * (w[i] * y[i]) == ((b * b) * w[i]) * y[i]) by (nonlinear_arith);
    }
    assert forall|i: int| 0 <= i < y.len() implies cong(#[trigger] y[i] * w[i], 1, m) by {
        assert(cong(w[i] * y[i], 1, m));
        assert(y[i] * w[i] == w[i] * y[i]) by (nonlinear_arith);
    }
}

/// Squaring a bit product moves it one table entry down.
pub proof fn lemma_bit_prod_sq(w: Seq<int>, y: Seq<int>, m: int, s: nat, j: int)
    requires
        roots_ok(w, y, m),
        0 <= j,
        j + 1 <= w.len(),
        s < pow2((w.len() - 1 - j) as nat),
    ensures
        cong(bit_prod(w, s, j + 1) * bit_prod(w, s, j + 1), bit_prod(w, s, j), m),
    decreases s,
{
    if s == 0 {
        assert(1 * 1 == 1int);
    } else {
        let l = w.len();
        assert(j + 1 < l) by {
            if j + 1 == l {
                lemma2_to64();
            }
        }
        lemma_pow2_unfold((l - 1 - j) as nat);
        lemma_bit_prod_sq(w, y, m, s / 2, j + 1);
        let upper = bit_prod(w, s / 2, j + 2);
        let lower = bit_prod(w, s / 2, j + 1);
        if s % 2 == 1 {
            let a = w[j + 1];
            assert(cong(w[j + 1] * w[j + 1], w[j], m));
            lemma_cong_mul(a * a, w[j], upper * upper, lower, m);
            assert((a * upper) * (a * upper) == (a * a) * (upper * upper)) by (nonlinear_arith);
        }
    }
}

/// Going from block `g` to block `g + 1` multiplies the bit product by the
/// differential root of the number of trailing zeros of `g + 1`.
pub proof fn lemma_bit_prod_succ(w: Seq<int>, y: Seq<int>, m: int, g: nat, j: int)
    requires
        roots_ok(w, y, m),
        0 <= j <= w.len(),
        g + 1 < pow2((w.len() - j) as nat),
    ensures
        cong(
            bit_prod(w, g + 1, j),
            bit_prod(w, g, j) * diff_root(w, y, trailing_zeros(g + 1), j),
            m,
        ),
        trailing_zeros(g + 1) + j < w.len(),
    decreases g,
{
    let l = w.len();
    assert(j < l) by {
        if j == l {
            lemma2_to64();
        }
    }
    lemma_pow2_unfold((l - j) as nat);
    if g % 2 == 0 {
        assert((g + 1) / 2 == g / 2);
        assert(bit_prod(w, g, j) == bit_prod(w, g / 2, j + 1));
        assert(bit_prod(w, g + 1, j) == w[j] * bit_prod(w, g / 2, j + 1));
        assert(w[j] * bit_prod(w, g / 2, j + 1) == bit_prod(w, g / 2, j + 1) * w[j])
            by (nonlinear_arith);
    } else {
        let h = g / 2;
        assert((g + 1) / 2 == h + 1);
        lemma_bit_prod_succ(w, y, m, h, j + 1);
        let t1 = trailing_zeros(h + 1);
        assert(trailing_zeros(g + 1) == 1 + t1);
        let d1 = diff_root(w, y, t1, j + 1);
        let ph = bit_prod(w, h, j + 1);
        assert(diff_root(w, y, 1 + t1, j) == y[j] * d1);
        assert(bit_prod(w, g, j) == w[j] * ph);
        assert(bit_prod(w, g + 1, j) == bit_prod(w, h + 1, j + 1));
        assert(cong(w[j] * y[j], 1, m));
        lemma_cong_mul(w[j] * y[j], 1, ph * d1, ph * d1, m);
        assert(1 * (ph * d1) == ph * d1);
        assert((w[j] * y[j]) * (ph * d1) == (w[j] * ph) * (y[j] * d1))
            by (nonlinear_arith);
    }
}

/// The differential roots obey the recurrence by which the table is built:
/// each is the one before times `y[t + j - 1] * w[t + j + 1]`.
pub proof fn lemma_diff_root_step(w: Seq<int>, y: Seq<int>, m: int, t: nat, j: int)
    requires
        roots_ok(w, y, m),
        j >= 1,
        t + j + 1 < w.len(),
    ensures
        cong(
            diff_root(w, y, t + 1, j),
            diff_root(w, y, t, j) * y[t + j - 1] * w[t + j + 1],
            m,
        ),
    decreases t,
{
    lemma_inverse_roots(w, y, m);
    if t == 0 {
        // y[j] * w[j + 1] against w[j] * y[j - 1] * w[j + 1]; w[j] * y[j - 1] == y[j]
        let a = w[j];
        let b = y[j];
        assert(diff_root(w, y, 1, j) == b * diff_root(w, y, 0, j + 1));
        assert(cong(y[(j - 1) + 1] * y[(j - 1) + 1], y[j - 1], m));
        assert(cong(a * b, 1, m));
        lemma_cong_mul(a, a, y[j - 1], b * b, m);
        assert(a * (b * b) == (a * b) * b) by (nonlinear_arith);
        lemma_cong_mul(a * b, 1, b, b, m);
        assert(1 * b == b);
        assert(cong(a * y[j - 1], b, m));
        lemma_cong_mul(a * y[j - 1], b, w[j + 1], w[j + 1], m);
    } else {
        lemma_diff_root_step(w, y, m, (t - 1) as nat, j + 1);
        let d = diff_root(w, y, (t - 1) as nat, j + 1);
        let e = y[t + j - 1] * w[t + j + 1];
        assert(diff_root(w, y, t, j + 1) == y[j + 1] * diff_root(w, y, (t - 1) as nat, j + 2)) by {
            reveal_with_fuel(diff_root, 2);
        }
        assert(cong(diff_root(w, y, t, j + 1), d * y[t + j - 1] * w[t + j + 1], m));
        lemma_cong_mul(y[j], y[j], diff_root(w, y, t, j + 1), d * y[t + j - 1] * w[t + j + 1], m);
        assert(diff_root(w, y, t + 1, j) == y[j] * diff_root(w, y, t, j + 1));
        assert(diff_root(w, y, t, j) == y[j] * d);
        assert(y[j] * (d * y[t + j - 1] * w[t + j + 1]) == (y[j] * d) * y[t + j - 1] * w[t
            + j + 1]) by (nonlinear_arith);
    }
}

} // verus!

//! The transform as polynomial evaluation, and the identities behind one
//! butterfly.

use super::roots::{bit_prod, lemma_bit_prod_sq, point, roots_ok};
use crate::arith::{cong, lemma_cong_add, lemma_cong_mul, lemma_cong_pow, lemma_cong_sub, lemma_pow_even, lemma_pow_odd};
use vstd::arithmetic::power::*;
use vstd::arithmetic::power2::*;
use vstd::prelude::*;

verus! {

/// The sum of `v[i + k * step] * r^k` over `0 <= k < cnt`.
pub open spec fn eval(v: Seq<int>, i: int, step: int, r: int, cnt: nat) -> int
    decreases cnt,
{
    if cnt == 0 {
        0
    } else {
        eval(v, i, step, r, (cnt - 1) as nat) + v[i + (cnt - 1) * step] * pow(r, (cnt - 1) as nat)
    }
}

/// The value of the polynomial with coefficients `v` at `r`.
pub open spec fn poly_eval(v: Seq<int>, r: int) -> int {
    eval(v, 0, 1, r, v.len())
}

/// The transform of `v`: slot `s` holds the polynomial `v` evaluated at
/// `point(w, s)`, reduced modulo `m`.
pub open spec fn dft(v: Seq<int>, w: Seq<int>, m: int) -> Seq<int> {
    Seq::new(v.len(), |s: int| poly_eval(v, point(w, s as nat)) % m)
}

/// Congruent evaluation points give congruent sums.
pub proof fn lemma_eval_cong_root(v: Seq<int>, i: int, step: int, r: int, r2: int, cnt: nat, m: int)
    requires
        m > 0,
        cong(r, r2, m),
    ensures
        cong(eval(v, i, step, r, cnt), eval(v, i, step, r2, cnt), m),
    decreases cnt,
{
    if cnt > 0 {
        let k = (cnt - 1) as nat;
        lemma_eval_cong_root(v, i, step, r, r2, k, m);
        lemma_cong_pow(r, r2, k, m);
        let x = v[i + (cnt - 1) * step];
        lemma_cong_mul(x, x, pow(r, k), pow(r2, k), m);
        lemma_cong_add(eval(v, i, step, r, k), eval(v, i, step, r2, k), x * pow(r, k), x * pow(r2, k), m);
    }
}

/// Sequences that agree on the sampled slots, up to congruence, give
/// congruent sums.
pub proof fn lemma_eval_cong_seq(v: Seq<int>, v2: Seq<int>, i: int, step: int, r: int, cnt: nat, m: int)
    requires
        m > 0,
        forall|k: int| 0 <= k < cnt ==> cong(#[trigger] v[i + k * step], v2[i + k * step], m),
    ensures
        cong(eval(v, i, step, r, cnt), eval(v2, i, step, r, cnt), m),
    decreases cnt,
{
    if cnt > 0 {
        let k = (cnt - 1) as nat;
        lemma_eval_cong_seq(v, v2, i, step, r, k, m);
        let x = v[i + (cnt - 1) * step];
        let x2 = v2[i + (cnt - 1) * step];
        assert(cong(v[i + (cnt - 1) * step], v2[i + (cnt - 1) * step], m));
        lemma_cong_mul(x, x2, pow(r, k), pow(r, k), m);
        lemma_cong_add(eval(v, i, step, r, k), eval(v2, i, step, r, k), x * pow(r, k), x2 * pow(r, k), m);
    }
}

/// A sum of `2 * cnt` terms at `c` splits into its even and odd terms, each
/// a sum of `cnt` terms at `r == c * c`.
pub proof fn lemma_eval_split(v: Seq<int>, i: int, step: int, c: int, r: int, cnt: nat, m: int)
    requires
        m > 0,
        cong(c * c, r, m),
    ensures
        cong(
            eval(v, i, step, c, 2 * cnt),
            eval(v, i, 2 * step, r, cnt) + c * eval(v, i + step, 2 * step, r, cnt),
            m,
        ),
    decreases cnt,
{
    if cnt == 0 {
        assert(c * 0 == 0);
    } else {
        let k = (cnt - 1) as nat;
        lemma_eval_split(v, i, step, c, r, k, m);
        let a = eval(v, i, 2 * step, r, k);
        let b = eval(v, i + step, 2 * step, r, k);
        let e = eval(v, i, step, c, 2 * k);
        let x = v[i + (2 * k) * step];
        let z = v[i + (2 * k + 1) * step];
        let p = pow(r, k);
        assert(eval(v, i, step, c, (2 * k + 1) as nat) == e + x * pow(c, 2 * k));
        assert(eval(v, i, step, c, 2 * cnt) == e + x * pow(c, 2 * k) + z * pow(c, 2 * k + 1)) by {
            assert((2 * cnt - 1) as nat == 2 * k + 1);
            assert(((2 * k + 1) - 1) as nat == 2 * k);
        }
        assert(i + k * (2 * step) == i + (2 * k) * step) by (nonlinear_arith);
        assert(i + step + k * (2 * step) == i + (2 * k + 1) * step) by (nonlinear_arith);
        assert(eval(v, i, 2 * step, r, cnt) == a + x * p);
        assert(eval(v, i + step, 2 * step, r, cnt) == b + z * p);
        lemma_pow_even(c, k);
        lemma_pow_odd(c, k);
        lemma_cong_pow(c * c, r, k, m);
        // x * c^(2k) == x * p, z * c^(2k+1) == c * (z * p)
        lemma_cong_mul(x, x, pow(c * c, k), p, m);
        lemma_cong_mul(z * c, z * c, pow(c * c, k), p, m);
        assert(z * (c * pow(c * c, k)) == (z * c) * pow(c * c, k)) by (nonlinear_arith);
        lemma_cong_add(e, a + c * b, x * pow(c, 2 * k), x * p, m);
        lemma_cong_add(e + x * pow(c, 2 * k), a + c * b + x * p, z * pow(c, 2 * k + 1), (z * c) * p, m);
        assert(a + c * b + x * p + (z * c) * p == (a + x * p) + c * (b + z * p)) by (nonlinear_arith);
    }
}

/// The two children of block `s` have squares congruent to its point, and
/// are negatives of each other.
pub proof fn lemma_child_points(w: Seq<int>, y: Seq<int>, m: int, s: nat)
    requires
        roots_ok(w, y, m),
        2 * s + 1 < pow2(w.len()),
    ensures
        point(w, 2 * s) == bit_prod(w, s, 1),
        point(w, 2 * s + 1) == w[0] * bit_prod(w, s, 1),
        cong(point(w, 2 * s) * point(w, 2 * s), point(w, s), m),
        cong(point(w, 2 * s + 1) * point(w, 2 * s + 1), point(w, s), m),
        cong(point(w, 2 * s + 1), -point(w, 2 * s), m),
{
    let x = bit_prod(w, s, 1);
    lemma_pow2_unfold(w.len());
    lemma_bit_prod_sq(w, y, m, s, 0);
    assert((2 * s) / 2 == s && (2 * s + 1) / 2 == s);
    assert(point(w, 2 * s) == x) by {
        if s == 0 {
            assert(bit_prod(w, 0, 0) == 1);
            assert(bit_prod(w, 0, 1) == 1);
        }
    }
    assert(point(w, 2 * s + 1) == w[0] * x);
    lemma_cong_mul(w[0], -1, x, x, m);
    assert((-1) * x == -x);
    lemma_cong_mul(w[0] * x, -x, w[0] * x, -x, m);
    assert((-x) * (-x) == x * x) by (nonlinear_arith);
}

/// One radix-2 butterfly: from the two halves of block `s`, each a sum of
/// `cnt` terms, to the blocks `2 * s` and `2 * s + 1`, sums of `2 * cnt`
/// terms.
pub proof fn lemma_radix2(
    v: Seq<int>,
    w: Seq<int>,
    y: Seq<int>,
    m: int,
    half: int,
    cnt: nat,
    s: nat,
    i: int,
    a0: int,
    a1: int,
    c: int,
)
    requires
        roots_ok(w, y, m),
        2 * s + 1 < pow2(w.len()),
        cong(a0, eval(v, i, 2 * half, point(w, s), cnt), m),
        cong(a1, eval(v, i + half, 2 * half, point(w, s), cnt), m),
        cong(c, point(w, 2 * s), m),
    ensures
        cong(a0 + c * a1, eval(v, i, half, point(w, 2 * s), 2 * cnt), m),
        cong(a0 - c * a1, eval(v, i, half, point(w, 2 * s + 1), 2 * cnt), m),
{
    lemma_child_points(w, y, m, s);
    let r = point(w, s);
    let c0 = point(w, 2 * s);
    let c1 = point(w, 2 * s + 1);
    let e0 = eval(v, i, 2 * half, r, cnt);
    let e1 = eval(v, i + half, 2 * half, r, cnt);
    lemma_eval_split(v, i, half, c0, r, cnt, m);
    lemma_eval_split(v, i, half, c1, r, cnt, m);
    lemma_cong_mul(c, c0, a1, e1, m);
    lemma_cong_add(a0, e0, c * a1, c0 * e1, m);
    lemma_cong_sub(a0, e0, c * a1, c0 * e1, m);
    lemma_cong_mul(c1, -c0, e1, e1, m);
    assert((-c0) * e1 == -(c0 * e1)) by (nonlinear_arith);
    lemma_cong_add(e0, e0, c1 * e1, -(c0 * e1), m);
}

/// The four outputs of one radix-4 butterfly with running twiddle `x` and
/// fourth root of unity `im`, written over the integers.
pub open spec fn quad(q: int, a0: int, a1: int, a2: int, a3: int, x: int, im: int) -> int {
    if q == 0 {
        (a0 + a2 * (x * x)) + (a1 * x + a3 * (x * x * x))
    } else if q == 1 {
        (a0 + a2 * (x * x)) - (a1 * x + a3 * (x * x * x))
    } else if q == 2 {
        (a0 - a2 * (x * x)) + (a1 * x - a3 * (x * x * x)) * im
    } else {
        (a0 - a2 * (x * x)) - (a1 * x - a3 * (x * x * x)) * im
    }
}

/// One radix-4 butterfly is two radix-2 levels: from the four quarters of
/// block `g`, sums of `cnt` terms, to the blocks `4 * g .. 4 * g + 3`, sums of
/// `4 * cnt` terms.
pub proof fn lemma_radix4(
    v: Seq<int>,
    w: Seq<int>,
    y: Seq<int>,
    m: int,
    quarter: int,
    cnt: nat,
    g: nat,
    i: int,
    a0: int,
    a1: int,
    a2: int,
    a3: int,
    x: int,
)
    requires
        roots_ok(w, y, m),
        w.len() >= 2,
        4 * g + 3 < pow2(w.len()),
        cong(a0, eval(v, i, 4 * quarter, point(w, g), cnt), m),
        cong(a1, eval(v, i + quarter, 4 * quarter, point(w, g), cnt), m),
        cong(a2, eval(v, i + 2 * quarter, 4 * quarter, point(w, g), cnt), m),
        cong(a3, eval(v, i + 3 * quarter, 4 * quarter, point(w, g), cnt), m),
        cong(x, bit_prod(w, g, 2), m),
    ensures
        forall|q: int|
            0 <= q < 4 ==> cong(
                #[trigger] quad(q, a0, a1, a2, a3, x, w[1]),
                eval(v, i, quarter, point(w, (4 * g + q) as nat), 4 * cnt),
                m,
            ),
{
    let im = w[1];
    let c1 = x * x;
    lemma_pow2_unfold(w.len());
    lemma_pow2_unfold((w.len() - 1) as nat);
    // the points involved
    lemma_child_points(w, y, m, g);
    lemma_child_points(w, y, m, 2 * g);
    lemma_child_points(w, y, m, 2 * g + 1);
    let base = point(w, 4 * g);
    assert(base == bit_prod(w, g, 2)) by {
        assert((2 * g) / 2 == g);
        if g == 0 {
            assert(bit_prod(w, 0, 1) == 1);
            assert(bit_prod(w, 0, 2) == 1);
        }
    }
    assert(point(w, 4 * g + 2) == w[1] * base) by {
        assert((2 * g + 1) / 2 == g);
        assert(bit_prod(w, 2 * g + 1, 1) == w[1] * bit_prod(w, g, 2));
    }
    assert(cong(c1, point(w, 2 * g), m)) by {
        lemma_cong_mul(x, base, x, base, m);
    }
    assert(cong(x * im, point(w, 4 * g + 2), m)) by {
        lemma_cong_mul(x, base, im, im, m);
        assert(base * im == w[1] * base) by (nonlinear_arith)
            requires
                im == w[1],
        ;
    }
    // first level: block g into blocks 2g and 2g + 1
    lemma_radix2(v, w, y, m, 2 * quarter, cnt, g, i, a0, a2, c1);
    lemma_radix2(v, w, y, m, 2 * quarter, cnt, g, i + quarter, a1, a3, c1);
    let b0 = a0 + c1 * a2;
    let b2 = a0 - c1 * a2;
    let b1 = a1 + c1 * a3;
    let b3 = a1 - c1 * a3;
    // second level
    lemma_radix2(v, w, y, m, quarter, 2 * cnt, 2 * g, i, b0, b1, x);
    lemma_radix2(v, w, y, m, quarter, 2 * cnt, 2 * g + 1, i, b2, b3, x * im);
    assert(b0 + x * b1 == quad(0, a0, a1, a2, a3, x, im)) by (nonlinear_arith)
        requires
            b0 == a0 + (x * x) * a2,
            b1 == a1 + (x * x) * a3,
            quad(0, a0, a1, a2, a3, x, im) == (a0 + a2 * (x * x)) + (a1 * x + a3 * (x * x * x)),
    ;
    assert(b0 - x * b1 == quad(1, a0, a1, a2, a3, x, im)) by (nonlinear_arith)
        requires
            b0 == a0 + (x * x) * a2,
            b1 == a1 + (x * x) * a3,
            quad(1, a0, a1, a2, a3, x, im) == (a0 + a2 * (x * x)) - (a1 * x + a3 * (x * x * x)),
    ;
    assert(b2 + (x * im) * b3 == quad(2, a0, a1, a2, a3, x, im)) by (nonlinear_arith)
        requires
            b2 == a0 - (x * x) * a2,
            b3 == a1 - (x * x) * a3,
            quad(2, a0, a1, a2, a3, x, im) == (a0 - a2 * (x * x)) + (a1 * x - a3 * (x * x * x)) * im,
    ;
    assert(b2 - (x * im) * b3 == quad(3, a0, a1, a2, a3, x, im)) by (nonlinear_arith)
        requires
            b2 == a0 - (x * x) * a2,
            b3 == a1 - (x * x) * a3,
            quad(3, a0, a1, a2, a3, x, im) == (a0 - a2 * (x * x)) - (a1 * x - a3 * (x * x * x)) * im,
    ;
    assert(2 * (2 * g) == 4 * g && 2 * (2 * g) + 1 == 4 * g + 1 && 2 * (2 * g + 1) == 4 * g + 2 && 2
        * (2 * g + 1) + 1 == 4 * g + 3);
    assert(2 * (2 * cnt) == 4 * cnt);
    assert(2 * (2 * quarter) == 4 * quarter);
    assert(i + quarter + 2 * quarter == i + 3 * quarter);
}

} // verus!

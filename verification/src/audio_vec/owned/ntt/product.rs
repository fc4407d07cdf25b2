//! Convolution as polynomial multiplication: the transform turns it into a
//! pointwise product.

use super::dft::{dft, eval, lemma_eval_cong_seq, poly_eval};
use super::idft::idft;
use super::inversion::lemma_inverse_undoes_transform;
use super::roots::{point, roots_ok};
use crate::arith::{cong, lemma_cong_add, lemma_cong_mod, lemma_cong_mul};
use vstd::arithmetic::div_mod::*;
use vstd::arithmetic::power::*;
use vstd::arithmetic::power2::*;
use vstd::prelude::*;

verus! {

/// Entry `i` of `a`, zero outside its range.
pub open spec fn at(a: Seq<int>, i: int) -> int {
    if 0 <= i < a.len() {
        a[i]
    } else {
        0
    }
}

/// The sum of `a[i] * b[t - i]` over `0 <= i < upto`.
pub open spec fn conv_sum(a: Seq<int>, b: Seq<int>, t: int, upto: nat) -> int
    decreases upto,
{
    if upto == 0 {
        0
    } else {
        conv_sum(a, b, t, (upto - 1) as nat) + at(a, upto - 1) * at(b, t - (upto - 1))
    }
}

/// Coefficient `t` of the product of the polynomials `a` and `b`: the sum of
/// `a[i] * b[j]` over `i + j == t`.
pub open spec fn conv_at(a: Seq<int>, b: Seq<int>, t: int) -> int {
    conv_sum(a, b, t, a.len())
}

/// The length of a convolution: zero if either side is empty.
pub open spec fn conv_len(la: nat, lb: nat) -> nat {
    if la == 0 || lb == 0 {
        0
    } else {
        (la + lb - 1) as nat
    }
}

/// `a` cut or zero-padded to length `n`.
pub open spec fn pad(a: Seq<int>, n: nat) -> Seq<int> {
    Seq::new(n, |i: int| at(a, i))
}

/// The entrywise product of two sequences, reduced modulo `m`.
pub open spec fn pointwise(f: Seq<int>, g: Seq<int>, m: int) -> Seq<int> {
    Seq::new(f.len(), |s: int| (f[s] * g[s]) % m)
}

/// Evaluation is linear: where `z == x + c * y` on the sampled slots, the
/// sums obey the same equation.
pub proof fn lemma_eval_linear(
    z: Seq<int>,
    x: Seq<int>,
    y: Seq<int>,
    c: int,
    i: int,
    step: int,
    r: int,
    cnt: nat,
)
    requires
        forall|k: int|
            0 <= k < cnt ==> #[trigger] z[i + k * step] == x[i + k * step] + c * y[i + k * step],
    ensures
        eval(z, i, step, r, cnt) == eval(x, i, step, r, cnt) + c * eval(y, i, step, r, cnt),
    decreases cnt,
{
    if cnt == 0 {
        assert(c * 0 == 0);
    } else {
        let k = (cnt - 1) as nat;
        lemma_eval_linear(z, x, y, c, i, step, r, k);
        let p = pow(r, k);
        let j = i + (cnt - 1) * step;
        assert(z[i + (cnt - 1) * step] == x[i + (cnt - 1) * step] + c * y[i + (cnt - 1) * step]);
        assert((x[j] + c * y[j]) * p + c * eval(y, i, step, r, k) == x[j] * p + c * (eval(
            y,
            i,
            step,
            r,
            k,
        ) + y[j] * p)) by (nonlinear_arith);
    }
}

/// Zeros at the end add nothing to a polynomial's value.
pub proof fn lemma_eval_tail(v: Seq<int>, r: int, from: nat, to: nat)
    requires
        from <= to,
        forall|t: int| from <= t < to ==> #[trigger] v[t] == 0,
    ensures
        eval(v, 0, 1, r, to) == eval(v, 0, 1, r, from),
    decreases to,
{
    if from < to {
        lemma_eval_tail(v, r, from, (to - 1) as nat);
        assert(0 + (to - 1) * 1 == to - 1);
        assert(v[to - 1] == 0);
        assert(0 * pow(r, (to - 1) as nat) == 0);
    }
}

/// Shifting the coefficients up by `u` multiplies the value by `r^u`.
pub proof fn lemma_eval_shift(b: Seq<int>, sb: Seq<int>, r: int, u: nat, cnt: nat)
    requires
        sb.len() >= cnt,
        b.len() >= cnt,
        forall|t: int| 0 <= t < cnt ==> #[trigger] sb[t] == if t >= u {
            b[t - u]
        } else {
            0
        },
    ensures
        cnt >= u ==> eval(sb, 0, 1, r, cnt) == pow(r, u) * eval(b, 0, 1, r, (cnt - u) as nat),
        cnt <= u ==> eval(sb, 0, 1, r, cnt) == 0,
    decreases cnt,
{
    if cnt == 0 {
        assert(pow(r, u) * 0 == 0);
    } else {
        let k = (cnt - 1) as nat;
        lemma_eval_shift(b, sb, r, u, k);
        assert(0 + (cnt - 1) * 1 == cnt - 1);
        if cnt <= u {
            assert(sb[cnt - 1] == 0);
            assert(0 * pow(r, k) == 0);
        } else {
            let d = (k - u) as nat;
            assert(sb[cnt - 1] == b[cnt - 1 - u]);
            assert(0 + ((cnt - u) - 1) * 1 == cnt - 1 - u);
            lemma_pow_adds(r, u, d);
            assert(u + d == k);
            if k == u {
                assert(eval(b, 0, 1, r, 0) == 0);
                assert(eval(sb, 0, 1, r, k) == 0 || eval(sb, 0, 1, r, k) == pow(r, u) * 0);
                assert(pow(r, u) * 0 == 0);
            }
            assert(pow(r, u) * eval(b, 0, 1, r, d) + b[cnt - 1 - u] * (pow(r, u) * pow(r, d))
                == pow(r, u) * (eval(b, 0, 1, r, d) + b[cnt - 1 - u] * pow(r, d)))
                by (nonlinear_arith);
        }
    }
}

/// The convolution with the first `u` entries of `a`, as a sequence of
/// length `n`.
pub open spec fn partial_conv(a: Seq<int>, b: Seq<int>, n: nat, u: nat) -> Seq<int> {
    Seq::new(n, |t: int| conv_sum(a, b, t, u))
}

/// The value of the first `u` coefficients of `a`, times the value of `b`, is
/// the value of the partial product.
pub proof fn lemma_product_partial(a: Seq<int>, b: Seq<int>, n: nat, r: int, u: nat)
    requires
        u <= a.len(),
        b.len() >= 1,
        a.len() + b.len() - 1 <= n,
    ensures
        eval(pad(a, n), 0, 1, r, u) * poly_eval(pad(b, n), r) == poly_eval(
            partial_conv(a, b, n, u),
            r,
        ),
    decreases u,
{
    let pa = pad(a, n);
    let pb = pad(b, n);
    let cu = partial_conv(a, b, n, u);
    if u == 0 {
        assert(0 * poly_eval(pb, r) == 0);
        lemma_eval_tail(cu, r, 0, n);
    } else {
        let k = (u - 1) as nat;
        lemma_product_partial(a, b, n, r, k);
        let ck = partial_conv(a, b, n, k);
        let sb = Seq::new(n, |t: int| at(b, t - k));
        let c = a[k as int];
        // the partial product grows by a[k] times b shifted up by k
        assert forall|t: int| 0 <= t < n implies #[trigger] cu[0 + t * 1] == ck[0 + t * 1] + c
            * sb[0 + t * 1] by {
            assert(at(a, u - 1) == c);
        }
        lemma_eval_linear(cu, ck, sb, c, 0, 1, r, n);
        // the shifted b has the value r^k times that of b
        assert forall|t: int| 0 <= t < n implies #[trigger] sb[t] == if t >= k {
            pb[t - k]
        } else {
            0
        } by {}
        lemma_eval_shift(pb, sb, r, k, n);
        assert forall|t: int| n - k <= t < n implies #[trigger] pb[t] == 0 by {}
        lemma_eval_tail(pb, r, (n - k) as nat, n);
        assert(0 + (u - 1) * 1 == k);
        assert(pa[k as int] == c);
        let ea = eval(pa, 0, 1, r, k);
        let eb = poly_eval(pb, r);
        assert((ea + c * pow(r, k)) * eb == ea * eb + c * (pow(r, k) * eb)) by (nonlinear_arith);
    }
}

/// Evaluation is multiplicative: the values of `a` and `b` at `r` multiply
/// to the value of their convolution, when all are padded to a length that
/// holds the product.
pub proof fn lemma_product_eval(a: Seq<int>, b: Seq<int>, n: nat, r: int)
    requires
        a.len() >= 1,
        b.len() >= 1,
        a.len() + b.len() - 1 <= n,
    ensures
        poly_eval(pad(a, n), r) * poly_eval(pad(b, n), r) == poly_eval(
            Seq::new(n, |t: int| conv_at(a, b, t)),
            r,
        ),
{
    lemma_product_partial(a, b, n, r, a.len());
    let pa = pad(a, n);
    assert forall|t: int| a.len() <= t < n implies #[trigger] pa[t] == 0 by {}
    lemma_eval_tail(pa, r, a.len(), n);
    assert(partial_conv(a, b, n, a.len()) =~= Seq::new(n, |t: int| conv_at(a, b, t)));
}

/// The convolution theorem: transform both padded inputs, multiply slot by
/// slot, transform back; what comes out is the convolution, reduced modulo
/// `m`.
pub proof fn lemma_convolution_theorem(a: Seq<int>, b: Seq<int>, w: Seq<int>, y: Seq<int>, m: int, k: nat)
    requires
        roots_ok(w, y, m),
        m % 2 == 1,
        a.len() >= 1,
        b.len() >= 1,
        a.len() + b.len() - 1 <= pow2(k),
        k <= w.len(),
    ensures
        idft(pointwise(dft(pad(a, pow2(k)), w, m), dft(pad(b, pow2(k)), w, m), m), y, m, k)
            == Seq::new(pow2(k), |t: int| conv_at(a, b, t) % m),
{
    let n = pow2(k);
    let pa = pad(a, n);
    let pb = pad(b, n);
    let c = Seq::new(n, |t: int| conv_at(a, b, t));
    let cm = Seq::new(n, |t: int| conv_at(a, b, t) % m);
    let prod = pointwise(dft(pa, w, m), dft(pb, w, m), m);
    assert forall|s: int| 0 <= s < n implies prod[s] == dft(cm, w, m)[s] by {
        let r = point(w, s as nat);
        lemma_product_eval(a, b, n, r);
        lemma_cong_mod(poly_eval(pa, r), m);
        lemma_cong_mod(poly_eval(pb, r), m);
        lemma_cong_mul(poly_eval(pa, r) % m, poly_eval(pa, r), poly_eval(pb, r) % m, poly_eval(pb, r), m);
        assert forall|t: int| 0 <= t < n implies cong(#[trigger] cm[0 + t * 1], c[0 + t * 1], m) by {
            lemma_cong_mod(conv_at(a, b, t), m);
        }
        lemma_eval_cong_seq(cm, c, 0, 1, r, n, m);
        lemma_mod_twice((dft(pa, w, m)[s] * dft(pb, w, m)[s]), m);
    }
    assert(prod =~= dft(cm, w, m));
    assert forall|t: int| 0 <= t < cm.len() implies 0 <= #[trigger] cm[t] < m by {
        lemma_mod_bound(conv_at(a, b, t), m);
    }
    lemma_inverse_undoes_transform(cm, w, y, m, k);
}

/// The transform is linear: the transform of `alpha * u + beta * v`, reduced,
/// is `alpha` times the transform of `u` plus `beta` times that of `v`,
/// reduced.
pub proof fn lemma_dft_linear(u: Seq<int>, v: Seq<int>, alpha: int, beta: int, w: Seq<int>, m: int)
    requires
        m > 0,
        u.len() == v.len(),
    ensures
        dft(Seq::new(u.len(), |i: int| (alpha * u[i] + beta * v[i]) % m), w, m) == Seq::new(
            u.len(),
            |s: int| (alpha * dft(u, w, m)[s] + beta * dft(v, w, m)[s]) % m,
        ),
{
    let n = u.len();
    let z = Seq::new(n, |i: int| (alpha * u[i] + beta * v[i]) % m);
    let zr = Seq::new(n, |i: int| alpha * u[i] + beta * v[i]);
    let au = Seq::new(n, |i: int| alpha * u[i]);
    let zero = Seq::new(n, |i: int| 0int);
    let rhs = Seq::new(n, |s: int| (alpha * dft(u, w, m)[s] + beta * dft(v, w, m)[s]) % m);
    assert forall|s: int| 0 <= s < n implies dft(z, w, m)[s] == rhs[s] by {
        let r = point(w, s as nat);
        assert forall|t: int| 0 <= t < n implies cong(#[trigger] z[0 + t * 1], zr[0 + t * 1], m) by {
            lemma_cong_mod(alpha * u[t] + beta * v[t], m);
        }
        lemma_eval_cong_seq(z, zr, 0, 1, r, n, m);
        assert forall|t: int| 0 <= t < n implies #[trigger] zr[0 + t * 1] == au[0 + t * 1] + beta
            * v[0 + t * 1] by {}
        lemma_eval_linear(zr, au, v, beta, 0, 1, r, n);
        assert forall|t: int| 0 <= t < n implies #[trigger] au[0 + t * 1] == zero[0 + t * 1] + alpha
            * u[0 + t * 1] by {}
        lemma_eval_linear(au, zero, u, alpha, 0, 1, r, n);
        lemma_eval_tail(zero, r, 0, n);
        let eu = poly_eval(u, r);
        let ev = poly_eval(v, r);
        assert(poly_eval(zr, r) == alpha * eu + beta * ev);
        lemma_cong_mod(eu, m);
        lemma_cong_mod(ev, m);
        lemma_cong_mul(alpha, alpha, eu % m, eu, m);
        lemma_cong_mul(beta, beta, ev % m, ev, m);
        lemma_cong_add(alpha * (eu % m), alpha * eu, beta * (ev % m), beta * ev, m);
    }
    assert(dft(z, w, m) =~= rhs);
}

} // verus!

//! The inverse transform undoes the transform.

use super::dft::{dft, eval, lemma_radix2, poly_eval};
use super::idft::{idft, ieval, inv_len, lemma_inv_len, lemma_inv_radix2};
use super::roots::{bit_prod, lemma_inverse_roots, point, roots_ok};
use crate::arith::{cong, lemma_cong_add, lemma_cong_mod, lemma_cong_mul, lemma_cong_small, lemma_cong_sub};
use vstd::arithmetic::power::*;
use vstd::arithmetic::power2::*;
use vstd::prelude::*;

verus! {

/// A bit product over the roots times the same over their inverses is one.
pub proof fn lemma_point_inverse(w: Seq<int>, y: Seq<int>, m: int, s: nat, j: int)
    requires
        roots_ok(w, y, m),
        0 <= j <= w.len(),
        s < pow2((w.len() - j) as nat),
    ensures
        cong(bit_prod(w, s, j) * bit_prod(y, s, j), 1, m),
    decreases s,
{
    if s == 0 {
        assert(1 * 1 == 1int);
    } else {
        assert(j < w.len()) by {
            if j == w.len() {
                lemma2_to64();
            }
        }
        lemma_pow2_unfold((w.len() - j) as nat);
        lemma_point_inverse(w, y, m, s / 2, j + 1);
        let a = bit_prod(w, s / 2, j + 1);
        let b = bit_prod(y, s / 2, j + 1);
        if s % 2 == 1 {
            assert(cong(w[j] * y[j], 1, m));
            lemma_cong_mul(w[j] * y[j], 1, a * b, 1, m);
            assert((w[j] * a) * (y[j] * b) == (w[j] * y[j]) * (a * b)) by (nonlinear_arith);
            assert(1 * 1 == 1int);
        }
    }
}

/// Summing the transform of `v` back over a block of `2^h` slots gives
/// `2^h` times what that block held when the forward passes had reached
/// blocks of that length.
pub proof fn lemma_undo(v: Seq<int>, w: Seq<int>, y: Seq<int>, m: int, k: nat, h: nat, s: nat, i: nat)
    requires
        roots_ok(w, y, m),
        v.len() == pow2(k),
        k <= w.len(),
        h <= k,
        s < pow2((k - h) as nat),
        i < pow2(h),
    ensures
        cong(
            ieval(dft(v, w, m), y, s * pow2(h), pow2(h), i),
            pow2(h) * eval(v, i as int, pow2(h) as int, point(w, s), pow2((k - h) as nat)),
            m,
        ),
    decreases h,
{
    let yy = dft(v, w, m);
    let n = pow2(k);
    lemma2_to64();
    lemma_inverse_roots(w, y, m);
    if h == 0 {
        assert(s * 1 == s);
        assert(s < n);
        assert(ieval(yy, y, s, 0, 0) == 0);
        assert(ieval(yy, y, s, 1, 0) == 0 + yy[s + 1 - 1] * pow(point(y, (s + 1 - 1) as nat), 0));
        lemma_pow0(point(y, s));
        assert(yy[s as int] * 1 == yy[s as int]);
        assert(yy[s as int] == poly_eval(v, point(w, s)) % m);
        lemma_cong_mod(poly_eval(v, point(w, s)), m);
        assert(1 * eval(v, 0, 1, point(w, s), n) == eval(v, 0, 1, point(w, s), n));
    } else {
        let b = pow2((h - 1) as nat);
        let cnt = pow2((k - h) as nat);
        lemma_pow2_unfold(h);
        lemma_pow2_unfold((k - h + 1) as nat);
        lemma_pow2_pos((h - 1) as nat);
        lemma_pow2_pos((k - h) as nat);
        assert((k - (h - 1)) as nat == (k - h + 1) as nat);
        let i0: nat = if i < b {
            i
        } else {
            (i - b) as nat
        };
        // the two blocks of half the length
        assert(2 * s + 1 < pow2((k - (h - 1)) as nat));
        lemma_undo(v, w, y, m, k, (h - 1) as nat, 2 * s, i0);
        lemma_undo(v, w, y, m, k, (h - 1) as nat, 2 * s + 1, i0);
        let lo = ieval(yy, y, 2 * s * b, b, i0);
        let hi = ieval(yy, y, (2 * s + 1) * b, b, i0);
        let e0 = eval(v, i0 as int, b as int, point(w, 2 * s), 2 * cnt);
        let e1 = eval(v, i0 as int, b as int, point(w, 2 * s + 1), 2 * cnt);
        assert(cong(lo, b * e0, m));
        assert(cong(hi, b * e1, m));
        // bounds for the butterflies
        lemma_pow2_adds((k - h) as nat, h);
        super::bits::lemma_pow2_le(k, w.len());
        assert((2 * s + 2) * b <= pow2(w.len())) by (nonlinear_arith)
            requires
                s + 1 <= cnt,
                cnt * (2 * b) == n,
                n <= pow2(w.len()),
                b >= 1,
        ;
        assert(2 * s + 1 < pow2(w.len())) by (nonlinear_arith)
            requires
                (2 * s + 2) * b <= pow2(w.len()),
                b >= 1,
        ;
        let c = point(w, 2 * s);
        let cb = point(y, 2 * s);
        lemma_inv_radix2(yy, y, w, m, (h - 1) as nat, s, i0, lo, hi, cb);
        let a0 = eval(v, i0 as int, (2 * b) as int, point(w, s), cnt);
        let a1 = eval(v, (i0 + b) as int, (2 * b) as int, point(w, s), cnt);
        lemma_radix2(v, w, y, m, b as int, cnt, s, i0 as int, a0, a1, c);
        assert(cong(a0 + c * a1, e0, m));
        assert(cong(a0 - c * a1, e1, m));
        assert(2 * s * b == s * pow2(h)) by (nonlinear_arith)
            requires
                pow2(h) == 2 * b,
        ;
        if i < b {
            // lo + hi == b * (e0 + e1) == b * 2 * a0
            lemma_cong_add(lo, b * e0, hi, b * e1, m);
            lemma_cong_add(e0, a0 + c * a1, e1, a0 - c * a1, m);
            lemma_cong_mul(b as int, b as int, e0 + e1, (a0 + c * a1) + (a0 - c * a1), m);
            assert(b * e0 + b * e1 == b * (e0 + e1)) by (nonlinear_arith);
            assert(b * ((a0 + c * a1) + (a0 - c * a1)) == (2 * b) * a0) by (nonlinear_arith);
        } else {
            // (lo - hi) * cb == b * (e0 - e1) * cb == b * 2 * c * a1 * cb == 2 * b * a1
            lemma_cong_sub(lo, b * e0, hi, b * e1, m);
            lemma_cong_sub(e0, a0 + c * a1, e1, a0 - c * a1, m);
            lemma_cong_mul(b as int, b as int, e0 - e1, (a0 + c * a1) - (a0 - c * a1), m);
            assert(b * e0 - b * e1 == b * (e0 - e1)) by (nonlinear_arith);
            lemma_cong_mul(lo - hi, b * ((a0 + c * a1) - (a0 - c * a1)), cb, cb, m);
            lemma_pow2_unfold(w.len());
            lemma_point_inverse(w, y, m, 2 * s, 0);
            lemma_cong_mul(c * cb, 1, (2 * b) * a1, (2 * b) * a1, m);
            assert(b * ((a0 + c * a1) - (a0 - c * a1)) * cb == (c * cb) * ((2 * b) * a1))
                by (nonlinear_arith);
            assert(1 * ((2 * b) * a1) == (2 * b) * a1);
            assert(b + i0 == i);
        }
    }
}

/// The inverse transform of the transform of `v` is `v`, for every `v` of
/// residues whose length is a power of two within the table's reach.
pub proof fn lemma_inverse_undoes_transform(v: Seq<int>, w: Seq<int>, y: Seq<int>, m: int, k: nat)
    requires
        roots_ok(w, y, m),
        m % 2 == 1,
        v.len() == pow2(k),
        k <= w.len(),
        forall|i: int| 0 <= i < v.len() ==> 0 <= #[trigger] v[i] < m,
    ensures
        idft(dft(v, w, m), y, m, k) == v,
{
    let n = pow2(k);
    let yy = dft(v, w, m);
    lemma_inv_len(k, m);
    assert forall|j: int| 0 <= j < n implies idft(yy, y, m, k)[j] == v[j] by {
        lemma_pow2_pos(0);
        lemma2_to64();
        lemma_undo(v, w, y, m, k, k, 0, j as nat);
        assert(0 * pow2(k) == 0);
        let e = ieval(yy, y, 0, n, j as nat);
        assert(point(w, 0) == 1);
        lemma_pow0(1);
        assert(eval(v, j, n as int, 1, 0) == 0);
        assert(j + (1 - 1) * n == j);
        assert(v[j] * 1 == v[j]);
        assert(eval(v, j, n as int, 1, 1) == v[j]);
        assert(cong(e, n * v[j], m));
        lemma_cong_mul(inv_len(k, m), inv_len(k, m), e, n * v[j], m);
        lemma_cong_mul(n * inv_len(k, m), 1, v[j], v[j], m);
        assert(inv_len(k, m) * (n * v[j]) == (n * inv_len(k, m)) * v[j]) by (nonlinear_arith);
        assert(1 * v[j] == v[j]);
        lemma_cong_mod(inv_len(k, m) * e, m);
        lemma_cong_small(v[j], inv_len(k, m) * e, m);
    }
    assert(idft(yy, y, m, k) =~= v);
}

} // verus!

//! The inverse transform as a sum over the evaluation points, and the
//! identities behind one inverse butterfly.

use super::dft::lemma_child_points;
use super::roots::{bit_prod, point, roots_ok};
use crate::arith::{cong, lemma_cong_add, lemma_cong_mul, lemma_cong_pow, lemma_cong_sub, lemma_pow_even};
use vstd::arithmetic::div_mod::*;
use vstd::arithmetic::power::*;
use vstd::arithmetic::power2::*;
use vstd::prelude::*;

verus! {

/// The sum of `yin[base + t] * point(y, base + t)^i` over `0 <= t < cnt`.
pub open spec fn ieval(yin: Seq<int>, y: Seq<int>, base: nat, cnt: nat, i: nat) -> int
    decreases cnt,
{
    if cnt == 0 {
        0
    } else {
        ieval(yin, y, base, (cnt - 1) as nat, i) + yin[base + cnt - 1] * pow(
            point(y, (base + cnt - 1) as nat),
            i,
        )
    }
}

/// The inverse of the length `n == 2^k` that the inverse transform scales
/// by: the `k`-th power of the inverse of two.
pub open spec fn inv_len(k: nat, m: int) -> int {
    pow((m + 1) / 2, k)
}

/// The inverse transform of `yin`: slot `j` holds the sum of
/// `yin[s] * point(y, s)^j` over all slots `s`, divided by the length
/// `2^k`, reduced modulo `m`.
pub open spec fn idft(yin: Seq<int>, y: Seq<int>, m: int, k: nat) -> Seq<int> {
    Seq::new(yin.len(), |j: int| (inv_len(k, m) * ieval(yin, y, 0, yin.len(), j as nat)) % m)
}

/// `inv_len(k, m)` inverts `2^k` modulo an odd `m`.
pub proof fn lemma_inv_len(k: nat, m: int)
    requires
        m > 1,
        m % 2 == 1,
    ensures
        cong(pow2(k) * inv_len(k, m), 1, m),
{
    let h = (m + 1) / 2;
    lemma_pow2(k);
    lemma_pow_distributes(2, h, k);
    assert(2 * h == m + 1);
    lemma_pow_mod_noop(2 * h, k, m);
    assert((2 * h) % m == 1) by {
        lemma_mod_multiples_vanish(1, 1, m);
        lemma_small_mod(1, m as nat);
    }
    lemma1_pow(k);
}

/// A sum over `a + b` slots is the sum over the first `a` plus the sum over
/// the next `b`.
pub proof fn lemma_ieval_split(yin: Seq<int>, y: Seq<int>, base: nat, a: nat, b: nat, i: nat)
    ensures
        ieval(yin, y, base, a + b, i) == ieval(yin, y, base, a, i) + ieval(yin, y, base + a, b, i),
    decreases b,
{
    if b > 0 {
        lemma_ieval_split(yin, y, base, a, (b - 1) as nat, i);
        assert((a + b - 1) as nat == a + (b - 1) as nat);
        assert(base + (a + b) - 1 == base + a + b - 1);
    }
}

/// Sequences that agree on the slots give the same sum.
pub proof fn lemma_ieval_cong_seq(yin: Seq<int>, yin2: Seq<int>, y: Seq<int>, base: nat, cnt: nat, i: nat, m: int)
    requires
        m > 0,
        forall|t: int| base <= t < base + cnt ==> cong(#[trigger] yin[t], yin2[t], m),
    ensures
        cong(ieval(yin, y, base, cnt, i), ieval(yin2, y, base, cnt, i), m),
    decreases cnt,
{
    if cnt > 0 {
        lemma_ieval_cong_seq(yin, yin2, y, base, (cnt - 1) as nat, i, m);
        let p = pow(point(y, (base + cnt - 1) as nat), i);
        assert(cong(yin[base + cnt - 1], yin2[base + cnt - 1], m));
        lemma_cong_mul(yin[base + cnt - 1], yin2[base + cnt - 1], p, p, m);
        lemma_cong_add(
            ieval(yin, y, base, (cnt - 1) as nat, i),
            ieval(yin2, y, base, (cnt - 1) as nat, i),
            yin[base + cnt - 1] * p,
            yin2[base + cnt - 1] * p,
            m,
        );
    }
}

/// Raising the exponent by `b` multiplies the sum by `c`, where every point
/// of the range has its `b`-th power congruent to `c`.
pub proof fn lemma_ieval_shift(yin: Seq<int>, y: Seq<int>, base: nat, cnt: nat, b: nat, i: nat, c: int, m: int)
    requires
        m > 0,
        forall|t: int| base <= t < base + cnt ==> cong(pow(#[trigger] point(y, t as nat), b), c, m),
    ensures
        cong(ieval(yin, y, base, cnt, b + i), c * ieval(yin, y, base, cnt, i), m),
    decreases cnt,
{
    if cnt == 0 {
        assert(c * 0 == 0);
    } else {
        let k = (cnt - 1) as nat;
        lemma_ieval_shift(yin, y, base, k, b, i, c, m);
        let p = point(y, (base + cnt - 1) as nat);
        let x = yin[base + cnt - 1];
        assert(cong(pow(point(y, (base + cnt - 1) as nat), b), c, m));
        lemma_pow_adds(p, b, i);
        lemma_cong_mul(pow(p, b), c, x * pow(p, i), x * pow(p, i), m);
        assert(x * (pow(p, b) * pow(p, i)) == pow(p, b) * (x * pow(p, i))) by (nonlinear_arith);
        lemma_cong_add(
            ieval(yin, y, base, k, b + i),
            c * ieval(yin, y, base, k, i),
            x * pow(p, b + i),
            c * (x * pow(p, i)),
            m,
        );
        assert(c * ieval(yin, y, base, k, i) + c * (x * pow(p, i)) == c * (ieval(yin, y, base, k, i)
            + x * pow(p, i))) by (nonlinear_arith);
    }
}

/// The `2^h`-th power of the point of slot `l` is the point of slot
/// `l / 2^h`.
pub proof fn lemma_pow_point(y: Seq<int>, w: Seq<int>, m: int, l: nat, h: nat)
    requires
        roots_ok(y, w, m),
        l < pow2(y.len()),
    ensures
        cong(pow(point(y, l), pow2(h)), point(y, l / pow2(h)), m),
    decreases h,
{
    lemma2_to64();
    if h == 0 {
        lemma_pow1(point(y, l));
    } else {
        let s = l / 2;
        let x = point(y, l);
        lemma_pow2_unfold(y.len());
        lemma_pow2_unfold(h);
        lemma_pow2_pos((h - 1) as nat);
        lemma_child_points(y, w, m, s);
        assert(l == 2 * s || l == 2 * s + 1);
        assert(cong(x * x, point(y, s), m));
        lemma_pow_even(x, pow2((h - 1) as nat));
        lemma_cong_pow(x * x, point(y, s), pow2((h - 1) as nat), m);
        lemma_pow_point(y, w, m, s, (h - 1) as nat);
        lemma_div_denominator(l as int, 2, pow2((h - 1) as nat) as int);
    }
}

/// One inverse radix-2 butterfly: two neighbouring blocks of `2^h` slots,
/// block numbers `2 * s` and `2 * s + 1`, merge into one of twice the length.
pub proof fn lemma_inv_radix2(
    yin: Seq<int>,
    y: Seq<int>,
    w: Seq<int>,
    m: int,
    h: nat,
    s: nat,
    i: nat,
    lo: int,
    hi: int,
    c: int,
)
    requires
        roots_ok(y, w, m),
        (2 * s + 2) * pow2(h) <= pow2(y.len()),
        i < pow2(h),
        cong(lo, ieval(yin, y, 2 * s * pow2(h), pow2(h), i), m),
        cong(hi, ieval(yin, y, (2 * s + 1) * pow2(h), pow2(h), i), m),
        cong(c, point(y, 2 * s), m),
    ensures
        cong(lo + hi, ieval(yin, y, 2 * s * pow2(h), 2 * pow2(h), i), m),
        cong((lo - hi) * c, ieval(yin, y, 2 * s * pow2(h), 2 * pow2(h), pow2(h) + i), m),
{
    let b = pow2(h);
    lemma_pow2_pos(h);
    let base0 = 2 * s * b;
    let base1 = (2 * s + 1) * b;
    assert(base1 == base0 + b) by (nonlinear_arith)
        requires
            base0 == 2 * s * b,
            base1 == (2 * s + 1) * b,
    ;
    assert(base1 + b <= pow2(y.len())) by (nonlinear_arith)
        requires
            base1 == (2 * s + 1) * b,
            (2 * s + 2) * b <= pow2(y.len()),
    ;
    let e0 = ieval(yin, y, base0, b, i);
    let e1 = ieval(yin, y, base1, b, i);
    lemma_ieval_split(yin, y, base0, b, b, i);
    lemma_ieval_split(yin, y, base0, b, b, b + i);
    lemma_cong_add(lo, e0, hi, e1, m);
    // the powers of the points: c on the lower block, -c on the upper
    let c0 = point(y, 2 * s);
    lemma_pow2_unfold(y.len());
    assert(2 * s + 1 < pow2(y.len())) by (nonlinear_arith)
        requires
            (2 * s + 2) * b <= pow2(y.len()),
            b >= 1,
    ;
    lemma_child_points(y, w, m, s);
    assert forall|t: int| base0 <= t < base0 + b implies cong(
        pow(#[trigger] point(y, t as nat), b),
        c0,
        m,
    ) by {
        lemma_pow_point(y, w, m, t as nat, h);
        lemma_fundamental_div_mod_converse(t, b as int, (2 * s) as int, t - base0);
    }
    assert forall|t: int| base1 <= t < base1 + b implies cong(
        pow(#[trigger] point(y, t as nat), b),
        -c0,
        m,
    ) by {
        lemma_pow_point(y, w, m, t as nat, h);
        lemma_fundamental_div_mod_converse(t, b as int, (2 * s + 1) as int, t - base1);
    }
    lemma_ieval_shift(yin, y, base0, b, b, i, c0, m);
    lemma_ieval_shift(yin, y, base1, b, b, i, -c0, m);
    lemma_cong_add(
        ieval(yin, y, base0, b, b + i),
        c0 * e0,
        ieval(yin, y, base1, b, b + i),
        (-c0) * e1,
        m,
    );
    lemma_cong_sub(lo, e0, hi, e1, m);
    lemma_cong_mul(lo - hi, e0 - e1, c, c0, m);
    assert((e0 - e1) * c0 == c0 * e0 + (-c0) * e1) by (nonlinear_arith);
}

/// The four outputs of one inverse radix-4 butterfly with running twiddle
/// `x` and inverse fourth root of unity `im`, written over the integers.
pub open spec fn iquad(q: int, t0: int, t1: int, t2: int, t3: int, x: int, im: int) -> int {
    if q == 0 {
        (t0 + t1) + (t2 + t3)
    } else if q == 1 {
        (t0 - t1) * x + (t2 - t3) * (x * im)
    } else if q == 2 {
        ((t0 + t1) - (t2 + t3)) * (x * x)
    } else {
        ((t0 - t1) * x - (t2 - t3) * (x * im)) * (x * x)
    }
}

/// One inverse radix-4 butterfly is two inverse radix-2 levels: the four
/// blocks `4 * g .. 4 * g + 3` of `2^h` slots merge into one of four times
/// the length.
pub proof fn lemma_inv_radix4(
    yin: Seq<int>,
    y: Seq<int>,
    w: Seq<int>,
    m: int,
    h: nat,
    g: nat,
    i: nat,
    t0: int,
    t1: int,
    t2: int,
    t3: int,
    x: int,
)
    requires
        roots_ok(y, w, m),
        y.len() >= 2,
        (4 * g + 4) * pow2(h) <= pow2(y.len()),
        i < pow2(h),
        cong(t0, ieval(yin, y, (4 * g) * pow2(h), pow2(h), i), m),
        cong(t1, ieval(yin, y, (4 * g + 1) * pow2(h), pow2(h), i), m),
        cong(t2, ieval(yin, y, (4 * g + 2) * pow2(h), pow2(h), i), m),
        cong(t3, ieval(yin, y, (4 * g + 3) * pow2(h), pow2(h), i), m),
        cong(x, bit_prod(y, g, 2), m),
    ensures
        forall|q: int|
            0 <= q < 4 ==> cong(
                #[trigger] iquad(q, t0, t1, t2, t3, x, y[1]),
                ieval(yin, y, (4 * g) * pow2(h), 4 * pow2(h), (q * pow2(h) + i) as nat),
                m,
            ),
{
    let b = pow2(h);
    let im = y[1];
    lemma_pow2_pos(h);
    lemma_pow2_unfold(h + 1);
    lemma_pow2_unfold(y.len());
    lemma_pow2_unfold((y.len() - 1) as nat);
    assert(4 * g + 3 < pow2(y.len())) by (nonlinear_arith)
        requires
            (4 * g + 4) * b <= pow2(y.len()),
            b >= 1,
    ;
    lemma_child_points(y, w, m, g);
    lemma_child_points(y, w, m, 2 * g);
    lemma_child_points(y, w, m, 2 * g + 1);
    let base = point(y, 4 * g);
    assert(base == bit_prod(y, g, 2)) by {
        assert((2 * g) / 2 == g);
        if g == 0 {
            assert(bit_prod(y, 0, 1) == 1);
            assert(bit_prod(y, 0, 2) == 1);
        }
    }
    assert(point(y, 4 * g + 2) == y[1] * base) by {
        assert((2 * g + 1) / 2 == g);
        assert(bit_prod(y, 2 * g + 1, 1) == y[1] * bit_prod(y, g, 2));
    }
    assert(cong(x * x, point(y, 2 * g), m)) by {
        lemma_cong_mul(x, base, x, base, m);
    }
    assert(cong(x * im, point(y, 4 * g + 2), m)) by {
        lemma_cong_mul(x, base, im, im, m);
        assert(base * im == y[1] * base) by (nonlinear_arith)
            requires
                im == y[1],
        ;
    }
    // first level: blocks of 2^h slots
    assert((2 * (2 * g) + 2) * b <= pow2(y.len()) && (2 * (2 * g + 1) + 2) * b <= pow2(y.len()))
        by (nonlinear_arith)
        requires
            (4 * g + 4) * b <= pow2(y.len()),
            b >= 1,
    ;
    assert(2 * (2 * g) * b == (4 * g) * b && (2 * (2 * g) + 1) * b == (4 * g + 1) * b && 2 * (2 * g
        + 1) * b == (4 * g + 2) * b && (2 * (2 * g + 1) + 1) * b == (4 * g + 3) * b)
        by (nonlinear_arith);
    lemma_inv_radix2(yin, y, w, m, h, 2 * g, i, t0, t1, x);
    lemma_inv_radix2(yin, y, w, m, h, 2 * g + 1, i, t2, t3, x * im);
    let lo01 = t0 + t1;
    let hi01 = (t0 - t1) * x;
    let lo23 = t2 + t3;
    let hi23 = (t2 - t3) * (x * im);
    // second level: blocks of 2^(h + 1) slots
    let b2 = pow2(h + 1);
    assert(b2 == 2 * b);
    assert((2 * g + 2) * b2 <= pow2(y.len()) && 2 * g * b2 == (4 * g) * b && (2 * g + 1) * b2 == (4
        * g + 2) * b) by (nonlinear_arith)
        requires
            (4 * g + 4) * b <= pow2(y.len()),
            b2 == 2 * b,
    ;
    lemma_inv_radix2(yin, y, w, m, h + 1, g, i, lo01, lo23, x * x);
    lemma_inv_radix2(yin, y, w, m, h + 1, g, b + i, hi01, hi23, x * x);
    assert(2 * b2 == 4 * b);
    assert(b2 + i == 2 * b + i);
    assert(b2 + (b + i) == 3 * b + i);
    assert(0 * b + i == i && 1 * b + i == b + i);
}

} // verus!

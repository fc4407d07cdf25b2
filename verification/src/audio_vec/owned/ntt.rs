//! The number-theoretic transform over one modulus: radix-4 butterflies with
//! differential twiddle tables, forward and inverse.

pub mod bits;
pub mod convolve;
pub mod dft;
pub mod idft;
pub mod inversion;
pub mod montgomery;
pub mod primitive_root;
pub mod product;
pub mod roots;

use self::bits::{count_trailing_zeros, lemma_pow2_le, transformable};
use self::dft::{dft, eval, lemma_radix2, lemma_radix4, poly_eval, quad};
use self::idft::{idft, ieval, inv_len, iquad, lemma_inv_radix2, lemma_inv_radix4};
use self::primitive_root::{is_least_root, passes_root_test, primitive_root};
use self::roots::{
    bit_prod, diff_root, lemma_bit_prod_succ, lemma_diff_root_step, lemma_inverse_roots, point,
    roots_ok, trailing_zeros,
};
use super::mod_int::{residues, valid_modulus, ModInt};
use crate::arith::{
    cong, lemma_cong_add, lemma_cong_add_multiple, lemma_cong_mod, lemma_cong_mul,
    lemma_cong_small, lemma_cong_sub,
};
use vstd::arithmetic::div_mod::*;
use vstd::arithmetic::power::*;
use vstd::arithmetic::power2::*;
use vstd::prelude::*;

verus! {

/// The number of trailing zero bits of `m - 1`: the transform's level.
pub open spec fn level_of(m: u32) -> nat {
    trailing_zeros((m - 1) as nat)
}

/// The root of unity of order `2^level` that the root `g` gives:
/// `g^((m - 1) / 2^level)`.
pub open spec fn omega_of(g: int, m: u32) -> int {
    pow(g, ((m - 1) / (pow2(level_of(m)) as int)) as nat) % (m as int)
}

/// The inverse by which the tables are built: the power `m - 2`.
pub open spec fn fermat_inverse(x: int, m: u32) -> int {
    pow(x, (m - 2) as nat) % (m as int)
}

/// The table of the powers `top^(2^(level - 1 - i))`, reduced: entry `i`
/// is what `top` becomes after `level - 1 - i` squarings.
pub open spec fn power_table(top: int, m: u32) -> Seq<int> {
    Seq::new(level_of(m), |i: int| pow(top, pow2((level_of(m) - 1 - i) as nat)) % (m as int))
}

/// Entry `i` of the differential table of the roots `w` with inverses `y`,
/// from the entry before it: the first three are `w[1]^2`, `w[1]` and
/// `w[2]`; each later one is the one before times `y[i - 2] * w[i]`.
pub open spec fn diff_entry(w: Seq<int>, y: Seq<int>, d: Seq<int>, i: int, m: int) -> int {
    if i == 0 && w.len() > 1 {
        (w[1] * w[1]) % m
    } else if i < 3 {
        w[i]
    } else {
        (((d[i - 1] * y[i - 2]) % m) * w[i]) % m
    }
}

/// `d` is the differential table of the roots `w` with inverses `y`.
pub open spec fn is_diff_table(d: Seq<int>, w: Seq<int>, y: Seq<int>, m: int) -> bool {
    &&& d.len() == w.len()
    &&& forall|i: int| 0 <= i < d.len() ==> #[trigger] d[i] == diff_entry(w, y, d, i, m)
}

/// The check that tables built from the root `g` must pass: the root of
/// order two is `-1`, and the top root times its inverse is one.
pub open spec fn roots_check(g: int, m: u32) -> bool {
    &&& power_table(omega_of(g, m), m)[0] == m - 1
    &&& (omega_of(g, m) * fermat_inverse(omega_of(g, m), m)) % (m as int) == 1
}

/// There is at most one least root.
pub proof fn lemma_least_root_unique(g: int, h: int, m: int)
    requires
        is_least_root(g, m),
        is_least_root(h, m),
    ensures
        g == h,
{
    if g < h {
        assert(!passes_root_test(g, m));
    } else if h < g {
        assert(!passes_root_test(h, m));
    }
}

/// A sequence in which each entry is the reduced square of the next is the
/// table of the powers of its last entry.
pub proof fn lemma_squares_chain(t: Seq<int>, m: int, i: int)
    requires
        m > 0,
        0 <= i < t.len(),
        forall|j: int| 0 <= j < t.len() - 1 ==> #[trigger] t[j] == (t[j + 1] * t[j + 1]) % m,
    ensures
        cong(t[i], pow(t[t.len() - 1], pow2((t.len() - 1 - i) as nat)), m),
    decreases t.len() - i,
{
    let top = t[t.len() - 1];
    lemma2_to64();
    if i == t.len() - 1 {
        lemma_pow1(top);
    } else {
        lemma_squares_chain(t, m, i + 1);
        let e = pow2((t.len() - 2 - i) as nat);
        let x = pow(top, e);
        lemma_pow2_unfold((t.len() - 1 - i) as nat);
        lemma_pow_adds(top, e, e);
        lemma_cong_mul(t[i + 1], x, t[i + 1], x, m);
        lemma_cong_mod(t[i + 1] * t[i + 1], m);
    }
}

/// What slot `idx` holds once the blocks have length `blen` and each slot is
/// a sum of `cnt` terms of the input `v0`.
pub open spec fn stage_val(v0: Seq<int>, w: Seq<int>, m: int, blen: int, cnt: nat, idx: int) -> int {
    stage_raw(v0, w, blen, cnt, idx) % m
}

/// The sum behind `stage_val`, before reduction.
pub open spec fn stage_raw(v0: Seq<int>, w: Seq<int>, blen: int, cnt: nat, idx: int) -> int {
    eval(v0, idx % blen, blen, point(w, (idx / blen) as nat), cnt)
}

/// Before any pass every slot is its own sum of one term.
proof fn lemma_first_stage(v0: Seq<int>, w: Seq<int>, idx: int)
    requires
        0 <= idx < v0.len(),
    ensures
        stage_raw(v0, w, v0.len() as int, 1, idx) == v0[idx],
{
    let n = v0.len() as int;
    lemma_fundamental_div_mod_converse(idx, n, 0, idx);
    assert(point(w, 0) == 1);
    lemma_pow0(1);
    assert(eval(v0, idx, n, 1, 0) == 0);
    assert(idx + (1 - 1) * n == idx);
    assert(v0[idx] * 1 == v0[idx]);
}

/// After the last pass slot `s` is the polynomial's value at `point(w, s)`.
proof fn lemma_last_stage(v0: Seq<int>, w: Seq<int>, m: int, s: int)
    requires
        0 <= s < v0.len(),
    ensures
        stage_val(v0, w, m, 1, v0.len(), s) == dft(v0, w, m)[s],
{
    lemma_fundamental_div_mod_converse(s, 1, s, 0);
}

/// The transform of a single residue is that residue.
proof fn lemma_dft_of_one(v0: Seq<int>, w: Seq<int>, m: int)
    requires
        v0.len() == 1,
        0 <= v0[0] < m,
    ensures
        dft(v0, w, m) =~= v0,
{
    assert(point(w, 0) == 1);
    lemma_pow0(1);
    assert(eval(v0, 0, 1, 1, 0) == 0);
    assert(0 + (1 - 1) * 1 == 0);
    assert(poly_eval(v0, 1) == v0[0] * 1);
    lemma_small_mod(v0[0] as nat, m as nat);
}

/// Position `g * (4 * v) + q * v + i` seen as slot `q * v + i` of block `g`
/// of length `4 * v`, and as slot `i` of block `4 * g + q` of length `v`.
proof fn lemma_block_index(g: int, q: int, v: int, i: int)
    requires
        0 <= g,
        0 <= q < 4,
        0 <= i < v,
    ensures
        (g * (4 * v) + q * v + i) % (4 * v) == q * v + i,
        (g * (4 * v) + q * v + i) / (4 * v) == g,
        (g * (4 * v) + q * v + i) % v == i,
        (g * (4 * v) + q * v + i) / v == 4 * g + q,
{
    let idx = g * (4 * v) + q * v + i;
    assert(0 <= q * v + i < 4 * v) by (nonlinear_arith)
        requires
            0 <= q < 4,
            0 <= i < v,
    ;
    lemma_fundamental_div_mod_converse(idx, 4 * v, g, q * v + i);
    assert(idx == (4 * g + q) * v + i) by (nonlinear_arith)
        requires
            idx == g * (4 * v) + q * v + i,
    ;
    lemma_fundamental_div_mod_converse(idx, v, 4 * g + q, i);
}

/// The values that the executable butterfly computes are congruent to the
/// four outputs written over the integers.
proof fn lemma_quad_exec(
    m: int,
    a0: int,
    a1: int,
    a2: int,
    a3: int,
    x: int,
    im: int,
    t1: int,
    t2: int,
    t3: int,
    ww: int,
    wx: int,
)
    requires
        m > 0,
        ww == (x * x) % m,
        wx == (ww * x) % m,
        t1 == (a1 * x) % m,
        t2 == (a2 * ww) % m,
        t3 == (a3 * wx) % m,
    ensures
        cong(((a0 + t2) % m + (t1 + t3) % m) % m, quad(0, a0, a1, a2, a3, x, im), m),
        cong(((a0 + t2) % m - (t1 + t3) % m) % m, quad(1, a0, a1, a2, a3, x, im), m),
        cong(((a0 - t2) % m + (((t1 - t3) % m) * im) % m) % m, quad(2, a0, a1, a2, a3, x, im), m),
        cong(((a0 - t2) % m - (((t1 - t3) % m) * im) % m) % m, quad(3, a0, a1, a2, a3, x, im), m),
{
    let xx = x * x;
    let xxx = x * x * x;
    lemma_cong_mod(x * x, m);
    lemma_cong_mul(ww, xx, x, x, m);
    lemma_cong_mod(ww * x, m);
    assert(cong(wx, xxx, m));
    lemma_cong_mod(a1 * x, m);
    lemma_cong_mod(a2 * ww, m);
    lemma_cong_mul(a2, a2, ww, xx, m);
    lemma_cong_mod(a3 * wx, m);
    lemma_cong_mul(a3, a3, wx, xxx, m);
    let e1 = a1 * x;
    let e2 = a2 * xx;
    let e3 = a3 * xxx;
    assert(cong(t1, e1, m) && cong(t2, e2, m) && cong(t3, e3, m));
    let p = (a0 + t2) % m;
    let q = (t1 + t3) % m;
    let r = (a0 - t2) % m;
    let diff = (t1 - t3) % m;
    let s = (diff * im) % m;
    lemma_cong_mod(a0 + t2, m);
    lemma_cong_add(a0, a0, t2, e2, m);
    lemma_cong_mod(t1 + t3, m);
    lemma_cong_add(t1, e1, t3, e3, m);
    lemma_cong_mod(a0 - t2, m);
    lemma_cong_sub(a0, a0, t2, e2, m);
    lemma_cong_mod(t1 - t3, m);
    lemma_cong_sub(t1, e1, t3, e3, m);
    lemma_cong_mod(diff * im, m);
    lemma_cong_mul(diff, e1 - e3, im, im, m);
    assert(cong(p, a0 + e2, m) && cong(q, e1 + e3, m) && cong(r, a0 - e2, m) && cong(
        s,
        (e1 - e3) * im,
        m,
    ));
    lemma_cong_mod(p + q, m);
    lemma_cong_add(p, a0 + e2, q, e1 + e3, m);
    lemma_cong_mod(p - q, m);
    lemma_cong_sub(p, a0 + e2, q, e1 + e3, m);
    lemma_cong_mod(r + s, m);
    lemma_cong_add(r, a0 - e2, s, (e1 - e3) * im, m);
    lemma_cong_mod(r - s, m);
    lemma_cong_sub(r, a0 - e2, s, (e1 - e3) * im, m);
}

/// The values that the executable inverse butterfly computes are congruent
/// to the four outputs written over the integers.
proof fn lemma_iquad_exec(m: int, t0: int, t1: int, t2: int, t3: int, x: int, im: int, yy: int, ww: int)
    requires
        m > 0,
        yy == (x * im) % m,
        ww == (x * x) % m,
    ensures
        cong(((t0 + t1) % m + (t2 + t3) % m) % m, iquad(0, t0, t1, t2, t3, x, im), m),
        cong(
            ((((t0 - t1) % m) * x) % m + (((t2 - t3) % m) * yy) % m) % m,
            iquad(1, t0, t1, t2, t3, x, im),
            m,
        ),
        cong(
            ((((t0 + t1) % m - (t2 + t3) % m) % m) * ww) % m,
            iquad(2, t0, t1, t2, t3, x, im),
            m,
        ),
        cong(
            ((((((t0 - t1) % m) * x) % m - (((t2 - t3) % m) * yy) % m) % m) * ww) % m,
            iquad(3, t0, t1, t2, t3, x, im),
            m,
        ),
{
    let p = (t0 + t1) % m;
    let q = (t2 + t3) % m;
    let r0 = (t0 - t1) % m;
    let diff = (t2 - t3) % m;
    let r = (r0 * x) % m;
    let s = (diff * yy) % m;
    lemma_cong_mod(t0 + t1, m);
    lemma_cong_mod(t2 + t3, m);
    lemma_cong_mod(t0 - t1, m);
    lemma_cong_mod(t2 - t3, m);
    lemma_cong_mod(x * im, m);
    lemma_cong_mod(x * x, m);
    lemma_cong_mod(r0 * x, m);
    lemma_cong_mul(r0, t0 - t1, x, x, m);
    lemma_cong_mod(diff * yy, m);
    lemma_cong_mul(diff, t2 - t3, yy, x * im, m);
    assert(cong(r, (t0 - t1) * x, m) && cong(s, (t2 - t3) * (x * im), m));
    lemma_cong_mod(p + q, m);
    lemma_cong_add(p, t0 + t1, q, t2 + t3, m);
    lemma_cong_mod(r + s, m);
    lemma_cong_add(r, (t0 - t1) * x, s, (t2 - t3) * (x * im), m);
    lemma_cong_mod(p - q, m);
    lemma_cong_sub(p, t0 + t1, q, t2 + t3, m);
    lemma_cong_mod(((p - q) % m) * ww, m);
    lemma_cong_mul((p - q) % m, (t0 + t1) - (t2 + t3), ww, x * x, m);
    lemma_cong_mod(r - s, m);
    lemma_cong_sub(r, (t0 - t1) * x, s, (t2 - t3) * (x * im), m);
    lemma_cong_mod(((r - s) % m) * ww, m);
    lemma_cong_mul((r - s) % m, (t0 - t1) * x - (t2 - t3) * (x * im), ww, x * x, m);
}

/// What slot `idx` of the inverse transform holds, before reduction, once
/// the blocks have length `blen`: a sum over the `blen` slots of its block of
/// the input `yin`.
pub open spec fn inv_raw(yin: Seq<int>, y: Seq<int>, blen: int, idx: int) -> int {
    ieval(yin, y, ((idx / blen) * blen) as nat, blen as nat, (idx % blen) as nat)
}

/// Inverses that start out right and are squared in step stay right.
proof fn lemma_inverse_chain(wd: Seq<int>, yd: Seq<int>, m: int, j: int)
    requires
        m > 0,
        wd.len() == yd.len(),
        0 <= j < wd.len(),
        cong(wd[0] * yd[0], 1, m),
        forall|i: int| 0 <= i < wd.len() - 1 ==> cong(#[trigger] wd[i + 1], wd[i] * wd[i], m),
        forall|i: int| 0 <= i < yd.len() - 1 ==> cong(#[trigger] yd[i + 1], yd[i] * yd[i], m),
    ensures
        cong(wd[j] * yd[j], 1, m),
    decreases j,
{
    if j > 0 {
        lemma_inverse_chain(wd, yd, m, j - 1);
        let a = wd[j - 1];
        let b = yd[j - 1];
        assert(cong(wd[(j - 1) + 1], a * a, m));
        assert(cong(yd[(j - 1) + 1], b * b, m));
        lemma_cong_mul(wd[j], a * a, yd[j], b * b, m);
        lemma_cong_mul(a * b, 1, a * b, 1, m);
        assert((a * a) * (b * b) == (a * b) * (a * b)) by (nonlinear_arith);
        assert(1 * 1 == 1int);
    }
}

/// A slot of a pass under way: it holds the reduced new sum where the pass
/// has been, and is congruent to the old sum where it has not.
pub open spec fn slot_ok(x: int, done: bool, new_raw: int, old_raw: int, m: int) -> bool {
    if done {
        x == new_raw % m
    } else {
        cong(x, old_raw, m)
    }
}

/// Whether a position of the pass that is under way already holds its new
/// value: all of the blocks before `j0`, and the first `i` slots of each
/// quarter of the block at `j0`.
pub open spec fn quad_done(idx: int, j0: int, v: int, i: int) -> bool {
    idx < j0 || (j0 <= idx < j0 + i) || (j0 + v <= idx < j0 + v + i) || (j0 + 2 * v <= idx < j0 + 2
        * v + i) || (j0 + 3 * v <= idx < j0 + 3 * v + i)
}

/// Twiddle tables for the transform modulo `MOD`.
#[derive(Debug, PartialEq, Eq, Hash)]
pub struct Ntt<const MOD: u32> {
    /// `w[i]` has order `2^(i + 1)`.
    w: Vec<ModInt<MOD>>,
    /// The inverses of `w`.
    inv_w: Vec<ModInt<MOD>>,
    /// The differential roots that advance the forward twiddle.
    d_w: Vec<ModInt<MOD>>,
    /// The differential roots that advance the inverse twiddle.
    d_inv_w: Vec<ModInt<MOD>>,
    /// Whether the tables passed their check when they were built.
    ready: bool,
}

impl<const MOD: u32> Ntt<MOD> {
    /// The tables, where they passed their check, are tables of roots of
    /// unity with their differential forms.
    #[verifier::type_invariant]
    closed spec fn inv(self) -> bool {
        valid_modulus(MOD) && (self.ready ==> self.tables_ok())
    }

    closed spec fn tables_ok(self) -> bool {
        let w = residues(self.w@);
        let y = residues(self.inv_w@);
        let m = MOD as int;
        &&& 1 <= self.w.len() <= 30
        &&& self.w.len() == level_of(MOD)
        &&& self.inv_w.len() == self.w.len()
        &&& self.d_w.len() == self.w.len()
        &&& self.d_inv_w.len() == self.w.len()
        &&& roots_ok(w, y, m)
        &&& forall|i: int|
            2 <= i < self.w.len() ==> cong(
                (#[trigger] self.d_w@[i])@,
                diff_root(w, y, (i - 2) as nat, 2),
                m,
            )
        &&& forall|i: int|
            2 <= i < self.w.len() ==> cong(
                (#[trigger] self.d_inv_w@[i])@,
                diff_root(y, w, (i - 2) as nat, 2),
                m,
            )
    }

    /// Whether the tables passed their check.
    pub closed spec fn ready_spec(&self) -> bool {
        self.ready
    }

    /// The roots of unity: entry `i` has order `2^(i + 1)`.
    pub closed spec fn roots(&self) -> Seq<int> {
        residues(self.w@)
    }

    /// The inverses of the roots.
    pub closed spec fn inv_roots(&self) -> Seq<int> {
        residues(self.inv_w@)
    }

    /// Whether the tables passed their check; if so they are tables of roots
    /// of unity, one for each power of two that divides `MOD - 1`.
    pub fn ready(&self) -> (b: bool)
        ensures
            b == self.ready_spec(),
            b ==> roots_ok(self.roots(), self.inv_roots(), MOD as int) && self.roots().len()
                == level_of(MOD) && valid_modulus(MOD),
    {
        proof {
            use_type_invariant(self);
        }
        self.ready
    }

    /// The highest power of two that divides `MOD - 1`: lengths up to
    /// `2^level` can be transformed.
    pub fn level() -> (l: usize)
        requires
            valid_modulus(MOD),
        ensures
            l == level_of(MOD),
            1 <= l < 30,
    {
        let l = count_trailing_zeros((MOD - 1) as u64);
        proof {
            lemma2_to64();
            if l >= 30 {
                lemma_pow2_le(30, l as nat);
            }
            assert(trailing_zeros((MOD - 1) as nat) >= 1);
        }
        l as usize
    }

    /// `level` values ending in `top`, each the square of the next.
    fn squares_down(top: ModInt<MOD>, level: usize) -> (t: Vec<ModInt<MOD>>)
        requires
            level >= 1,
        ensures
            t.len() == level,
            t@[level - 1] == top,
            forall|i: int| 0 <= i < level ==> (#[trigger] t@[i]).wf(),
            forall|i: int|
                0 <= i < level - 1 ==> (#[trigger] t@[i])@ == (t@[i + 1]@ * t@[i + 1]@) % (MOD as int),
    {
        proof {
            use_type_invariant(&top);
        }
        let mut t: Vec<ModInt<MOD>> = Vec::new();
        let mut i: usize = 0;
        while i < level
            invariant
                i <= level,
                t.len() == i,
                top.wf(),
                forall|j: int| 0 <= j < i ==> #[trigger] t@[j] == top,
            decreases level - i,
        {
            t.push(top);
            i = i + 1;
        }
        i = level - 1;
        while i > 0
            invariant
                i < level,
                t.len() == level,
                t@[level - 1] == top,
                forall|j: int| 0 <= j < level ==> (#[trigger] t@[j]).wf(),
                forall|j: int|
                    i <= j < level - 1 ==> (#[trigger] t@[j])@ == (t@[j + 1]@ * t@[j + 1]@) % (
                    MOD as int),
            decreases i,
        {
            let next = t[i];
            let ghost before = t@;
            t.set(i - 1, next.mul(next));
            i = i - 1;
            proof {
                assert forall|j: int| i <= j < level - 1 implies (#[trigger] t@[j])@ == (t@[j + 1]@
                    * t@[j + 1]@) % (MOD as int) by {
                    if j > i {
                        assert(t@[j] == before[j]);
                        assert(t@[j + 1] == before[j + 1]);
                    }
                }
                assert forall|j: int| 0 <= j < level implies (#[trigger] t@[j]).wf() by {
                    if j != i {
                        assert(t@[j] == before[j]);
                    }
                }
            }
        }
        t
    }

    /// The differential form of a table of roots `a` with inverses `b`:
    /// entry `i >= 3` is entry `i - 1` times `b[i - 2] * a[i]`.
    fn diff_table(a: &Vec<ModInt<MOD>>, b: &Vec<ModInt<MOD>>) -> (d: Vec<ModInt<MOD>>)
        requires
            roots_ok(residues(a@), residues(b@), MOD as int),
        ensures
            d.len() == a.len(),
            is_diff_table(residues(d@), residues(a@), residues(b@), MOD as int),
            forall|i: int|
                2 <= i < a.len() ==> cong(
                    (#[trigger] d@[i])@,
                    diff_root(residues(a@), residues(b@), (i - 2) as nat, 2),
                    MOD as int,
                ),
    {
        let ghost w = residues(a@);
        let ghost y = residues(b@);
        let ghost m = MOD as int;
        let level = a.len();
        let mut d: Vec<ModInt<MOD>> = Vec::new();
        let mut i: usize = 0;
        while i < level
            invariant
                i <= level,
                level == a.len(),
                level == b.len(),
                w == residues(a@),
                y == residues(b@),
                m == MOD as int,
                roots_ok(w, y, m),
                d.len() == i,
                forall|j: int|
                    0 <= j < i ==> (#[trigger] d@[j])@ == diff_entry(w, y, residues(d@), j, m),
                forall|j: int|
                    2 <= j < i ==> cong((#[trigger] d@[j])@, diff_root(w, y, (j - 2) as nat, 2), m),
            decreases level - i,
        {
            let entry = if i == 0 && level > 1 {
                a[1].mul(a[1])
            } else if i < 3 {
                a[i]
            } else {
                d[i - 1].mul(b[i - 2]).mul(a[i])
            };
            proof {
                if i == 2 {
                    assert(diff_root(w, y, 0, 2) == w[2]);
                    assert(entry@ == w[2]);
                } else if i >= 3 {
                    let t = (i - 3) as nat;
                    lemma_diff_root_step(w, y, m, t, 2);
                    let dp = d@[i - 1]@;
                    assert(cong(dp, diff_root(w, y, t, 2), m));
                    assert(y[i - 2] == b@[i - 2]@ && w[i as int] == a@[i as int]@);
                    lemma_cong_mod(dp * y[i - 2], m);
                    lemma_cong_mul(dp, diff_root(w, y, t, 2), y[i - 2], y[i - 2], m);
                    lemma_cong_mod(((dp * y[i - 2]) % m) * w[i as int], m);
                    lemma_cong_mul(
                        (dp * y[i - 2]) % m,
                        diff_root(w, y, t, 2) * y[i - 2],
                        w[i as int],
                        w[i as int],
                        m,
                    );
                    assert(t + 2 - 1 == i - 2 && t + 2 + 1 == i);
                    assert((t + 1) as nat == (i - 2) as nat);
                }
            }
            let ghost before = d@;
            d.push(entry);
            proof {
                assert forall|j: int| 0 <= j < i + 1 implies (#[trigger] d@[j])@ == diff_entry(
                    w,
                    y,
                    residues(d@),
                    j,
                    m,
                ) by {
                    if j < i {
                        assert(d@[j] == before[j]);
                        assert(before[j]@ == diff_entry(w, y, residues(before), j, m));
                        if j >= 3 {
                            assert(d@[j - 1] == before[j - 1]);
                        }
                    } else if j >= 3 {
                        assert(d@[j - 1] == before[j - 1]);
                    }
                }
                assert forall|j: int| 2 <= j < i + 1 implies cong(
                    (#[trigger] d@[j])@,
                    diff_root(w, y, (j - 2) as nat, 2),
                    m,
                ) by {
                    if j < i {
                        assert(d@[j] == before[j]);
                    }
                }
            }
            i = i + 1;
        }
        d
    }

    /// The differential roots that advance the forward twiddle.
    pub closed spec fn diff_roots(&self) -> Seq<int> {
        residues(self.d_w@)
    }

    /// The differential roots that advance the inverse twiddle.
    pub closed spec fn inv_diff_roots(&self) -> Seq<int> {
        residues(self.d_inv_w@)
    }

    /// An entry of a table whose entries are well-formed is a residue.
    proof fn lemma_entry_range(t: Seq<ModInt<MOD>>, i: int)
        requires
            0 <= i < t.len(),
            t[i].wf(),
        ensures
            0 <= t[i]@ < MOD,
    {
        t[i].lemma_view();
    }

    /// Tables that failed their check: no transform can use them.
    fn unready() -> (ntt: Self)
        requires
            valid_modulus(MOD),
        ensures
            !ntt.ready_spec(),
    {
        Self { w: Vec::new(), inv_w: Vec::new(), d_w: Vec::new(), d_inv_w: Vec::new(), ready: false }
    }

    /// Builds the tables from the least primitive root of `MOD`, and checks
    /// them: the root of order two must be `-1` and the top root times its
    /// inverse must be one. The tables are ready exactly if there is such a
    /// root and the check passes; they then hold the powers of the root of
    /// order `2^level`, and of its inverse.
    pub fn new() -> (ntt: Self)
        requires
            valid_modulus(MOD),
        ensures
            ntt.ready_spec() <==> exists|g: int| #[trigger]
                is_least_root(g, MOD as int) && roots_check(g, MOD),
            ntt.ready_spec() ==> exists|g: int| #[trigger]
                is_least_root(g, MOD as int) && ntt.roots() == power_table(omega_of(g, MOD), MOD)
                    && ntt.inv_roots() == power_table(
                    fermat_inverse(omega_of(g, MOD), MOD),
                    MOD,
                ),
            ntt.ready_spec() ==> is_diff_table(
                ntt.diff_roots(),
                ntt.roots(),
                ntt.inv_roots(),
                MOD as int,
            ) && is_diff_table(ntt.inv_diff_roots(), ntt.inv_roots(), ntt.roots(), MOD as int),
            ntt.ready_spec() ==> roots_ok(ntt.roots(), ntt.inv_roots(), MOD as int)
                && ntt.roots().len() == level_of(MOD),
    {
        let level = Self::level();
        let ghost m = MOD as int;
        let g = match primitive_root(MOD) {
            Some(g) => g,
            None => {
                proof {
                    assert forall|h: int| !(#[trigger] is_least_root(h, m) && roots_check(h, MOD)) by {
                        if is_least_root(h, m) {
                            assert(!passes_root_test(h, m));
                        }
                    }
                }
                return Self::unready();
            },
        };
        let mut exponent = MOD - 1;
        let mut c: usize = 0;
        proof {
            lemma2_to64();
        }
        while c < level
            invariant
                c <= level,
                valid_modulus(MOD),
                exponent == (MOD - 1) / (pow2(c as nat) as int),
            decreases level - c,
        {
            proof {
                lemma_pow2_pos(c as nat);
                lemma_pow2_unfold((c + 1) as nat);
                lemma_div_denominator((MOD - 1) as int, pow2(c as nat) as int, 2);
                assert(pow2(c as nat) * 2 == 2 * pow2(c as nat));
            }
            exponent = exponent / 2;
            c = c + 1;
        }
        let omega = ModInt::<MOD>::new(g).pow(exponent);
        let inv_omega = omega.inv();
        let w = Self::squares_down(omega, level);
        let inv_w = Self::squares_down(inv_omega, level);
        let minus_one = w[0].as_u32() == MOD - 1;
        let inverts = omega.mul(inv_omega).as_u32() == 1;
        let ghost wr = residues(w@);
        let ghost yr = residues(inv_w@);
        proof {
            // the tables are the powers of their top entries
            lemma_small_mod(g as nat, m as nat);
            assert(omega@ == omega_of(g as int, MOD));
            assert(inv_omega@ == fermat_inverse(omega@, MOD));
            assert forall|j: int| 0 <= j < wr.len() - 1 implies #[trigger] wr[j] == (wr[j + 1] * wr[j
                + 1]) % m by {
                assert(w@[j]@ == (w@[j + 1]@ * w@[j + 1]@) % m);
            }
            assert forall|j: int| 0 <= j < yr.len() - 1 implies #[trigger] yr[j] == (yr[j + 1] * yr[j
                + 1]) % m by {
                assert(inv_w@[j]@ == (inv_w@[j + 1]@ * inv_w@[j + 1]@) % m);
            }
            assert forall|i: int| 0 <= i < level implies wr[i] == #[trigger] power_table(omega@, MOD)[i] by {
                lemma_squares_chain(wr, m, i);
                Self::lemma_entry_range(w@, i);
                lemma_cong_small(wr[i], pow(omega@, pow2((level - 1 - i) as nat)), m);
            }
            assert(wr =~= power_table(omega@, MOD));
            assert forall|i: int| 0 <= i < level implies yr[i] == #[trigger] power_table(
                inv_omega@,
                MOD,
            )[i] by {
                lemma_squares_chain(yr, m, i);
                Self::lemma_entry_range(inv_w@, i);
                lemma_cong_small(yr[i], pow(inv_omega@, pow2((level - 1 - i) as nat)), m);
            }
            assert(yr =~= power_table(inv_omega@, MOD));
            assert((minus_one && inverts) == roots_check(g as int, MOD));
            assert forall|h: int| #[trigger] is_least_root(h, m) implies h == g by {
                lemma_least_root_unique(h, g as int, m);
            }
        }
        if !(minus_one && inverts) {
            return Self::unready();
        }
        proof {
            assert(cong(wr[0], -1, m)) by {
                lemma_cong_add_multiple(-1, 1, m);
            }
            assert forall|i: int| 0 <= i < wr.len() - 1 implies cong(
                #[trigger] wr[i + 1] * wr[i + 1],
                wr[i],
                m,
            ) by {
                assert(w@[i]@ == (w@[i + 1]@ * w@[i + 1]@) % m);
                lemma_cong_mod(wr[i + 1] * wr[i + 1], m);
            }
            // read from the top down, each table is squared in step
            let wd = Seq::new(level as nat, |j: int| wr[level - 1 - j]);
            let yd = Seq::new(level as nat, |j: int| yr[level - 1 - j]);
            lemma_small_mod(1, m as nat);
            assert(cong(wd[0] * yd[0], 1, m));
            assert forall|i: int| 0 <= i < wd.len() - 1 implies cong(
                #[trigger] wd[i + 1],
                wd[i] * wd[i],
                m,
            ) by {
                assert(w@[level - 2 - i]@ == (w@[(level - 2 - i) + 1]@ * w@[(level - 2 - i) + 1]@) % m);
                lemma_cong_mod(wd[i] * wd[i], m);
            }
            assert forall|i: int| 0 <= i < yd.len() - 1 implies cong(
                #[trigger] yd[i + 1],
                yd[i] * yd[i],
                m,
            ) by {
                assert(inv_w@[level - 2 - i]@ == (inv_w@[(level - 2 - i) + 1]@ * inv_w@[(level - 2
                    - i) + 1]@) % m);
                lemma_cong_mod(yd[i] * yd[i], m);
            }
            assert forall|i: int| 0 <= i < wr.len() implies cong(#[trigger] wr[i] * yr[i], 1, m) by {
                lemma_inverse_chain(wd, yd, m, level - 1 - i);
            }
            lemma_inverse_roots(wr, yr, m);
        }
        let d_w = Self::diff_table(&w, &inv_w);
        let d_inv_w = Self::diff_table(&inv_w, &w);
        Self { w, inv_w, d_w, d_inv_w, ready: true }
    }

    /// The first pass when the length is an odd power of two: one radix-2
    /// butterfly over the two halves.
    fn radix2_pass(&self, vec: &mut Vec<ModInt<MOD>>, Ghost(v0): Ghost<Seq<int>>)
        requires
            self.ready_spec(),
            old(vec).len() >= 2,
            old(vec).len() % 2 == 0,
            v0 == residues(old(vec)@),
        ensures
            final(vec).len() == old(vec).len(),
            forall|idx: int|
                0 <= idx < final(vec).len() ==> (#[trigger] final(vec)@[idx])@ == stage_val(
                    v0,
                    self.roots(),
                    MOD as int,
                    (old(vec).len() / 2) as int,
                    2,
                    idx,
                ),
    {
        proof {
            use_type_invariant(self);
        }
        let ghost w = self.roots();
        let ghost y = self.inv_roots();
        let ghost m = MOD as int;
        let n = vec.len();
        let half = n / 2;
        let mut i: usize = 0;
        proof {
            lemma2_to64();
            lemma_pow2_le(1, w.len());
        }
        while i < half
            invariant
                self.inv(),
                w == self.roots(),
                y == self.inv_roots(),
                m == MOD as int,
                roots_ok(w, y, m),
                i <= half,
                n == 2 * half,
                half >= 1,
                vec.len() == n,
                v0.len() == n,
                pow2(w.len()) >= 2,
                forall|idx: int|
                    0 <= idx < n ==> slot_ok(
                        (#[trigger] vec@[idx])@,
                        idx < i || half <= idx < half + i,
                        stage_raw(v0, w, half as int, 2, idx),
                        v0[idx],
                        m,
                    ),
            decreases half - i,
        {
            let k0 = i;
            let k1 = i + half;
            let a0 = vec[k0];
            let a1 = vec[k1];
            let o0 = a0.add(a1);
            let o1 = a0.sub(a1);
            let ghost before = vec@;
            vec.set(k0, o0);
            vec.set(k1, o1);
            proof {
                let h = half as int;
                let ii = i as int;
                assert(before[k0 as int] == a0 && before[k1 as int] == a1);
                assert(slot_ok(a0@, false, stage_raw(v0, w, h, 2, ii), v0[ii], m));
                assert(slot_ok(a1@, false, stage_raw(v0, w, h, 2, ii + h), v0[ii + h], m));
                // the inputs as sums of one term at the point of block 0
                let unit = point(w, 0);
                assert(unit == 1);
                lemma_pow0(unit);
                assert(eval(v0, ii, 2 * h, unit, 1) == v0[ii]) by {
                    assert(eval(v0, ii, 2 * h, unit, 0) == 0);
                    assert(ii + (1 - 1) * (2 * h) == ii);
                    assert(v0[ii] * 1 == v0[ii]);
                }
                assert(eval(v0, ii + h, 2 * h, unit, 1) == v0[ii + h]) by {
                    assert(eval(v0, ii + h, 2 * h, unit, 0) == 0);
                    assert(ii + h + (1 - 1) * (2 * h) == ii + h);
                    assert(v0[ii + h] * 1 == v0[ii + h]);
                }
                lemma_radix2(v0, w, y, m, h, 1, 0, ii, a0@, a1@, 1);
                assert(1 * a1@ == a1@);
                lemma_fundamental_div_mod_converse(ii, h, 0, ii);
                lemma_fundamental_div_mod_converse(ii + h, h, 1, ii);
                o0.lemma_view();
                o1.lemma_view();
                lemma_cong_mod(a0@ + a1@, m);
                lemma_cong_mod(a0@ - a1@, m);
                lemma_cong_small(o0@, eval(v0, ii, h, point(w, 0), 2), m);
                lemma_cong_small(o1@, eval(v0, ii, h, point(w, 1), 2), m);
                assert forall|idx: int| 0 <= idx < n implies slot_ok(
                    (#[trigger] vec@[idx])@,
                    idx < ii + 1 || h <= idx < h + ii + 1,
                    stage_raw(v0, w, h, 2, idx),
                    v0[idx],
                    m,
                ) by {
                    if idx == k0 || idx == k1 {
                    } else {
                        assert(vec@[idx] == before[idx]);
                    }
                }
            }
            i = i + 1;
        }
    }

    /// One radix-4 pass: from blocks of length `4 * v`, each slot a sum of
    /// `cnt` terms, to blocks of length `v` with sums of `4 * cnt` terms.
    #[verifier::rlimit(30)]
    fn radix4_pass(&self, vec: &mut Vec<ModInt<MOD>>, v: usize, cnt: usize, Ghost(v0): Ghost<Seq<int>>)
        requires
            self.ready_spec(),
            v >= 1,
            cnt >= 1,
            4 * v * cnt == old(vec).len(),
            4 * cnt <= pow2(self.roots().len()),
            v0.len() == old(vec).len(),
            forall|idx: int|
                0 <= idx < old(vec).len() ==> cong(
                    (#[trigger] old(vec)@[idx])@,
                    stage_raw(v0, self.roots(), 4 * v, cnt as nat, idx),
                    MOD as int,
                ),
        ensures
            final(vec).len() == old(vec).len(),
            forall|idx: int|
                0 <= idx < final(vec).len() ==> (#[trigger] final(vec)@[idx])@ == stage_val(
                    v0,
                    self.roots(),
                    MOD as int,
                    v as int,
                    (4 * cnt) as nat,
                    idx,
                ),
    {
        proof {
            use_type_invariant(self);
        }
        let ghost w = self.roots();
        let ghost y = self.inv_roots();
        let ghost m = MOD as int;
        let n = vec.len();
        proof {
            lemma2_to64();
            if w.len() < 2 {
                assert(pow2(w.len()) <= 2);
            }
        }
        let imag = self.w[1];
        proof {
            use_type_invariant(&imag);
        }
        let mut xx = ModInt::<MOD>::one();
        let mut g: usize = 0;
        let mut j0: usize = 0;
        proof {
            assert(bit_prod(w, 0, 2) == 1);
            lemma_small_mod(1, m as nat);
            assert(0 * (4 * v) == 0);
        }
        while g < cnt
            invariant
                self.inv(),
                self.ready_spec(),
                w == self.roots(),
                y == self.inv_roots(),
                m == MOD as int,
                roots_ok(w, y, m),
                imag@ == w[1],
                imag.wf(),
                w.len() >= 2,
                v >= 1,
                g <= cnt,
                4 * v * cnt == n,
                4 * cnt <= pow2(w.len()),
                j0 == g * (4 * v),
                vec.len() == n,
                v0.len() == n,
                xx.wf(),
                g < cnt ==> cong(xx@, bit_prod(w, g as nat, 2), m),
                forall|idx: int|
                    0 <= idx < n ==> slot_ok(
                        (#[trigger] vec@[idx])@,
                        idx < j0,
                        stage_raw(v0, w, v as int, (4 * cnt) as nat, idx),
                        stage_raw(v0, w, 4 * v, cnt as nat, idx),
                        m,
                    ),
            decreases cnt - g,
        {
            proof {
                assert(j0 + 4 * v <= n) by (nonlinear_arith)
                    requires
                        j0 == g * (4 * v),
                        g + 1 <= cnt,
                        4 * v * cnt == n,
                        v >= 1,
                ;
            }
            let ww = xx.mul(xx);
            let wx = ww.mul(xx);
            let mut i: usize = 0;
            while i < v
                invariant
                    self.inv(),
                    w == self.roots(),
                    y == self.inv_roots(),
                    m == MOD as int,
                    roots_ok(w, y, m),
                    imag@ == w[1],
                    imag.wf(),
                    w.len() >= 2,
                    v >= 1,
                    g < cnt,
                    i <= v,
                    4 * v * cnt == n,
                    4 * cnt <= pow2(w.len()),
                    j0 == g * (4 * v),
                    j0 + 4 * v <= n,
                    vec.len() == n,
                    v0.len() == n,
                    xx.wf(),
                    ww.wf(),
                    wx.wf(),
                    ww@ == (xx@ * xx@) % m,
                    wx@ == (ww@ * xx@) % m,
                    cong(xx@, bit_prod(w, g as nat, 2), m),
                    forall|idx: int|
                        0 <= idx < n ==> slot_ok(
                            (#[trigger] vec@[idx])@,
                            quad_done(idx, j0 as int, v as int, i as int),
                            stage_raw(v0, w, v as int, (4 * cnt) as nat, idx),
                            stage_raw(v0, w, 4 * v, cnt as nat, idx),
                            m,
                        ),
                decreases v - i,
            {
                let k0 = j0 + i;
                let k1 = k0 + v;
                let k2 = k1 + v;
                let k3 = k2 + v;
                let a0 = vec[k0];
                let a1 = vec[k1];
                let a2 = vec[k2];
                let a3 = vec[k3];
                let t1 = a1.mul(xx);
                let t2 = a2.mul(ww);
                let t3 = a3.mul(wx);
                let t0p2 = a0.add(t2);
                let t1p3 = t1.add(t3);
                let t0m2 = a0.sub(t2);
                let t1m3 = t1.sub(t3).mul(imag);
                let o0 = t0p2.add(t1p3);
                let o1 = t0p2.sub(t1p3);
                let o2 = t0m2.add(t1m3);
                let o3 = t0m2.sub(t1m3);
                let ghost before = vec@;
                vec.set(k0, o0);
                vec.set(k1, o1);
                vec.set(k2, o2);
                vec.set(k3, o3);
                proof {
                    let gi = g as int;
                    let vi = v as int;
                    let ii = i as int;
                    let c = cnt as nat;
                    assert(!quad_done(k0 as int, j0 as int, vi, ii));
                    assert(!quad_done(k1 as int, j0 as int, vi, ii));
                    assert(!quad_done(k2 as int, j0 as int, vi, ii));
                    assert(!quad_done(k3 as int, j0 as int, vi, ii));
                    assert(before[k0 as int] == a0 && before[k1 as int] == a1 && before[k2 as int]
                        == a2 && before[k3 as int] == a3);
                    assert(slot_ok(a0@, false, stage_raw(v0, w, vi, 4 * c, k0 as int), stage_raw(v0, w, 4 * vi, c, k0 as int), m));
                    assert(slot_ok(a1@, false, stage_raw(v0, w, vi, 4 * c, k1 as int), stage_raw(v0, w, 4 * vi, c, k1 as int), m));
                    assert(slot_ok(a2@, false, stage_raw(v0, w, vi, 4 * c, k2 as int), stage_raw(v0, w, 4 * vi, c, k2 as int), m));
                    assert(slot_ok(a3@, false, stage_raw(v0, w, vi, 4 * c, k3 as int), stage_raw(v0, w, 4 * vi, c, k3 as int), m));
                    lemma_block_index(gi, 0, vi, ii);
                    lemma_block_index(gi, 1, vi, ii);
                    lemma_block_index(gi, 2, vi, ii);
                    lemma_block_index(gi, 3, vi, ii);
                    assert(k0 == gi * (4 * vi) + 0 * vi + ii);
                    assert(k1 == gi * (4 * vi) + 1 * vi + ii);
                    assert(k2 == gi * (4 * vi) + 2 * vi + ii);
                    assert(k3 == gi * (4 * vi) + 3 * vi + ii);
                    assert(4 * g + 3 < pow2(w.len()));
                    lemma_radix4(v0, w, y, m, vi, c, g as nat, ii, a0@, a1@, a2@, a3@, xx@);
                    lemma_quad_exec(m, a0@, a1@, a2@, a3@, xx@, imag@, t1@, t2@, t3@, ww@, wx@);
                    assert(cong(quad(0, a0@, a1@, a2@, a3@, xx@, w[1]), eval(v0, ii, vi, point(w, (4 * g + 0) as nat), 4 * c), m));
                    assert(cong(quad(1, a0@, a1@, a2@, a3@, xx@, w[1]), eval(v0, ii, vi, point(w, (4 * g + 1) as nat), 4 * c), m));
                    assert(cong(quad(2, a0@, a1@, a2@, a3@, xx@, w[1]), eval(v0, ii, vi, point(w, (4 * g + 2) as nat), 4 * c), m));
                    assert(cong(quad(3, a0@, a1@, a2@, a3@, xx@, w[1]), eval(v0, ii, vi, point(w, (4 * g + 3) as nat), 4 * c), m));
                    o0.lemma_view();
                    o1.lemma_view();
                    o2.lemma_view();
                    o3.lemma_view();
                    lemma_cong_small(o0@, eval(v0, ii, vi, point(w, (4 * g + 0) as nat), 4 * c), m);
                    lemma_cong_small(o1@, eval(v0, ii, vi, point(w, (4 * g + 1) as nat), 4 * c), m);
                    lemma_cong_small(o2@, eval(v0, ii, vi, point(w, (4 * g + 2) as nat), 4 * c), m);
                    lemma_cong_small(o3@, eval(v0, ii, vi, point(w, (4 * g + 3) as nat), 4 * c), m);
                    assert forall|idx: int| 0 <= idx < n implies slot_ok(
                        (#[trigger] vec@[idx])@,
                        quad_done(idx, j0 as int, vi, ii + 1),
                        stage_raw(v0, w, vi, 4 * c, idx),
                        stage_raw(v0, w, 4 * vi, c, idx),
                        m,
                    ) by {
                        if idx == k0 || idx == k1 || idx == k2 || idx == k3 {
                        } else {
                            assert(vec@[idx] == before[idx]);
                            assert(quad_done(idx, j0 as int, vi, ii + 1) == quad_done(
                                idx,
                                j0 as int,
                                vi,
                                ii,
                            ));
                        }
                    }
                }
                i = i + 1;
            }
            g = g + 1;
            j0 = j0 + 4 * v;
            proof {
                assert(j0 == g * (4 * v)) by (nonlinear_arith)
                    requires
                        j0 == (g - 1) * (4 * v) + 4 * v,
                ;
                assert forall|idx: int| 0 <= idx < n implies slot_ok(
                    (#[trigger] vec@[idx])@,
                    idx < j0,
                    stage_raw(v0, w, v as int, (4 * cnt) as nat, idx),
                    stage_raw(v0, w, 4 * v, cnt as nat, idx),
                    m,
                ) by {
                    assert(quad_done(idx, j0 - 4 * v, v as int, v as int) == (idx < j0));
                }
            }
            if g < cnt {
                let t = count_trailing_zeros(g as u64) as usize;
                proof {
                    // g < cnt <= 2^(len - 2)
                    lemma_pow2_unfold(w.len());
                    lemma_pow2_unfold((w.len() - 1) as nat);
                    lemma_bit_prod_succ(w, y, m, (g - 1) as nat, 2);
                    assert(cong(self.d_w@[t + 2]@, diff_root(w, y, t as nat, 2), m));
                }
                let d = self.d_w[t + 2];
                let ghost x0 = xx@;
                xx = xx.mul(d);
                proof {
                    lemma_cong_mod(x0 * d@, m);
                    lemma_cong_mul(
                        x0,
                        bit_prod(w, (g - 1) as nat, 2),
                        d@,
                        diff_root(w, y, t as nat, 2),
                        m,
                    );
                }
            }
        }
        proof {
            assert(j0 == n) by (nonlinear_arith)
                requires
                    j0 == g * (4 * v),
                    g == cnt,
                    4 * v * cnt == n,
            ;
        }
    }

    /// The forward transform, in place: slot `s` receives the input, read as
    /// a polynomial, evaluated at `point(roots, s)`. Lengths zero and one are
    /// left as they are.
    pub fn transform(&self, vec: &mut Vec<ModInt<MOD>>)
        requires
            self.ready_spec(),
            transformable(old(vec).len() as nat, level_of(MOD)),
        ensures
            final(vec).len() == old(vec).len(),
            residues(final(vec)@) == dft(residues(old(vec)@), self.roots(), MOD as int),
    {
        proof {
            use_type_invariant(self);
        }
        let ghost v0 = residues(vec@);
        let ghost w = self.roots();
        let ghost y = self.inv_roots();
        let ghost m = MOD as int;
        let n = vec.len();
        if n == 0 {
            assert(residues(vec@) =~= dft(v0, w, m));
            return ;
        }
        if n == 1 {
            let x = vec[0];
            proof {
                use_type_invariant(&x);
                x.lemma_view();
                lemma_dft_of_one(v0, w, m);
            }
            return ;
        }
        let k = count_trailing_zeros(n as u64) as usize;
        proof {
            lemma2_to64();
            if k == 0 {
                assert(pow2(0) == 1);
            }
            lemma_pow2_unfold(k as nat);
            lemma_pow2_le(k as nat, w.len());
        }
        if k % 2 == 1 {
            self.transform_odd(vec, Ghost((k - 1) as nat));
        } else {
            self.transform_even(vec, Ghost(k as nat));
        }
        proof {
            assert forall|s: int| 0 <= s < n implies residues(vec@)[s] == dft(v0, w, m)[s] by {
                lemma_last_stage(v0, w, m, s);
            }
            assert(residues(vec@) =~= dft(v0, w, m));
        }
    }

    /// The passes for a length that is an odd power of two, `2 * 2^e`: one
    /// radix-2 pass, then radix-4 passes.
    fn transform_odd(&self, vec: &mut Vec<ModInt<MOD>>, Ghost(e): Ghost<nat>)
        requires
            self.ready_spec(),
            e % 2 == 0,
            old(vec).len() == 2 * pow2(e),
            old(vec).len() <= pow2(self.roots().len()),
        ensures
            final(vec).len() == old(vec).len(),
            forall|idx: int|
                0 <= idx < final(vec).len() ==> (#[trigger] final(vec)@[idx])@ == stage_val(
                    residues(old(vec)@),
                    self.roots(),
                    MOD as int,
                    1,
                    old(vec).len() as nat,
                    idx,
                ),
    {
        let ghost v0 = residues(vec@);
        let ghost w = self.roots();
        let ghost m = MOD as int;
        let n = vec.len();
        proof {
            use_type_invariant(self);
            lemma_pow2_pos(e);
        }
        self.radix2_pass(vec, Ghost(v0));
        proof {
            assert forall|idx: int| 0 <= idx < n implies cong(
                (#[trigger] vec@[idx])@,
                stage_raw(v0, w, (n / 2) as int, 2, idx),
                m,
            ) by {
                lemma_cong_mod(stage_raw(v0, w, (n / 2) as int, 2, idx), m);
            }
            assert((n / 2) * 2 == n);
        }
        self.radix4_passes(vec, n / 2, 2, Ghost(e), Ghost(v0));
    }

    /// The passes for a length that is an even power of two, `2^e` with
    /// `e >= 2`: radix-4 passes alone.
    fn transform_even(&self, vec: &mut Vec<ModInt<MOD>>, Ghost(e): Ghost<nat>)
        requires
            self.ready_spec(),
            e % 2 == 0,
            e >= 2,
            old(vec).len() == pow2(e),
            old(vec).len() <= pow2(self.roots().len()),
        ensures
            final(vec).len() == old(vec).len(),
            forall|idx: int|
                0 <= idx < final(vec).len() ==> (#[trigger] final(vec)@[idx])@ == stage_val(
                    residues(old(vec)@),
                    self.roots(),
                    MOD as int,
                    1,
                    old(vec).len() as nat,
                    idx,
                ),
    {
        let ghost v0 = residues(vec@);
        let ghost w = self.roots();
        let ghost m = MOD as int;
        let n = vec.len();
        proof {
            use_type_invariant(self);
            lemma2_to64();
            lemma_pow2_le(2, e);
            assert forall|idx: int| 0 <= idx < n implies cong(
                (#[trigger] vec@[idx])@,
                stage_raw(v0, w, n as int, 1, idx),
                m,
            ) by {
                lemma_first_stage(v0, w, idx);
            }
            assert(n * 1 == n);
        }
        self.radix4_passes(vec, n, 1, Ghost(e), Ghost(v0));
    }

    /// The radix-4 passes that take blocks of length `blen`, an even power of
    /// two, down to blocks of length one.
    fn radix4_passes(
        &self,
        vec: &mut Vec<ModInt<MOD>>,
        blen: usize,
        cnt: usize,
        Ghost(e): Ghost<nat>,
        Ghost(v0): Ghost<Seq<int>>,
    )
        requires
            self.ready_spec(),
            blen >= 1,
            cnt >= 1,
            blen * cnt == old(vec).len(),
            e % 2 == 0,
            blen == pow2(e),
            blen < old(vec).len() || blen >= 4,
            old(vec).len() <= pow2(self.roots().len()),
            v0.len() == old(vec).len(),
            forall|idx: int|
                0 <= idx < old(vec).len() ==> cong(
                    (#[trigger] old(vec)@[idx])@,
                    stage_raw(v0, self.roots(), blen as int, cnt as nat, idx),
                    MOD as int,
                ),
            blen < old(vec).len() ==> forall|idx: int|
                0 <= idx < old(vec).len() ==> (#[trigger] old(vec)@[idx])@ == stage_val(
                    v0,
                    self.roots(),
                    MOD as int,
                    blen as int,
                    cnt as nat,
                    idx,
                ),
        ensures
            final(vec).len() == old(vec).len(),
            forall|idx: int|
                0 <= idx < final(vec).len() ==> (#[trigger] final(vec)@[idx])@ == stage_val(
                    v0,
                    self.roots(),
                    MOD as int,
                    1,
                    old(vec).len() as nat,
                    idx,
                ),
    {
        proof {
            use_type_invariant(self);
        }
        let ghost w = self.roots();
        let ghost m = MOD as int;
        let n = vec.len();
        let mut blen = blen;
        let mut cnt = cnt;
        let ghost mut e = e;
        proof {
            assert(cnt <= n) by (nonlinear_arith)
                requires
                    blen * cnt == n,
                    blen >= 1,
                    cnt >= 1,
            ;
            if blen >= 4 {
                assert(4 * cnt <= n) by (nonlinear_arith)
                    requires
                        blen * cnt == n,
                        blen >= 4,
                        cnt >= 1,
                ;
            }
        }
        while blen >= 4
            invariant
                self.inv(),
                self.ready_spec(),
                w == self.roots(),
                m == MOD as int,
                vec.len() == n,
                v0.len() == n,
                blen >= 1,
                cnt >= 1,
                blen * cnt == n,
                e % 2 == 0,
                blen == pow2(e),
                cnt <= pow2(w.len()),
                blen >= 4 ==> 4 * cnt <= pow2(w.len()),
                n <= pow2(w.len()),
                forall|idx: int|
                    0 <= idx < n ==> cong(
                        (#[trigger] vec@[idx])@,
                        stage_raw(v0, w, blen as int, cnt as nat, idx),
                        m,
                    ),
                blen < n ==> forall|idx: int|
                    0 <= idx < n ==> (#[trigger] vec@[idx])@ == stage_val(
                        v0,
                        w,
                        m,
                        blen as int,
                        cnt as nat,
                        idx,
                    ),
            decreases blen,
        {
            let v = blen / 4;
            proof {
                lemma2_to64();
                assert(e >= 2) by {
                    if e == 0 {
                        assert(pow2(0) == 1);
                    }
                }
                lemma_pow2_unfold(e);
                lemma_pow2_unfold((e - 1) as nat);
                assert(blen == 4 * v);
                assert(4 * v * cnt == n) by (nonlinear_arith)
                    requires
                        blen == 4 * v,
                        blen * cnt == n,
                ;
            }
            self.radix4_pass(vec, v, cnt, Ghost(v0));
            proof {
                e = (e - 2) as nat;
                assert(v * (4 * cnt) == n) by (nonlinear_arith)
                    requires
                        4 * v * cnt == n,
                ;
                assert(4 * cnt <= n) by (nonlinear_arith)
                    requires
                        v * (4 * cnt) == n,
                        v >= 1,
                        cnt >= 1,
                ;
                if v >= 4 {
                    assert(4 * (4 * cnt) <= n) by (nonlinear_arith)
                        requires
                            v * (4 * cnt) == n,
                            v >= 4,
                            cnt >= 1,
                    ;
                }
                assert forall|idx: int| 0 <= idx < n implies cong(
                    (#[trigger] vec@[idx])@,
                    stage_raw(v0, w, v as int, (4 * cnt) as nat, idx),
                    m,
                ) by {
                    lemma_cong_mod(stage_raw(v0, w, v as int, (4 * cnt) as nat, idx), m);
                }
            }
            blen = v;
            cnt = 4 * cnt;
        }
        proof {
            // blen is an even power of two below 4: it is 1
            lemma2_to64();
            if e > 0 {
                lemma_pow2_le(2, e);
            }
            assert(blen == 1);
            assert(cnt == n) by (nonlinear_arith)
                requires
                    blen == 1,
                    blen * cnt == n,
            ;
        }
    }

    /// One inverse radix-4 pass: four neighbouring blocks of `v == 2^h` slots
    /// each merge into one block of `4 * v` slots.
    #[verifier::rlimit(30)]
    fn inv_radix4_pass(
        &self,
        vec: &mut Vec<ModInt<MOD>>,
        v: usize,
        cnt: usize,
        Ghost(yin): Ghost<Seq<int>>,
        Ghost(h): Ghost<nat>,
    )
        requires
            self.ready_spec(),
            v == pow2(h),
            cnt >= 1,
            4 * v * cnt == old(vec).len(),
            old(vec).len() <= pow2(self.inv_roots().len()),
            yin.len() == old(vec).len(),
            forall|idx: int|
                0 <= idx < old(vec).len() ==> cong(
                    (#[trigger] old(vec)@[idx])@,
                    inv_raw(yin, self.inv_roots(), v as int, idx),
                    MOD as int,
                ),
        ensures
            final(vec).len() == old(vec).len(),
            forall|idx: int|
                0 <= idx < final(vec).len() ==> (#[trigger] final(vec)@[idx])@ == inv_raw(
                    yin,
                    self.inv_roots(),
                    4 * v,
                    idx,
                ) % (MOD as int),
    {
        proof {
            use_type_invariant(self);
        }
        let ghost w = self.roots();
        let ghost y = self.inv_roots();
        let ghost m = MOD as int;
        let n = vec.len();
        proof {
            lemma2_to64();
            lemma_pow2_pos(h);
            lemma_inverse_roots(w, y, m);
            assert(4 * cnt <= n) by (nonlinear_arith)
                requires
                    4 * v * cnt == n,
                    v >= 1,
                    cnt >= 1,
            ;
            if y.len() < 2 {
                assert(pow2(y.len()) <= 2);
            }
        }
        let imag = self.inv_w[1];
        proof {
            use_type_invariant(&imag);
        }
        let mut xx = ModInt::<MOD>::one();
        let mut g: usize = 0;
        let mut j0: usize = 0;
        proof {
            assert(bit_prod(y, 0, 2) == 1);
            lemma_small_mod(1, m as nat);
            assert(0 * (4 * v) == 0);
        }
        while g < cnt
            invariant
                self.inv(),
                self.ready_spec(),
                w == self.roots(),
                y == self.inv_roots(),
                m == MOD as int,
                roots_ok(y, w, m),
                roots_ok(w, y, m),
                imag@ == y[1],
                imag.wf(),
                y.len() >= 2,
                v == pow2(h),
                v >= 1,
                g <= cnt,
                4 * v * cnt == n,
                4 * cnt <= n,
                n <= pow2(y.len()),
                j0 == g * (4 * v),
                vec.len() == n,
                yin.len() == n,
                xx.wf(),
                g < cnt ==> cong(xx@, bit_prod(y, g as nat, 2), m),
                forall|idx: int|
                    0 <= idx < n ==> slot_ok(
                        (#[trigger] vec@[idx])@,
                        idx < j0,
                        inv_raw(yin, y, 4 * v, idx),
                        inv_raw(yin, y, v as int, idx),
                        m,
                    ),
            decreases cnt - g,
        {
            proof {
                assert(j0 + 4 * v <= n) by (nonlinear_arith)
                    requires
                        j0 == g * (4 * v),
                        g + 1 <= cnt,
                        4 * v * cnt == n,
                        v >= 1,
                ;
            }
            let ww = xx.mul(xx);
            let yy = xx.mul(imag);
            let mut i: usize = 0;
            while i < v
                invariant
                    self.inv(),
                    w == self.roots(),
                    y == self.inv_roots(),
                    m == MOD as int,
                    roots_ok(y, w, m),
                    imag@ == y[1],
                    imag.wf(),
                    y.len() >= 2,
                    v == pow2(h),
                    v >= 1,
                    g < cnt,
                    i <= v,
                    4 * v * cnt == n,
                    n <= pow2(y.len()),
                    j0 == g * (4 * v),
                    j0 + 4 * v <= n,
                    vec.len() == n,
                    yin.len() == n,
                    xx.wf(),
                    ww.wf(),
                    yy.wf(),
                    ww@ == (xx@ * xx@) % m,
                    yy@ == (xx@ * imag@) % m,
                    cong(xx@, bit_prod(y, g as nat, 2), m),
                    forall|idx: int|
                        0 <= idx < n ==> slot_ok(
                            (#[trigger] vec@[idx])@,
                            quad_done(idx, j0 as int, v as int, i as int),
                            inv_raw(yin, y, 4 * v, idx),
                            inv_raw(yin, y, v as int, idx),
                            m,
                        ),
                decreases v - i,
            {
                let k0 = j0 + i;
                let k1 = k0 + v;
                let k2 = k1 + v;
                let k3 = k2 + v;
                let t0 = vec[k0];
                let t1 = vec[k1];
                let t2 = vec[k2];
                let t3 = vec[k3];
                let t0p1 = t0.add(t1);
                let t2p3 = t2.add(t3);
                let t0m1 = t0.sub(t1).mul(xx);
                let t2m3 = t2.sub(t3).mul(yy);
                let o0 = t0p1.add(t2p3);
                let o1 = t0m1.add(t2m3);
                let o2 = t0p1.sub(t2p3).mul(ww);
                let o3 = t0m1.sub(t2m3).mul(ww);
                let ghost before = vec@;
                vec.set(k0, o0);
                vec.set(k1, o1);
                vec.set(k2, o2);
                vec.set(k3, o3);
                proof {
                    let gi = g as int;
                    let vi = v as int;
                    let ii = i as int;
                    assert(!quad_done(k0 as int, j0 as int, vi, ii));
                    assert(!quad_done(k1 as int, j0 as int, vi, ii));
                    assert(!quad_done(k2 as int, j0 as int, vi, ii));
                    assert(!quad_done(k3 as int, j0 as int, vi, ii));
                    assert(before[k0 as int] == t0 && before[k1 as int] == t1 && before[k2 as int]
                        == t2 && before[k3 as int] == t3);
                    assert(slot_ok(t0@, false, inv_raw(yin, y, 4 * vi, k0 as int), inv_raw(yin, y, vi, k0 as int), m));
                    assert(slot_ok(t1@, false, inv_raw(yin, y, 4 * vi, k1 as int), inv_raw(yin, y, vi, k1 as int), m));
                    assert(slot_ok(t2@, false, inv_raw(yin, y, 4 * vi, k2 as int), inv_raw(yin, y, vi, k2 as int), m));
                    assert(slot_ok(t3@, false, inv_raw(yin, y, 4 * vi, k3 as int), inv_raw(yin, y, vi, k3 as int), m));
                    lemma_block_index(gi, 0, vi, ii);
                    lemma_block_index(gi, 1, vi, ii);
                    lemma_block_index(gi, 2, vi, ii);
                    lemma_block_index(gi, 3, vi, ii);
                    assert(k0 == gi * (4 * vi) + 0 * vi + ii);
                    assert(k1 == gi * (4 * vi) + 1 * vi + ii);
                    assert(k2 == gi * (4 * vi) + 2 * vi + ii);
                    assert(k3 == gi * (4 * vi) + 3 * vi + ii);
                    let b = pow2(h);
                    let gn = g as nat;
                    assert((4 * gn) * b == gi * (4 * vi) && (4 * gn + 1) * b == (4 * gi + 1) * vi
                        && (4 * gn + 2) * b == (4 * gi + 2) * vi && (4 * gn + 3) * b == (4 * gi + 3)
                        * vi && (4 * gn + 4) * b == gi * (4 * vi) + 4 * vi) by (nonlinear_arith)
                        requires
                            b == vi,
                            gn == gi,
                    ;
                    lemma_inv_radix4(yin, y, w, m, h, gn, i as nat, t0@, t1@, t2@, t3@, xx@);
                    lemma_iquad_exec(m, t0@, t1@, t2@, t3@, xx@, imag@, yy@, ww@);
                    let base = ((4 * gn) * b) as nat;
                    assert(cong(iquad(0, t0@, t1@, t2@, t3@, xx@, y[1]), ieval(yin, y, base, 4 * b, (0 * b + i) as nat), m));
                    assert(cong(iquad(1, t0@, t1@, t2@, t3@, xx@, y[1]), ieval(yin, y, base, 4 * b, (1 * b + i) as nat), m));
                    assert(cong(iquad(2, t0@, t1@, t2@, t3@, xx@, y[1]), ieval(yin, y, base, 4 * b, (2 * b + i) as nat), m));
                    assert(cong(iquad(3, t0@, t1@, t2@, t3@, xx@, y[1]), ieval(yin, y, base, 4 * b, (3 * b + i) as nat), m));
                    o0.lemma_view();
                    o1.lemma_view();
                    o2.lemma_view();
                    o3.lemma_view();
                    lemma_cong_small(o0@, ieval(yin, y, base, 4 * b, (0 * b + i) as nat), m);
                    lemma_cong_small(o1@, ieval(yin, y, base, 4 * b, (1 * b + i) as nat), m);
                    lemma_cong_small(o2@, ieval(yin, y, base, 4 * b, (2 * b + i) as nat), m);
                    lemma_cong_small(o3@, ieval(yin, y, base, 4 * b, (3 * b + i) as nat), m);
                    assert forall|idx: int| 0 <= idx < n implies slot_ok(
                        (#[trigger] vec@[idx])@,
                        quad_done(idx, j0 as int, vi, ii + 1),
                        inv_raw(yin, y, 4 * vi, idx),
                        inv_raw(yin, y, vi, idx),
                        m,
                    ) by {
                        if idx == k0 || idx == k1 || idx == k2 || idx == k3 {
                        } else {
                            assert(vec@[idx] == before[idx]);
                            assert(quad_done(idx, j0 as int, vi, ii + 1) == quad_done(
                                idx,
                                j0 as int,
                                vi,
                                ii,
                            ));
                        }
                    }
                }
                i = i + 1;
            }
            g = g + 1;
            j0 = j0 + 4 * v;
            proof {
                assert(j0 == g * (4 * v)) by (nonlinear_arith)
                    requires
                        j0 == (g - 1) * (4 * v) + 4 * v,
                ;
                assert forall|idx: int| 0 <= idx < n implies slot_ok(
                    (#[trigger] vec@[idx])@,
                    idx < j0,
                    inv_raw(yin, y, 4 * v, idx),
                    inv_raw(yin, y, v as int, idx),
                    m,
                ) by {
                    assert(quad_done(idx, j0 - 4 * v, v as int, v as int) == (idx < j0));
                }
            }
            if g < cnt {
                let t = count_trailing_zeros(g as u64) as usize;
                proof {
                    lemma_pow2_unfold(y.len());
                    lemma_pow2_unfold((y.len() - 1) as nat);
                    lemma_bit_prod_succ(y, w, m, (g - 1) as nat, 2);
                    assert(cong(self.d_inv_w@[t + 2]@, diff_root(y, w, t as nat, 2), m));
                }
                let d = self.d_inv_w[t + 2];
                let ghost x0 = xx@;
                xx = xx.mul(d);
                proof {
                    lemma_cong_mod(x0 * d@, m);
                    lemma_cong_mul(
                        x0,
                        bit_prod(y, (g - 1) as nat, 2),
                        d@,
                        diff_root(y, w, t as nat, 2),
                        m,
                    );
                }
            }
        }
        proof {
            assert(j0 == n) by (nonlinear_arith)
                requires
                    j0 == g * (4 * v),
                    g == cnt,
                    4 * v * cnt == n,
            ;
        }
    }

    /// The last inverse pass when the length is an odd power of two: the two
    /// halves of `2^h` slots merge.
    fn inv_radix2_pass(&self, vec: &mut Vec<ModInt<MOD>>, Ghost(yin): Ghost<Seq<int>>, Ghost(h): Ghost<nat>)
        requires
            self.ready_spec(),
            old(vec).len() == 2 * pow2(h),
            old(vec).len() <= pow2(self.inv_roots().len()),
            yin.len() == old(vec).len(),
            forall|idx: int|
                0 <= idx < old(vec).len() ==> cong(
                    (#[trigger] old(vec)@[idx])@,
                    inv_raw(yin, self.inv_roots(), pow2(h) as int, idx),
                    MOD as int,
                ),
        ensures
            final(vec).len() == old(vec).len(),
            forall|idx: int|
                0 <= idx < final(vec).len() ==> (#[trigger] final(vec)@[idx])@ == inv_raw(
                    yin,
                    self.inv_roots(),
                    old(vec).len() as int,
                    idx,
                ) % (MOD as int),
    {
        proof {
            use_type_invariant(self);
        }
        let ghost w = self.roots();
        let ghost y = self.inv_roots();
        let ghost m = MOD as int;
        let n = vec.len();
        let half = n / 2;
        let mut i: usize = 0;
        proof {
            lemma_pow2_pos(h);
            lemma_inverse_roots(w, y, m);
        }
        while i < half
            invariant
                self.inv(),
                w == self.roots(),
                y == self.inv_roots(),
                m == MOD as int,
                roots_ok(y, w, m),
                i <= half,
                n == 2 * half,
                half == pow2(h),
                half >= 1,
                n <= pow2(y.len()),
                vec.len() == n,
                yin.len() == n,
                forall|idx: int|
                    0 <= idx < n ==> slot_ok(
                        (#[trigger] vec@[idx])@,
                        idx < i || half <= idx < half + i,
                        inv_raw(yin, y, n as int, idx),
                        inv_raw(yin, y, half as int, idx),
                        m,
                    ),
            decreases half - i,
        {
            let k0 = i;
            let k1 = i + half;
            let a0 = vec[k0];
            let a1 = vec[k1];
            let o0 = a0.add(a1);
            let o1 = a0.sub(a1);
            let ghost before = vec@;
            vec.set(k0, o0);
            vec.set(k1, o1);
            proof {
                let hf = half as int;
                let ii = i as int;
                let b = pow2(h);
                assert(before[k0 as int] == a0 && before[k1 as int] == a1);
                assert(slot_ok(a0@, false, inv_raw(yin, y, n as int, ii), inv_raw(yin, y, hf, ii), m));
                assert(slot_ok(a1@, false, inv_raw(yin, y, n as int, ii + hf), inv_raw(yin, y, hf, ii + hf), m));
                lemma_fundamental_div_mod_converse(ii, hf, 0, ii);
                lemma_fundamental_div_mod_converse(ii + hf, hf, 1, ii);
                lemma_fundamental_div_mod_converse(ii, n as int, 0, ii);
                lemma_fundamental_div_mod_converse(ii + hf, n as int, 0, ii + hf);
                assert(0 * hf == 0 && 1 * hf == hf && 0 * n == 0);
                assert(2 * 0 * b == 0 && (2 * 0 + 1) * b == b && (2 * 0 + 2) * b == 2 * b);
                assert(point(y, 0) == 1);
                lemma_inv_radix2(yin, y, w, m, h, 0, i as nat, a0@, a1@, 1);
                assert((a0@ - a1@) * 1 == a0@ - a1@);
                o0.lemma_view();
                o1.lemma_view();
                lemma_cong_mod(a0@ + a1@, m);
                lemma_cong_mod(a0@ - a1@, m);
                lemma_cong_small(o0@, ieval(yin, y, 0, 2 * b, i as nat), m);
                lemma_cong_small(o1@, ieval(yin, y, 0, 2 * b, b + i as nat), m);
                assert forall|idx: int| 0 <= idx < n implies slot_ok(
                    (#[trigger] vec@[idx])@,
                    idx < ii + 1 || hf <= idx < hf + ii + 1,
                    inv_raw(yin, y, n as int, idx),
                    inv_raw(yin, y, hf, idx),
                    m,
                ) by {
                    if idx == k0 || idx == k1 {
                    } else {
                        assert(vec@[idx] == before[idx]);
                    }
                }
            }
            i = i + 1;
        }
    }

    /// The inverse transform, in place: slot `j` receives the sum of
    /// `input[s] * point(inv_roots, s)^j` over all slots `s`, divided by the
    /// length. Lengths zero and one are left as they are.
    pub fn inverse_transform(&self, vec: &mut Vec<ModInt<MOD>>)
        requires
            self.ready_spec(),
            transformable(old(vec).len() as nat, level_of(MOD)),
        ensures
            final(vec).len() == old(vec).len(),
            residues(final(vec)@) == idft(
                residues(old(vec)@),
                self.inv_roots(),
                MOD as int,
                trailing_zeros(old(vec).len() as nat),
            ),
    {
        proof {
            use_type_invariant(self);
        }
        let ghost yin = residues(vec@);
        let ghost w = self.roots();
        let ghost y = self.inv_roots();
        let ghost m = MOD as int;
        let n = vec.len();
        if n == 0 {
            assert(residues(vec@) =~= idft(yin, y, m, trailing_zeros(0)));
            return ;
        }
        let k = count_trailing_zeros(n as u64) as usize;
        if n == 1 {
            let x = vec[0];
            proof {
                use_type_invariant(&x);
                x.lemma_view();
                lemma_pow0((m + 1) / 2);
                lemma_pow0(point(y, 0));
                assert(ieval(yin, y, 0, 0, 0) == 0);
                assert(ieval(yin, y, 0, 1, 0) == 0 + yin[0 + 1 - 1] * pow(point(y, (0 + 1 - 1) as nat), 0));
                assert(yin[0] * 1 == yin[0]);
                assert(1 * yin[0] == yin[0]);
                lemma_small_mod(x@ as nat, m as nat);
                assert(residues(vec@) =~= idft(yin, y, m, 0));
            }
            return ;
        }
        let mut blen: usize = 1;
        let mut cnt: usize = n;
        let ghost mut h: nat = 0;
        let ghost mut ce: nat = k as nat;
        proof {
            lemma2_to64();
            lemma_pow2_le(k as nat, y.len());
            assert(blen * cnt == n) by {
                assert(1 * cnt == n);
            }
            assert forall|idx: int| 0 <= idx < n implies cong(
                (#[trigger] vec@[idx])@,
                inv_raw(yin, y, 1, idx),
                m,
            ) by {
                lemma_fundamental_div_mod_converse(idx, 1, idx, 0);
                assert(idx * 1 == idx);
                lemma_pow0(point(y, idx as nat));
                assert(ieval(yin, y, idx as nat, 0, 0) == 0);
                assert(ieval(yin, y, idx as nat, 1, 0) == 0 + yin[idx + 1 - 1] * pow(point(y, (idx + 1 - 1) as nat), 0));
                assert(yin[idx] * 1 == yin[idx]);
            }
        }
        while cnt >= 4
            invariant
                self.inv(),
                self.ready_spec(),
                y == self.inv_roots(),
                m == MOD as int,
                vec.len() == n,
                yin.len() == n,
                blen >= 1,
                cnt >= 1,
                blen * cnt == n,
                blen == pow2(h),
                cnt == pow2(ce),
                n <= pow2(y.len()),
                forall|idx: int|
                    0 <= idx < n ==> cong(
                        (#[trigger] vec@[idx])@,
                        inv_raw(yin, y, blen as int, idx),
                        m,
                    ),
                blen > 1 ==> forall|idx: int|
                    0 <= idx < n ==> (#[trigger] vec@[idx])@ == inv_raw(yin, y, blen as int, idx)
                        % m,
            decreases cnt,
        {
            proof {
                lemma2_to64();
                assert(ce >= 2) by {
                    if ce == 0 {
                        assert(pow2(0) == 1);
                    } else if ce == 1 {
                        assert(pow2(1) == 2);
                    }
                }
                lemma_pow2_unfold(ce);
                lemma_pow2_unfold((ce - 1) as nat);
                lemma_pow2_unfold(h + 1);
                lemma_pow2_unfold(h + 2);
                assert(4 * blen * (cnt / 4) == n) by (nonlinear_arith)
                    requires
                        blen * cnt == n,
                        cnt == 4 * (cnt / 4),
                ;
                assert(4 * blen <= n) by (nonlinear_arith)
                    requires
                        blen * cnt == n,
                        cnt >= 4,
                        blen >= 1,
                ;
            }
            self.inv_radix4_pass(vec, blen, cnt / 4, Ghost(yin), Ghost(h));
            proof {
                h = h + 2;
                ce = (ce - 2) as nat;
                assert((4 * blen) * (cnt / 4) == n) by (nonlinear_arith)
                    requires
                        4 * blen * (cnt / 4) == n,
                ;
                assert forall|idx: int| 0 <= idx < n implies cong(
                    (#[trigger] vec@[idx])@,
                    inv_raw(yin, y, 4 * blen, idx),
                    m,
                ) by {
                    lemma_cong_mod(inv_raw(yin, y, 4 * blen, idx), m);
                }
            }
            blen = 4 * blen;
            cnt = cnt / 4;
        }
        if cnt == 2 {
            proof {
                assert(n == 2 * blen) by (nonlinear_arith)
                    requires
                        blen * cnt == n,
                        cnt == 2,
                ;
            }
            self.inv_radix2_pass(vec, Ghost(yin), Ghost(h));
        } else {
            proof {
                lemma2_to64();
                if ce >= 2 {
                    lemma_pow2_le(2, ce);
                }
                assert(cnt == 1);
                assert(blen == n) by (nonlinear_arith)
                    requires
                        blen * cnt == n,
                        cnt == 1,
                ;
            }
        }
        // every slot is now the full sum; scale by the inverse of the length
        let ninv = ModInt::<MOD>::new((MOD + 1) / 2).pow(k as u32);
        proof {
            lemma_small_mod(((MOD + 1) / 2) as nat, MOD as nat);
            lemma_cong_mod(pow(((MOD + 1) / 2) as int, k as nat), m);
        }
        let mut j: usize = 0;
        while j < n
            invariant
                self.inv(),
                y == self.inv_roots(),
                m == MOD as int,
                m > 0,
                vec.len() == n,
                yin.len() == n,
                j <= n,
                ninv.wf(),
                cong(ninv@, inv_len(k as nat, m), m),
                forall|idx: int|
                    j <= idx < n ==> (#[trigger] vec@[idx])@ == inv_raw(yin, y, n as int, idx) % m,
                forall|idx: int|
                    0 <= idx < j ==> (#[trigger] vec@[idx])@ == (inv_len(k as nat, m) * ieval(
                        yin,
                        y,
                        0,
                        n as nat,
                        idx as nat,
                    )) % m,
            decreases n - j,
        {
            let a = vec[j];
            let o = a.mul(ninv);
            let ghost before = vec@;
            vec.set(j, o);
            proof {
                let ji = j as int;
                let e = ieval(yin, y, 0, n as nat, j as nat);
                lemma_fundamental_div_mod_converse(ji, n as int, 0, ji);
                assert(0 * n == 0);
                assert(before[ji] == a);
                assert(a@ == inv_raw(yin, y, n as int, ji) % m);
                lemma_cong_mod(e, m);
                lemma_cong_mul(a@, e, ninv@, inv_len(k as nat, m), m);
                assert(e * inv_len(k as nat, m) == inv_len(k as nat, m) * e) by (nonlinear_arith);
                assert forall|idx: int| j + 1 <= idx < n implies (#[trigger] vec@[idx])@ == inv_raw(
                    yin,
                    y,
                    n as int,
                    idx,
                ) % m by {
                    assert(vec@[idx] == before[idx]);
                }
                assert forall|idx: int| 0 <= idx < j + 1 implies (#[trigger] vec@[idx])@ == (inv_len(
                    k as nat,
                    m,
                ) * ieval(yin, y, 0, n as nat, idx as nat)) % m by {
                    if idx < j {
                        assert(vec@[idx] == before[idx]);
                    }
                }
            }
            j = j + 1;
        }
        proof {
            assert(residues(vec@) =~= idft(yin, y, m, k as nat));
        }
    }
}

} // verus!

//! Convolution of residue vectors: schoolbook for short inputs, transforms
//! for long ones.

use super::bits::lemma_trailing_zeros_pow2;
use super::product::{at, conv_at, conv_len, conv_sum, lemma_convolution_theorem, pad, pointwise};
use super::Ntt;
use crate::arith::{cong, lemma_cong_add, lemma_cong_mod, lemma_cong_small};
use crate::audio_vec::owned::mod_int::{residues, ModInt};
use vstd::arithmetic::power2::*;
use vstd::prelude::*;

verus! {

/// Inputs at most this long on their shorter side are multiplied directly.
pub const SCHOOLBOOK_LIMIT: usize = 40;

/// The convolution of `a` and `b`, reduced modulo `m`.
pub open spec fn conv_mod(a: Seq<int>, b: Seq<int>, m: int) -> Seq<int> {
    Seq::new(conv_len(a.len(), b.len()), |t: int| conv_at(a, b, t) % m)
}

/// What the schoolbook loops have added to slot `t` when rows below `i` are
/// done and row `i` has reached column `j`.
pub open spec fn schoolbook_partial(a: Seq<int>, b: Seq<int>, t: int, i: nat, j: nat) -> int {
    conv_sum(a, b, t, i) + if i <= t < i + j {
        a[i as int] * b[t - i]
    } else {
        0
    }
}

/// The convolution of two non-empty vectors by the schoolbook method, in
/// `a.len() * b.len()` multiplications.
pub fn schoolbook<const MOD: u32>(a: &Vec<ModInt<MOD>>, b: &Vec<ModInt<MOD>>) -> (c: Vec<ModInt<MOD>>)
    requires
        a.len() >= 1,
        b.len() >= 1,
        a.len() + b.len() <= usize::MAX,
    ensures
        residues(c@) == conv_mod(residues(a@), residues(b@), MOD as int),
{
    let first = a[0];
    proof {
        use_type_invariant(&first);
        first.lemma_view();
    }
    let ghost ra = residues(a@);
    let ghost rb = residues(b@);
    let ghost m = MOD as int;
    let la = a.len();
    let lb = b.len();
    let len = la + lb - 1;
    let mut c: Vec<ModInt<MOD>> = Vec::new();
    let mut t: usize = 0;
    while t < len
        invariant
            t <= len,
            c.len() == t,
            crate::audio_vec::owned::mod_int::valid_modulus(MOD),
            forall|s: int| 0 <= s < t ==> (#[trigger] c@[s])@ == 0,
        decreases len - t,
    {
        c.push(ModInt::zero());
        t = t + 1;
    }
    let mut i: usize = 0;
    proof {
        assert forall|s: int| 0 <= s < len implies cong(
            (#[trigger] c@[s])@,
            schoolbook_partial(ra, rb, s, 0, 0),
            m,
        ) by {}
    }
    while i < la
        invariant
            i <= la,
            la == a.len(),
            lb == b.len(),
            lb >= 1,
            len == la + lb - 1,
            c.len() == len,
            ra == residues(a@),
            rb == residues(b@),
            m == MOD as int,
            m > 0,
            forall|s: int| 0 <= s < len ==> 0 <= (#[trigger] c@[s])@ < m,
            forall|s: int|
                0 <= s < len ==> cong(
                    (#[trigger] c@[s])@,
                    schoolbook_partial(ra, rb, s, i as nat, 0),
                    m,
                ),
        decreases la - i,
    {
        let x = a[i];
        let mut j: usize = 0;
        while j < lb
            invariant
                i < la,
                j <= lb,
                la == a.len(),
                lb == b.len(),
                len == la + lb - 1,
                c.len() == len,
                ra == residues(a@),
                rb == residues(b@),
                m == MOD as int,
                m > 0,
                x == a@[i as int],
                forall|s: int| 0 <= s < len ==> 0 <= (#[trigger] c@[s])@ < m,
                forall|s: int|
                    0 <= s < len ==> cong(
                        (#[trigger] c@[s])@,
                        schoolbook_partial(ra, rb, s, i as nat, j as nat),
                        m,
                    ),
            decreases lb - j,
        {
            let old_val = c[i + j];
            let new_val = old_val.add(x.mul(b[j]));
            let ghost before = c@;
            c.set(i + j, new_val);
            proof {
                let slot = (i + j) as int;
                new_val.lemma_view();
                assert(before[slot] == old_val);
                let p = schoolbook_partial(ra, rb, slot, i as nat, j as nat);
                assert(cong(old_val@, p, m));
                lemma_cong_mod(x@ * b@[j as int]@, m);
                lemma_cong_add(old_val@, p, (x@ * b@[j as int]@) % m, x@ * b@[j as int]@, m);
                lemma_cong_mod(old_val@ + (x@ * b@[j as int]@) % m, m);
                assert(ra[i as int] == x@ && rb[slot - i] == b@[j as int]@);
                assert forall|s: int| 0 <= s < len implies cong(
                    (#[trigger] c@[s])@,
                    schoolbook_partial(ra, rb, s, i as nat, (j + 1) as nat),
                    m,
                ) by {
                    if s != slot {
                        assert(c@[s] == before[s]);
                    }
                }
                assert forall|s: int| 0 <= s < len implies 0 <= (#[trigger] c@[s])@ < m by {
                    if s != slot {
                        assert(c@[s] == before[s]);
                    }
                }
            }
            j = j + 1;
        }
        proof {
            assert forall|s: int| 0 <= s < len implies cong(
                (#[trigger] c@[s])@,
                schoolbook_partial(ra, rb, s, (i + 1) as nat, 0),
                m,
            ) by {
                assert(cong(c@[s]@, schoolbook_partial(ra, rb, s, i as nat, lb as nat), m));
                assert(at(ra, (i + 1) - 1) == ra[i as int]);
                if i <= s < i + lb {
                    assert(at(rb, s - ((i + 1) - 1)) == rb[s - i]);
                } else {
                    assert(at(rb, s - ((i + 1) - 1)) == 0);
                    assert(ra[i as int] * 0 == 0);
                }
            }
        }
        i = i + 1;
    }
    proof {
        assert forall|s: int| 0 <= s < len implies residues(c@)[s] == conv_mod(ra, rb, m)[s] by {
            assert(cong(c@[s]@, schoolbook_partial(ra, rb, s, la as nat, 0), m));
            lemma_cong_small(c@[s]@, conv_at(ra, rb, s), m);
        }
        assert(residues(c@) =~= conv_mod(ra, rb, m));
    }
    c
}

/// A copy of `a` with zeros appended up to length `n`.
fn padded<const MOD: u32>(a: &Vec<ModInt<MOD>>, n: usize) -> (p: Vec<ModInt<MOD>>)
    requires
        1 <= a.len() <= n,
    ensures
        p.len() == n,
        residues(p@) == pad(residues(a@), n as nat),
{
    let first = a[0];
    proof {
        use_type_invariant(&first);
        first.lemma_view();
    }
    let mut p: Vec<ModInt<MOD>> = Vec::new();
    let mut i: usize = 0;
    while i < n
        invariant
            i <= n,
            p.len() == i,
            crate::audio_vec::owned::mod_int::valid_modulus(MOD),
            forall|s: int| 0 <= s < i ==> (#[trigger] p@[s])@ == at(residues(a@), s),
        decreases n - i,
    {
        if i < a.len() {
            p.push(a[i]);
        } else {
            p.push(ModInt::zero());
        }
        i = i + 1;
    }
    proof {
        assert(residues(p@) =~= pad(residues(a@), n as nat));
    }
    p
}

impl<const MOD: u32> Ntt<MOD> {
    /// The convolution of two residue vectors: empty if either is empty;
    /// by the schoolbook method if the shorter has at most
    /// `SCHOOLBOOK_LIMIT` entries, or if the tables cannot serve the length;
    /// else by transforming, multiplying slot by slot and transforming back.
    pub fn convolution(&self, a: &Vec<ModInt<MOD>>, b: &Vec<ModInt<MOD>>) -> (c: Vec<ModInt<MOD>>)
        requires
            a.len() + b.len() <= usize::MAX,
        ensures
            residues(c@) == conv_mod(residues(a@), residues(b@), MOD as int),
    {
        let ghost ra = residues(a@);
        let ghost rb = residues(b@);
        let ghost m = MOD as int;
        if a.len() == 0 || b.len() == 0 {
            let c: Vec<ModInt<MOD>> = Vec::new();
            proof {
                assert(residues(c@) =~= conv_mod(ra, rb, m));
            }
            return c;
        }
        let len = a.len() + b.len() - 1;
        let shorter = if a.len() < b.len() {
            a.len()
        } else {
            b.len()
        };
        if shorter <= SCHOOLBOOK_LIMIT || !self.ready() {
            return schoolbook(a, b);
        }
        // the least power of two that holds the product, if the tables reach it
        let level = Self::level();
        let mut n: usize = 1;
        let mut k: usize = 0;
        proof {
            lemma2_to64();
        }
        while n < len && k < level
            invariant
                n == pow2(k as nat),
                k <= level,
                level < 30,
                n <= 0x2000_0000,
            decreases level - k,
        {
            proof {
                lemma_pow2_unfold((k + 1) as nat);
                super::bits::lemma_pow2_le((k + 1) as nat, 29);
                lemma2_to64();
            }
            n = 2 * n;
            k = k + 1;
        }
        if n < len {
            return schoolbook(a, b);
        }
        let mut fa = padded(a, n);
        let mut fb = padded(b, n);
        proof {
            lemma_trailing_zeros_pow2(k as nat);
        }
        self.transform(&mut fa);
        self.transform(&mut fb);
        let ghost ta = residues(fa@);
        let ghost tb = residues(fb@);
        let mut s: usize = 0;
        while s < n
            invariant
                s <= n,
                fa.len() == n,
                fb.len() == n,
                ta.len() == n,
                tb == residues(fb@),
                m == MOD as int,
                forall|t: int| 0 <= t < s ==> (#[trigger] fa@[t])@ == (ta[t] * tb[t]) % m,
                forall|t: int| s <= t < n ==> (#[trigger] fa@[t])@ == ta[t],
            decreases n - s,
        {
            let prod = fa[s].mul(fb[s]);
            let ghost before = fa@;
            fa.set(s, prod);
            proof {
                assert forall|t: int| 0 <= t < s + 1 implies (#[trigger] fa@[t])@ == (ta[t] * tb[t])
                    % m by {
                    if t < s {
                        assert(fa@[t] == before[t]);
                    }
                }
                assert forall|t: int| s + 1 <= t < n implies (#[trigger] fa@[t])@ == ta[t] by {
                    assert(fa@[t] == before[t]);
                }
            }
            s = s + 1;
        }
        proof {
            assert(residues(fa@) =~= pointwise(ta, tb, m));
        }
        self.inverse_transform(&mut fa);
        proof {
            lemma_convolution_theorem(ra, rb, self.roots(), self.inv_roots(), m, k as nat);
        }
        let ghost full = fa@;
        fa.truncate(len);
        proof {
            assert(residues(full) == Seq::new(n as nat, |t: int| conv_at(ra, rb, t) % m));
            assert forall|t: int| 0 <= t < len implies residues(fa@)[t] == conv_mod(ra, rb, m)[t] by {
                assert(fa@[t] == full[t]);
                assert(residues(full)[t] == conv_at(ra, rb, t) % m);
            }
            assert(residues(fa@) =~= conv_mod(ra, rb, m));
        }
        fa
    }
}

} // verus!

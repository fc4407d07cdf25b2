//! Owned audio vectors: samples stored one after another from index zero.

pub mod mod_int;
pub mod ntt;
pub mod pixel;

use self::mod_int::{residues, ModInt924844033, ModInt998244353};
use self::ntt::convolve::conv_mod;
use self::ntt::product::{at, conv_at, conv_len, conv_sum};
use self::ntt::Ntt;
use self::pixel::{Pixel, M1, M1M2, M2};
use super::AudioVec;
use crate::arith::{cong, lemma_cong_add, lemma_cong_mod, lemma_cong_mul};
use vstd::arithmetic::div_mod::*;
use vstd::prelude::*;

verus! {

/// Calls `cast::usize` on an `isize`: the same number, or nothing where it
/// is negative.
#[verifier::external_body]
pub(crate) fn index_of(i: isize) -> (r: Option<usize>)
    ensures
        r == if i >= 0 {
            Some(i as usize)
        } else {
            None::<usize>
        },
{
    cast::usize(i).ok()
}

/// Calls `cast::isize` on a `usize`: the same number, or nothing where it
/// exceeds `isize::MAX`.
#[verifier::external_body]
pub(crate) fn offset_of(i: usize) -> (r: Option<isize>)
    ensures
        r == if i <= isize::MAX {
            Some(i as isize)
        } else {
            None::<isize>
        },
{
    cast::isize(i).ok()
}

/// The sum of the squares of the entries of `s`.
pub open spec fn sum_sq(s: Seq<int>) -> int
    decreases s.len(),
{
    if s.len() == 0 {
        0
    } else {
        sum_sq(s.drop_last()) + s.last() * s.last()
    }
}

/// The sum of squares of numbers is congruent to that of their residues:
/// the squared norm of folded samples is the squared norm of the samples,
/// modulo `m`.
pub proof fn lemma_sum_sq_folded(v: Seq<int>, m: int)
    requires
        m > 0,
    ensures
        cong(sum_sq(Seq::new(v.len(), |i: int| v[i] % m)), sum_sq(v), m),
    decreases v.len(),
{
    let f = Seq::new(v.len(), |i: int| v[i] % m);
    if v.len() > 0 {
        lemma_sum_sq_folded(v.drop_last(), m);
        assert(f.drop_last() =~= Seq::new(v.drop_last().len(), |i: int| v.drop_last()[i] % m));
        lemma_cong_mod(v.last(), m);
        lemma_cong_mul(f.last(), v.last(), f.last(), v.last(), m);
        lemma_cong_add(
            sum_sq(f.drop_last()),
            sum_sq(v.drop_last()),
            f.last() * f.last(),
            v.last() * v.last(),
            m,
        );
    }
}

/// The squared norm of folded 16-bit samples is the sum of the squares of
/// the samples, modulo `M1 * M2`.
pub proof fn lemma_squared_norm_of_pcm(pcm: Seq<i16>)
    ensures
        sum_sq(Seq::new(pcm.len(), |i: int| (pcm[i] as int) % (M1M2 as int))) % (M1M2 as int)
            == sum_sq(Seq::new(pcm.len(), |i: int| pcm[i] as int)) % (M1M2 as int),
{
    let v = Seq::new(pcm.len(), |i: int| pcm[i] as int);
    lemma_sum_sq_folded(v, M1M2 as int);
    assert(Seq::new(v.len(), |i: int| v[i] % (M1M2 as int)) =~= Seq::new(
        pcm.len(),
        |i: int| (pcm[i] as int) % (M1M2 as int),
    ));
}

/// Congruent inputs have congruent convolution sums.
pub proof fn lemma_conv_sum_cong(a: Seq<int>, b: Seq<int>, a2: Seq<int>, b2: Seq<int>, t: int, upto: nat, m: int)
    requires
        m > 0,
        a.len() == a2.len(),
        b.len() == b2.len(),
        forall|i: int| 0 <= i < a.len() ==> cong(#[trigger] a[i], a2[i], m),
        forall|i: int| 0 <= i < b.len() ==> cong(#[trigger] b[i], b2[i], m),
    ensures
        cong(conv_sum(a, b, t, upto), conv_sum(a2, b2, t, upto), m),
    decreases upto,
{
    if upto > 0 {
        lemma_conv_sum_cong(a, b, a2, b2, t, (upto - 1) as nat, m);
        let i = upto - 1;
        let x = at(a, i);
        let x2 = at(a2, i);
        let z = at(b, t - i);
        let z2 = at(b2, t - i);
        assert(cong(x, x2, m)) by {
            if 0 <= i < a.len() {
                assert(cong(a[i], a2[i], m));
            }
        }
        assert(cong(z, z2, m)) by {
            if 0 <= t - i < b.len() {
                assert(cong(b[t - i], b2[t - i], m));
            }
        }
        lemma_cong_mul(x, x2, z, z2, m);
        lemma_cong_add(
            conv_sum(a, b, t, (upto - 1) as nat),
            conv_sum(a2, b2, t, (upto - 1) as nat),
            x * z,
            x2 * z2,
            m,
        );
    }
}

/// The weight of the difference to the next sample in the pre-emphasis
/// filter.
pub const EMPHASIS: i64 = 40;

/// The bias that the pre-emphasis filter adds to every sample.
pub const EMPHASIS_BIAS: i64 = 32767;

/// Sample `i` of `x` after pre-emphasis: the sample, plus `EMPHASIS` times
/// the step to the next sample, plus the bias. After the last sample comes
/// zero.
pub open spec fn emphasized(x: Seq<i16>, i: int) -> int {
    let next: int = if i + 1 < x.len() {
        x[i + 1] as int
    } else {
        0
    };
    x[i] + EMPHASIS * (next - x[i]) + EMPHASIS_BIAS
}

/// Samples stored from index zero on.
#[derive(Debug, PartialEq, Eq, Hash)]
pub struct Owned {
    vec: Vec<Pixel>,
}

impl View for Owned {
    type V = Seq<int>;

    /// The samples, each as the integer modulo `M1 * M2` that it stands for.
    closed spec fn view(&self) -> Seq<int> {
        Seq::new(self.vec@.len(), |i: int| self.vec@[i]@)
    }
}

impl AudioVec for Owned {
    open spec fn sample(&self, index: int) -> Option<int> {
        if 0 <= index < self@.len() {
            Some(self@[index])
        } else {
            None
        }
    }

    fn get(&self, index: isize) -> (r: Option<Pixel>) {
        match index_of(index) {
            Some(i) => {
                if i < self.vec.len() {
                    let p = self.vec[i];
                    proof {
                        use_type_invariant(&p);
                    }
                    Some(p)
                } else {
                    None
                }
            },
            None => None,
        }
    }
}

impl Owned {
    /// The empty vector.
    pub fn new() -> (r: Self)
        ensures
            r@.len() == 0,
    {
        Self { vec: Vec::new() }
    }

    /// Whether there are no samples.
    pub fn is_empty(&self) -> (b: bool)
        ensures
            b == (self@.len() == 0),
    {
        self.vec.len() == 0
    }

    /// The number of samples.
    pub fn len(&self) -> (n: usize)
        ensures
            n == self@.len(),
    {
        self.vec.len()
    }

    /// The samples as pixels.
    pub closed spec fn pixels(&self) -> Seq<Pixel> {
        self.vec@
    }

    /// A copy of this vector.
    pub fn copy(&self) -> (r: Self)
        ensures
            r@ == self@,
            r.pixels() == self.pixels(),
    {
        let mut vec: Vec<Pixel> = Vec::new();
        let mut i: usize = 0;
        while i < self.vec.len()
            invariant
                i <= self.vec.len(),
                vec.len() == i,
                forall|k: int| 0 <= k < i ==> #[trigger] vec@[k] == self.vec@[k],
            decreases self.vec.len() - i,
        {
            vec.push(self.vec[i]);
            i = i + 1;
        }
        let r = Self { vec };
        proof {
            assert(r.vec@ =~= self.vec@);
            assert(r@ =~= self@);
        }
        r
    }

    /// The vector of the given pixels.
    pub fn from_pixels(pixels: Vec<Pixel>) -> (r: Self)
        ensures
            r.pixels() == pixels@,
            r@.len() == pixels@.len(),
            forall|i: int| 0 <= i < pixels@.len() ==> #[trigger] r@[i] == pixels@[i]@,
    {
        Self { vec: pixels }
    }

    /// The vector of signed 16-bit samples, negative ones folded by adding
    /// the modulus.
    pub fn from_pcm(pcm: &[i16]) -> (r: Self)
        ensures
            r@ == Seq::new(pcm@.len(), |i: int| (pcm@[i] as int) % (M1M2 as int)),
    {
        let mut vec: Vec<Pixel> = Vec::new();
        let mut i: usize = 0;
        while i < pcm.len()
            invariant
                i <= pcm.len(),
                vec.len() == i,
                forall|k: int|
                    0 <= k < i ==> (#[trigger] vec@[k])@ == (pcm@[k] as int) % (M1M2 as int),
            decreases pcm.len() - i,
        {
            vec.push(Pixel::from_signed(pcm[i] as i64));
            i = i + 1;
        }
        let r = Self { vec };
        proof {
            assert(r@ =~= Seq::new(pcm@.len(), |i: int| (pcm@[i] as int) % (M1M2 as int)));
        }
        r
    }

    /// The vector of signed 16-bit samples after the pre-emphasis filter.
    pub fn from_pcm_emphasized(pcm: &[i16]) -> (r: Self)
        ensures
            r@ == Seq::new(pcm@.len(), |i: int| emphasized(pcm@, i) % (M1M2 as int)),
    {
        let mut vec: Vec<Pixel> = Vec::new();
        let mut i: usize = 0;
        while i < pcm.len()
            invariant
                i <= pcm.len(),
                vec.len() == i,
                forall|k: int|
                    0 <= k < i ==> (#[trigger] vec@[k])@ == emphasized(pcm@, k) % (M1M2 as int),
            decreases pcm.len() - i,
        {
            let here = pcm[i] as i64;
            let next = if i + 1 < pcm.len() {
                pcm[i + 1] as i64
            } else {
                0
            };
            vec.push(Pixel::from_signed(here + EMPHASIS * (next - here) + EMPHASIS_BIAS));
            i = i + 1;
        }
        let r = Self { vec };
        proof {
            assert(r@ =~= Seq::new(pcm@.len(), |i: int| emphasized(pcm@, i) % (M1M2 as int)));
        }
        r
    }

    /// The vector of unsigned samples.
    pub fn from_raw_slice(slice: &[u32]) -> (r: Self)
        ensures
            r@ == Seq::new(slice@.len(), |i: int| slice@[i] as int),
    {
        let mut vec: Vec<Pixel> = Vec::new();
        let mut i: usize = 0;
        while i < slice.len()
            invariant
                i <= slice.len(),
                vec.len() == i,
                forall|k: int| 0 <= k < i ==> (#[trigger] vec@[k])@ == slice@[k] as int,
            decreases slice.len() - i,
        {
            proof {
                lemma_small_mod(slice@[i as int] as nat, M1M2 as nat);
            }
            vec.push(Pixel::from_unsigned(slice[i] as u64));
            i = i + 1;
        }
        let r = Self { vec };
        proof {
            assert(r@ =~= Seq::new(slice@.len(), |i: int| slice@[i] as int));
        }
        r
    }

    /// Cuts the vector to `n` samples, or pads it with zeros up to `n`.
    pub fn resize(&mut self, n: usize)
        ensures
            final(self)@ == Seq::new(n as nat, |i: int| at(old(self)@, i)),
    {
        let ghost before = self@;
        self.vec.truncate(n);
        while self.vec.len() < n
            invariant
                self.vec.len() <= n,
                before.len() <= self.vec.len() || self.vec.len() == n,
                forall|k: int| 0 <= k < self.vec.len() ==> (#[trigger] self.vec@[k])@ == at(before, k),
            decreases n - self.vec.len(),
        {
            let ghost prev = self.vec@;
            self.vec.push(Pixel::zero());
            proof {
                assert forall|k: int| 0 <= k < self.vec.len() implies (#[trigger] self.vec@[k])@
                    == at(before, k) by {
                    if k < prev.len() {
                        assert(self.vec@[k] == prev[k]);
                    }
                }
            }
        }
        proof {
            assert(self@ =~= Seq::new(n as nat, |i: int| at(before, i)));
        }
    }

    /// The square of each sample, modulo `M1 * M2`.
    pub fn squared(&self) -> (r: Vec<Pixel>)
        ensures
            r@.len() == self@.len(),
            forall|i: int|
                0 <= i < r@.len() ==> (#[trigger] r@[i])@ == (self@[i] * self@[i]) % (M1M2 as int)
                    && r@[i].wf(),
    {
        let mut r: Vec<Pixel> = Vec::new();
        let mut i: usize = 0;
        while i < self.vec.len()
            invariant
                i <= self.vec.len(),
                r.len() == i,
                forall|k: int|
                    0 <= k < i ==> (#[trigger] r@[k])@ == (self@[k] * self@[k]) % (M1M2 as int)
                        && r@[k].wf(),
            decreases self.vec.len() - i,
        {
            let p = self.vec[i];
            r.push(p.mul(p));
            i = i + 1;
        }
        r
    }

    /// The sum of the squares of the samples, modulo `M1 * M2`.
    pub fn squared_norm(&self) -> (norm: u64)
        ensures
            norm == sum_sq(self@) % (M1M2 as int),
    {
        let mut acc = Pixel::zero();
        let mut i: usize = 0;
        proof {
            assert(self@.subrange(0, 0) =~= Seq::<int>::empty());
            lemma_small_mod(0, M1M2 as nat);
        }
        while i < self.vec.len()
            invariant
                i <= self.vec.len(),
                acc.wf(),
                acc@ == sum_sq(self@.subrange(0, i as int)) % (M1M2 as int),
            decreases self.vec.len() - i,
        {
            let p = self.vec[i];
            let ghost a0 = acc@;
            acc = acc.add(p.mul(p));
            proof {
                let m = M1M2 as int;
                let head = self@.subrange(0, i + 1);
                assert(head.drop_last() =~= self@.subrange(0, i as int));
                assert(head.last() == p@);
                lemma_cong_mod(sum_sq(head.drop_last()), m);
                lemma_cong_mod(p@ * p@, m);
                lemma_cong_add(a0, sum_sq(head.drop_last()), (p@ * p@) % m, p@ * p@, m);
                lemma_cong_mod(a0 + (p@ * p@) % m, m);
            }
            i = i + 1;
        }
        proof {
            assert(self@.subrange(0, self@.len() as int) =~= self@);
        }
        acc.as_u64()
    }

    /// The convolution with `other` as integers modulo `M1 * M2`: once
    /// modulo each prime, then reconstructed. Coefficient `t` is the sum of
    /// `self[i] * other[j]` over `i + j == t`.
    pub fn convolution(&self, other: &Self, ntts: (&Ntt<924844033>, &Ntt<998244353>)) -> (out: Vec<u64>)
        requires
            self@.len() + other@.len() <= usize::MAX,
        ensures
            out@.len() == conv_len(self@.len(), other@.len()),
            forall|t: int|
                0 <= t < out@.len() ==> #[trigger] out@[t] == conv_at(self@, other@, t) % (
                M1M2 as int),
    {
        let (a1, a2) = self.split();
        let (b1, b2) = other.split();
        let c1 = ntts.0.convolution(&a1, &b1);
        let c2 = ntts.1.convolution(&a2, &b2);
        let ghost len = conv_len(self@.len(), other@.len());
        proof {
            assert(residues(c1@).len() == len);
            assert(residues(c2@).len() == len);
        }
        let mut out: Vec<u64> = Vec::new();
        let mut t: usize = 0;
        while t < c1.len()
            invariant
                t <= c1.len(),
                c1.len() == len,
                c2.len() == len,
                len == conv_len(self@.len(), other@.len()),
                a1.len() == self@.len(),
                a2.len() == self@.len(),
                b1.len() == other@.len(),
                b2.len() == other@.len(),
                out.len() == t,
                residues(c1@) == conv_mod(residues(a1@), residues(b1@), M1 as int),
                residues(c2@) == conv_mod(residues(a2@), residues(b2@), M2 as int),
                residues(a1@) == Seq::new(self@.len(), |i: int| self@[i] % (M1 as int)),
                residues(a2@) == Seq::new(self@.len(), |i: int| self@[i] % (M2 as int)),
                residues(b1@) == Seq::new(other@.len(), |i: int| other@[i] % (M1 as int)),
                residues(b2@) == Seq::new(other@.len(), |i: int| other@[i] % (M2 as int)),
                forall|s: int|
                    0 <= s < t ==> #[trigger] out@[s] == conv_at(self@, other@, s) % (M1M2 as int),
            decreases c1.len() - t,
        {
            let px = Pixel::from_inner((c1[t], c2[t]));
            let value = px.as_u64();
            proof {
                let ti = t as int;
                let x = conv_at(self@, other@, ti);
                assert(residues(c1@)[ti] == conv_mod(residues(a1@), residues(b1@), M1 as int)[ti]);
                assert(residues(c2@)[ti] == conv_mod(residues(a2@), residues(b2@), M2 as int)[ti]);
                assert(residues(c1@)[ti] == conv_at(residues(a1@), residues(b1@), ti) % (M1 as int));
                assert(residues(c2@)[ti] == conv_at(residues(a2@), residues(b2@), ti) % (M2 as int));
                assert forall|i: int| 0 <= i < self@.len() implies cong(
                    #[trigger] residues(a1@)[i],
                    self@[i],
                    M1 as int,
                ) && cong(residues(a2@)[i], self@[i], M2 as int) by {
                    lemma_cong_mod(self@[i], M1 as int);
                    lemma_cong_mod(self@[i], M2 as int);
                }
                assert forall|i: int| 0 <= i < other@.len() implies cong(
                    #[trigger] residues(b1@)[i],
                    other@[i],
                    M1 as int,
                ) && cong(residues(b2@)[i], other@[i], M2 as int) by {
                    lemma_cong_mod(other@[i], M1 as int);
                    lemma_cong_mod(other@[i], M2 as int);
                }
                lemma_conv_sum_cong(residues(a1@), residues(b1@), self@, other@, ti, self@.len(), M1 as int);
                lemma_conv_sum_cong(residues(a2@), residues(b2@), self@, other@, ti, self@.len(), M2 as int);
                px.lemma_residues_of_inner((c1@[ti], c2@[ti]));
                px.lemma_from_residues(x);
            }
            let ghost before = out@;
            out.push(value);
            proof {
                assert forall|s: int| 0 <= s < t + 1 implies #[trigger] out@[s] == conv_at(
                    self@,
                    other@,
                    s,
                ) % (M1M2 as int) by {
                    if s < t {
                        assert(out@[s] == before[s]);
                    }
                }
            }
            t = t + 1;
        }
        out
    }

    /// The residues of the samples modulo each prime.
    fn split(&self) -> (r: (Vec<ModInt924844033>, Vec<ModInt998244353>))
        ensures
            r.0.len() == self@.len(),
            r.1.len() == self@.len(),
            residues(r.0@) == Seq::new(self@.len(), |i: int| self@[i] % (M1 as int)),
            residues(r.1@) == Seq::new(self@.len(), |i: int| self@[i] % (M2 as int)),
    {
        let mut left: Vec<ModInt924844033> = Vec::new();
        let mut right: Vec<ModInt998244353> = Vec::new();
        let mut i: usize = 0;
        while i < self.vec.len()
            invariant
                i <= self.vec.len(),
                left.len() == i,
                right.len() == i,
                forall|k: int| 0 <= k < i ==> (#[trigger] left@[k])@ == self@[k] % (M1 as int),
                forall|k: int| 0 <= k < i ==> (#[trigger] right@[k])@ == self@[k] % (M2 as int),
            decreases self.vec.len() - i,
        {
            let p = self.vec[i];
            let (x, y) = p.into_inner();
            proof {
                p.lemma_view();
            }
            left.push(x);
            right.push(y);
            i = i + 1;
        }
        proof {
            assert(residues(left@) =~= Seq::new(self@.len(), |i: int| self@[i] % (M1 as int)));
            assert(residues(right@) =~= Seq::new(self@.len(), |i: int| self@[i] % (M2 as int)));
        }
        (left, right)
    }
}

} // verus!

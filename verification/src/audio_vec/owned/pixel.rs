//! Samples as residue pairs modulo two coprime primes, read back as one
//! integer modulo their product.

use super::mod_int::{clamp_int, signed_residue, ModInt, ModInt924844033, ModInt998244353};
use crate::arith::{
    cong, lemma_cong_add_multiple, lemma_cong_mod, lemma_cong_mul, lemma_small_multiple_is_zero,
    rem_euclid,
};
use vstd::arithmetic::div_mod::*;
use vstd::prelude::*;

verus! {

/// The first modulus.
pub const M1: u32 = 924844033;

/// The second modulus.
pub const M2: u32 = 998244353;

/// The product of the two moduli.
pub const M1M2: u64 = 923220333347995649;

/// The inverse of `M1` modulo `M2`.
pub const M1_INV_MOD_M2: u32 = 798595496;

/// The cap that clipping sets on each residue: the greatest unsigned 16-bit
/// number.
pub const CLIP_CAP: u32 = 65535;

/// The residue `r`, capped.
pub open spec fn capped(r: int) -> int {
    if r > CLIP_CAP {
        CLIP_CAP as int
    } else {
        r
    }
}

/// The sample `x` clipped: the integer whose residues are those of `x`,
/// each capped.
pub open spec fn clip_value(x: int) -> int {
    crt(capped(x % (M1 as int)), capped(x % (M2 as int)))
}

/// The integer below `M1 * M2` whose residues are `r1` and `r2`.
pub open spec fn crt(r1: int, r2: int) -> int {
    r1 + M1 * (((r2 - r1) * M1_INV_MOD_M2) % (M2 as int))
}

/// `M1 * M1_INV_MOD_M2 - M2 * 739875239 == 1`: the moduli are coprime.
pub proof fn lemma_bezout()
    ensures
        M1 * M1_INV_MOD_M2 - M2 * 739875239 == 1,
        (M1 * M1_INV_MOD_M2) % (M2 as int) == 1,
        M1 * M2 == M1M2,
{
    assert(M1 * M1_INV_MOD_M2 == 1 + 739875239 * M2) by (nonlinear_arith)
        requires
            M1 == 924844033,
            M2 == 998244353,
            M1_INV_MOD_M2 == 798595496,
    ;
    lemma_cong_add_multiple(1, 739875239, M2 as int);
    lemma_small_mod(1, M2 as nat);
}

/// `crt` lands below the product and has the residues it was given.
pub proof fn lemma_crt_residues(r1: int, r2: int)
    requires
        0 <= r1 < M1,
        0 <= r2 < M2,
    ensures
        0 <= crt(r1, r2) < M1M2,
        crt(r1, r2) % (M1 as int) == r1,
        crt(r1, r2) % (M2 as int) == r2,
{
    let m1 = M1 as int;
    let m2 = M2 as int;
    let u = M1_INV_MOD_M2 as int;
    let t = ((r2 - r1) * u) % m2;
    lemma_bezout();
    lemma_mod_bound((r2 - r1) * u, m2);
    assert(0 <= r1 + m1 * t < M1M2) by (nonlinear_arith)
        requires
            0 <= r1 < m1,
            0 <= t <= m2 - 1,
            m1 * m2 == M1M2,
            m1 > 0,
    ;
    assert(crt(r1, r2) % m1 == r1) by {
        assert(m1 * t == t * m1) by (nonlinear_arith);
        lemma_cong_add_multiple(r1, t, m1);
        lemma_small_mod(r1 as nat, m1 as nat);
    }
    assert(crt(r1, r2) % m2 == r2) by {
        // m1 * t == m1 * u * (r2 - r1) == r2 - r1  (mod m2)
        lemma_cong_mod((r2 - r1) * u, m2);
        lemma_cong_mul(m1, m1, t, (r2 - r1) * u, m2);
        assert(m1 * ((r2 - r1) * u) == (m1 * u) * (r2 - r1)) by (nonlinear_arith);
        lemma_small_mod(1, m2 as nat);
        lemma_cong_mul(m1 * u, 1, r2 - r1, r2 - r1, m2);
        assert(1 * (r2 - r1) == r2 - r1);
        assert(cong(m1 * t, r2 - r1, m2));
        lemma_add_mod_noop_right(r1, m1 * t, m2);
        lemma_add_mod_noop_right(r1, r2 - r1, m2);
        lemma_small_mod(r2 as nat, m2 as nat);
    }
}

/// Two integers below the product with the same residues are equal.
pub proof fn lemma_crt_unique(x: int, y: int)
    requires
        0 <= x < M1M2,
        0 <= y < M1M2,
        x % (M1 as int) == y % (M1 as int),
        x % (M2 as int) == y % (M2 as int),
    ensures
        x == y,
{
    let m1 = M1 as int;
    let m2 = M2 as int;
    let u = M1_INV_MOD_M2 as int;
    let d = x - y;
    lemma_bezout();
    lemma_mod_equivalence(x, y, m1);
    lemma_mod_equivalence(x, y, m2);
    let k = d / m1;
    lemma_fundamental_div_mod(d, m1);
    assert(d == m1 * k);
    // k == k * (m1 * u - m2 * v) == d * u - m2 * (k * v), a multiple of m2
    assert(k == d * u + (-(k * 739875239)) * m2) by (nonlinear_arith)
        requires
            d == m1 * k,
            m1 * u - m2 * 739875239 == 1,
    ;
    assert(k % m2 == 0) by {
        lemma_cong_add_multiple(d * u, -(k * 739875239), m2);
        lemma_mul_mod_noop_left(d, u, m2);
        assert(0 * u == 0);
        lemma_small_mod(0, m2 as nat);
    }
    assert(-m2 < k < m2) by (nonlinear_arith)
        requires
            d == m1 * k,
            -(m1 * m2) < d < m1 * m2,
            m1 > 0,
            m2 > 0,
    ;
    lemma_small_multiple_is_zero(k, m2);
}

/// Reconstruction undoes taking residues: Garner's statement.
pub proof fn lemma_crt_of_residues(x: int)
    requires
        0 <= x < M1M2,
    ensures
        crt(x % (M1 as int), x % (M2 as int)) == x,
{
    lemma_mod_bound(x, M1 as int);
    lemma_mod_bound(x, M2 as int);
    lemma_crt_residues(x % (M1 as int), x % (M2 as int));
    lemma_crt_unique(crt(x % (M1 as int), x % (M2 as int)), x);
}

/// A clipped sample has no residue above the cap, and clipping it again
/// changes nothing.
pub proof fn lemma_clip_idempotent(x: int)
    ensures
        0 <= clip_value(x) < M1M2,
        clip_value(x) % (M1 as int) <= CLIP_CAP,
        clip_value(x) % (M2 as int) <= CLIP_CAP,
        clip_value(clip_value(x)) == clip_value(x),
{
    lemma_mod_bound(x, M1 as int);
    lemma_mod_bound(x, M2 as int);
    lemma_crt_residues(capped(x % (M1 as int)), capped(x % (M2 as int)));
}

/// Calls `num::Integer::extended_gcd_lcm` on two `i64`. For positive inputs
/// below 2^30 it returns a positive common divisor `g` of both with Bezout
/// coefficients, `g == a * x + b * y`, and `lcm` with `lcm * g == a * b`.
#[verifier::external_body]
fn extended_gcd_lcm(a: i64, b: i64) -> (r: (i64, i64, i64, i64))
    requires
        0 < a < 0x4000_0000,
        0 < b < 0x4000_0000,
    ensures
        r.0 > 0,
        r.0 == a * r.1 + b * r.2,
        (a as int) % (r.0 as int) == 0,
        (b as int) % (r.0 as int) == 0,
        r.3 * r.0 == a * b,
{
    let (e, lcm) = num::Integer::extended_gcd_lcm(&a, &b);
    (e.gcd, e.x, e.y, lcm)
}

/// A common divisor of the two moduli is one.
proof fn lemma_common_divisor(g: int)
    requires
        g > 0,
        (M1 as int) % g == 0,
        (M2 as int) % g == 0,
    ensures
        g == 1,
{
    lemma_bezout();
    let a = M1 as int;
    let b = M2 as int;
    lemma_mul_mod_noop_left(a, M1_INV_MOD_M2 as int, g);
    lemma_mul_mod_noop_left(b, 739875239, g);
    assert(0 * (M1_INV_MOD_M2 as int) == 0);
    assert(0 * 739875239 == 0);
    lemma_small_mod(0, g as nat);
    lemma_sub_mod_noop(a * M1_INV_MOD_M2, b * 739875239, g);
    assert(1int % g == 0);
    if g > 1 {
        lemma_small_mod(1, g as nat);
    }
}

/// Garner's reconstruction of the integer below `M1 * M2` from its two
/// residues.
pub fn garner(m1: ModInt924844033, m2: ModInt998244353) -> (x: u64)
    ensures
        x == crt(m1@, m2@),
        x < M1M2,
{
    let r1 = m1.as_u32() as i64;
    let r2 = m2.as_u32() as i64;
    let n1 = M1 as i64;
    let n2 = M2 as i64;
    let (gcd, x, y, lcm) = extended_gcd_lcm(n1, n2);
    proof {
        lemma_common_divisor(gcd as int);
        lemma_bezout();
        assert(lcm == M1M2) by (nonlinear_arith)
            requires
                lcm * gcd == n1 * n2,
                gcd == 1,
                n1 * n2 == M1M2,
        ;
    }
    let diff = rem_euclid(r2 - r1, n2);
    let coeff = rem_euclid(x, n2);
    proof {
        assert(diff * coeff < 0x4000_0000 * 0x4000_0000) by (nonlinear_arith)
            requires
                0 <= diff < 0x4000_0000,
                0 <= coeff < 0x4000_0000,
        ;
    }
    let tmp = diff / gcd * coeff % (n2 / gcd);
    proof {
        let u = M1_INV_MOD_M2 as int;
        let m = n2 as int;
        // x inverts M1 modulo M2, as u does; so x == u (mod M2)
        assert(cong(n1 * x, 1, m)) by {
            assert(n1 * x == 1 + (-y) * n2) by (nonlinear_arith)
                requires
                    1 == n1 * x + n2 * y,
            ;
            lemma_cong_add_multiple(1, -(y as int), m);
        }
        assert(cong(x as int, u, m)) by {
            lemma_small_mod(1, m as nat);
            lemma_cong_mul(n1 * x, 1, u, u, m);
            lemma_cong_mul(x as int, x as int, n1 * u, 1, m);
            assert(n1 * x * u == x * (n1 * u)) by (nonlinear_arith);
            assert(x * 1 == x);
            assert(1 * u == u);
        }
        assert(cong(coeff as int, u, m)) by {
            lemma_cong_mod(x as int, m);
        }
        assert(cong(diff as int, r2 - r1, m)) by {
            lemma_cong_mod(r2 - r1, m);
        }
        lemma_cong_mul(diff as int, r2 - r1, coeff as int, u, m);
        assert(tmp == ((r2 - r1) * u) % m);
        lemma_crt_residues(r1 as int, r2 as int);
        assert(n1 * tmp <= n1 * (n2 - 1)) by (nonlinear_arith)
            requires
                0 <= tmp <= n2 - 1,
                n1 > 0,
        ;
    }
    let v = r1 + n1 * tmp;
    proof {
        lemma_small_mod(v as nat, lcm as nat);
    }
    rem_euclid(v, lcm) as u64
}

/// One sample: an integer modulo `M1 * M2`, held as its two residues.
#[derive(Debug, Clone, Copy, PartialEq, Eq, Hash)]
pub struct Pixel(ModInt924844033, ModInt998244353);

impl View for Pixel {
    type V = int;

    /// The integer in `[0, M1 * M2)` that the two residues determine.
    closed spec fn view(&self) -> int {
        crt(self.0@, self.1@)
    }
}

impl Pixel {
    /// Both components are well-formed residues.
    #[verifier::type_invariant]
    pub closed spec fn wf(self) -> bool {
        self.0.wf() && self.1.wf()
    }

    /// The residue modulo `M1`.
    pub closed spec fn residue1(self) -> int {
        self.0@
    }

    /// The residue modulo `M2`.
    pub closed spec fn residue2(self) -> int {
        self.1@
    }

    /// The view lies below the product and reduces to the two residues.
    pub proof fn lemma_view(self)
        requires
            self.wf(),
        ensures
            0 <= self@ < M1M2,
            self.residue1() == self@ % (M1 as int),
            self.residue2() == self@ % (M2 as int),
    {
        self.0.lemma_view();
        self.1.lemma_view();
        lemma_crt_residues(self.0@, self.1@);
    }

    /// The residues of a pixel made of two residues are those two.
    pub proof fn lemma_residues_of_inner(self, tuple: (ModInt924844033, ModInt998244353))
        requires
            self == Pixel::from_inner_spec(tuple),
        ensures
            self.residue1() == tuple.0@,
            self.residue2() == tuple.1@,
    {
    }

    /// Two well-formed pixels with the same view are the same pixel.
    pub proof fn lemma_view_injective(self, other: Self)
        requires
            self.wf(),
            other.wf(),
            self@ == other@,
        ensures
            self == other,
    {
        self.lemma_view();
        other.lemma_view();
        self.0.lemma_view_injective(other.0);
        self.1.lemma_view_injective(other.1);
    }

    /// A pixel whose residues are those of `x` has the view `x mod M1 * M2`.
    pub proof fn lemma_from_residues(self, x: int)
        requires
            self.wf(),
            self.residue1() == x % (M1 as int),
            self.residue2() == x % (M2 as int),
        ensures
            self@ == x % (M1M2 as int),
    {
        let n = M1M2 as int;
        let xr = x % n;
        lemma_bezout();
        lemma_mod_bound(x, n);
        // xr has the same residues as x
        lemma_mod_mod(x, M1 as int, M2 as int);
        assert((M1 as int) * (M2 as int) == n);
        assert(xr % (M1 as int) == x % (M1 as int));
        assert(xr % (M2 as int) == x % (M2 as int)) by {
            assert((M2 as int) * (M1 as int) == n) by (nonlinear_arith)
                requires
                    (M1 as int) * (M2 as int) == n,
            ;
            lemma_mod_mod(x, M2 as int, M1 as int);
        }
        lemma_crt_of_residues(xr);
    }

    /// The sample with the value of a signed integer, negative values folded
    /// by adding the modulus.
    pub fn from_signed(value: i64) -> (r: Self)
        ensures
            r.wf(),
            r@ == (value as int) % (M1M2 as int),
    {
        let r = Self(ModInt::from_signed(value), ModInt::from_signed(value));
        proof {
            r.lemma_from_residues(value as int);
        }
        r
    }

    /// The sample with the value of an unsigned integer.
    pub fn from_unsigned(value: u64) -> (r: Self)
        ensures
            r.wf(),
            r@ == (value as int) % (M1M2 as int),
    {
        let a = (value % (M1 as u64)) as u32;
        let b = (value % (M2 as u64)) as u32;
        let r = Self(ModInt::new(a), ModInt::new(b));
        proof {
            lemma_mod_twice(value as int, M1 as int);
            lemma_mod_twice(value as int, M2 as int);
            r.lemma_from_residues(value as int);
        }
        r
    }

    /// The zero sample.
    pub fn zero() -> (r: Self)
        ensures
            r.wf(),
            r@ == 0,
    {
        let r = Self(ModInt::zero(), ModInt::zero());
        proof {
            lemma_small_mod(0, M1 as nat);
            lemma_small_mod(0, M2 as nat);
            lemma_small_mod(0, M1M2 as nat);
            r.lemma_from_residues(0);
        }
        r
    }

    /// The integer in `[0, M1 * M2)` that the sample stands for.
    pub fn as_u64(self) -> (x: u64)
        ensures
            x == self@,
            x < M1M2,
    {
        garner(self.0, self.1)
    }

    /// The two residues.
    pub fn into_inner(self) -> (r: (ModInt924844033, ModInt998244353))
        ensures
            r.0@ == self.residue1(),
            r.1@ == self.residue2(),
            r.0.wf(),
            r.1.wf(),
            self.wf(),
            Pixel::from_inner_spec(r) == self,
    {
        proof {
            use_type_invariant(&self.0);
            use_type_invariant(&self.1);
        }
        (self.0, self.1)
    }

    /// Each residue read as a signed number and brought into `[min, max]`:
    /// the cheap stand-in for `clamp_exact`, which reconstructs the sample
    /// first.
    pub fn clamp(self, min: i64, max: i64) -> (r: Self)
        requires
            min <= max,
        ensures
            r.wf(),
            r.residue1() == clamp_int(
                signed_residue(self.residue1(), M1 as int),
                min as int,
                max as int,
            ) % (M1 as int),
            r.residue2() == clamp_int(
                signed_residue(self.residue2(), M2 as int),
                min as int,
                max as int,
            ) % (M2 as int),
    {
        Self(self.0.clamp(min, max), self.1.clamp(min, max))
    }

    /// The sample read as a signed number, by reconstruction, and brought
    /// into `[min, max]`.
    pub fn clamp_exact(self, min: i64, max: i64) -> (r: Self)
        requires
            min <= max,
        ensures
            r.wf(),
            r@ == clamp_int(signed_residue(self@, M1M2 as int), min as int, max as int) % (
            M1M2 as int),
    {
        let x = self.as_u64();
        let signed: i64 = if x <= M1M2 / 2 {
            x as i64
        } else {
            x as i64 - M1M2 as i64
        };
        let clamped = if signed < min {
            min
        } else if signed > max {
            max
        } else {
            signed
        };
        Self::from_signed(clamped)
    }

    /// Each residue capped at `u16::MAX` by the order of the least
    /// non-negative residues.
    pub fn clip(self) -> (r: Self)
        ensures
            r.wf(),
            r.residue1() == capped(self.residue1()),
            r.residue2() == capped(self.residue2()),
            r@ == clip_value(self@),
    {
        proof {
            use_type_invariant(&self);
            self.lemma_view();
            lemma_small_mod(65535, M1 as nat);
            lemma_small_mod(65535, M2 as nat);
        }
        Self(self.0.clip(), self.1.clip())
    }

    /// The pixel made of two residues.
    pub closed spec fn from_inner_spec(tuple: (ModInt924844033, ModInt998244353)) -> Pixel {
        Pixel(tuple.0, tuple.1)
    }

    /// The sample with the given residues.
    pub fn from_inner(tuple: (ModInt924844033, ModInt998244353)) -> (r: Self)
        ensures
            r == Pixel::from_inner_spec(tuple),
            r.wf(),
            r@ == crt(tuple.0@, tuple.1@),
    {
        proof {
            use_type_invariant(&tuple.0);
            use_type_invariant(&tuple.1);
        }
        Self(tuple.0, tuple.1)
    }

    /// Sum modulo `M1 * M2`.
    pub fn add(self, rhs: Self) -> (r: Self)
        ensures
            r.wf(),
            r@ == (self@ + rhs@) % (M1M2 as int),
    {
        let r = Self(self.0.add(rhs.0), self.1.add(rhs.1));
        proof {
            use_type_invariant(&self.0);
            use_type_invariant(&self.1);
            use_type_invariant(&rhs.0);
            use_type_invariant(&rhs.1);
            self.lemma_view();
            rhs.lemma_view();
            lemma_add_mod_noop(self@, rhs@, M1 as int);
            lemma_add_mod_noop(self@, rhs@, M2 as int);
            r.lemma_from_residues(self@ + rhs@);
        }
        r
    }

    /// Difference modulo `M1 * M2`.
    pub fn sub(self, rhs: Self) -> (r: Self)
        ensures
            r.wf(),
            r@ == (self@ - rhs@) % (M1M2 as int),
    {
        let r = Self(self.0.sub(rhs.0), self.1.sub(rhs.1));
        proof {
            use_type_invariant(&self.0);
            use_type_invariant(&self.1);
            use_type_invariant(&rhs.0);
            use_type_invariant(&rhs.1);
            self.lemma_view();
            rhs.lemma_view();
            lemma_sub_mod_noop(self@, rhs@, M1 as int);
            lemma_sub_mod_noop(self@, rhs@, M2 as int);
            r.lemma_from_residues(self@ - rhs@);
        }
        r
    }

    /// Product modulo `M1 * M2`.
    pub fn mul(self, rhs: Self) -> (r: Self)
        ensures
            r.wf(),
            r@ == (self@ * rhs@) % (M1M2 as int),
    {
        let r = Self(self.0.mul(rhs.0), self.1.mul(rhs.1));
        proof {
            use_type_invariant(&self.0);
            use_type_invariant(&self.1);
            use_type_invariant(&rhs.0);
            use_type_invariant(&rhs.1);
            self.lemma_view();
            rhs.lemma_view();
            lemma_mul_mod_noop(self@, rhs@, M1 as int);
            lemma_mul_mod_noop(self@, rhs@, M2 as int);
            r.lemma_from_residues(self@ * rhs@);
        }
        r
    }
}

} // verus!

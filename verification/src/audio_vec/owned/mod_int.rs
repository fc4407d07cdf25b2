//! Residues of an odd modulus below 2^30, kept in Montgomery form.

use crate::arith::{
    cong, is_prime, lemma_cong_add_multiple, lemma_cong_mod, lemma_cong_mul, lemma_cong_pow,
    lemma_cong_small, lemma_pow_even, lemma_pow_odd, rem_euclid,
};
use crate::fermat::lemma_fermat_inverse;
use vstd::arithmetic::div_mod::*;
use vstd::arithmetic::mul::*;
use vstd::arithmetic::power::*;
use vstd::arithmetic::power2::*;
use vstd::prelude::*;

verus! {

/// The Montgomery radix, 2^32.
pub const R: u64 = 0x1_0000_0000;

/// The moduli this arithmetic is defined for: odd, at least 3, below 2^30.
pub open spec fn valid_modulus(m: u32) -> bool {
    m % 2 == 1 && 3 <= m < 0x4000_0000
}

/// The inverse of the radix modulo an odd `m`, written as the 32nd power of
/// the inverse of two.
pub open spec fn r_inv(m: int) -> int {
    pow((m + 1) / 2, 32) % m
}

/// What Montgomery reduction makes of `x`: `x / R` in the residue ring.
pub open spec fn mont_reduce(x: int, m: int) -> int {
    (x * r_inv(m)) % m
}

/// `r_inv(m)` is a residue and inverts the radix.
pub proof fn lemma_r_inv(m: int)
    requires
        m > 1,
        m % 2 == 1,
    ensures
        0 <= r_inv(m) < m,
        (R * r_inv(m)) % m == 1,
{
    let h = (m + 1) / 2;
    assert(2 * h == m + 1);
    lemma2_to64();
    lemma_pow2(32);
    assert(pow(2, 32) == R as int);
    lemma_pow_distributes(2, h, 32);
    assert(pow(2 * h, 32) == R * pow(h, 32));
    lemma_pow_mod_noop(2 * h, 32, m);
    assert((2 * h) % m == 1) by {
        lemma_mod_multiples_vanish(1, 1, m);
        lemma_small_mod(1, m as nat);
    }
    lemma1_pow(32);
    lemma_small_mod(1, m as nat);
    assert((R * pow(h, 32)) % m == 1);
    lemma_mul_mod_noop_right(R as int, pow(h, 32), m);
    lemma_mod_bound(pow(h, 32), m);
}

/// One Montgomery step: with `m * np == -1 (mod R)`, the sum `x + q * m` is a
/// multiple of the radix and its quotient stands for `x / R`.
pub proof fn lemma_mont_step(x: int, m: int, np: int, q: int, t: int)
    requires
        m > 1,
        m % 2 == 1,
        0 <= x,
        (m * np + 1) % (R as int) == 0,
        q == ((x % (R as int)) * np) % (R as int),
        t == (x + q * m) / (R as int),
    ensures
        t * R == x + q * m,
        cong(t, x * r_inv(m), m),
{
    let r = R as int;
    // q * m == x * np * m (mod R)
    assert(cong(q, x * np, r)) by {
        lemma_mul_mod_noop_left(x, np, r);
        lemma_mod_twice((x % r) * np, r);
    }
    assert(cong(q * m, x * np * m, r)) by {
        lemma_cong_mul(q, x * np, m, m, r);
    }
    assert(x + x * np * m == x * (m * np + 1)) by (nonlinear_arith);
    assert((x * (m * np + 1)) % r == 0) by {
        lemma_mul_mod_noop_right(x, m * np + 1, r);
        assert(x * 0 == 0);
    }
    assert((x + q * m) % r == 0) by {
        lemma_add_mod_noop_right(x, q * m, r);
        lemma_add_mod_noop_right(x, x * np * m, r);
    }
    lemma_fundamental_div_mod(x + q * m, r);
    assert(t * R == x + q * m) by {
        assert(r * t == t * r) by (nonlinear_arith);
    }
    // t * R == x (mod m), hence t == x * r_inv (mod m)
    lemma_r_inv(m);
    let ri = r_inv(m);
    assert(cong(t * r, x, m)) by {
        lemma_cong_add_multiple(x, q, m);
    }
    assert(cong(t * r * ri, x * ri, m)) by {
        lemma_cong_mul(t * r, x, ri, ri, m);
    }
    assert(cong(t * (r * ri), t, m)) by {
        lemma_small_mod(1, m as nat);
        lemma_cong_mul(t, t, r * ri, 1, m);
        assert(t * 1 == t);
    }
    assert(t * r * ri == t * (r * ri)) by (nonlinear_arith);
}

/// The `u32` that, multiplied by an odd `modulo`, gives `-1` modulo the radix.
pub fn find_neg_inv(modulo: u32) -> (inv: u32)
    requires
        modulo % 2 == 1,
    ensures
        (modulo * inv + 1) % (R as int) == 0,
{
    let mut inv_mod: u64 = 0;
    let mut t: u64 = 0;
    let mut i: u64 = 1;
    let mut bits: u32 = 0;
    proof {
        lemma2_to64();
    }
    while bits < 32
        invariant
            modulo % 2 == 1,
            bits <= 32,
            i == pow2(bits as nat),
            1 <= i <= R,
            inv_mod < i,
            t < modulo || t == 0,
            inv_mod * modulo + 1 == (t + 1) * i,
        decreases 32 - bits,
    {
        proof {
            lemma_pow2_unfold((bits + 1) as nat);
            lemma2_to64();
            assert(i <= 0x8000_0000) by {
                if bits < 31 {
                    lemma_pow2_strictly_increases(bits as nat, 31);
                }
            }
        }
        let ghost t0 = t;
        let ghost inv0 = inv_mod;
        if t % 2 == 0 {
            t = t + modulo as u64;
            inv_mod = inv_mod + i;
        }
        t = t / 2;
        proof {
            assert(inv_mod * modulo + 1 == (t + 1) * (2 * i)) by (nonlinear_arith)
                requires
                    inv0 * modulo + 1 == (t0 + 1) * i,
                    modulo % 2 == 1,
                    t0 % 2 == 0 ==> t == (t0 + modulo) / 2 && inv_mod == inv0 + i,
                    t0 % 2 != 0 ==> t == t0 / 2 && inv_mod == inv0,
            ;
        }
        i = 2 * i;
        bits = bits + 1;
    }
    proof {
        lemma2_to64();
        assert(i == R);
        assert(modulo * inv_mod + 1 == (t + 1) * R) by (nonlinear_arith)
            requires
                inv_mod * modulo + 1 == (t + 1) * i,
                i == R,
        ;
        lemma_mod_multiples_basic((t + 1) as int, R as int);
    }
    inv_mod as u32
}

/// The square of the radix, reduced modulo `modulo`.
pub fn find_r2(modulo: u32) -> (r2: u32)
    requires
        0 < modulo < 0x8000_0000,
    ensures
        r2 < modulo,
        r2 == (R * R) % (modulo as int),
{
    let m = modulo as u64;
    let r = R % m;
    proof {
        assert(r * r < m * m) by (nonlinear_arith)
            requires
                r < m,
        ;
        assert(m * m < 0x4000_0000_0000_0000) by (nonlinear_arith)
            requires
                m < 0x8000_0000,
        ;
        lemma_mul_mod_noop(R as int, R as int, m as int);
    }
    (r * r % m) as u32
}

/// The residue `r` read as a signed number: below half the modulus as it
/// is, above as `r - m`.
pub open spec fn signed_residue(r: int, m: int) -> int {
    if 2 * r < m {
        r
    } else {
        r - m
    }
}

/// `x` brought into `[lo, hi]`.
pub open spec fn clamp_int(x: int, lo: int, hi: int) -> int {
    if x < lo {
        lo
    } else if x > hi {
        hi
    } else {
        x
    }
}

/// A residue modulo `MOD`, stored as its product with the radix.
#[derive(Debug, Clone, Copy, PartialEq, Eq, Hash)]
pub struct ModInt<const MOD: u32> {
    mont: u32,
}

/// Residues of the first prime.
pub type ModInt924844033 = ModInt<924844033>;

/// Residues of the second prime.
pub type ModInt998244353 = ModInt<998244353>;

impl<const MOD: u32> View for ModInt<MOD> {
    type V = int;

    /// The least non-negative residue that the value stands for.
    closed spec fn view(&self) -> int {
        mont_reduce(self.mont as int, MOD as int)
    }
}

impl<const MOD: u32> ModInt<MOD> {
    /// The stored representative is itself a residue of a valid modulus.
    #[verifier::type_invariant]
    pub closed spec fn wf(self) -> bool {
        valid_modulus(MOD) && self.mont < MOD
    }

    /// The Montgomery representative: the residue times the radix.
    pub closed spec fn repr(self) -> int {
        self.mont as int
    }

    /// The view is a residue, and the representative is the view times the
    /// radix; so equal views mean equal values.
    pub proof fn lemma_view(self)
        requires
            self.wf(),
        ensures
            valid_modulus(MOD),
            0 <= self@ < MOD,
            self.repr() == (self@ * R) % (MOD as int),
            0 <= self.repr() < MOD,
    {
        let m = MOD as int;
        let x = self.mont as int;
        lemma_r_inv(m);
        lemma_mod_bound(x * r_inv(m), m);
        // (x * ri % m) * R == x * (ri * R) == x (mod m)
        assert(cong(self@ * R, x * r_inv(m) * R, m)) by {
            lemma_cong_mod(x * r_inv(m), m);
            lemma_cong_mul(self@, x * r_inv(m), R as int, R as int, m);
        }
        assert(x * r_inv(m) * R == x * (R * r_inv(m))) by (nonlinear_arith);
        assert(cong(x * (R * r_inv(m)), x, m)) by {
            lemma_small_mod(1, m as nat);
            lemma_cong_mul(x, x, R * r_inv(m), 1, m);
            assert(x * 1 == x);
        }
        lemma_small_mod(x as nat, m as nat);
    }

    /// Two well-formed values with the same view are the same value.
    pub proof fn lemma_view_injective(self, other: Self)
        requires
            self.wf(),
            other.wf(),
            self@ == other@,
        ensures
            self == other,
    {
        self.lemma_view();
        other.lemma_view();
    }

    /// The modulus.
    pub fn modulus() -> (n: u32)
        ensures
            n == MOD,
    {
        MOD
    }

    /// The number `n'` with `MOD * n' == -1` modulo the radix.
    pub fn n_prime() -> (np: u32)
        requires
            valid_modulus(MOD),
        ensures
            (MOD * np + 1) % (R as int) == 0,
    {
        find_neg_inv(MOD)
    }

    /// The radix squared, as a residue.
    pub fn r2() -> (r2: u32)
        requires
            valid_modulus(MOD),
        ensures
            r2 < MOD,
            r2 == (R * R) % (MOD as int),
    {
        find_r2(MOD)
    }

    /// Montgomery reduction: divides `x` by the radix in the residue ring.
    pub fn reduce(x: u64) -> (r: u32)
        requires
            valid_modulus(MOD),
            x < MOD * R,
        ensures
            r < MOD,
            r == mont_reduce(x as int, MOD as int),
    {
        let modulo = MOD as u64;
        let np = Self::n_prime() as u64;
        proof {
            assert((x % R) * np < R * R) by (nonlinear_arith)
                requires
                    x % R < R,
                    np < R,
            ;
        }
        let q = ((x % R) * np) % R;
        proof {
            assert(q * modulo <= R * modulo) by (nonlinear_arith)
                requires
                    q < R,
            ;
            assert(R * modulo < 0x4000_0000_0000_0000) by (nonlinear_arith)
                requires
                    modulo < 0x4000_0000,
            ;
        }
        let t = (x + q * modulo) / R;
        proof {
            lemma_mont_step(x as int, MOD as int, np as int, q as int, t as int);
            assert(t < 2 * modulo) by (nonlinear_arith)
                requires
                    t * R == x + q * modulo,
                    x < modulo * R,
                    q < R,
            ;
        }
        let ret = if modulo <= t {
            t - modulo
        } else {
            t
        };
        proof {
            let m = MOD as int;
            assert(cong(ret as int, t as int, m)) by {
                if modulo <= t {
                    lemma_cong_add_multiple(t as int, -1, m);
                }
            }
            lemma_cong_small(ret as int, x * r_inv(m), m);
        }
        ret as u32
    }

    /// The residue of `n`.
    pub fn new(n: u32) -> (r: Self)
        requires
            valid_modulus(MOD),
        ensures
            r.wf(),
            r@ == n % MOD,
    {
        let r2 = Self::r2() as u64;
        proof {
            assert(n * r2 < MOD * R) by (nonlinear_arith)
                requires
                    n < R,
                    r2 < MOD,
            ;
        }
        let mont = Self::reduce(n as u64 * r2);
        proof {
            let m = MOD as int;
            lemma_r_inv(m);
            let ri = r_inv(m);
            // n * r2 * ri == n * R * (R * ri) == n * R  (mod m); then once more
            assert(cong(r2 as int * ri, R as int, m)) by {
                lemma_cong_mod(R * R, m);
                lemma_cong_mul(r2 as int, R * R, ri, ri, m);
                assert(R * R * ri == R * (R * ri)) by (nonlinear_arith);
                lemma_small_mod(1, m as nat);
                lemma_cong_mul(R as int, R as int, R * ri, 1, m);
                assert(R * 1 == R);
            }
            assert(cong(mont as int, n * R, m)) by {
                lemma_cong_mod(n * r2 * ri, m);
                lemma_cong_mul(n as int, n as int, r2 as int * ri, R as int, m);
                assert(n * r2 * ri == n * (r2 as int * ri)) by (nonlinear_arith);
            }
            assert(cong(mont as int * ri, n as int, m)) by {
                lemma_cong_mul(mont as int, n * R, ri, ri, m);
                assert(n * R * ri == n * (R * ri)) by (nonlinear_arith);
                lemma_small_mod(1, m as nat);
                lemma_cong_mul(n as int, n as int, R * ri, 1, m);
                assert(n * 1 == n);
            }
        }
        Self { mont }
    }

    /// The residue of a signed `n`, negative values folded by adding the
    /// modulus.
    pub fn from_signed(n: i64) -> (r: Self)
        requires
            valid_modulus(MOD),
        ensures
            r.wf(),
            r@ == (n as int) % (MOD as int),
    {
        let rem = rem_euclid(n, MOD as i64);
        proof {
            lemma_small_mod(rem as nat, MOD as nat);
        }
        Self::new(rem as u32)
    }

    /// The least non-negative residue.
    pub fn as_u32(self) -> (n: u32)
        ensures
            n == self@,
            n < MOD,
    {
        proof {
            use_type_invariant(&self);
            assert(self.mont < MOD * R) by (nonlinear_arith)
                requires
                    self.mont < MOD,
            ;
        }
        Self::reduce(self.mont as u64)
    }

    /// The residue read as a signed number and brought into `[min, max]`.
    pub fn clamp(self, min: i64, max: i64) -> (r: Self)
        requires
            min <= max,
        ensures
            r.wf(),
            r@ == clamp_int(signed_residue(self@, MOD as int), min as int, max as int) % (
            MOD as int),
    {
        proof {
            use_type_invariant(&self);
        }
        let v = self.as_u32();
        let mid = MOD / 2;
        let signed: i64 = if v <= mid {
            v as i64
        } else {
            v as i64 - MOD as i64
        };
        let clamped = if signed < min {
            min
        } else if signed > max {
            max
        } else {
            signed
        };
        Self::from_signed(clamped)
    }

    /// The lesser, by their least non-negative residues, of this value and
    /// the residue of `u16::MAX`.
    pub fn clip(self) -> (r: Self)
        ensures
            r.wf(),
            r@ == if self@ > 65535int % (MOD as int) {
                65535int % (MOD as int)
            } else {
                self@
            },
    {
        proof {
            use_type_invariant(&self);
        }
        let cap = Self::new(65535);
        if self.as_u32() > cap.as_u32() {
            cap
        } else {
            self
        }
    }

    /// The zero residue.
    pub fn zero() -> (r: Self)
        requires
            valid_modulus(MOD),
        ensures
            r.wf(),
            r@ == 0,
    {
        proof {
            lemma_small_mod(0, MOD as nat);
        }
        Self { mont: 0 }
    }

    /// Whether this is the zero residue.
    pub fn is_zero(&self) -> (b: bool)
        ensures
            b == (self@ == 0),
    {
        proof {
            use_type_invariant(self);
            self.lemma_view();
            Self::lemma_zero_repr();
        }
        self.mont == 0
    }

    proof fn lemma_zero_repr()
        requires
            valid_modulus(MOD),
        ensures
            mont_reduce(0, MOD as int) == 0,
            (0 * R) % (MOD as int) == 0,
    {
        lemma_small_mod(0, MOD as nat);
    }

    /// The residue one.
    pub fn one() -> (r: Self)
        requires
            valid_modulus(MOD),
        ensures
            r.wf(),
            r@ == 1,
    {
        proof {
            lemma_small_mod(1, MOD as nat);
        }
        Self::new(1)
    }

    /// Sum of two residues.
    pub fn add(self, rhs: Self) -> (r: Self)
        ensures
            r.wf(),
            r@ == (self@ + rhs@) % (MOD as int),
    {
        proof {
            use_type_invariant(&self);
            use_type_invariant(&rhs);
        }
        let mut s = self.mont + rhs.mont;
        if MOD <= s {
            s = s - MOD;
        }
        let r = Self { mont: s };
        proof {
            let m = MOD as int;
            assert(cong(s as int, self.mont + rhs.mont, m)) by {
                if MOD <= self.mont + rhs.mont {
                    lemma_cong_add_multiple((self.mont + rhs.mont) as int, -1, m);
                }
            }
            Self::lemma_reduce_add(s as int, self.mont as int, rhs.mont as int);
        }
        r
    }

    /// Montgomery reduction is additive up to congruence.
    proof fn lemma_reduce_add(s: int, a: int, b: int)
        requires
            valid_modulus(MOD),
            cong(s, a + b, MOD as int),
        ensures
            mont_reduce(s, MOD as int) == (mont_reduce(a, MOD as int) + mont_reduce(b, MOD as int))
                % (MOD as int),
    {
        let m = MOD as int;
        let ri = r_inv(m);
        lemma_cong_mul(s, a + b, ri, ri, m);
        assert((a + b) * ri == a * ri + b * ri) by (nonlinear_arith);
        lemma_add_mod_noop(a * ri, b * ri, m);
    }

    /// Difference of two residues.
    pub fn sub(self, rhs: Self) -> (r: Self)
        ensures
            r.wf(),
            r@ == (self@ - rhs@) % (MOD as int),
    {
        proof {
            use_type_invariant(&self);
            use_type_invariant(&rhs);
        }
        let s = if self.mont >= rhs.mont {
            self.mont - rhs.mont
        } else {
            self.mont + MOD - rhs.mont
        };
        let r = Self { mont: s };
        proof {
            let m = MOD as int;
            let ri = r_inv(m);
            let a = self.mont as int;
            let b = rhs.mont as int;
            assert(cong(s as int, a - b, m)) by {
                if self.mont < rhs.mont {
                    lemma_cong_add_multiple(a - b, 1, m);
                }
            }
            lemma_cong_mul(s as int, a - b, ri, ri, m);
            assert((a - b) * ri == a * ri - b * ri) by (nonlinear_arith);
            lemma_sub_mod_noop(a * ri, b * ri, m);
        }
        r
    }

    /// The additive inverse.
    pub fn neg(self) -> (r: Self)
        ensures
            r.wf(),
            r@ == (-self@) % (MOD as int),
    {
        proof {
            use_type_invariant(&self);
        }
        let z = Self::zero();
        z.sub(self)
    }

    /// Product of two residues.
    pub fn mul(self, rhs: Self) -> (r: Self)
        ensures
            r.wf(),
            r@ == (self@ * rhs@) % (MOD as int),
    {
        proof {
            use_type_invariant(&self);
            use_type_invariant(&rhs);
            assert(self.mont * rhs.mont < MOD * R) by (nonlinear_arith)
                requires
                    self.mont < MOD,
                    rhs.mont < MOD,
                    MOD < R,
            ;
        }
        let mont = Self::reduce(self.mont as u64 * rhs.mont as u64);
        proof {
            let m = MOD as int;
            let ri = r_inv(m);
            let a = self.mont as int;
            let b = rhs.mont as int;
            // (a * b) * ri * ri == (a * ri) * (b * ri)
            lemma_cong_mod(a * b * ri, m);
            lemma_cong_mul(mont as int, a * b * ri, ri, ri, m);
            assert(a * b * ri * ri == (a * ri) * (b * ri)) by (nonlinear_arith);
            lemma_mul_mod_noop(a * ri, b * ri, m);
        }
        Self { mont }
    }

    /// The `exp`-th power, by repeated squaring.
    pub fn pow(self, exp: u32) -> (r: Self)
        ensures
            r.wf(),
            r@ == pow(self@, exp as nat) % (MOD as int),
    {
        proof {
            use_type_invariant(&self);
        }
        let mut base = self;
        let mut e = exp;
        let mut y = Self::one();
        let ghost m = MOD as int;
        proof {
            lemma_small_mod(1, m as nat);
            assert(1 * pow(self@, exp as nat) == pow(self@, exp as nat));
        }
        while 0 < e
            invariant
                valid_modulus(MOD),
                m == MOD as int,
                base.wf(),
                y.wf(),
                cong(y@ * pow(base@, e as nat), pow(self@, exp as nat), m),
            decreases e,
        {
            let ghost b0 = base@;
            let ghost y0 = y@;
            let ghost e0 = e;
            if e % 2 == 1 {
                y = y.mul(base);
            }
            base = base.mul(base);
            e = e / 2;
            proof {
                let k = e as nat;
                // pow(base, k) == pow(b0 * b0, k)  (mod m)
                lemma_cong_mod(b0 * b0, m);
                lemma_cong_pow(base@, b0 * b0, k, m);
                if e0 % 2 == 1 {
                    assert(e0 == 2 * k + 1);
                    lemma_pow_odd(b0, k);
                    lemma_cong_mod(y0 * b0, m);
                    lemma_cong_mul(y@, y0 * b0, pow(base@, k), pow(b0 * b0, k), m);
                    assert(y0 * b0 * pow(b0 * b0, k) == y0 * (b0 * pow(b0 * b0, k)))
                        by (nonlinear_arith);
                } else {
                    assert(e0 == 2 * k);
                    lemma_pow_even(b0, k);
                    lemma_cong_mul(y@, y0, pow(base@, k), pow(b0 * b0, k), m);
                }
            }
        }
        proof {
            lemma_pow0(base@);
            assert(y@ * 1 == y@);
            y.lemma_view();
            lemma_small_mod(y@ as nat, m as nat);
        }
        y
    }

    /// The power `MOD - 2`: by Fermat's little theorem the multiplicative
    /// inverse, where `MOD` is prime and the value is not zero.
    pub fn inv(self) -> (r: Self)
        ensures
            r.wf(),
            r@ == pow(self@, (MOD - 2) as nat) % (MOD as int),
            is_prime(MOD as int) && self@ != 0 ==> (self@ * r@) % (MOD as int) == 1,
    {
        proof {
            use_type_invariant(&self);
            self.lemma_view();
            if is_prime(MOD as int) && self@ != 0 {
                lemma_small_mod(self@ as nat, MOD as nat);
                lemma_fermat_inverse(self@, MOD as int);
            }
        }
        self.pow(MOD - 2)
    }

    /// The quotient: the product with the inverse of `rhs`. Where `MOD` is
    /// prime and `rhs` is not zero, the quotient times `rhs` is this value.
    pub fn div(self, rhs: Self) -> (r: Self)
        ensures
            r.wf(),
            r@ == (self@ * (pow(rhs@, (MOD - 2) as nat) % (MOD as int))) % (MOD as int),
            is_prime(MOD as int) && rhs@ != 0 ==> (r@ * rhs@) % (MOD as int) == self@,
    {
        let inverse = rhs.inv();
        let r = self.mul(inverse);
        proof {
            use_type_invariant(&self);
            self.lemma_view();
            if is_prime(MOD as int) && rhs@ != 0 {
                let m = MOD as int;
                // r * rhs == self * (inverse * rhs) == self
                lemma_cong_mod(self@ * inverse@, m);
                lemma_cong_mul(r@, self@ * inverse@, rhs@, rhs@, m);
                assert(self@ * inverse@ * rhs@ == self@ * (rhs@ * inverse@)) by (nonlinear_arith);
                lemma_small_mod(1, m as nat);
                lemma_cong_mul(self@, self@, rhs@ * inverse@, 1, m);
                assert(self@ * 1 == self@);
                lemma_small_mod(self@ as nat, m as nat);
            }
        }
        r
    }

    /// A value made anew from a value's residue is that value.
    pub proof fn lemma_new_of_residue(self, again: Self)
        requires
            self.wf(),
            again.wf(),
            again@ == self@ % (MOD as int),
        ensures
            again == self,
    {
        self.lemma_view();
        lemma_small_mod(self@ as nat, MOD as nat);
        self.lemma_view_injective(again);
    }
}

/// The residues that a sequence of values stands for.
pub open spec fn residues<const MOD: u32>(s: Seq<ModInt<MOD>>) -> Seq<int> {
    Seq::new(s.len(), |i: int| s[i]@)
}

} // verus!

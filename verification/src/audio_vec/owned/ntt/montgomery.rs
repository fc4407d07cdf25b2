//! Lane-wise Montgomery arithmetic on four or eight residues at once, kept
//! in the lazy range `[0, 2 * m)`.

use crate::arith::{cong, lemma_cong_add_multiple, lemma_cong_mod, lemma_cong_mul};
use crate::audio_vec::owned::mod_int::R;
use vstd::arithmetic::div_mod::*;
use vstd::prelude::*;
use wide::{u32x4, u32x8};

verus! {

/// `x` wrapped into 32 bits.
pub open spec fn wrap32(x: int) -> int {
    x % 0x1_0000_0000
}

/// Calls `+` of `wide::u32x4`: each lane is the wrapped sum.
#[verifier::external_body]
fn lanes4_add(a: [u32; 4], b: [u32; 4]) -> (r: [u32; 4])
    ensures
        forall|i: int| 0 <= i < 4 ==> #[trigger] r[i] == wrap32(a[i] + b[i]),
{
    (u32x4::new(a) + u32x4::new(b)).to_array()
}

/// Calls `-` of `wide::u32x4`: each lane is the wrapped difference.
#[verifier::external_body]
fn lanes4_sub(a: [u32; 4], b: [u32; 4]) -> (r: [u32; 4])
    ensures
        forall|i: int| 0 <= i < 4 ==> #[trigger] r[i] == wrap32(a[i] - b[i]),
{
    (u32x4::new(a) - u32x4::new(b)).to_array()
}

/// Calls `*` of `wide::u32x4`: each lane is the low 32 bits of the product.
#[verifier::external_body]
fn lanes4_mul(a: [u32; 4], b: [u32; 4]) -> (r: [u32; 4])
    ensures
        forall|i: int| 0 <= i < 4 ==> #[trigger] r[i] == wrap32(a[i] * b[i]),
{
    (u32x4::new(a) * u32x4::new(b)).to_array()
}

/// Calls `wide::u32x4::mul_keep_high`: each lane is the high 32 bits of the
/// 64-bit product.
#[verifier::external_body]
fn lanes4_mul_high(a: [u32; 4], b: [u32; 4]) -> (r: [u32; 4])
    ensures
        forall|i: int| 0 <= i < 4 ==> #[trigger] r[i] == (a[i] * b[i]) / 0x1_0000_0000,
{
    u32x4::new(a).mul_keep_high(u32x4::new(b)).to_array()
}

/// Calls `wide::u32x4::cmp_gt`: each lane is all ones where `a` exceeds
/// `b`, and zero elsewhere.
#[verifier::external_body]
fn lanes4_gt(a: [u32; 4], b: [u32; 4]) -> (r: [u32; 4])
    ensures
        forall|i: int| 0 <= i < 4 ==> #[trigger] r[i] == if a[i] > b[i] {
            u32::MAX
        } else {
            0u32
        },
{
    u32x4::new(a).cmp_gt(u32x4::new(b)).to_array()
}

/// Calls `&` of `wide::u32x4`: each lane is the bitwise and.
#[verifier::external_body]
fn lanes4_and(a: [u32; 4], b: [u32; 4]) -> (r: [u32; 4])
    ensures
        forall|i: int| 0 <= i < 4 ==> #[trigger] r[i] == a[i] & b[i],
{
    (u32x4::new(a) & u32x4::new(b)).to_array()
}

/// Calls `+` of `wide::u32x8`: each lane is the wrapped sum.
#[verifier::external_body]
fn lanes8_add(a: [u32; 8], b: [u32; 8]) -> (r: [u32; 8])
    ensures
        forall|i: int| 0 <= i < 8 ==> #[trigger] r[i] == wrap32(a[i] + b[i]),
{
    (u32x8::new(a) + u32x8::new(b)).to_array()
}

/// Calls `-` of `wide::u32x8`: each lane is the wrapped difference.
#[verifier::external_body]
fn lanes8_sub(a: [u32; 8], b: [u32; 8]) -> (r: [u32; 8])
    ensures
        forall|i: int| 0 <= i < 8 ==> #[trigger] r[i] == wrap32(a[i] - b[i]),
{
    (u32x8::new(a) - u32x8::new(b)).to_array()
}

/// Calls `*` of `wide::u32x8`: each lane is the low 32 bits of the product.
#[verifier::external_body]
fn lanes8_mul(a: [u32; 8], b: [u32; 8]) -> (r: [u32; 8])
    ensures
        forall|i: int| 0 <= i < 8 ==> #[trigger] r[i] == wrap32(a[i] * b[i]),
{
    (u32x8::new(a) * u32x8::new(b)).to_array()
}

/// Calls `wide::u32x8::mul_keep_high`: each lane is the high 32 bits of the
/// 64-bit product.
#[verifier::external_body]
fn lanes8_mul_high(a: [u32; 8], b: [u32; 8]) -> (r: [u32; 8])
    ensures
        forall|i: int| 0 <= i < 8 ==> #[trigger] r[i] == (a[i] * b[i]) / 0x1_0000_0000,
{
    u32x8::new(a).mul_keep_high(u32x8::new(b)).to_array()
}

/// Calls `wide::u32x8::cmp_gt`: each lane is all ones where `a` exceeds
/// `b`, and zero elsewhere.
#[verifier::external_body]
fn lanes8_gt(a: [u32; 8], b: [u32; 8]) -> (r: [u32; 8])
    ensures
        forall|i: int| 0 <= i < 8 ==> #[trigger] r[i] == if a[i] > b[i] {
            u32::MAX
        } else {
            0u32
        },
{
    u32x8::new(a).cmp_gt(u32x8::new(b)).to_array()
}

/// Calls `&` of `wide::u32x8`: each lane is the bitwise and.
#[verifier::external_body]
fn lanes8_and(a: [u32; 8], b: [u32; 8]) -> (r: [u32; 8])
    ensures
        forall|i: int| 0 <= i < 8 ==> #[trigger] r[i] == a[i] & b[i],
{
    (u32x8::new(a) & u32x8::new(b)).to_array()
}

/// One lane of the lazy Montgomery product: the high half of `a * b`, plus
/// `m`, minus the high half of `q * m`, where `q` is the low half of
/// `a * b` times `inv`, wrapped.
pub open spec fn lazy_product(a: int, b: int, inv: int, m: int) -> int {
    (a * b) / 0x1_0000_0000 + m - (wrap32(wrap32(a * b) * inv) * m) / 0x1_0000_0000
}

/// The largest value that reads as non-negative in 32 signed bits.
pub const SIGN_LIMIT: u32 = 0x7FFF_FFFF;

/// What one lane of the lazy sum holds: `a + b - m2` wrapped, and `m2`
/// added back where that fell below zero, is the sum modulo `m2`.
proof fn lemma_lane_add(a: u32, b: u32, m2: u32, ret: u32, mask: u32, back: u32, r: u32)
    requires
        a < m2,
        b < m2,
        m2 <= 0x8000_0000,
        ret == wrap32(wrap32(a + b) - m2),
        mask == if ret > SIGN_LIMIT {
            u32::MAX
        } else {
            0u32
        },
        back == mask & m2,
        r == wrap32(back + ret),
    ensures
        r == (a + b) % (m2 as int),
{
    assert(u32::MAX & m2 == m2) by (bit_vector);
    assert(0u32 & m2 == 0u32) by (bit_vector);
    let s = a + b;
    lemma_small_mod(s as nat, 0x1_0000_0000);
    if s >= m2 {
        lemma_small_mod((s - m2) as nat, 0x1_0000_0000);
        lemma_small_mod((s - m2) as nat, m2 as nat);
        lemma_cong_add_multiple(s - m2, 1, m2 as int);
    } else {
        // s - m2 wraps to s - m2 + 2^32, at least 2^31
        lemma_cong_add_multiple(s - m2, 1, 0x1_0000_0000);
        lemma_small_mod((s - m2 + 0x1_0000_0000) as nat, 0x1_0000_0000);
        assert(ret == s - m2 + 0x1_0000_0000);
        lemma_cong_add_multiple(s as int, 1, 0x1_0000_0000);
        lemma_small_mod(s as nat, m2 as nat);
    }
}

/// What one lane of the lazy difference holds: `a - b` wrapped, and `m2`
/// added back where that fell below zero, is the difference modulo `m2`.
proof fn lemma_lane_sub(a: u32, b: u32, m2: u32, ret: u32, mask: u32, back: u32, r: u32)
    requires
        a < m2,
        b < m2,
        m2 <= 0x8000_0000,
        ret == wrap32(a - b),
        mask == if ret > SIGN_LIMIT {
            u32::MAX
        } else {
            0u32
        },
        back == mask & m2,
        r == wrap32(back + ret),
    ensures
        r == (a - b) % (m2 as int),
{
    assert(u32::MAX & m2 == m2) by (bit_vector);
    assert(0u32 & m2 == 0u32) by (bit_vector);
    let d = a - b;
    if d >= 0 {
        lemma_small_mod(d as nat, 0x1_0000_0000);
        lemma_small_mod(d as nat, m2 as nat);
    } else {
        lemma_cong_add_multiple(d, 1, 0x1_0000_0000);
        lemma_small_mod((d + 0x1_0000_0000) as nat, 0x1_0000_0000);
        assert(ret == d + 0x1_0000_0000);
        lemma_cong_add_multiple(d + m2, 1, 0x1_0000_0000);
        lemma_small_mod((d + m2) as nat, 0x1_0000_0000);
        lemma_cong_add_multiple(d, 1, m2 as int);
        lemma_small_mod((d + m2) as nat, m2 as nat);
    }
}

/// What one lane of the lazy product holds: the high half of `a * b`, plus
/// `m`, minus the high half of `q * m`, where `q` is the low half of
/// `a * b` times the inverse of `m` modulo `2^32`. It stays below `2 * m`,
/// and times `2^32` it is congruent to `a * b`.
proof fn lemma_lane_mul(a: u32, b: u32, inv: u32, m: u32, hi: u32, lo: u32, q: u32, h2: u32, r: u32)
    requires
        a < 2 * m,
        b < 2 * m,
        m < 0x4000_0000,
        wrap32(m * inv) == 1,
        hi == (a * b) / 0x1_0000_0000,
        lo == wrap32(a * b),
        q == wrap32(lo * inv),
        h2 == (q * m) / 0x1_0000_0000,
        r == wrap32(wrap32(hi + m) - h2),
    ensures
        r == lazy_product(a as int, b as int, inv as int, m as int),
        0 < r < 2 * m,
        cong(r * R, a * b, m as int),
{
    let rr = 0x1_0000_0000int;
    let ab = a * b;
    assert(m > 0) by {
        if m == 0 {
            assert(0 * inv == 0);
            lemma_small_mod(0, 0x1_0000_0000);
        }
    }
    // q * m == lo (mod 2^32)
    lemma_cong_mod(lo * inv, rr);
    lemma_cong_mul(q as int, lo * inv, m as int, m as int, rr);
    assert(lo * inv * m == lo * (m * inv)) by (nonlinear_arith);
    lemma_small_mod(1, 0x1_0000_0000);
    lemma_cong_mul(lo as int, lo as int, m * inv, 1, rr);
    assert(lo * 1 == lo);
    lemma_small_mod(lo as nat, 0x1_0000_0000);
    assert((q * m) % rr == lo);
    lemma_fundamental_div_mod(ab, rr);
    lemma_fundamental_div_mod(q * m, rr);
    assert(ab - q * m == (hi - h2) * rr) by (nonlinear_arith)
        requires
            ab == rr * hi + lo,
            q * m == rr * h2 + lo,
    ;
    // both high halves are below m
    assert(ab < 4 * m * m) by (nonlinear_arith)
        requires
            ab == a * b,
            a < 2 * m,
            b < 2 * m,
    ;
    assert(hi < m) by (nonlinear_arith)
        requires
            ab == rr * hi + lo,
            lo >= 0,
            ab < 4 * m * m,
            0 < m < 0x4000_0000,
            rr == 0x1_0000_0000,
    ;
    assert(h2 < m) by (nonlinear_arith)
        requires
            q * m == rr * h2 + lo,
            lo >= 0,
            q < rr,
            m > 0,
            rr == 0x1_0000_0000,
    ;
    lemma_small_mod((hi + m) as nat, 0x1_0000_0000);
    lemma_small_mod((hi + m - h2) as nat, 0x1_0000_0000);
    assert(r == hi + m - h2);
    assert(r * rr == ab + (rr - q) * m) by (nonlinear_arith)
        requires
            r == hi + m - h2,
            ab - q * m == (hi - h2) * rr,
    ;
    lemma_cong_add_multiple(ab, rr - q, m as int);
}

/// The lane-wise sum of residues in the lazy range `[0, m2)`, where `m2` is
/// twice the modulus.
pub fn add_u32x4(a: [u32; 4], b: [u32; 4], m2: [u32; 4]) -> (r: [u32; 4])
    requires
        forall|i: int| 0 <= i < 4 ==> a[i] < #[trigger] m2[i] && b[i] < m2[i] && m2[i] <= 0x8000_0000,
    ensures
        forall|i: int| 0 <= i < 4 ==> #[trigger] r[i] == (a[i] + b[i]) % (m2[i] as int),
{
    let ret = lanes4_sub(lanes4_add(a, b), m2);
    let mask = lanes4_gt(ret, [SIGN_LIMIT; 4]);
    let back = lanes4_and(mask, m2);
    let r = lanes4_add(back, ret);
    proof {
        assert forall|i: int| 0 <= i < 4 implies #[trigger] r[i] == (a[i] + b[i]) % (m2[i] as int) by {
            assert(a[i] < m2[i]);
            lemma_lane_add(a[i], b[i], m2[i], ret[i], mask[i], back[i], r[i]);
        }
    }
    r
}

/// The lane-wise difference of residues in the lazy range `[0, m2)`.
pub fn sub_u32x4(a: [u32; 4], b: [u32; 4], m2: [u32; 4]) -> (r: [u32; 4])
    requires
        forall|i: int| 0 <= i < 4 ==> a[i] < #[trigger] m2[i] && b[i] < m2[i] && m2[i] <= 0x8000_0000,
    ensures
        forall|i: int| 0 <= i < 4 ==> #[trigger] r[i] == (a[i] - b[i]) % (m2[i] as int),
{
    let ret = lanes4_sub(a, b);
    let mask = lanes4_gt(ret, [SIGN_LIMIT; 4]);
    let back = lanes4_and(mask, m2);
    let r = lanes4_add(back, ret);
    proof {
        assert forall|i: int| 0 <= i < 4 implies #[trigger] r[i] == (a[i] - b[i]) % (m2[i] as int) by {
            assert(a[i] < m2[i]);
            lemma_lane_sub(a[i], b[i], m2[i], ret[i], mask[i], back[i], r[i]);
        }
    }
    r
}

/// The lane-wise Montgomery product of residues in the lazy range: with
/// `inv_n` the inverse of the modulus `m1` modulo `2^32`, each lane stays
/// below twice the modulus and, times `2^32`, is congruent to the product.
pub fn mul_u32x4(a: [u32; 4], b: [u32; 4], inv_n: [u32; 4], m1: [u32; 4]) -> (r: [u32; 4])
    requires
        forall|i: int|
            0 <= i < 4 ==> a[i] < 2 * #[trigger] m1[i] && b[i] < 2 * m1[i] && m1[i] < 0x4000_0000
                && wrap32(m1[i] * inv_n[i]) == 1,
    ensures
        forall|i: int|
            0 <= i < 4 ==> #[trigger] r[i] == lazy_product(
                a[i] as int,
                b[i] as int,
                inv_n[i] as int,
                m1[i] as int,
            ) && 0 < r[i] < 2 * m1[i] && cong(r[i] * R, a[i] * b[i], m1[i] as int),
{
    let hi = lanes4_mul_high(a, b);
    let lo = lanes4_mul(a, b);
    let q = lanes4_mul(lo, inv_n);
    let h2 = lanes4_mul_high(q, m1);
    let r = lanes4_sub(lanes4_add(hi, m1), h2);
    proof {
        assert forall|i: int| 0 <= i < 4 implies #[trigger] r[i] == lazy_product(
            a[i] as int,
            b[i] as int,
            inv_n[i] as int,
            m1[i] as int,
        ) && 0 < r[i] < 2 * m1[i] && cong(r[i] * R, a[i] * b[i], m1[i] as int) by {
            assert(a[i] < 2 * m1[i]);
            lemma_lane_mul(a[i], b[i], inv_n[i], m1[i], hi[i], lo[i], q[i], h2[i], r[i]);
        }
    }
    r
}

/// The lane-wise sum of residues in the lazy range `[0, m2)`, eight lanes.
pub fn add_u32x8(a: [u32; 8], b: [u32; 8], m2: [u32; 8]) -> (r: [u32; 8])
    requires
        forall|i: int| 0 <= i < 8 ==> a[i] < #[trigger] m2[i] && b[i] < m2[i] && m2[i] <= 0x8000_0000,
    ensures
        forall|i: int| 0 <= i < 8 ==> #[trigger] r[i] == (a[i] + b[i]) % (m2[i] as int),
{
    let ret = lanes8_sub(lanes8_add(a, b), m2);
    let mask = lanes8_gt(ret, [SIGN_LIMIT; 8]);
    let back = lanes8_and(mask, m2);
    let r = lanes8_add(back, ret);
    proof {
        assert forall|i: int| 0 <= i < 8 implies #[trigger] r[i] == (a[i] + b[i]) % (m2[i] as int) by {
            assert(a[i] < m2[i]);
            lemma_lane_add(a[i], b[i], m2[i], ret[i], mask[i], back[i], r[i]);
        }
    }
    r
}

/// The lane-wise difference of residues in the lazy range `[0, m2)`, eight
/// lanes.
pub fn sub_u32x8(a: [u32; 8], b: [u32; 8], m2: [u32; 8]) -> (r: [u32; 8])
    requires
        forall|i: int| 0 <= i < 8 ==> a[i] < #[trigger] m2[i] && b[i] < m2[i] && m2[i] <= 0x8000_0000,
    ensures
        forall|i: int| 0 <= i < 8 ==> #[trigger] r[i] == (a[i] - b[i]) % (m2[i] as int),
{
    let ret = lanes8_sub(a, b);
    let mask = lanes8_gt(ret, [SIGN_LIMIT; 8]);
    let back = lanes8_and(mask, m2);
    let r = lanes8_add(back, ret);
    proof {
        assert forall|i: int| 0 <= i < 8 implies #[trigger] r[i] == (a[i] - b[i]) % (m2[i] as int) by {
            assert(a[i] < m2[i]);
            lemma_lane_sub(a[i], b[i], m2[i], ret[i], mask[i], back[i], r[i]);
        }
    }
    r
}

/// The lane-wise Montgomery product of residues in the lazy range, eight
/// lanes.
pub fn mul_u32x8(a: [u32; 8], b: [u32; 8], inv_n: [u32; 8], m1: [u32; 8]) -> (r: [u32; 8])
    requires
        forall|i: int|
            0 <= i < 8 ==> a[i] < 2 * #[trigger] m1[i] && b[i] < 2 * m1[i] && m1[i] < 0x4000_0000
                && wrap32(m1[i] * inv_n[i]) == 1,
    ensures
        forall|i: int|
            0 <= i < 8 ==> #[trigger] r[i] == lazy_product(
                a[i] as int,
                b[i] as int,
                inv_n[i] as int,
                m1[i] as int,
            ) && 0 < r[i] < 2 * m1[i] && cong(r[i] * R, a[i] * b[i], m1[i] as int),
{
    let hi = lanes8_mul_high(a, b);
    let lo = lanes8_mul(a, b);
    let q = lanes8_mul(lo, inv_n);
    let h2 = lanes8_mul_high(q, m1);
    let r = lanes8_sub(lanes8_add(hi, m1), h2);
    proof {
        assert forall|i: int| 0 <= i < 8 implies #[trigger] r[i] == lazy_product(
            a[i] as int,
            b[i] as int,
            inv_n[i] as int,
            m1[i] as int,
        ) && 0 < r[i] < 2 * m1[i] && cong(r[i] * R, a[i] * b[i], m1[i] as int) by {
            assert(a[i] < 2 * m1[i]);
            lemma_lane_mul(a[i], b[i], inv_n[i], m1[i], hi[i], lo[i], q[i], h2[i], r[i]);
        }
    }
    r
}

} // verus!

use procon2022_comp_2nd::audio_vec::owned::mod_int::ModInt;
use procon2022_comp_2nd::audio_vec::owned::ntt::montgomery::{
    add_u32x4, add_u32x8, mul_u32x4, mul_u32x8, sub_u32x4, sub_u32x8,
};

const M: u32 = 998244353;
const INV: u32 = 0xC480_0001;

#[test]
fn inverse_of_the_modulus() {
    assert_eq!(M.wrapping_mul(INV), 1);
}

#[test]
fn lanes_add_and_sub() {
    let m2 = [2 * M; 4];
    let a = [5, 2 * M - 1, M, 0];
    let b = [7, 2 * M - 1, M, 0];
    assert_eq!(add_u32x4(a, b, m2), [12, 2 * M - 2, 0, 0]);
    assert_eq!(sub_u32x4(a, b, m2), [2 * M - 2, 0, 0, 0]);
    assert_eq!(sub_u32x4(b, a, m2), [2, 0, 0, 0]);
    let m2 = [2 * M; 8];
    let a = [5, 2 * M - 1, M, 0, 1, 2, 3, 4];
    let b = [7, 2 * M - 1, M, 0, 4, 3, 2, 1];
    assert_eq!(add_u32x8(a, b, m2), [12, 2 * M - 2, 0, 0, 5, 5, 5, 5]);
    assert_eq!(sub_u32x8(a, b, m2), [2 * M - 2, 0, 0, 0, 2 * M - 3, 2 * M - 1, 1, 3]);
}

#[test]
fn lanes_mul_is_montgomery_reduction() {
    let a = [1, 123456789, 2 * M - 1, M + 5];
    let b = [1, 987654321, 2 * M - 1, 77];
    let r = mul_u32x4(a, b, [INV; 4], [M; 4]);
    for i in 0..4 {
        assert!(0 < r[i] && r[i] < 2 * M);
        assert_eq!(r[i] % M, ModInt::<998244353>::reduce((a[i] as u64 % M as u64) * (b[i] as u64 % M as u64)));
    }
    let a = [1, 123456789, 2 * M - 1, M + 5, 0, 3, 1 << 30, 999];
    let b = [1, 987654321, 2 * M - 1, 77, 5, 0, 1 << 30, 1];
    let r = mul_u32x8(a, b, [INV; 8], [M; 8]);
    for i in 0..8 {
        assert!(0 < r[i] && r[i] < 2 * M);
        assert_eq!(r[i] % M, ModInt::<998244353>::reduce((a[i] as u64 % M as u64) * (b[i] as u64 % M as u64)));
    }
}

use procon2022_comp_2nd::audio_vec::owned::mod_int::{
    find_neg_inv, find_r2, ModInt, ModInt924844033, ModInt998244353,
};

#[test]
fn const_test_998244353() {
    assert_eq!(ModInt998244353::modulus(), 0x3B800001);
    assert_eq!(ModInt998244353::n_prime(), 0x3B7FFFFF);
    assert_eq!(ModInt998244353::r2(), 0x378DFBC6);
}

#[test]
fn mod_int_const_test_998244353() {
    assert_eq!(ModInt::<998244353>::modulus(), 0x3B800001);
    assert_eq!(find_neg_inv(998244353), 0x3B7FFFFF);
    assert_eq!(find_r2(998244353), 0x378DFBC6);
}

#[test]
fn const_test_924844033() {
    assert_eq!(ModInt924844033::modulus(), 924844033);
    // 924844033 * n' == -1 (mod 2^32)
    let np = ModInt924844033::n_prime() as u64;
    assert_eq!((924844033u64 * np + 1) % (1u64 << 32), 0);
    assert_eq!(ModInt924844033::r2() as u128, (1u128 << 64) % 924844033);
}

#[test]
fn new_and_back() {
    for n in [0u32, 1, 2, 998244352, 998244353, 998244354, u32::MAX] {
        assert_eq!(ModInt998244353::new(n).as_u32(), n % 998244353);
        assert_eq!(ModInt924844033::new(n).as_u32(), n % 924844033);
    }
}

#[test]
fn round_trip_is_identity() {
    for n in [0u32, 5, 123456789, 998244352] {
        let a = ModInt998244353::new(n);
        assert!(a.as_u32() < 998244353);
        assert_eq!(ModInt998244353::new(a.as_u32()), a);
    }
}

#[test]
fn reduce_divides_by_the_radix() {
    // reduce(x * R) == x for a residue x
    let x = 123456u64;
    assert_eq!(ModInt998244353::reduce((x << 32) % (998244353u64 << 32)) as u64, {
        // ((x << 32) mod (M << 32)) / R == x mod M
        x % 998244353
    });
    assert_eq!(ModInt998244353::reduce(0), 0);
}

#[test]
fn add_sub_neg() {
    let m = 998244353u32;
    let a = ModInt998244353::new(m - 1);
    let b = ModInt998244353::new(5);
    assert_eq!(a.add(b).as_u32(), 4);
    assert_eq!(b.sub(a).as_u32(), 6);
    assert_eq!(a.sub(b).as_u32(), m - 6);
    assert_eq!(b.neg().as_u32(), m - 5);
    assert_eq!(ModInt998244353::zero().neg().as_u32(), 0);
    // a + (M - a) == 0
    for n in [0u32, 1, 77, m - 1] {
        let x = ModInt998244353::new(n);
        let y = ModInt998244353::new((m - n) % m);
        assert!(x.add(y).is_zero());
    }
}

#[test]
fn mul_pow_inv_div() {
    let m = 998244353u64;
    let a = ModInt998244353::new(123456789);
    let b = ModInt998244353::new(987654321);
    assert_eq!(a.mul(b).as_u32() as u64, 123456789u64 * (987654321u64 % m) % m);
    assert_eq!(ModInt998244353::new(2).pow(10).as_u32(), 1024);
    assert_eq!(ModInt998244353::new(7).pow(0).as_u32(), 1);
    assert_eq!(ModInt998244353::new(0).pow(0).as_u32(), 1);
    for n in [1u32, 2, 3, 123456789, 998244352] {
        let x = ModInt998244353::new(n);
        assert_eq!(x.mul(x.inv()).as_u32(), 1);
        assert_eq!(b.div(x).mul(x), b);
    }
    assert_eq!(ModInt998244353::one().as_u32(), 1);
}

#[test]
fn fermat_for_both_primes() {
    assert_eq!(ModInt924844033::new(3).pow(924844033 - 1).as_u32(), 1);
    assert_eq!(ModInt998244353::new(3).pow(998244353 - 1).as_u32(), 1);
    assert_eq!(ModInt998244353::new(3).pow(998244353 - 1), ModInt998244353::new(1));
}

#[test]
fn from_signed_folds_negatives() {
    assert_eq!(ModInt998244353::from_signed(-1).as_u32(), 998244352);
    assert_eq!(ModInt998244353::from_signed(-998244353).as_u32(), 0);
    assert_eq!(ModInt998244353::from_signed(-998244354).as_u32(), 998244352);
    assert_eq!(ModInt998244353::from_signed(5).as_u32(), 5);
    assert_eq!(ModInt998244353::from_signed(i64::MIN).as_u32() as i128, (i64::MIN as i128).rem_euclid(998244353));
    assert_eq!(ModInt998244353::from_signed(i64::MAX).as_u32() as i128, (i64::MAX as i128) % 998244353);
}

#[test]
fn clamp_reads_signed() {
    let m = 998244353u32;
    assert_eq!(ModInt998244353::from_signed(-40000).clamp(-32768, 32767).as_u32(), m - 32768);
    assert_eq!(ModInt998244353::from_signed(40000).clamp(-32768, 32767).as_u32(), 32767);
    assert_eq!(ModInt998244353::from_signed(-7).clamp(-32768, 32767).as_u32(), m - 7);
    assert_eq!(ModInt998244353::from_signed(7).clamp(-32768, 32767).as_u32(), 7);
}

#[test]
fn clip_caps_at_u16_max() {
    assert_eq!(ModInt998244353::new(70000).clip().as_u32(), 65535);
    assert_eq!(ModInt998244353::new(65535).clip().as_u32(), 65535);
    assert_eq!(ModInt998244353::new(12).clip().as_u32(), 12);
    assert_eq!(ModInt998244353::from_signed(-1).clip().as_u32(), 65535);
}

use procon2022_comp_2nd::audio_vec::owned::mod_int::ModInt;
use procon2022_comp_2nd::audio_vec::owned::pixel::{garner, Pixel, M1, M1M2, M2};

#[test]
fn moduli() {
    assert_eq!(M1 as u64 * M2 as u64, M1M2);
    assert_eq!(M1M2, 923220333347995649);
}

#[test]
fn garner_rebuilds_the_integer() {
    for x in [
        0u64,
        1,
        924844032,
        924844033,
        998244352,
        998244353,
        100_000_000_000_000,
        123_456_789_012_345_678,
        M1M2 - 1,
    ] {
        let r1 = ModInt::<924844033>::new((x % M1 as u64) as u32);
        let r2 = ModInt::<998244353>::new((x % M2 as u64) as u32);
        assert_eq!(garner(r1, r2), x);
    }
}

#[test]
fn garner_with_first_residue_larger() {
    // residues (5, 3): the first is the larger one
    let x = garner(ModInt::new(5), ModInt::new(3));
    assert_eq!(x % M1 as u64, 5);
    assert_eq!(x % M2 as u64, 3);
    assert!(x < M1M2);
}

#[test]
fn pixel_values() {
    assert_eq!(Pixel::from_unsigned(12345).as_u64(), 12345);
    assert_eq!(Pixel::from_unsigned(M1M2 + 7).as_u64(), 7);
    assert_eq!(Pixel::from_unsigned(u64::MAX).as_u64(), u64::MAX % M1M2);
    assert_eq!(Pixel::from_signed(-1).as_u64(), M1M2 - 1);
    assert_eq!(Pixel::from_signed(-32768).as_u64(), M1M2 - 32768);
    assert_eq!(Pixel::from_signed(32767).as_u64(), 32767);
    assert_eq!(Pixel::zero().as_u64(), 0);
}

#[test]
fn pixel_ring() {
    let a = Pixel::from_unsigned(M1M2 - 3);
    let b = Pixel::from_unsigned(10);
    assert_eq!(a.add(b).as_u64(), 7);
    assert_eq!(b.sub(a).as_u64(), 13);
    assert_eq!(a.sub(b).as_u64(), M1M2 - 13);
    assert_eq!(a.mul(b).as_u64(), M1M2 - 30);
    let big = Pixel::from_unsigned(10_000_000);
    assert_eq!(big.mul(big).as_u64(), 100_000_000_000_000);
    let neg = Pixel::from_signed(-5);
    assert_eq!(neg.mul(neg).as_u64(), 25);
}

#[test]
fn pixel_inner_round_trip() {
    let p = Pixel::from_unsigned(987654321987);
    let (r1, r2) = p.into_inner();
    assert_eq!(r1.as_u32() as u64, 987654321987 % M1 as u64);
    assert_eq!(r2.as_u32() as u64, 987654321987 % M2 as u64);
    assert_eq!(Pixel::from_inner((r1, r2)), p);
}

#[test]
fn pixel_clamps() {
    assert_eq!(Pixel::from_signed(-40000).clamp_exact(-32768, 32767), Pixel::from_signed(-32768));
    assert_eq!(Pixel::from_signed(40000).clamp_exact(-32768, 32767), Pixel::from_signed(32767));
    assert_eq!(Pixel::from_signed(-12).clamp_exact(-32768, 32767), Pixel::from_signed(-12));
    assert_eq!(Pixel::from_signed(-40000).clamp(-32768, 32767), Pixel::from_signed(-32768));
    assert_eq!(Pixel::from_signed(123).clamp(-32768, 32767), Pixel::from_signed(123));
    assert_eq!(Pixel::from_unsigned(70000).clip(), Pixel::from_unsigned(65535));
    assert_eq!(Pixel::from_unsigned(17).clip(), Pixel::from_unsigned(17));
    assert_eq!(Pixel::from_signed(-1).clip(), Pixel::from_unsigned(65535));
}

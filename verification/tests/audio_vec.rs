use procon2022_comp_2nd::audio_vec::composite::{Add, Clamped, Clipped, Delayed, Flipped, Sub};
use procon2022_comp_2nd::audio_vec::owned::pixel::{Pixel, M1M2};
use procon2022_comp_2nd::audio_vec::owned::Owned;
use procon2022_comp_2nd::audio_vec::AudioVec;

fn values<A: AudioVec>(v: &A, from: isize, to: isize) -> Vec<Option<u64>> {
    (from..to).map(|i| v.get(i).map(|p| p.as_u64())).collect()
}

fn stored(v: &Owned) -> Vec<u64> {
    (0..v.len() as isize).map(|i| v.get(i).unwrap().as_u64()).collect()
}

#[test]
fn owned_basics() {
    let empty = Owned::new();
    assert!(empty.is_empty());
    assert_eq!(empty.len(), 0);
    assert_eq!(empty.squared_norm(), 0);
    let v = Owned::from_raw_slice(&[3, 4, 5]);
    assert!(!v.is_empty());
    assert_eq!(v.len(), 3);
    assert_eq!(values(&v, -1, 4), vec![None, Some(3), Some(4), Some(5), None]);
    assert_eq!(stored(&v.copy()), vec![3, 4, 5]);
    let squares: Vec<u64> = v.squared().iter().map(|p| p.as_u64()).collect();
    assert_eq!(squares, vec![9, 16, 25]);
    assert_eq!(v.squared_norm(), 50);
}

#[test]
fn from_pixels_keeps_the_pixels() {
    let v = Owned::from_pixels(vec![Pixel::from_signed(-2), Pixel::from_unsigned(9)]);
    assert_eq!(stored(&v), vec![M1M2 - 2, 9]);
}

#[test]
fn from_pcm_folds_negative_samples() {
    let v = Owned::from_pcm(&[-1, 0, 1, i16::MIN, i16::MAX]);
    assert_eq!(stored(&v), vec![M1M2 - 1, 0, 1, M1M2 - 32768, 32767]);
}

#[test]
fn squared_norm_of_pcm() {
    let pcm: Vec<i16> = (0..1000).map(|i| ((i * 7919) % 65536 - 32768) as i16).collect();
    let expected: u64 = pcm.iter().map(|&x| (x as i64 * x as i64) as u64).sum();
    assert_eq!(Owned::from_pcm(&pcm).squared_norm(), expected % M1M2);
    assert_eq!(Owned::from_pcm(&[-3, 4]).squared_norm(), 25);
}

#[test]
fn resize_pads_and_cuts() {
    let mut v = Owned::from_raw_slice(&[1, 2, 3]);
    v.resize(5);
    assert_eq!(stored(&v), vec![1, 2, 3, 0, 0]);
    v.resize(2);
    assert_eq!(stored(&v), vec![1, 2]);
    v.resize(0);
    assert!(v.is_empty());
}

#[test]
fn delay_shifts_later() {
    let v = Owned::from_raw_slice(&[7, 8, 9]).delay(2);
    assert_eq!(values(&v, 0, 6), vec![None, None, Some(7), Some(8), Some(9), None]);
    assert_eq!(stored(&v.to_owned(4)), vec![0, 0, 7, 8]);
    let early = Owned::from_raw_slice(&[7, 8, 9]).delay(-1);
    assert_eq!(stored(&early.to_owned(3)), vec![8, 9, 0]);
}

#[test]
fn delay_of_delay_is_delay_of_sum() {
    let twice = Owned::from_raw_slice(&[1, 2, 3, 4]).delay(5).delay(-3);
    let once = Owned::from_raw_slice(&[1, 2, 3, 4]).delay(2);
    assert_eq!(values(&twice, -10, 10), values(&once, -10, 10));
}

#[test]
fn flip_mirrors_about_zero() {
    let v = Owned::from_raw_slice(&[7, 8, 9]).flip();
    assert_eq!(values(&v, -3, 2), vec![None, Some(9), Some(8), Some(7), None]);
    assert_eq!(v.get(isize::MIN), None);
}

#[test]
fn flip_of_flip_is_the_vector() {
    let v = Owned::from_raw_slice(&[7, 8, 9]);
    let back = Flipped { vec: Flipped { vec: v.copy() } };
    assert_eq!(values(&back, -5, 5), values(&v, -5, 5));
}

#[test]
fn flip_and_delay_read_backwards() {
    let v = Owned::from_raw_slice(&[1, 2, 3, 4]);
    let back = Delayed { vec: v.flip(), delay: 3 }.to_owned(4);
    assert_eq!(stored(&back), vec![4, 3, 2, 1]);
}

#[test]
fn add_and_sub_treat_missing_as_zero() {
    let a = Owned::from_raw_slice(&[10, 20, 30]);
    let b = Owned::from_raw_slice(&[1, 2]).delay(2);
    let sum: Add<Owned, Delayed<Owned>> = a.add(b);
    assert_eq!(values(&sum, -1, 5), vec![None, Some(10), Some(20), Some(31), Some(2), None]);
    let a = Owned::from_raw_slice(&[10, 20, 30]);
    let b = Owned::from_raw_slice(&[1, 2]).delay(2);
    let diff: Sub<Owned, Delayed<Owned>> = a.sub(b);
    assert_eq!(
        values(&diff, -1, 5),
        vec![None, Some(10), Some(20), Some(29), Some(M1M2 - 2), None]
    );
    assert_eq!(stored(&diff.to_owned(5)), vec![10, 20, 29, M1M2 - 2, 0]);
}

#[test]
fn clamp_exact_brings_into_sample_range() {
    let v = Owned::from_pixels(vec![
        Pixel::from_signed(-40000),
        Pixel::from_signed(-5),
        Pixel::from_signed(40000),
        Pixel::from_signed(9),
    ]);
    let clamped: Clamped<Owned> = v.clamp_exact(3);
    assert_eq!(
        values(&clamped, -1, 5),
        vec![None, Some(M1M2 - 32768), Some(M1M2 - 5), Some(32767), None, None]
    );
}

#[test]
fn clip_caps_each_residue() {
    let v = Owned::from_pixels(vec![
        Pixel::from_unsigned(70000),
        Pixel::from_unsigned(65535),
        Pixel::from_unsigned(9),
        Pixel::from_signed(-5),
        Pixel::from_unsigned(924844033 + 7),
        Pixel::from_unsigned(1),
    ]);
    let clipped: Clipped<Owned> = v.clip(5);
    // 924844033 + 7 has the residues 7 and 924844040: the second is capped
    let mixed = Pixel::from_unsigned(924844033 + 7).clip();
    let (r1, r2) = mixed.into_inner();
    assert_eq!((r1.as_u32(), r2.as_u32()), (7, 65535));
    assert_eq!(
        values(&clipped, -1, 7),
        vec![None, Some(65535), Some(65535), Some(9), Some(65535), Some(mixed.as_u64()), None, None]
    );
    // one residue of 70000 alone would be 70000: each is 65535
    let (r1, r2) = clipped.get(0).unwrap().into_inner();
    assert_eq!((r1.as_u32(), r2.as_u32()), (65535, 65535));
}

#[test]
fn clip_of_clip_is_clip() {
    let v = Owned::from_pixels(vec![
        Pixel::from_unsigned(70000),
        Pixel::from_signed(-5),
        Pixel::from_unsigned(924844033 + 7),
        Pixel::from_unsigned(12),
    ]);
    let once = values(&v.copy().clip(4), 0, 4);
    let twice = values(&v.clip(4).clip(4), 0, 4);
    assert_eq!(once, twice);
    for value in once {
        let p = Pixel::from_unsigned(value.unwrap());
        let (r1, r2) = p.into_inner();
        assert!(r1.as_u32() <= 65535 && r2.as_u32() <= 65535);
    }
}

#[test]
fn pre_emphasis_matches_a_naive_reference() {
    let pcm: Vec<i16> = (0..5000).map(|i| ((i * 7919 + 13) % 65536 - 32768) as i16).collect();
    let filtered: Vec<i64> = (0..pcm.len())
        .map(|i| {
            let here = pcm[i] as i64;
            let next = if i + 1 < pcm.len() { pcm[i + 1] as i64 } else { 0 };
            here + 40 * (next - here) + 32767
        })
        .collect();
    let v = Owned::from_pcm_emphasized(&pcm);
    assert_eq!(v.len(), pcm.len());
    let expected: Vec<u64> = filtered.iter().map(|&y| y.rem_euclid(M1M2 as i64) as u64).collect();
    assert_eq!(stored(&v), expected);
    let norm: u128 = filtered.iter().map(|&y| (y * y) as u128).sum();
    assert_eq!(v.squared_norm() as u128, norm % M1M2 as u128);
    assert_eq!(stored(&Owned::from_pcm_emphasized(&[1, 2])), vec![1 + 40 + 32767, (2 - 80 + 32767) as u64]);
}

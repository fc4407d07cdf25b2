use procon2022_comp_2nd::audio_vec::owned::ntt::Ntt;
use procon2022_comp_2nd::audio_vec::owned::pixel::M1M2;
use procon2022_comp_2nd::audio_vec::owned::Owned;

fn ugly_convolution(a: &[u32], b: &[u32]) -> Vec<u64> {
    let len = a.len() + b.len() - 1;
    let mut res = vec![0u128; len];
    for (i, &left) in a.iter().enumerate() {
        for (j, &right) in b.iter().enumerate() {
            res[i + j] += left as u128 * right as u128;
        }
    }
    res.into_iter().map(|v| (v % M1M2 as u128) as u64).collect()
}

#[test]
fn convolution1() {
    let a = [1, 2, 3, 4];
    let b = [5, 6, 7, 8, 9];

    let a_audio = Owned::from_raw_slice(&a);
    let b_audio = Owned::from_raw_slice(&b);
    let ntt1 = Ntt::new();
    let ntt2 = Ntt::new();
    let out = a_audio.convolution(&b_audio, (&ntt1, &ntt2));

    let expected = vec![5, 16, 34, 60, 70, 70, 59, 36];
    assert_eq!(out, expected);
}

#[test]
fn convolution2() {
    let a = [10000000];
    let b = [10000000];

    let a_audio = Owned::from_raw_slice(&a);
    let b_audio = Owned::from_raw_slice(&b);
    let ntt1 = Ntt::new();
    let ntt2 = Ntt::new();
    let out = a_audio.convolution(&b_audio, (&ntt1, &ntt2));

    let expected = vec![100000000000000];
    assert_eq!(out, expected);
}

#[test]
fn convolution3() {
    let a = [
        2452245, 25262467, 245594, 13401, 1341, 1349, 31459, 568249, 13843013, 46585340, 3434, 0,
        0, 0, 24573, 15134, 78943510, 9847, 58183745, 1846, 17043, 710,
    ];
    let b = [
        789708, 780967, 67670, 5656, 12134, 5, 656321, 0, 54580, 13, 2433435, 3823, 35548034,
        23894, 89708, 878659, 867970, 978, 60, 8, 8706850, 348, 69407, 68,
    ];

    let a_audio = Owned::from_raw_slice(&a);
    let b_audio = Owned::from_raw_slice(&b);
    let ntt1 = Ntt::new();
    let ntt2 = Ntt::new();
    let out = a_audio.convolution(&b_audio, (&ntt1, &ntt2));

    assert_eq!(out, ugly_convolution(&a, &b));
}

#[test]
fn tests_convolution1() {
    let a = [1, 2, 3, 4];
    let b = [5, 6, 7, 8, 9];

    let a_audio = Owned::from_raw_slice(&a);
    let b_audio = Owned::from_raw_slice(&b);
    let ntt1 = Ntt::new();
    let ntt2 = Ntt::new();
    let out = b_audio.convolution(&a_audio, (&ntt1, &ntt2));

    let expected = vec![5, 16, 34, 60, 70, 70, 59, 36];
    assert_eq!(out, expected);
}

#[test]
fn tests_convolution2() {
    let a = [10000000];
    let b = [10000000];

    let a_audio = Owned::from_raw_slice(&a);
    let b_audio = Owned::from_raw_slice(&b);
    let ntt1 = Ntt::new();
    let ntt2 = Ntt::new();
    let out = a_audio.convolution(&b_audio, (&ntt1, &ntt2));

    let expected = vec![100000000000000];
    assert_eq!(out, expected);
    // one prime alone would have given the residue
    assert_eq!(100000000000000u64 % 998244353, 871938225);
}

#[test]
fn tests_convolution3() {
    let a = [
        2452245, 25262467, 245594, 13401, 1341, 1349, 31459, 568249, 13843013, 46585340, 3434, 0,
        0, 0, 24573, 15134, 78943510, 9847, 58183745, 1846, 17043, 710,
    ];
    let b = [
        789708, 780967, 67670, 5656, 12134, 5, 656321, 0, 54580, 13, 2433435, 3823, 35548034,
        23894, 89708, 878659, 867970, 978, 60, 8, 8706850, 348, 69407, 68,
    ];

    let a_audio = Owned::from_raw_slice(&a);
    let b_audio = Owned::from_raw_slice(&b);
    let ntt1 = Ntt::new();
    let ntt2 = Ntt::new();
    let out = b_audio.convolution(&a_audio, (&ntt1, &ntt2));

    assert_eq!(out, ugly_convolution(&a, &b));
}

#[test]
fn convolution_of_empty_sides() {
    let ntt1 = Ntt::new();
    let ntt2 = Ntt::new();
    let empty = Owned::new();
    let some = Owned::from_raw_slice(&[1, 2, 3]);
    assert!(empty.convolution(&some, (&ntt1, &ntt2)).is_empty());
    assert!(some.convolution(&empty, (&ntt1, &ntt2)).is_empty());
    assert!(empty.convolution(&empty, (&ntt1, &ntt2)).is_empty());
}

#[test]
fn long_convolution_matches_schoolbook() {
    let ntt1 = Ntt::new();
    let ntt2 = Ntt::new();
    let mut state = 12345u64;
    let mut next = || {
        state = state.wrapping_mul(6364136223846793005).wrapping_add(1442695040888963407);
        ((state >> 33) % 80_000_000) as u32
    };
    for (la, lb) in [(41, 41), (50, 120), (200, 333), (1000, 1048)] {
        let a: Vec<u32> = (0..la).map(|_| next()).collect();
        let b: Vec<u32> = (0..lb).map(|_| next()).collect();
        let out = Owned::from_raw_slice(&a).convolution(&Owned::from_raw_slice(&b), (&ntt1, &ntt2));
        assert_eq!(out, ugly_convolution(&a, &b));
    }
}

#[test]
fn convolution_of_signed_samples() {
    let ntt1 = Ntt::new();
    let ntt2 = Ntt::new();
    let a: Vec<i16> = (0..100).map(|i| ((i * 37) % 201 - 100) as i16).collect();
    let b: Vec<i16> = (0..90).map(|i| ((i * 53) % 301 - 150) as i16).collect();
    let out = Owned::from_pcm(&a).convolution(&Owned::from_pcm(&b), (&ntt1, &ntt2));
    for t in 0..out.len() {
        let mut sum = 0i64;
        for i in 0..a.len() {
            if t >= i && t - i < b.len() {
                sum += a[i] as i64 * b[t - i] as i64;
            }
        }
        assert_eq!(out[t], sum.rem_euclid(M1M2 as i64) as u64);
    }
}

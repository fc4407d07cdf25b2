use procon2022_comp_2nd::audio_vec::owned::mod_int::ModInt;
use procon2022_comp_2nd::audio_vec::owned::ntt::primitive_root::{pow_mod, primitive_root};
use procon2022_comp_2nd::audio_vec::owned::ntt::Ntt;

fn sample(seed: u64, len: usize) -> Vec<u32> {
    let mut state = seed;
    let mut out = Vec::new();
    for _ in 0..len {
        state = state.wrapping_mul(6364136223846793005).wrapping_add(1442695040888963407);
        out.push((state >> 33) as u32);
    }
    out
}

fn residues<const M: u32>(values: &[u32]) -> Vec<ModInt<M>> {
    values.iter().map(|&v| ModInt::<M>::new(v)).collect()
}

fn schoolbook(a: &[u32], b: &[u32], m: u64) -> Vec<u32> {
    if a.is_empty() || b.is_empty() {
        return vec![];
    }
    let mut out = vec![0u64; a.len() + b.len() - 1];
    for (i, &x) in a.iter().enumerate() {
        for (j, &y) in b.iter().enumerate() {
            out[i + j] = (out[i + j] + (x as u64 % m) * (y as u64 % m)) % m;
        }
    }
    out.into_iter().map(|v| v as u32).collect()
}

#[test]
fn tables_are_ready() {
    assert!(Ntt::<998244353>::new().ready());
    assert!(Ntt::<924844033>::new().ready());
    assert_eq!(Ntt::<998244353>::level(), 23);
    assert_eq!(Ntt::<924844033>::level(), 21);
}

#[test]
fn primitive_roots() {
    assert_eq!(primitive_root(998244353), Some(3));
    assert_eq!(primitive_root(924844033), Some(5));
    assert_eq!(primitive_root(7), Some(3));
    assert_eq!(primitive_root(3), Some(2));
}

#[test]
fn pow_mod_values() {
    assert_eq!(pow_mod(2, 10, 1000), 24);
    assert_eq!(pow_mod(3, 998244352, 998244353), 1);
    assert_eq!(pow_mod(5, 0, 7), 1);
    assert_eq!(pow_mod(5, 3, 1), 0);
}

#[test]
fn tables_of_a_composite_modulus_are_not_ready() {
    assert!(!Ntt::<15>::new().ready());
}

#[test]
fn transform_of_short_vectors() {
    let ntt = Ntt::<998244353>::new();
    let mut empty: Vec<ModInt<998244353>> = vec![];
    ntt.transform(&mut empty);
    assert!(empty.is_empty());
    let mut one = residues::<998244353>(&[42]);
    ntt.transform(&mut one);
    assert_eq!(one[0].as_u32(), 42);
    ntt.inverse_transform(&mut one);
    assert_eq!(one[0].as_u32(), 42);
    // length two: one butterfly
    let mut two = residues::<998244353>(&[5, 3]);
    ntt.transform(&mut two);
    assert_eq!(two[0].as_u32(), 8);
    assert_eq!(two[1].as_u32(), 2);
}

#[test]
fn transform_evaluates_at_bit_reversed_powers() {
    // length four modulo 998244353: slot s holds the value at omega^bitrev(s)
    let ntt = Ntt::<998244353>::new();
    let m = 998244353u64;
    let v = [1u32, 2, 3, 4];
    let mut a = residues::<998244353>(&v);
    ntt.transform(&mut a);
    let im = pow_mod(3, (m - 1) / 4, m);
    let points = [1, m - 1, im, m - im];
    for s in 0..4 {
        let mut value = 0u64;
        let mut power = 1u64;
        for &c in &v {
            value = (value + c as u64 * power) % m;
            power = power * points[s] % m;
        }
        assert_eq!(a[s].as_u32() as u64, value);
    }
}

#[test]
fn inverse_undoes_transform() {
    let ntt1 = Ntt::<924844033>::new();
    let ntt2 = Ntt::<998244353>::new();
    for k in 0..11 {
        let len = 1usize << k;
        let values = sample(k as u64 + 1, len);
        let mut a = residues::<924844033>(&values);
        let expected = a.clone();
        ntt1.transform(&mut a);
        if len > 1 {
            assert_ne!(a, expected);
        }
        ntt1.inverse_transform(&mut a);
        assert_eq!(a, expected);
        let mut b = residues::<998244353>(&values);
        let expected = b.clone();
        ntt2.transform(&mut b);
        ntt2.inverse_transform(&mut b);
        assert_eq!(b, expected);
    }
}

#[test]
fn transform_is_linear() {
    let ntt = Ntt::<998244353>::new();
    let u = residues::<998244353>(&sample(11, 64));
    let v = residues::<998244353>(&sample(12, 64));
    let alpha = ModInt::<998244353>::new(123456);
    let beta = ModInt::<998244353>::new(998244000);
    let mut mix: Vec<_> = u.iter().zip(v.iter()).map(|(&x, &y)| alpha.mul(x).add(beta.mul(y))).collect();
    let mut fu = u.clone();
    let mut fv = v.clone();
    ntt.transform(&mut mix);
    ntt.transform(&mut fu);
    ntt.transform(&mut fv);
    for s in 0..64 {
        assert_eq!(mix[s], alpha.mul(fu[s]).add(beta.mul(fv[s])));
    }
}

#[test]
fn convolution_agrees_with_schoolbook() {
    let ntt = Ntt::<998244353>::new();
    for (la, lb) in [(0, 0), (0, 5), (3, 0), (1, 1), (4, 5), (40, 300), (41, 41), (41, 44), (64, 65), (100, 200), (333, 500)] {
        let a = sample(la as u64 * 31 + 7, la);
        let b = sample(lb as u64 * 17 + 3, lb);
        let out = ntt.convolution(&residues(&a), &residues(&b));
        let got: Vec<u32> = out.iter().map(|x| x.as_u32()).collect();
        assert_eq!(got, schoolbook(&a, &b, 998244353));
    }
    let ntt = Ntt::<924844033>::new();
    let a = sample(99, 700);
    let b = sample(98, 900);
    let out = ntt.convolution(&residues(&a), &residues(&b));
    let got: Vec<u32> = out.iter().map(|x| x.as_u32()).collect();
    assert_eq!(got, schoolbook(&a, &b, 924844033));
}

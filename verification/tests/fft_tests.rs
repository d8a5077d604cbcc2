use ole::fft::{
    digit_reverse_swap, fft2, fft2_in_place, fft2_inverse, fft3, fft3_in_place, fft3_inverse,
    seed_table,
};
use ole::field::{Fp, A, B};
use ole::poly::horner;
use ole::rng::Entropy;

fn random_vec(n: usize, rng: &mut Entropy) -> Vec<Fp> {
    let mut v = Vec::new();
    for _ in 0..n {
        v.push(Fp::random(rng));
    }
    v
}

#[test]
fn test_fft2() {
    let mut rng = Entropy::from_system();
    let coeffs: Vec<Fp> = random_vec(2048, &mut rng);
    let points = fft2(&coeffs, &Fp::alpha()).unwrap();
    for i in 0..1024 {
        assert_eq!(points[i], horner(&coeffs, &Fp::alpha().pow(i as u64)));
    }
}

#[test]
fn test_fft2_in_place() {
    let mut rng = Entropy::from_system();
    let coeffs: Vec<Fp> = random_vec(1024, &mut rng);
    let mut points = coeffs.clone();
    fft2_in_place(&mut points, &Fp::alpha()).unwrap();
    for i in 0..1024 {
        let actual = points[i];
        let expected = horner(&coeffs, &Fp::alpha().pow(i as u64));
        assert!(actual == expected, "point {} is incorrect", i);
    }

    let coeffs: Vec<Fp> = random_vec(512, &mut rng);
    let mut points = coeffs.clone();
    fft2_in_place(&mut points, &Fp::alpha().pow(2)).unwrap();
    for i in 0..512 {
        let actual = points[i];
        let expected = horner(&coeffs, &Fp::alpha().pow(2 * i as u64));
        assert!(actual == expected, "point {} is incorrect", i);
    }
}

#[test]
fn test_fft2_inverse() {
    let mut rng = Entropy::from_system();
    let points: Vec<Fp> = random_vec(A, &mut rng);
    let mut coeffs = points.clone();
    fft2_inverse(&mut coeffs, &Fp::alpha()).unwrap();
    for (idx, point) in points.iter().enumerate() {
        assert_eq!(*point, horner(&coeffs, &Fp::alpha().pow(idx as u64)));
    }
}

#[test]
fn test_fft3() {
    let mut rng = Entropy::from_system();
    let coeffs: Vec<Fp> = random_vec(B, &mut rng);
    let points = fft3(&coeffs, &Fp::beta()).unwrap();
    for i in 0..100 {
        assert_eq!(points[i], horner(&coeffs, &Fp::beta().pow(i as u64)));
    }
}

#[test]
fn test_fft3_in_place() {
    let mut rng = Entropy::from_system();
    let coeffs: Vec<Fp> = random_vec(B, &mut rng);
    let mut points = coeffs.clone();
    fft3_in_place(&mut points, &Fp::beta()).unwrap();
    for i in 0..102 {
        let actual = points[i];
        let expected = horner(&coeffs, &Fp::beta().pow(i as u64));
        assert!(actual == expected, "point {} is incorrect", i);
    }

    let coeffs: Vec<Fp> = random_vec(B / 9, &mut rng);
    let mut points = coeffs.clone();
    fft3_in_place(&mut points, &Fp::beta().pow(9)).unwrap();
    for i in 0..102 {
        let actual = points[i];
        let expected = horner(&coeffs, &Fp::beta().pow(9 * i as u64));
        assert!(actual == expected, "point {} is incorrect", i);
    }
}

#[test]
fn test_fft3_inverse() {
    let mut rng = Entropy::from_system();
    let points: Vec<Fp> = random_vec(B, &mut rng);
    let mut coeffs = points.clone();
    fft3_inverse(&mut coeffs, &Fp::beta()).unwrap();
    for (idx, point) in points.iter().take(100).enumerate() {
        assert_eq!(*point, horner(&coeffs, &Fp::beta().pow(idx as u64)));
    }
}

#[test]
fn test_digit_reverse_swap() {
    let mut a: Vec<usize> = (0..81usize).collect();
    digit_reverse_swap(&mut a, 3).unwrap();

    assert_eq!(a[7], 45);
    assert_eq!(a[2], 54);
    assert_eq!(a[57], 11);
    assert_eq!(a[30], 10);

    let mut a: Vec<usize> = (0..243usize).collect();
    digit_reverse_swap(&mut a, 3).unwrap();

    assert_eq!(a[140], 196);
    assert_eq!(a[9], 9);
    assert_eq!(a[225], 17);
}

#[test]
fn test_seed_table() {
    let n = 81usize;
    let n1 = 9usize;
    let base = 3usize;

    let table = seed_table(base, n, n1);
    assert_eq!(table[1], 27);
    assert_eq!(table[7], 45);
    assert_eq!(table[2], 54);
    assert_eq!(table[3], 9);
    assert_eq!(table[6], 18);
    assert_eq!(table[8], 72);
}

#[test]
fn test_fft_fft_inverse_identity() {
    let mut rng = Entropy::from_system();
    let coeffs: Vec<Fp> = random_vec(B, &mut rng);
    let mut coeffs_clone = coeffs.clone();
    fft3_in_place(&mut coeffs_clone, &Fp::beta()).unwrap();
    fft3_inverse(&mut coeffs_clone, &Fp::beta()).unwrap();
    for (c_actual, c_expected) in coeffs_clone.iter().zip(&coeffs) {
        assert_eq!(*c_actual, *c_expected);
    }

    let coeffs: Vec<Fp> = random_vec(A, &mut rng);
    let mut coeffs_clone = coeffs.clone();
    fft2_in_place(&mut coeffs_clone, &Fp::alpha()).unwrap();
    fft2_inverse(&mut coeffs_clone, &Fp::alpha()).unwrap();
    for (c_actual, c_expected) in coeffs_clone.iter().zip(&coeffs) {
        assert_eq!(*c_actual, *c_expected);
    }
}

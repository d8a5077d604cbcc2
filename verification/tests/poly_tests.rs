use ole::encoding::pick_indices;
use ole::fft::fft2_in_place;
use ole::field::{Fp, A};
use ole::poly::{
    euclid_division, horner, lagrangian_interpolation, naive_poly_mult, poly_add, poly_from_roots,
};
use ole::rng::Entropy;

fn random_vec(n: usize, rng: &mut Entropy) -> Vec<Fp> {
    let mut v = Vec::new();
    for _ in 0..n {
        v.push(Fp::random(rng));
    }
    v
}

#[test]
fn test_lagrangian_interpolation() {
    let mut rng = Entropy::from_system();
    let mut coeffs: Vec<Fp> = random_vec(A / 2, &mut rng);
    coeffs.resize(A, Fp::zero());

    let mut ys = coeffs.clone();
    fft2_in_place(&mut ys, &Fp::alpha()).unwrap();

    let xs = pick_indices(A / 2, A, &mut rng);
    let ys_: Vec<Fp> = xs.iter().map(|i| ys[*i]).collect();
    let xs_: Vec<Fp> = xs.iter().map(|i| Fp::alpha().pow(*i as u64)).collect();

    let result = lagrangian_interpolation(&xs_, &ys_).unwrap();
    assert_eq!(result, coeffs[0]);
}

#[test]
fn test_poly_add() {
    let mut rng = Entropy::from_system();
    let a: Vec<Fp> = random_vec(101, &mut rng);
    let b: Vec<Fp> = random_vec(22, &mut rng);
    let mut c = a.clone();
    poly_add(&mut c, &b);
    for _ in 0..1000 {
        let point = Fp::random(&mut rng);
        let a_ = horner(&a, &point);
        let b_ = horner(&b, &point);
        let c_ = horner(&c, &point);
        assert_eq!(a_.add(b_), c_);
    }
}

#[test]
fn test_naive_poly_mult() {
    let mut rng = Entropy::from_system();
    let a: Vec<Fp> = random_vec(101, &mut rng);
    let b: Vec<Fp> = random_vec(22, &mut rng);
    let prod = naive_poly_mult(&a, &b);
    for _ in 0..1000 {
        let point = Fp::random(&mut rng);
        let a_ = horner(&a, &point);
        let b_ = horner(&b, &point);
        let c_ = horner(&prod, &point);
        assert_eq!(a_.mul(b_), c_);
    }
}

#[test]
fn test_euclid_division() {
    let mut rng = Entropy::from_system();
    let a: Vec<Fp> = random_vec(83, &mut rng);
    let b: Vec<Fp> = random_vec(22, &mut rng);
    let (q, r) = euclid_division(&a, &b).unwrap();
    let mut actual = naive_poly_mult(&q, &b);
    poly_add(&mut actual, &r);

    for (idx, coeff) in a.iter().enumerate() {
        assert_eq!(actual[idx], *coeff);
    }
}

#[test]
fn test_horner() {
    let coeffs = vec![Fp::new(17), Fp::new(12), Fp::new(19)];
    assert_eq!(Fp::new(288944), horner(&coeffs, &Fp::new(123)));
}

#[test]
fn test_poly_from_roots() {
    let mut rng = Entropy::from_system();
    let roots: Vec<Fp> = random_vec(100, &mut rng);
    let coeffs = poly_from_roots(&roots);
    for root in roots {
        assert_eq!(horner(&coeffs, &root), Fp::zero());
    }

    let roots = vec![Fp::new(1231), Fp::new(2), Fp::new(17)];
    let coeffs = poly_from_roots(&roots);
    assert_eq!(
        horner(&coeffs, &Fp::new(1111)),
        Fp::new(152137607412117916810699707336663532273)
    );
    assert_eq!(horner(&coeffs, &Fp::new(213131)), Fp::new(9624661948301400));
}

use ole::field::{Fp, A, B};
use ole::fmath::Q;
use ole::rng::Entropy;

#[test]
fn test_fp_block_conversion() {
    let mut rng = Entropy::from_system();
    for _ in 0..1000 {
        let v = Fp::random(&mut rng);
        let v_ = v.clone();
        let block = v.to_block();
        let v_from_block = Fp::from_block(&block).unwrap();
        assert_eq!(v_, v_from_block);
    }
}

#[test]
fn test_subgroup_orders() {
    // alpha generates the order-A subgroup and alpha^(A/2) is -1
    assert_eq!(Fp::alpha().pow(A as u64), Fp::one());
    assert_eq!(Fp::alpha().pow((A / 2) as u64), Fp::new(Q - 1));
    // beta generates the order-B subgroup: beta^B = 1 and beta^(B/3) != 1
    assert_eq!(Fp::beta().pow(B as u64), Fp::one());
    assert_ne!(Fp::beta().pow((B / 3) as u64), Fp::one());
}

#[test]
fn test_field_arithmetic_identities() {
    let mut rng = Entropy::from_system();
    for _ in 0..100 {
        let a = Fp::random(&mut rng);
        let b = Fp::random(&mut rng);
        assert_eq!(a.add(b), b.add(a));
        assert_eq!(a.sub(b).add(b), a);
        assert_eq!(a.mul(b), b.mul(a));
        assert_eq!(a.add(a.neg()), Fp::zero());
        assert_eq!(a.mul(Fp::one()), a);
        if !a.is_zero() {
            let inv = a.invert().unwrap();
            assert_eq!(a.mul(inv), Fp::one());
        }
    }
    assert!(Fp::zero().invert().is_none());
}

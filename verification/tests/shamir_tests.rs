use ole::encoding::pick_indices;
use ole::field::{Fp, A, B};
use ole::rng::Entropy;
use ole::shamir::{reconstruct, share};

#[test]
fn test_share_reconstruct() {
    let mut rng = Entropy::from_system();
    let secret = Fp::random(&mut rng);
    let n = B as u64;
    let rho = n - A as u64;
    let omega = Fp::beta();

    let shares = share(&secret, n, rho, &omega, &mut rng).unwrap();
    let indices: Vec<usize> = pick_indices(rho as usize, n as usize, &mut rng);
    let myshares: Vec<Fp> = indices.iter().map(|i| shares[*i]).collect();
    let reconstructed = reconstruct(&indices, &myshares, n, rho, &omega).unwrap();

    assert_eq!(reconstructed, secret)
}

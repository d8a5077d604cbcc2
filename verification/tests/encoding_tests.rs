use ole::encoding::{decode_reed_solomon, encode_reed_solomon, pad_every_other, pick_indices};
use ole::fft::{fft2_in_place, fft2_inverse, fft3_in_place};
use ole::field::{Fp, A, B};
use ole::poly::{horner, poly_add};
use ole::rng::Entropy;

fn random_vec(n: usize, rng: &mut Entropy) -> Vec<Fp> {
    let mut v = Vec::new();
    for _ in 0..n {
        v.push(Fp::random(rng));
    }
    v
}

#[test]
fn test_pick_indices_bounds() {
    let mut rng = Entropy::from_system();
    let empty = pick_indices(0, 5, &mut rng);
    assert!(empty.is_empty());
    let all = pick_indices(5, 5, &mut rng);
    assert_eq!(all, vec![0, 1, 2, 3, 4]);
    let some = pick_indices(3, 100, &mut rng);
    assert_eq!(some.len(), 3);
    assert!(some[0] < some[1] && some[1] < some[2] && some[2] < 100);
}

#[test]
fn test_pad_every_other() {
    let mut rng = Entropy::from_system();
    let points: Vec<Fp> = random_vec(100, &mut rng);

    let padded = pad_every_other(&points, &mut rng);
    for (i, point) in points.iter().enumerate() {
        assert_eq!(*point, padded[i * 2]);
    }
}

#[test]
fn test_encode_decode2() {
    let mut rng = Entropy::from_system();
    let points: Vec<Fp> = random_vec(A / 2 - 1, &mut rng);

    let (mut encoded, poly, pos) = encode_reed_solomon(&points, &mut rng);
    for (i, p) in points.iter().enumerate() {
        assert_eq!(*p, horner(&poly, &Fp::alpha().pow((2 * i) as u64)));
    }
    assert!(encoded.len() == B);
    assert!(poly.len() == A / 2);
    assert!(pos.len() == A);

    let mut a: Vec<Fp> = random_vec(A / 2, &mut rng);
    let a_copy = a.clone();
    fft2_inverse(&mut a, &Fp::alpha().pow(2)).unwrap();
    let a_poly = a.clone();
    a.resize(B, Fp::zero());
    fft3_in_place(&mut a, &Fp::beta()).unwrap();

    let mut b: Vec<Fp> = random_vec(A, &mut rng);
    let b_copy = b.clone();
    fft2_inverse(&mut b, &Fp::alpha()).unwrap();
    let b_poly = b.clone();
    b.resize(B, Fp::zero());
    fft3_in_place(&mut b, &Fp::beta()).unwrap();

    let mut j = 0;
    for idx in 0..B {
        encoded[idx] = encoded[idx].mul(a[idx]);
        if j < pos.len() && idx != pos[j] {
            encoded[idx] = encoded[idx].add(Fp::random(&mut rng));
        } else {
            j += 1;
        }
    }
    poly_add(&mut encoded, &b);

    let mut decoded_poly = decode_reed_solomon(&mut encoded, &pos).unwrap();
    let decoded_copy = decoded_poly.clone();
    fft2_in_place(&mut decoded_poly, &Fp::alpha()).unwrap();

    for (idx, p) in points.iter().enumerate() {
        let expected = p.mul(a_copy[idx]).add(b_copy[idx * 2]);
        assert_eq!(expected, decoded_poly[idx * 2]);
    }

    let z = Fp::random(&mut rng);
    let test = horner(&poly, &z).mul(horner(&a_poly, &z)).add(horner(&b_poly, &z));
    let test2 = horner(&decoded_copy, &z);
    assert_eq!(test, test2);
}

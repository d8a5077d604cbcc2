use ole::hash::{bytes_eq, sha256};
use ole::rng::Entropy;

fn hex_to_bytes(hex: &str) -> Vec<u8> {
    let chars: Vec<u8> = hex.bytes().collect();
    let mut out = Vec::new();
    for pair in chars.chunks(2) {
        let hi = (pair[0] as char).to_digit(16).unwrap() as u8;
        let lo = (pair[1] as char).to_digit(16).unwrap() as u8;
        out.push(hi * 16 + lo);
    }
    out
}

#[test]
fn test_sha256_known_vectors() {
    let zeros = vec![0u8; 16];
    assert_eq!(
        sha256(&zeros),
        hex_to_bytes("374708fff7719dd5979ec875d56cd2286f6d3cf7ec317a3b25632aab28ec37bb")
    );
    let ramp: Vec<u8> = (0u8..16).collect();
    assert_eq!(
        sha256(&ramp),
        hex_to_bytes("be45cb2605bf36bebde684841a28f0fd43c69850a3dce5fedba69928ee3a8991")
    );
}

#[test]
fn test_bytes_eq() {
    assert!(bytes_eq(&vec![1, 2, 3], &vec![1, 2, 3]));
    assert!(!bytes_eq(&vec![1, 2, 3], &vec![1, 2, 4]));
    assert!(!bytes_eq(&vec![1, 2], &vec![1, 2, 3]));
}

#[test]
fn test_entropy_below_bound() {
    let mut rng = Entropy::from_system();
    for _ in 0..100 {
        assert_eq!(rng.below(1), 0);
        assert!(rng.below(7) < 7);
    }
}

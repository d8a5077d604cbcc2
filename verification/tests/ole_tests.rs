use ole::error::OleError;
use ole::field::{Fp, B};
use ole::ole::{OleReceiver, OleSender, SessionState};
use ole::rng::Entropy;

fn random_vec(n: usize, rng: &mut Entropy) -> Vec<Fp> {
    let mut v = Vec::new();
    for _ in 0..n {
        v.push(Fp::random(rng));
    }
    v
}

/// Drives one honest invocation of the protocol, playing the channel and
/// the oblivious transfer between the two parties.
fn run_honest(a: &Vec<Fp>, b: &Vec<Fp>, x: &Vec<Fp>) -> Vec<Fp> {
    let mut rng = Entropy::from_system();
    let mut sender = OleSender::new();
    let mut receiver = OleReceiver::new();

    let (com, pairs) = sender.input_begin(a, b, &mut rng).unwrap();
    let choices = receiver.input_begin(x, &mut rng).unwrap();
    let transferred: Vec<Fp> = (0..B)
        .map(|i| if choices[i] { pairs[i].1 } else { pairs[i].0 })
        .collect();
    let (s_prime, codeword) = receiver.input_ot(&com, &transferred).unwrap();
    sender.input_secret(s_prime).unwrap();
    let w = sender.input_codeword(&codeword, &mut rng).unwrap();
    let zr = receiver.input_w(&w, &mut rng).unwrap();
    let (a_zr, b_zr, zs) = sender.input_challenge(zr, &mut rng).unwrap();
    let (x_zs, y_zs) = receiver.input_sender_values(a_zr, b_zr, zs).unwrap();
    sender.input_verify(zs, x_zs, y_zs).unwrap();
    let y = receiver.input_finish().unwrap();

    assert_eq!(sender.state, SessionState::Ready);
    assert_eq!(receiver.state, SessionState::Ready);
    y
}

#[test]
fn test_ole_smoke() {
    let a = vec![Fp::new(1)];
    let b = vec![Fp::new(0)];
    let x = vec![Fp::new(7)];
    let y = run_honest(&a, &b, &x);
    assert_eq!(y, vec![Fp::new(7)]);
}

#[test]
fn test_ole_zeros() {
    let mut rng = Entropy::from_system();
    let a = vec![Fp::new(0); 128];
    let b = vec![Fp::new(5); 128];
    let x = random_vec(128, &mut rng);
    let y = run_honest(&a, &b, &x);
    assert_eq!(y, b);
}

#[test]
fn test_ole_identity() {
    let mut rng = Entropy::from_system();
    let a = vec![Fp::new(1); 128];
    let b = vec![Fp::new(0); 128];
    let x = random_vec(128, &mut rng);
    let y = run_honest(&a, &b, &x);
    assert_eq!(y, x);
}

#[test]
fn test_ole_random() {
    let mut rng = Entropy::from_system();
    let a = random_vec(128, &mut rng);
    let b = random_vec(128, &mut rng);
    let x = random_vec(128, &mut rng);
    let y = run_honest(&a, &b, &x);
    for i in 0..128 {
        assert_eq!(y[i], a[i].mul(x[i]).add(b[i]));
    }
}

#[test]
fn test_ole_commitment_abort() {
    let mut rng = Entropy::from_system();
    let a = random_vec(128, &mut rng);
    let b = random_vec(128, &mut rng);
    let x = random_vec(128, &mut rng);

    let mut sender = OleSender::new();
    let mut receiver = OleReceiver::new();
    let (mut com, pairs) = sender.input_begin(&a, &b, &mut rng).unwrap();
    // a corrupted commitment must be caught when the secret is checked
    com[0] ^= 1;
    let choices = receiver.input_begin(&x, &mut rng).unwrap();
    let transferred: Vec<Fp> = (0..B)
        .map(|i| if choices[i] { pairs[i].1 } else { pairs[i].0 })
        .collect();
    let err = receiver.input_ot(&com, &transferred).unwrap_err();
    assert_eq!(err, OleError::CommitmentMismatch);
    assert_eq!(receiver.state, SessionState::Aborted);
}

#[test]
fn test_ole_identity_abort() {
    let mut rng = Entropy::from_system();
    let a = random_vec(128, &mut rng);
    let b = random_vec(128, &mut rng);
    let x = random_vec(128, &mut rng);

    let mut sender = OleSender::new();
    let mut receiver = OleReceiver::new();
    let (com, pairs) = sender.input_begin(&a, &b, &mut rng).unwrap();
    let choices = receiver.input_begin(&x, &mut rng).unwrap();
    let transferred: Vec<Fp> = (0..B)
        .map(|i| if choices[i] { pairs[i].1 } else { pairs[i].0 })
        .collect();
    let (s_prime, codeword) = receiver.input_ot(&com, &transferred).unwrap();
    sender.input_secret(s_prime).unwrap();
    let mut w = sender.input_codeword(&codeword, &mut rng).unwrap();
    // a single flipped element of W on a used position must fail the
    // identity check; positions off the secret set carry no information
    let hit = receiver.indices[17];
    w[hit] = w[hit].add(Fp::new(1));
    let zr = receiver.input_w(&w, &mut rng).unwrap();
    let (a_zr, b_zr, zs) = sender.input_challenge(zr, &mut rng).unwrap();
    let err = receiver.input_sender_values(a_zr, b_zr, zs).unwrap_err();
    assert_eq!(err, OleError::IdentityCheckFailed);
    assert_eq!(receiver.state, SessionState::Aborted);
}

#[test]
fn test_length_mismatch_keeps_session() {
    let mut rng = Entropy::from_system();
    let a = random_vec(3, &mut rng);
    let b = random_vec(4, &mut rng);
    let mut sender = OleSender::new();
    let err = sender.input_begin(&a, &b, &mut rng).unwrap_err();
    assert_eq!(err, OleError::LengthMismatch);
    assert_eq!(sender.state, SessionState::Ready);
}

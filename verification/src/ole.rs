//! The OLE protocol itself: the sender and receiver state machines for one
//! interactive invocation. The byte channel and the oblivious transfer are
//! the host's: each party's methods consume the values read from the wire
//! and produce the values to write, in the protocol's fixed order. Any
//! failed check aborts the session; an aborted session refuses further use.
use crate::encoding::{
    clone_vec, decode_reed_solomon, encode_reed_solomon, extend_transform, interpolate_full,
    interpolate_input, pad_every_other,
};
use crate::error::OleError;
use crate::fft::{fft2, fft_inverse_ok, idft};
use crate::field::{all_wf, bytes_le_val, vals, Fp, A, ALPHA, B, BETA};
use crate::fmath::{f_add, f_mul, f_pow, f_sub};
use crate::hash::{bytes_eq, sha256, sha256_of};
use crate::poly::{coeff, horner, poly_eval, poly_from_roots_sp, poly_mul_coeff};
use crate::rng::Entropy;
use crate::shamir::{reconstruct, share};
use vstd::prelude::*;

verus! {

/// The lifecycle of a session: Ready between calls, InCall inside one
/// invocation, Aborted after any failure. An aborted session is dead.
#[derive(Clone, Copy, Debug, PartialEq, Eq, Structural)]
pub enum SessionState {
    Ready,
    InCall,
    Aborted,
}

/// Where the sender stands inside one invocation.
#[derive(Clone, Copy, Debug, PartialEq, Eq, Structural)]
pub enum SenderPhase {
    Idle,
    AwaitSecret,
    AwaitCodeword,
    AwaitChallenge,
    AwaitResponse,
}

/// Where the receiver stands inside one invocation.
#[derive(Clone, Copy, Debug, PartialEq, Eq, Structural)]
pub enum ReceiverPhase {
    Idle,
    AwaitOt,
    AwaitW,
    AwaitSenderValues,
    Finish,
}

/// The sender's session: the state machine and the data of the call in
/// flight.
pub struct OleSender {
    pub state: SessionState,
    pub phase: SenderPhase,
    pub mask: Vec<Fp>,
    pub secret: Fp,
    pub a_poly: Vec<Fp>,
    pub b_poly: Vec<Fp>,
    pub call_a: Vec<Fp>,
    pub call_b: Vec<Fp>,
}

impl OleSender {
    pub open spec fn wf(self) -> bool {
        &&& all_wf(self.mask@)
        &&& self.secret.wf()
        &&& all_wf(self.a_poly@)
        &&& all_wf(self.b_poly@)
        &&& all_wf(self.call_a@)
        &&& all_wf(self.call_b@)
        &&& (self.state == SessionState::InCall ==> self.mask@.len() == B
            && self.call_a@.len() == self.call_b@.len() && 1 <= self.call_a@.len() <= A / 2)
        &&& (self.phase == SenderPhase::AwaitChallenge || self.phase
            == SenderPhase::AwaitResponse ==> self.a_poly@.len() == A / 2 && self.b_poly@.len()
            == A)
    }

    /// A fresh session, ready for its first call. The host sets up its
    /// oblivious-transfer pool separately.
    pub fn new() -> (s: OleSender)
        ensures
            s.wf(),
            s.state == SessionState::Ready,
            s.phase == SenderPhase::Idle,
    {
        OleSender {
            state: SessionState::Ready,
            phase: SenderPhase::Idle,
            mask: Vec::new(),
            secret: Fp { v: 0 },
            a_poly: Vec::new(),
            b_poly: Vec::new(),
            call_a: Vec::new(),
            call_b: Vec::new(),
        }
    }

    /// Starts one call on inputs a, b: samples the mask and the Shamir
    /// secret, commits to the secret, and lays out the (share, mask) pair
    /// of every position for the oblivious transfer.
    pub fn input_begin(&mut self, a: &Vec<Fp>, b: &Vec<Fp>, rng: &mut Entropy) -> (res: Result<
        (Vec<u8>, Vec<(Fp, Fp)>),
        OleError,
    >)
        requires
            old(self).wf(),
            all_wf(a@),
            all_wf(b@),
        ensures
            final(self).wf(),
            old(self).state != SessionState::Ready ==> res is Err && res->Err_0
                == OleError::PreconditionError && *final(self) == *old(self),
            old(self).state == SessionState::Ready && (a@.len() != b@.len() || a@.len() > A / 2
                || a@.len() == 0) ==> res is Err && res->Err_0 == OleError::LengthMismatch
                && *final(self) == *old(self),
            res is Ok <==> old(self).state == SessionState::Ready && a@.len() == b@.len() && 1
                <= a@.len() <= A / 2,
            res is Ok ==> ({
                &&& final(self).state == SessionState::InCall
                &&& final(self).phase == SenderPhase::AwaitSecret
                &&& final(self).call_a@ == a@
                &&& final(self).call_b@ == b@
                &&& res->Ok_0.0@.len() == 32
                &&& res->Ok_0.1@.len() == B
                &&& (forall|i: int|
                    0 <= i < B ==> (#[trigger] res->Ok_0.1@[i]).1 == final(self).mask@[i])
                &&& (exists|bs: Seq<u8>|
                    bs.len() == 16 && bytes_le_val(bs) == final(self).secret.val() && res->Ok_0.0@
                        == sha256_of(bs))
            }),
    {
        if !(matches!(self.state, SessionState::Ready)) {
            return Err(OleError::PreconditionError);
        }
        if a.len() != b.len() || a.len() > A / 2 || a.len() == 0 {
            return Err(OleError::LengthMismatch);
        }
        let mut mask: Vec<Fp> = Vec::new();
        let mut i: usize = 0;
        while i < B
            invariant
                mask@.len() == i,
                i <= B,
                all_wf(mask@),
            decreases B - i,
        {
            mask.push(Fp::random(rng));
            i = i + 1;
        }
        let secret = Fp::random(rng);
        let shares = match share(&secret, B as u64, (B - A) as u64, &Fp::beta(), rng) {
            Ok(s) => s,
            Err(_) => {
                // the parameters make the sharing total here
                proof {
                    crate::params::lemma_beta_params();
                    assert(false);
                }
                return Err(OleError::PreconditionError);
            },
        };
        let wire = secret.to_block();
        let com = sha256(&wire);
        let mut pairs: Vec<(Fp, Fp)> = Vec::new();
        let mut i: usize = 0;
        while i < B
            invariant
                pairs@.len() == i,
                i <= B,
                shares@.len() == B,
                mask@.len() == B,
                all_wf(mask@),
                forall|j: int| 0 <= j < i ==> (#[trigger] pairs@[j]).1 == mask@[j],
            decreases B - i,
        {
            let ghost p0 = pairs@;
            pairs.push((shares[i], mask[i]));
            i = i + 1;
            proof {
                assert(pairs@ =~= p0.push(pairs@[pairs@.len() - 1]));
            }
        }
        self.state = SessionState::InCall;
        self.phase = SenderPhase::AwaitSecret;
        self.mask = mask;
        self.secret = secret;
        self.call_a = clone_vec(a);
        self.call_b = clone_vec(b);
        Ok((com, pairs))
    }

    /// Checks the secret the receiver revealed against the sender's own:
    /// a mismatch aborts the session.
    pub fn input_secret(&mut self, s_prime: Fp) -> (res: Result<(), OleError>)
        requires
            old(self).wf(),
            s_prime.wf(),
        ensures
            final(self).wf(),
            !(old(self).state == SessionState::InCall && old(self).phase
                == SenderPhase::AwaitSecret) ==> res is Err && res->Err_0
                == OleError::PreconditionError && *final(self) == *old(self),
            old(self).state == SessionState::InCall && old(self).phase
                == SenderPhase::AwaitSecret ==> ({
                &&& (res is Ok <==> s_prime == old(self).secret)
                &&& (res is Ok ==> final(self).phase == SenderPhase::AwaitCodeword && final(self).state == SessionState::InCall)
                &&& (res is Err ==> res->Err_0 == OleError::SecretMismatch && final(self).state
                    == SessionState::Aborted)
            }),
    {
        if !(matches!(self.state, SessionState::InCall) && matches!(
            self.phase,
            SenderPhase::AwaitSecret,
        )) {
            return Err(OleError::PreconditionError);
        }
        if s_prime.v != self.secret.v {
            self.state = SessionState::Aborted;
            return Err(OleError::SecretMismatch);
        }
        self.phase = SenderPhase::AwaitCodeword;
        Ok(())
    }

    /// Consumes the receiver's codeword V and produces the masked products
    /// W, with W[i] = A(beta^i) * V[i] + B(beta^i) + M[i], where A carries
    /// a on the even grid of the order-A subgroup and B carries b
    /// interleaved with randoms on the full grid.
    #[verifier::rlimit(100)]
    pub fn input_codeword(&mut self, v: &Vec<Fp>, rng: &mut Entropy) -> (res: Result<
        Vec<Fp>,
        OleError,
    >)
        requires
            old(self).wf(),
            all_wf(v@),
        ensures
            final(self).wf(),
            !(old(self).state == SessionState::InCall && old(self).phase
                == SenderPhase::AwaitCodeword && v@.len() == B) ==> res is Err && res->Err_0
                == OleError::PreconditionError && *final(self) == *old(self),
            res is Ok <==> old(self).state == SessionState::InCall && old(self).phase
                == SenderPhase::AwaitCodeword && v@.len() == B,
            res is Ok ==> ({
                &&& final(self).state == SessionState::InCall
                &&& final(self).phase == SenderPhase::AwaitChallenge
                &&& final(self).call_a@ == old(self).call_a@
                &&& final(self).call_b@ == old(self).call_b@
                &&& final(self).mask@ == old(self).mask@
                &&& final(self).secret == old(self).secret
                &&& final(self).a_poly@.len() == A / 2
                &&& final(self).b_poly@.len() == A
                &&& res->Ok_0@.len() == B
                &&& (forall|i: int|
                    0 <= i < B ==> vals(res->Ok_0@)[i] == f_add(
                        f_add(
                            f_mul(
                                poly_eval(
                                    vals(final(self).a_poly@),
                                    f_pow(BETA as nat, i as nat),
                                ),
                                vals(v@)[i],
                            ),
                            poly_eval(vals(final(self).b_poly@), f_pow(BETA as nat, i as nat)),
                        ),
                        vals(final(self).mask@)[i],
                    ))
                &&& (forall|i: int|
                    0 <= i < old(self).call_a@.len() ==> poly_eval(
                        vals(final(self).a_poly@),
                        f_pow(f_mul(ALPHA as nat, ALPHA as nat), i as nat),
                    ) == vals(old(self).call_a@)[i])
                &&& (forall|i: int|
                    0 <= i < old(self).call_b@.len() ==> poly_eval(
                        vals(final(self).b_poly@),
                        f_pow(ALPHA as nat, (2 * i) as nat),
                    ) == vals(old(self).call_b@)[i])
            }),
    {
        if !(matches!(self.state, SessionState::InCall) && matches!(
            self.phase,
            SenderPhase::AwaitCodeword,
        )) {
            return Err(OleError::PreconditionError);
        }
        if v.len() != B {
            return Err(OleError::PreconditionError);
        }
        let a_poly = interpolate_input(&self.call_a, rng);
        let b_interleaved = pad_every_other(&self.call_b, rng);
        let b_poly = interpolate_full(&b_interleaved, rng);
        let a_vals = extend_transform(&a_poly);
        let b_vals = extend_transform(&b_poly);
        let mut w: Vec<Fp> = Vec::new();
        let mut i: usize = 0;
        while i < B
            invariant
                w@.len() == i,
                i <= B,
                all_wf(w@),
                v@.len() == B,
                all_wf(v@),
                a_vals@.len() == B,
                b_vals@.len() == B,
                all_wf(a_vals@),
                all_wf(b_vals@),
                self.mask@.len() == B,
                all_wf(self.mask@),
                a_poly@.len() == A / 2,
                b_poly@.len() == A,
                all_wf(a_poly@),
                all_wf(b_poly@),
                forall|j: int|
                    0 <= j < B ==> vals(a_vals@)[j] == poly_eval(
                        vals(a_poly@),
                        f_pow(BETA as nat, j as nat),
                    ),
                forall|j: int|
                    0 <= j < B ==> vals(b_vals@)[j] == poly_eval(
                        vals(b_poly@),
                        f_pow(BETA as nat, j as nat),
                    ),
                forall|j: int|
                    0 <= j < i ==> vals(w@)[j] == f_add(
                        f_add(f_mul(vals(a_vals@)[j], vals(v@)[j]), vals(b_vals@)[j]),
                        vals(self.mask@)[j],
                    ),
            decreases B - i,
        {
            let ghost w0 = w@;
            let t = a_vals[i].mul(v[i]).add(b_vals[i]).add(self.mask[i]);
            w.push(t);
            i = i + 1;
            proof {
                assert(w@ =~= w0.push(t));
                assert forall|j: int|
                    0 <= j < i implies vals(w@)[j] == f_add(
                    f_add(f_mul(vals(a_vals@)[j], vals(v@)[j]), vals(b_vals@)[j]),
                    vals(self.mask@)[j],
                ) by {
                    assert(vals(w@)[j] == w@[j].v as nat);
                    if j < i - 1 {
                        assert(w@[j] == w0[j]);
                        assert(vals(w0)[j] == w0[j].v as nat);
                    } else {
                        assert(vals(a_vals@)[j] == a_vals@[j].v as nat);
                        assert(vals(b_vals@)[j] == b_vals@[j].v as nat);
                        assert(vals(v@)[j] == v@[j].v as nat);
                        assert(vals(self.mask@)[j] == self.mask@[j].v as nat);
                    }
                }
            }
        }
        proof {
            // b sits on the even grid: the interleaving placed it there
            assert forall|i2: int|
                0 <= i2 < self.call_b@.len() implies poly_eval(
                vals(b_poly@),
                f_pow(ALPHA as nat, (2 * i2) as nat),
            ) == vals(self.call_b@)[i2] by {
                assert(b_interleaved@[2 * i2] == self.call_b@[i2]);
                assert(vals(b_interleaved@)[2 * i2] == b_interleaved@[2 * i2].v as nat);
                assert(vals(self.call_b@)[i2] == self.call_b@[i2].v as nat);
            }
        }
        self.a_poly = a_poly;
        self.b_poly = b_poly;
        self.phase = SenderPhase::AwaitChallenge;
        Ok(w)
    }

    /// Answers the receiver's challenge: the evaluations of the carrier
    /// polynomials at the challenge point, and a fresh counter-challenge.
    pub fn input_challenge(&mut self, z_r: Fp, rng: &mut Entropy) -> (res: Result<
        (Fp, Fp, Fp),
        OleError,
    >)
        requires
            old(self).wf(),
            z_r.wf(),
        ensures
            final(self).wf(),
            !(old(self).state == SessionState::InCall && old(self).phase
                == SenderPhase::AwaitChallenge) ==> res is Err && res->Err_0
                == OleError::PreconditionError && *final(self) == *old(self),
            res is Ok <==> old(self).state == SessionState::InCall && old(self).phase
                == SenderPhase::AwaitChallenge,
            res is Ok ==> ({
                &&& final(self).state == SessionState::InCall
                &&& final(self).phase == SenderPhase::AwaitResponse
                &&& final(self).a_poly@ == old(self).a_poly@
                &&& final(self).b_poly@ == old(self).b_poly@
                &&& res->Ok_0.0.val() == poly_eval(vals(old(self).a_poly@), z_r.val())
                &&& res->Ok_0.1.val() == poly_eval(vals(old(self).b_poly@), z_r.val())
                &&& res->Ok_0.2.wf()
            }),
    {
        if !(matches!(self.state, SessionState::InCall) && matches!(
            self.phase,
            SenderPhase::AwaitChallenge,
        )) {
            return Err(OleError::PreconditionError);
        }
        let a_zr = horner(&self.a_poly, &z_r);
        let b_zr = horner(&self.b_poly, &z_r);
        let zs = Fp::random(rng);
        self.phase = SenderPhase::AwaitResponse;
        Ok((a_zr, b_zr, zs))
    }

    /// Verifies the receiver's response at the sender's counter-challenge:
    /// the session returns to Ready exactly when
    /// A(z_s) * X(z_s) + B(z_s) = Y(z_s).
    pub fn input_verify(&mut self, z_s: Fp, x_zs: Fp, y_zs: Fp) -> (res: Result<(), OleError>)
        requires
            old(self).wf(),
            z_s.wf(),
            x_zs.wf(),
            y_zs.wf(),
        ensures
            final(self).wf(),
            !(old(self).state == SessionState::InCall && old(self).phase
                == SenderPhase::AwaitResponse) ==> res is Err && res->Err_0
                == OleError::PreconditionError && *final(self) == *old(self),
            old(self).state == SessionState::InCall && old(self).phase
                == SenderPhase::AwaitResponse ==> ({
                &&& (res is Ok <==> f_add(
                    f_mul(poly_eval(vals(old(self).a_poly@), z_s.val()), x_zs.val()),
                    poly_eval(vals(old(self).b_poly@), z_s.val()),
                ) == y_zs.val())
                &&& (res is Ok ==> final(self).state == SessionState::Ready && final(self).phase
                    == SenderPhase::Idle)
                &&& (res is Err ==> res->Err_0 == OleError::IdentityCheckFailed && final(self).state == SessionState::Aborted)
            }),
    {
        if !(matches!(self.state, SessionState::InCall) && matches!(
            self.phase,
            SenderPhase::AwaitResponse,
        )) {
            return Err(OleError::PreconditionError);
        }
        let lhs = horner(&self.a_poly, &z_s).mul(x_zs).add(horner(&self.b_poly, &z_s));
        if lhs.v != y_zs.v {
            self.state = SessionState::Aborted;
            return Err(OleError::IdentityCheckFailed);
        }
        self.phase = SenderPhase::Idle;
        self.state = SessionState::Ready;
        Ok(())
    }
}

/// The receiver's session: the state machine and the data of the call in
/// flight.
pub struct OleReceiver {
    pub state: SessionState,
    pub phase: ReceiverPhase,
    pub call_x: Vec<Fp>,
    pub x_poly: Vec<Fp>,
    pub encoded: Vec<Fp>,
    pub indices: Vec<usize>,
    pub masks: Vec<Fp>,
    pub y_poly: Vec<Fp>,
    pub zr: Fp,
}

impl OleReceiver {
    pub open spec fn wf(self) -> bool {
        &&& all_wf(self.call_x@)
        &&& all_wf(self.x_poly@)
        &&& all_wf(self.encoded@)
        &&& all_wf(self.masks@)
        &&& all_wf(self.y_poly@)
        &&& self.zr.wf()
        &&& (self.state == SessionState::InCall ==> {
            &&& 1 <= self.call_x@.len() <= A / 2
            &&& self.x_poly@.len() == A / 2
            &&& self.encoded@.len() == B
            &&& self.indices@.len() == A
            &&& (forall|i: int, j: int|
                0 <= i < j < self.indices@.len() ==> self.indices@[i] < self.indices@[j])
            &&& (forall|i: int|
                0 <= i < self.indices@.len() ==> (#[trigger] self.indices@[i]) < B)
        })
        &&& (self.phase == ReceiverPhase::AwaitW || self.phase == ReceiverPhase::AwaitSenderValues
            || self.phase == ReceiverPhase::Finish ==> self.masks@.len() == A)
        &&& (self.phase == ReceiverPhase::AwaitSenderValues || self.phase
            == ReceiverPhase::Finish ==> self.y_poly@.len() == A)
    }

    /// A fresh session, ready for its first call.
    pub fn new() -> (s: OleReceiver)
        ensures
            s.wf(),
            s.state == SessionState::Ready,
            s.phase == ReceiverPhase::Idle,
    {
        OleReceiver {
            state: SessionState::Ready,
            phase: ReceiverPhase::Idle,
            call_x: Vec::new(),
            x_poly: Vec::new(),
            encoded: Vec::new(),
            indices: Vec::new(),
            masks: Vec::new(),
            y_poly: Vec::new(),
            zr: Fp { v: 0 },
        }
    }

    /// Starts one call on input x: encodes it into a codeword over the
    /// order-B grid behind a fresh secret index set, and returns the
    /// oblivious-transfer choice bits, true exactly on the set.
    #[verifier::rlimit(100)]
    pub fn input_begin(&mut self, x: &Vec<Fp>, rng: &mut Entropy) -> (res: Result<
        Vec<bool>,
        OleError,
    >)
        requires
            old(self).wf(),
            all_wf(x@),
        ensures
            final(self).wf(),
            old(self).state != SessionState::Ready ==> res is Err && res->Err_0
                == OleError::PreconditionError && *final(self) == *old(self),
            old(self).state == SessionState::Ready && (x@.len() > A / 2 || x@.len() == 0)
                ==> res is Err && res->Err_0 == OleError::LengthMismatch && *final(self) == *old(self),
            res is Ok <==> old(self).state == SessionState::Ready && 1 <= x@.len() <= A / 2,
            res is Ok ==> ({
                &&& final(self).state == SessionState::InCall
                &&& final(self).phase == ReceiverPhase::AwaitOt
                &&& final(self).call_x@ == x@
                &&& res->Ok_0@.len() == B
                &&& (forall|i: int|
                    0 <= i < B ==> ((#[trigger] res->Ok_0@[i]) <==> (exists|t: int|
                        0 <= t < A && final(self).indices@[t] == i)))
                &&& (forall|k: int|
                    0 <= k < A ==> vals(final(self).encoded@)[final(self).indices@[k] as int]
                        == poly_eval(
                        vals(final(self).x_poly@),
                        f_pow(BETA as nat, (#[trigger] final(self).indices@[k]) as nat),
                    ))
                &&& (forall|i: int|
                    0 <= i < x@.len() ==> poly_eval(
                        vals(final(self).x_poly@),
                        f_pow(f_mul(ALPHA as nat, ALPHA as nat), i as nat),
                    ) == vals(x@)[i])
            }),
    {
        if !(matches!(self.state, SessionState::Ready)) {
            return Err(OleError::PreconditionError);
        }
        if x.len() > A / 2 || x.len() == 0 {
            return Err(OleError::LengthMismatch);
        }
        let encoded3 = encode_reed_solomon(x, rng);
        let cw = encoded3.0;
        let x_poly = encoded3.1;
        let pos = encoded3.2;
        let mut choices: Vec<bool> = Vec::new();
        let mut j: usize = 0;
        let mut i: usize = 0;
        while i < B
            invariant
                choices@.len() == i,
                i <= B,
                j <= A,
                pos@.len() == A,
                forall|a: int, b: int| 0 <= a < b < pos@.len() ==> pos@[a] < pos@[b],
                forall|a: int| 0 <= a < pos@.len() ==> (#[trigger] pos@[a]) < B,
                j < A ==> pos@[j as int] >= i,
                forall|a: int| 0 <= a < j ==> (#[trigger] pos@[a]) < i,
                forall|p: int|
                    0 <= p < i ==> ((#[trigger] choices@[p]) <==> (exists|t: int|
                        0 <= t < A && pos@[t] == p)),
            decreases B - i,
        {
            if j < A && i == pos[j] {
                choices.push(true);
                j = j + 1;
                proof {
                    assert(pos@[j - 1] == i);
                    assert(exists|t: int| 0 <= t < A && pos@[t] == i);
                }
            } else {
                choices.push(false);
                proof {
                    if exists|t: int| 0 <= t < A && pos@[t] == i as int {
                        let t = choose|t: int| 0 <= t < A && pos@[t] == i as int;
                        if t < j {
                            assert(pos@[t] < i);
                        } else {
                            if j < A {
                                if t > j {
                                    assert(pos@[j as int] < pos@[t]);
                                }
                            }
                            assert(false);
                        }
                    }
                }
            }
            proof {
                if j < A && pos@[j as int] < i + 1 {
                    if j >= 1 && pos@[j - 1] == i {
                        assert(pos@[j - 1] < pos@[j as int]);
                    }
                }
            }
            i = i + 1;
        }
        self.state = SessionState::InCall;
        self.phase = ReceiverPhase::AwaitOt;
        self.call_x = clone_vec(x);
        self.x_poly = x_poly;
        self.encoded = cw;
        self.indices = pos;
        Ok(choices)
    }

    /// Consumes the sender's commitment and the values learned through the
    /// oblivious transfer: the values off the index set are Shamir shares,
    /// from which the secret is reconstructed and checked against the
    /// commitment; the values on the set are kept as masks. Returns the
    /// secret to reveal and the codeword to send.
    #[verifier::rlimit(100)]
    pub fn input_ot(&mut self, com: &Vec<u8>, ot_vals: &Vec<Fp>) -> (res: Result<
        (Fp, Vec<Fp>),
        OleError,
    >)
        requires
            old(self).wf(),
            all_wf(ot_vals@),
        ensures
            final(self).wf(),
            !(old(self).state == SessionState::InCall && old(self).phase
                == ReceiverPhase::AwaitOt && com@.len() == 32 && ot_vals@.len() == B) ==> res
                is Err && res->Err_0 == OleError::PreconditionError && *final(self) == *old(self),
            old(self).state == SessionState::InCall && old(self).phase == ReceiverPhase::AwaitOt
                && com@.len() == 32 && ot_vals@.len() == B ==> (res is Err ==> res->Err_0
                == OleError::CommitmentMismatch && final(self).state == SessionState::Aborted),
            res is Ok ==> ({
                &&& final(self).state == SessionState::InCall
                &&& final(self).phase == ReceiverPhase::AwaitW
                &&& final(self).encoded@ == old(self).encoded@
                &&& final(self).indices@ == old(self).indices@
                &&& final(self).x_poly@ == old(self).x_poly@
                &&& final(self).call_x@ == old(self).call_x@
                &&& res->Ok_0.1@ == old(self).encoded@
                &&& final(self).masks@.len() == A
                &&& (forall|t: int|
                    0 <= t < A ==> final(self).masks@[t] == ot_vals@[old(self).indices@[t] as int])
                &&& (exists|bs: Seq<u8>|
                    bs.len() == 16 && bytes_le_val(bs) == res->Ok_0.0.val() && com@ == sha256_of(
                        bs,
                    ))
            }),
    {
        if !(matches!(self.state, SessionState::InCall) && matches!(
            self.phase,
            ReceiverPhase::AwaitOt,
        )) {
            return Err(OleError::PreconditionError);
        }
        if com.len() != 32 || ot_vals.len() != B {
            return Err(OleError::PreconditionError);
        }
        let mut share_indices: Vec<usize> = Vec::new();
        let mut myshares: Vec<Fp> = Vec::new();
        let mut masks: Vec<Fp> = Vec::new();
        let mut j: usize = 0;
        let mut i: usize = 0;
        while i < B
            invariant
                *self == *old(self),
                self.state == SessionState::InCall,
                self.indices@.len() == A,
                forall|a: int, b: int|
                    0 <= a < b < self.indices@.len() ==> self.indices@[a] < self.indices@[b],
                forall|a: int|
                    0 <= a < self.indices@.len() ==> (#[trigger] self.indices@[a]) < B,
                ot_vals@.len() == B,
                all_wf(ot_vals@),
                i <= B,
                j <= A,
                j < A ==> self.indices@[j as int] >= i,
                forall|a: int| 0 <= a < j ==> (#[trigger] self.indices@[a]) < i,
                masks@.len() == j,
                all_wf(masks@),
                forall|t: int| 0 <= t < j ==> masks@[t] == ot_vals@[self.indices@[t] as int],
                share_indices@.len() == i - j,
                myshares@.len() == i - j,
                all_wf(myshares@),
                forall|a: int, b: int|
                    0 <= a < b < share_indices@.len() ==> share_indices@[a] < share_indices@[b],
                forall|a: int|
                    0 <= a < share_indices@.len() ==> (#[trigger] share_indices@[a]) < i,
            decreases B - i,
        {
            if j < A && i == self.indices[j] {
                let ghost m0 = masks@;
                masks.push(ot_vals[i]);
                j = j + 1;
                proof {
                    assert(masks@ =~= m0.push(masks@[masks@.len() - 1]));
                }
            } else {
                let ghost s0 = share_indices@;
                share_indices.push(i);
                myshares.push(ot_vals[i]);
                proof {
                    assert(share_indices@ =~= s0.push(i));
                }
            }
            proof {
                if j < A && self.indices@[j as int] < i + 1 {
                    if j >= 1 && self.indices@[j - 1] == i {
                        assert(self.indices@[j - 1] < self.indices@[j as int]);
                    }
                }
            }
            i = i + 1;
        }
        proof {
            assert(j == A) by {
                if j < A {
                    assert(self.indices@[j as int] >= B);
                    assert(self.indices@[j as int] < B);
                }
            }
        }
        let s_prime = match reconstruct(
            &share_indices,
            &myshares,
            B as u64,
            (B - A) as u64,
            &Fp::beta(),
        ) {
            Ok(s) => s,
            Err(_) => {
                // the parameters make the reconstruction total here
                proof {
                    crate::params::lemma_beta_params();
                    assert(false);
                }
                return Err(OleError::PreconditionError);
            },
        };
        let wire = s_prime.to_block();
        let com_check = sha256(&wire);
        if !bytes_eq(&com_check, com) {
            self.state = SessionState::Aborted;
            return Err(OleError::CommitmentMismatch);
        }
        let cw = clone_vec(&self.encoded);
        self.masks = masks;
        self.phase = ReceiverPhase::AwaitW;
        Ok((s_prime, cw))
    }

    /// Consumes the sender's masked products W: removes the masks on the
    /// positions of the index set, decodes the corrected word to the
    /// polynomial Y, and returns a fresh challenge point.
    #[verifier::rlimit(100)]
    pub fn input_w(&mut self, w: &Vec<Fp>, rng: &mut Entropy) -> (res: Result<Fp, OleError>)
        requires
            old(self).wf(),
            all_wf(w@),
        ensures
            final(self).wf(),
            !(old(self).state == SessionState::InCall && old(self).phase
                == ReceiverPhase::AwaitW && w@.len() == B) ==> res is Err && res->Err_0
                == OleError::PreconditionError && *final(self) == *old(self),
            old(self).state == SessionState::InCall && old(self).phase == ReceiverPhase::AwaitW
                && w@.len() == B ==> (res is Err ==> res->Err_0 == OleError::PreconditionError
                && final(self).state == SessionState::Aborted),
            res is Ok ==> ({
                &&& final(self).state == SessionState::InCall
                &&& final(self).phase == ReceiverPhase::AwaitSenderValues
                &&& final(self).x_poly@ == old(self).x_poly@
                &&& final(self).call_x@ == old(self).call_x@
                &&& final(self).indices@ == old(self).indices@
                &&& final(self).y_poly@.len() == A
                &&& res->Ok_0 == final(self).zr
                &&& res->Ok_0.wf()
                &&& (exists|wsv: Seq<nat>, nois: Seq<nat>, rts: Seq<nat>, qq: Seq<nat>|
                    #![trigger wsv.len(), nois.len(), rts.len(), qq.len()]
                    {
                        &&& wsv.len() == B
                        &&& (forall|t: int|
                            0 <= t < A ==> #[trigger] wsv[old(self).indices@[t] as int] == f_sub(
                                vals(w@)[old(self).indices@[t] as int],
                                vals(old(self).masks@)[t],
                            ))
                        &&& (forall|j: int|
                            0 <= j < B && !(exists|t: int|
                                0 <= t < A && old(self).indices@[t] == j) ==> #[trigger] wsv[j]
                                == vals(w@)[j])
                        &&& nois == idft(wsv, BETA as nat)
                        &&& rts.len() == A
                        &&& (forall|t: int|
                            0 <= t < A ==> #[trigger] rts[t] == f_pow(
                                BETA as nat,
                                old(self).indices@[t] as nat,
                            ))
                        &&& (forall|k: int|
                            f_add(
                                poly_mul_coeff(qq, poly_from_roots_sp(rts), k),
                                coeff(vals(final(self).y_poly@), k),
                            ) == #[trigger] coeff(nois, k))
                    })
            }),
    {
        if !(matches!(self.state, SessionState::InCall) && matches!(
            self.phase,
            ReceiverPhase::AwaitW,
        )) {
            return Err(OleError::PreconditionError);
        }
        if w.len() != B {
            return Err(OleError::PreconditionError);
        }
        let mut ws = clone_vec(w);
        let mut t: usize = 0;
        while t < A
            invariant
                *self == *old(self),
                self.state == SessionState::InCall,
                self.phase == ReceiverPhase::AwaitW,
                self.wf(),
                w@.len() == B,
                all_wf(w@),
                ws@.len() == B,
                all_wf(ws@),
                t <= A,
                self.indices@.len() == A,
                self.masks@.len() == A,
                forall|u: int|
                    0 <= u < t ==> vals(ws@)[self.indices@[u] as int] == f_sub(
                        vals(w@)[self.indices@[u] as int],
                        vals(self.masks@)[u],
                    ),
                forall|j: int|
                    0 <= j < B && !(exists|u: int| 0 <= u < t && self.indices@[u] == j)
                        ==> #[trigger] ws@[j] == w@[j],
            decreases A - t,
        {
            let ghost ws0 = ws@;
            let idx = self.indices[t];
            proof {
                // position idx has not been touched by earlier iterations
                assert forall|u: int| 0 <= u < t implies self.indices@[u] != idx by {
                    assert(self.indices@[u] < self.indices@[t as int]);
                }
                assert(ws@[idx as int] == w@[idx as int]);
            }
            let nv = ws[idx].sub(self.masks[t]);
            ws.set(idx, nv);
            t = t + 1;
            proof {
                assert(ws@ =~= ws0.update(idx as int, nv));
                assert forall|u: int|
                    0 <= u < t implies vals(ws@)[self.indices@[u] as int] == f_sub(
                    vals(w@)[self.indices@[u] as int],
                    vals(self.masks@)[u],
                ) by {
                    assert(vals(ws@)[self.indices@[u] as int]
                        == ws@[self.indices@[u] as int].v as nat);
                    if u < t - 1 {
                        assert(self.indices@[u] < self.indices@[t - 1]);
                        assert(ws@[self.indices@[u] as int] == ws0[self.indices@[u] as int]);
                        assert(vals(ws0)[self.indices@[u] as int]
                            == ws0[self.indices@[u] as int].v as nat);
                    } else {
                        assert(ws@[idx as int] == nv);
                        assert(vals(w@)[idx as int] == w@[idx as int].v as nat);
                        assert(vals(self.masks@)[u] == self.masks@[u].v as nat);
                    }
                }
                assert forall|j: int|
                    0 <= j < B && !(exists|u: int| 0 <= u < t && self.indices@[u] == j)
                        implies #[trigger] ws@[j] == w@[j] by {
                    assert(j != idx);
                    assert(ws@[j] == ws0[j]);
                }
            }
        }
        let ghost wsv = vals(ws@);
        let ghost ws_elems = ws@;
        let y_poly = match decode_reed_solomon(&mut ws, &self.indices) {
            Ok(y) => y,
            Err(_) => {
                // the parameters make the decoding total here
                proof {
                    crate::params::lemma_beta_params();
                    assert(wsv.len() == B as nat);
                    assert(fft_inverse_ok(3, wsv, BETA as nat));
                    assert(false);
                }
                self.state = SessionState::Aborted;
                return Err(OleError::PreconditionError);
            },
        };
        if y_poly.len() != A {
            self.state = SessionState::Aborted;
            return Err(OleError::PreconditionError);
        }
        let zr = Fp::random(rng);
        proof {
            // carry the decode relation into the session's postcondition
            let nois = vals(ws@);
            let (rts, qq) = choose|rts: Seq<nat>, qq: Seq<nat>|
                #![trigger poly_from_roots_sp(rts), qq.len()]
                {
                    &&& rts.len() == self.indices@.len()
                    &&& (forall|t2: int|
                        0 <= t2 < rts.len() ==> #[trigger] rts[t2] == f_pow(
                            BETA as nat,
                            self.indices@[t2] as nat,
                        ))
                    &&& y_poly@.len() < poly_from_roots_sp(rts).len()
                    &&& (forall|k: int|
                        f_add(
                            poly_mul_coeff(qq, poly_from_roots_sp(rts), k),
                            coeff(vals(y_poly@), k),
                        ) == #[trigger] coeff(nois, k))
                };
            assert(wsv.len() == B);
            assert forall|t2: int|
                0 <= t2 < A implies #[trigger] wsv[self.indices@[t2] as int] == f_sub(
                vals(w@)[self.indices@[t2] as int],
                vals(self.masks@)[t2],
            ) by {
                assert(vals(ws_elems)[self.indices@[t2] as int]
                    == ws_elems[self.indices@[t2] as int].v as nat);
            }
            assert forall|j: int|
                0 <= j < B && !(exists|t2: int| 0 <= t2 < A && self.indices@[t2] == j)
                    implies #[trigger] wsv[j] == vals(w@)[j] by {
                assert(ws_elems[j] == w@[j]);
                assert(vals(ws_elems)[j] == ws_elems[j].v as nat);
                assert(vals(w@)[j] == w@[j].v as nat);
            }
            assert(nois == idft(wsv, BETA as nat));
            assert(rts.len() == A);
        }
        self.y_poly = y_poly;
        self.zr = zr;
        self.phase = ReceiverPhase::AwaitSenderValues;
        Ok(zr)
    }

    /// Checks the polynomial identity at the receiver's challenge point and
    /// answers the sender's counter-challenge with X(z_s) and Y(z_s). The
    /// check passes exactly when X(z_r) * A(z_r) + B(z_r) = Y(z_r).
    pub fn input_sender_values(&mut self, a_zr: Fp, b_zr: Fp, z_s: Fp) -> (res: Result<
        (Fp, Fp),
        OleError,
    >)
        requires
            old(self).wf(),
            a_zr.wf(),
            b_zr.wf(),
            z_s.wf(),
        ensures
            final(self).wf(),
            !(old(self).state == SessionState::InCall && old(self).phase
                == ReceiverPhase::AwaitSenderValues) ==> res is Err && res->Err_0
                == OleError::PreconditionError && *final(self) == *old(self),
            old(self).state == SessionState::InCall && old(self).phase
                == ReceiverPhase::AwaitSenderValues ==> ({
                &&& (res is Ok <==> f_add(
                    f_mul(poly_eval(vals(old(self).x_poly@), old(self).zr.val()), a_zr.val()),
                    b_zr.val(),
                ) == poly_eval(vals(old(self).y_poly@), old(self).zr.val()))
                &&& (res is Err ==> res->Err_0 == OleError::IdentityCheckFailed && final(self).state == SessionState::Aborted)
                &&& (res is Ok ==> {
                    &&& final(self).state == SessionState::InCall
                    &&& final(self).phase == ReceiverPhase::Finish
                    &&& final(self).y_poly@ == old(self).y_poly@
                    &&& final(self).x_poly@ == old(self).x_poly@
                    &&& final(self).call_x@ == old(self).call_x@
                    &&& res->Ok_0.0.val() == poly_eval(vals(old(self).x_poly@), z_s.val())
                    &&& res->Ok_0.1.val() == poly_eval(vals(old(self).y_poly@), z_s.val())
                })
            }),
    {
        if !(matches!(self.state, SessionState::InCall) && matches!(
            self.phase,
            ReceiverPhase::AwaitSenderValues,
        )) {
            return Err(OleError::PreconditionError);
        }
        let x_zr = horner(&self.x_poly, &self.zr);
        let y_zr = horner(&self.y_poly, &self.zr);
        if x_zr.mul(a_zr).add(b_zr).v != y_zr.v {
            self.state = SessionState::Aborted;
            return Err(OleError::IdentityCheckFailed);
        }
        let x_zs = horner(&self.x_poly, &z_s);
        let y_zs = horner(&self.y_poly, &z_s);
        self.phase = ReceiverPhase::Finish;
        Ok((x_zs, y_zs))
    }

    /// Ends the call: evaluates Y on the even grid of the order-A subgroup
    /// and returns the first |x| values, the componentwise a * x + b.
    #[verifier::rlimit(100)]
    pub fn input_finish(&mut self) -> (res: Result<Vec<Fp>, OleError>)
        requires
            old(self).wf(),
        ensures
            final(self).wf(),
            !(old(self).state == SessionState::InCall && old(self).phase
                == ReceiverPhase::Finish) ==> res is Err && res->Err_0
                == OleError::PreconditionError && *final(self) == *old(self),
            res is Ok <==> old(self).state == SessionState::InCall && old(self).phase
                == ReceiverPhase::Finish,
            res is Ok ==> ({
                &&& final(self).state == SessionState::Ready
                &&& final(self).phase == ReceiverPhase::Idle
                &&& res->Ok_0@.len() == old(self).call_x@.len()
                &&& (forall|i: int|
                    0 <= i < res->Ok_0@.len() ==> vals(res->Ok_0@)[i] == poly_eval(
                        vals(old(self).y_poly@),
                        f_pow(ALPHA as nat, (2 * i) as nat),
                    ))
            }),
    {
        if !(matches!(self.state, SessionState::InCall) && matches!(
            self.phase,
            ReceiverPhase::Finish,
        )) {
            return Err(OleError::PreconditionError);
        }
        let evals = match fft2(&self.y_poly, &Fp::alpha()) {
            Ok(e) => e,
            Err(_) => {
                // the parameters make the transform total here
                proof {
                    crate::params::lemma_alpha_params();
                    assert(vals(self.y_poly@).len() == A as nat);
                    assert(crate::fft::fft2_ok(vals(self.y_poly@), ALPHA as nat));
                    assert(false);
                }
                self.state = SessionState::Aborted;
                return Err(OleError::PreconditionError);
            },
        };
        let t = self.call_x.len();
        let mut out: Vec<Fp> = Vec::new();
        let mut i: usize = 0;
        proof {
            assert(vals(evals@).len() == evals@.len());
            assert(vals(self.y_poly@).len() == self.y_poly@.len());
        }
        while i < t
            invariant
                out@.len() == i,
                i <= t,
                t <= A / 2,
                evals@.len() == A,
                all_wf(evals@),
                all_wf(out@),
                self.y_poly@.len() == A,
                forall|j: int|
                    0 <= j < A ==> vals(evals@)[j] == poly_eval(
                        vals(self.y_poly@),
                        f_pow(ALPHA as nat, j as nat),
                    ),
                forall|j: int|
                    0 <= j < i ==> vals(out@)[j] == poly_eval(
                        vals(self.y_poly@),
                        f_pow(ALPHA as nat, (2 * j) as nat),
                    ),
            decreases t - i,
        {
            let ghost o0 = out@;
            out.push(evals[2 * i]);
            i = i + 1;
            proof {
                assert(out@ =~= o0.push(out@[out@.len() - 1]));
                assert forall|j: int|
                    0 <= j < i implies vals(out@)[j] == poly_eval(
                    vals(self.y_poly@),
                    f_pow(ALPHA as nat, (2 * j) as nat),
                ) by {
                    assert(vals(out@)[j] == out@[j].v as nat);
                    if j < i - 1 {
                        assert(out@[j] == o0[j]);
                        assert(vals(o0)[j] == o0[j].v as nat);
                    } else {
                        assert(out@[j] == evals@[2 * j]);
                        assert(vals(evals@)[2 * j] == evals@[2 * j].v as nat);
                    }
                }
            }
        }
        self.state = SessionState::Ready;
        self.phase = ReceiverPhase::Idle;
        Ok(out)
    }
}

} // verus!

//! Packed Shamir secret sharing over the order-B subgroup: the secret sits
//! in the constant term of a random polynomial of degree below rho, and the
//! shares are its evaluations at the powers of omega.
use crate::error::OleError;
use crate::fft::{dft, fft3_in_place, fft3_inverse, fft_inverse_ok, idft, is_pow_of};
use crate::field::{all_wf, vals, Fp};
use crate::fmath::{f_add, f_inv, f_mul, f_pow, has_inverse, in_field, qn};
use crate::poly::{coeff, euclid_division, poly_from_roots, poly_from_roots_sp, poly_mul_coeff};
use crate::rng::Entropy;
use vstd::prelude::*;

verus! {

/// The evaluations at omega^0 .. omega^(n-1) of a polynomial of degree
/// below rho whose constant term is the secret.
pub fn share(secret: &Fp, n: u64, rho: u64, omega: &Fp, rng: &mut Entropy) -> (res: Result<
    Vec<Fp>,
    OleError,
>)
    requires
        secret.wf(),
        omega.wf(),
        1 <= rho <= n,
        n < 0xffffffff,
    ensures
        res is Ok <==> is_pow_of(3, n as nat) && f_pow(omega.val(), n as nat) == 1,
        res is Err ==> res->Err_0 == OleError::PreconditionError,
        res is Ok ==> ({
            let v = res->Ok_0;
            &&& v@.len() == n
            &&& all_wf(v@)
            &&& exists|c: Seq<nat>|
                c.len() == n && c[0] == secret.val() && (forall|i: int|
                    rho <= i < n ==> c[i] == 0) && (forall|i: int| 0 <= i < n ==> in_field(#[trigger] c[i]))
                    && vals(v@) == dft(c, omega.val())
        }),
{
    let mut coeffs: Vec<Fp> = Vec::new();
    coeffs.push(*secret);
    let mut i: u64 = 1;
    while i < rho
        invariant
            coeffs@.len() == i,
            1 <= i <= rho,
            all_wf(coeffs@),
            coeffs@[0] == *secret,
        decreases rho - i,
    {
        let ghost c0 = coeffs@;
        coeffs.push(Fp::random(rng));
        i = i + 1;
        proof {
            assert(coeffs@ =~= c0.push(coeffs@[coeffs@.len() - 1]));
            assert(coeffs@[0] == c0[0]);
        }
    }
    while i < n
        invariant
            coeffs@.len() == i,
            1 <= i,
            rho <= i <= n,
            all_wf(coeffs@),
            coeffs@[0] == *secret,
            forall|j: int| rho <= j < i ==> (#[trigger] coeffs@[j]).val() == 0,
        decreases n - i,
    {
        let ghost c0 = coeffs@;
        coeffs.push(Fp::zero());
        i = i + 1;
        proof {
            assert(coeffs@ =~= c0.push(coeffs@[coeffs@.len() - 1]));
            assert(coeffs@[0] == c0[0]);
            assert forall|j: int| rho <= j < i implies (#[trigger] coeffs@[j]).val() == 0 by {
                if j < i - 1 {
                    assert(coeffs@[j] == c0[j]);
                }
            }
        }
    }
    let ghost cv = vals(coeffs@);
    let ghost celems = coeffs@;
    match fft3_in_place(&mut coeffs, omega) {
        Ok(()) => {
            proof {
                assert(cv.len() == n);
                assert(cv[0] == celems[0].v as nat);
                assert(cv[0] == secret.val());
                assert forall|j: int| rho <= j < n implies cv[j] == 0 by {
                    assert(cv[j] == celems[j].v as nat);
                    assert(celems[j].val() == 0);
                }
                assert forall|j: int| 0 <= j < n implies in_field(#[trigger] cv[j]) by {
                    assert(cv[j] == celems[j].v as nat);
                    assert(celems[j].wf());
                }
                assert(vals(coeffs@) == dft(cv, omega.val()));
                assert(vals(coeffs@).len() == coeffs@.len());
                assert(cv.len() == celems.len());
                assert(coeffs@.len() == n);
                assert(cv.len() == n && cv[0] == secret.val() && (forall|i2: int|
                    rho <= i2 < n ==> cv[i2] == 0) && (forall|i2: int|
                    0 <= i2 < n ==> in_field(#[trigger] cv[i2])) && vals(coeffs@) == dft(
                    cv,
                    omega.val(),
                ));
            }
            Ok(coeffs)
        },
        Err(e) => Err(e),
    }
}

/// Recovers the constant term of the shared polynomial from rho of the
/// shares: place the shares at their positions (ones elsewhere), apply the
/// inverse transform, and reduce modulo the vanishing polynomial of the
/// share positions; the constant term of the remainder is the secret.
#[verifier::loop_isolation(false)]
#[verifier::rlimit(100)]
pub fn reconstruct(
    indices: &Vec<usize>,
    shares: &Vec<Fp>,
    n: u64,
    rho: u64,
    omega: &Fp,
) -> (res: Result<Fp, OleError>)
    requires
        all_wf(shares@),
        omega.wf(),
        n <= 0xffffffff,
        indices@.len() <= n,
        forall|i: int, j: int| 0 <= i < j < indices@.len() ==> indices@[i] < indices@[j],
        forall|i: int| 0 <= i < indices@.len() ==> (#[trigger] indices@[i]) < n,
    ensures
        res is Ok <==> indices@.len() == shares@.len() && indices@.len() >= rho && is_pow_of(
            3,
            n as nat,
        ) && has_inverse(omega.val()) && f_pow(f_inv(omega.val()), n as nat) == 1 && has_inverse(
            n as nat,
        ),
        res is Err ==> res->Err_0 == OleError::PreconditionError,
        res is Ok ==> res->Ok_0.wf() && exists|
            pwe: Seq<nat>,
            nois: Seq<nat>,
            rts: Seq<nat>,
            qq: Seq<nat>,
            rr: Seq<nat>,
        |
            #![trigger pwe.len(), nois.len(), rts.len(), qq.len(), rr.len()]
            {
                &&& pwe.len() == n
                &&& (forall|t: int|
                    0 <= t < rho ==> #[trigger] pwe[indices@[t] as int] == vals(shares@)[t])
                &&& (forall|j: int|
                    0 <= j < n && !(exists|t: int| 0 <= t < rho && indices@[t] == j)
                        ==> #[trigger] pwe[j] == 1)
                &&& nois == idft(pwe, omega.val())
                &&& rts.len() == indices@.len()
                &&& (forall|t: int|
                    0 <= t < rts.len() ==> #[trigger] rts[t] == f_pow(
                        omega.val(),
                        indices@[t] as nat,
                    ))
                &&& (forall|k: int|
                    f_add(
                        poly_mul_coeff(qq, poly_from_roots_sp(rts), k),
                        coeff(rr, k),
                    ) == #[trigger] coeff(nois, k))
                &&& rr.len() < poly_from_roots_sp(rts).len()
                &&& res->Ok_0.val() == coeff(rr, 0)
            },
{
    if indices.len() != shares.len() {
        return Err(OleError::PreconditionError);
    }
    if (indices.len() as u64) < rho {
        return Err(OleError::PreconditionError);
    }
    let nu = n as usize;
    let mut points_with_error: Vec<Fp> = Vec::new();
    let mut t: usize = 0;
    let mut j: usize = 0;
    while j < nu
        invariant
            points_with_error@.len() == j,
            j <= nu,
            t <= rho,
            t <= indices@.len(),
            all_wf(points_with_error@),
            t < rho ==> (t < indices@.len() && indices@[t as int] >= j),
            forall|u: int| 0 <= u < t ==> (#[trigger] indices@[u]) < j,
            forall|u: int|
                0 <= u < t ==> points_with_error@[indices@[u] as int] == shares@[u],
            forall|p: int|
                0 <= p < j && !(exists|u: int| 0 <= u < rho && indices@[u] == p) ==> (
                #[trigger] points_with_error@[p]).val() == 1,
        decreases nu - j,
    {
        if t < rho as usize && j == indices[t] {
            points_with_error.push(shares[t]);
            t = t + 1;
        } else {
            points_with_error.push(Fp::one());
        }
        j = j + 1;
        proof {
            if t < rho {
                assert(t < indices@.len());
                if t >= 1 && indices@[t - 1] == j - 1 {
                    assert(indices@[t - 1] < indices@[t as int]);
                }
                assert(indices@[t as int] >= j);
            }
            assert forall|p: int|
                0 <= p < j && !(exists|u: int| 0 <= u < rho && indices@[u] == p) implies (
            #[trigger] points_with_error@[p]).val() == 1 by {
                if p == j - 1 {
                    if t >= 1 && indices@[t - 1] == p {
                        assert(exists|u: int| 0 <= u < rho && indices@[u] == p);
                    }
                }
            }
        }
    }
    let mut roots: Vec<Fp> = Vec::new();
    let mut u: usize = 0;
    while u < indices.len()
        invariant
            roots@.len() == u,
            u <= indices@.len(),
            all_wf(roots@),
            forall|w: int|
                0 <= w < u ==> vals(roots@)[w] == f_pow(omega.val(), indices@[w] as nat),
        decreases indices@.len() - u,
    {
        let ghost roots0 = roots@;
        let p = omega.pow(indices[u] as u64);
        roots.push(p);
        proof {
            assert(roots@ =~= roots0.push(p));
            assert forall|w: int|
                0 <= w < u + 1 implies vals(roots@)[w] == f_pow(
                omega.val(),
                indices@[w] as nat,
            ) by {
                assert(vals(roots@)[w] == roots@[w].v as nat);
                if w < u {
                    assert(roots@[w] == roots0[w]);
                    assert(vals(roots0)[w] == roots0[w].v as nat);
                }
            }
        }
        u = u + 1;
    }
    let ghost pwe = vals(points_with_error@);
    let ghost pwe_elems = points_with_error@;
    match fft3_inverse(&mut points_with_error, omega) {
        Ok(()) => {},
        Err(e) => {
            return Err(e);
        },
    }
    let b = poly_from_roots(&roots);
    proof {
        crate::poly::lemma_pfr_shape(vals(roots@));
        assert(vals(b@)[b@.len() - 1] == 1);
        assert(b@[b@.len() - 1].v as nat == 1);
        assert(crate::fmath::has_inverse(1)) by {
            crate::fmath::lemma_f_mul_one(1nat);
            vstd::arithmetic::div_mod::lemma_small_mod(1, qn());
            assert(in_field(1) && f_mul(1, 1) == 1);
        }
    }
    let division = match euclid_division(&points_with_error, &b) {
        Ok(p) => p,
        Err(_) => {
            // the divisor is monic, so the division is total
            proof {
                assert(false);
            }
            return Err(OleError::PreconditionError);
        },
    };
    let r = division.1;
    let secret = if r.len() > 0 {
        r[0]
    } else {
        Fp::zero()
    };
    proof {
        let nois = vals(points_with_error@);
        let rts = vals(roots@);
        let qq = vals(division.0@);
        let rr = vals(r@);
        assert(pwe.len() == n);
        assert forall|tt: int|
            0 <= tt < rho implies #[trigger] pwe[indices@[tt] as int] == vals(shares@)[tt] by {
            assert(pwe_elems[indices@[tt] as int] == shares@[tt]);
            assert(pwe[indices@[tt] as int] == pwe_elems[indices@[tt] as int].v as nat);
            assert(vals(shares@)[tt] == shares@[tt].v as nat);
        }
        assert forall|jj: int|
            0 <= jj < n && !(exists|uu: int| 0 <= uu < rho && indices@[uu] == jj)
                implies #[trigger] pwe[jj] == 1 by {
            assert(pwe_elems[jj].val() == 1);
            assert(pwe[jj] == pwe_elems[jj].v as nat);
        }
        assert(rr.len() < poly_from_roots_sp(rts).len());
        if r@.len() > 0 {
            assert(coeff(rr, 0) == r@[0].v as nat);
        } else {
            assert(coeff(rr, 0) == 0);
        }
        assert(secret.val() == coeff(rr, 0));
    }
    Ok(secret)
}

} // verus!

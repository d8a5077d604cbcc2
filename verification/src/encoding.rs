//! The Reed-Solomon layer: encoding a short vector into a length-B word
//! whose values on a secret set of positions follow a low-degree polynomial,
//! and decoding such a word back to that polynomial.
use crate::error::OleError;
use crate::fft::{dft, fft2_inverse, fft3_in_place, fft3_inverse, fft3_ok, fft_inverse_ok, idft};
use crate::field::{all_wf, vals, Fp, A, ALPHA, B, BETA};
use crate::fmath::{f_add, f_mul, f_pow, in_field, qn};
use crate::poly::{
    coeff, euclid_division, poly_eval, poly_from_roots, poly_from_roots_sp, poly_mul_coeff,
};
use crate::rng::Entropy;
use vstd::prelude::*;

verus! {

/// A sequence of zero residues leaves an evaluation unchanged when appended.
proof fn lemma_eval_zeros(z: Seq<nat>, x: nat)
    requires
        forall|i: int| 0 <= i < z.len() ==> z[i] == 0,
    ensures
        poly_eval(z, x) == 0,
    decreases z.len(),
{
    if z.len() > 0 {
        lemma_eval_zeros(z.skip(1), x);
        crate::fmath::lemma_f_mul_one(x);
        vstd::arithmetic::div_mod::lemma_small_mod(0, qn());
    }
}

/// Zero-extending a polynomial does not change its evaluations.
pub proof fn lemma_eval_zero_ext(p: Seq<nat>, z: Seq<nat>, x: nat)
    requires
        forall|i: int| 0 <= i < z.len() ==> z[i] == 0,
    ensures
        poly_eval(p + z, x) == poly_eval(p, x),
    decreases p.len(),
{
    if p.len() == 0 {
        assert(p + z =~= z);
        lemma_eval_zeros(z, x);
    } else {
        assert((p + z).skip(1) =~= p.skip(1) + z);
        lemma_eval_zero_ext(p.skip(1), z, x);
        assert((p + z)[0] == p[0]);
    }
}

/// Copies a vector of field elements.
pub(crate) fn clone_vec(v: &Vec<Fp>) -> (r: Vec<Fp>)
    ensures
        r@ == v@,
{
    let mut out: Vec<Fp> = Vec::new();
    let mut i: usize = 0;
    while i < v.len()
        invariant
            out@.len() == i,
            i <= v@.len(),
            forall|j: int| 0 <= j < i ==> out@[j] == v@[j],
        decreases v@.len() - i,
    {
        out.push(v[i]);
        i = i + 1;
    }
    proof {
        assert(out@ =~= v@);
    }
    out
}

/// Samples l distinct positions below n, uniformly and in increasing order,
/// by one inclusion decision per position.
#[verifier::loop_isolation(false)]
pub fn pick_indices(l: usize, n: usize, rng: &mut Entropy) -> (r: Vec<usize>)
    requires
        l <= n,
    ensures
        r@.len() == l,
        forall|i: int, j: int| 0 <= i < j < r@.len() ==> r@[i] < r@[j],
        forall|i: int| 0 <= i < r@.len() ==> (#[trigger] r@[i]) < n,
{
    let mut out: Vec<usize> = Vec::new();
    let mut need: usize = l;
    let mut j: usize = 0;
    while j < n
        invariant
            need <= n - j,
            j <= n,
            out@.len() == l - need,
            forall|a: int, b: int| 0 <= a < b < out@.len() ==> out@[a] < out@[b],
            forall|a: int| 0 <= a < out@.len() ==> (#[trigger] out@[a]) < j,
        decreases n - j,
    {
        if need > 0 {
            let draw = rng.below((n - j) as u64);
            if draw < need as u64 {
                let ghost out0 = out@;
                out.push(j);
                need = need - 1;
                proof {
                    assert(out@ =~= out0.push(j));
                }
            }
        }
        j = j + 1;
    }
    out
}


/// Extends a vector with fresh random elements up to the given length.
fn pad_random(v: &mut Vec<Fp>, upto: usize, rng: &mut Entropy)
    requires
        all_wf(old(v)@),
        old(v)@.len() <= upto,
    ensures
        all_wf(final(v)@),
        final(v)@.len() == upto,
        forall|j: int| 0 <= j < old(v)@.len() ==> final(v)@[j] == old(v)@[j],
{
    let mut i: usize = v.len();
    while i < upto
        invariant
            v@.len() == i,
            old(v)@.len() <= i <= upto,
            all_wf(v@),
            forall|j: int| 0 <= j < old(v)@.len() ==> v@[j] == old(v)@[j],
        decreases upto - i,
    {
        let ghost v0 = v@;
        v.push(Fp::random(rng));
        i = i + 1;
        proof {
            assert(v@ =~= v0.push(v@[v@.len() - 1]));
        }
    }
}

/// Extends a vector with zero elements up to the given length.
fn pad_zero(v: &mut Vec<Fp>, upto: usize)
    requires
        all_wf(old(v)@),
        old(v)@.len() <= upto,
    ensures
        all_wf(final(v)@),
        final(v)@.len() == upto,
        forall|j: int| 0 <= j < old(v)@.len() ==> final(v)@[j] == old(v)@[j],
        forall|j: int| old(v)@.len() <= j < upto ==> (#[trigger] final(v)@[j]).val() == 0,
{
    let mut i: usize = v.len();
    while i < upto
        invariant
            v@.len() == i,
            old(v)@.len() <= i <= upto,
            all_wf(v@),
            forall|j: int| 0 <= j < old(v)@.len() ==> v@[j] == old(v)@[j],
            forall|j: int| old(v)@.len() <= j < i ==> (#[trigger] v@[j]).val() == 0,
        decreases upto - i,
    {
        let ghost v0 = v@;
        v.push(Fp::zero());
        i = i + 1;
        proof {
            assert(v@ =~= v0.push(v@[v@.len() - 1]));
        }
    }
}

/// Replaces every position outside the sorted index set with fresh noise,
/// leaving the values on the set untouched.
#[verifier::loop_isolation(false)]
fn hide_positions(cw: &mut Vec<Fp>, pos: &Vec<usize>, rng: &mut Entropy)
    requires
        all_wf(old(cw)@),
        forall|a: int, b: int| 0 <= a < b < pos@.len() ==> pos@[a] < pos@[b],
        forall|a: int| 0 <= a < pos@.len() ==> (#[trigger] pos@[a]) < old(cw)@.len(),
    ensures
        all_wf(final(cw)@),
        final(cw)@.len() == old(cw)@.len(),
        forall|a: int|
            0 <= a < pos@.len() ==> final(cw)@[pos@[a] as int] == old(cw)@[pos@[a] as int],
{
    let n = cw.len();
    let np = pos.len();
    let mut j: usize = 0;
    let mut k: usize = 0;
    while k < n
        invariant
            cw@.len() == n,
            k <= n,
            j <= np,
            j < np ==> pos@[j as int] >= k,
            all_wf(cw@),
            forall|a: int| 0 <= a < j ==> (#[trigger] pos@[a]) < k,
            forall|a: int| 0 <= a < j ==> cw@[pos@[a] as int] == old(cw)@[pos@[a] as int],
            forall|p: int| k <= p < n ==> #[trigger] cw@[p] == old(cw)@[p],
        decreases n - k,
    {
        if j < np && k == pos[j] {
            j = j + 1;
        } else {
            let ghost xb = cw@;
            let rnd = Fp::random(rng);
            cw.set(k, rnd);
            proof {
                assert(cw@ =~= xb.update(k as int, rnd));
                assert forall|a: int| 0 <= a < j implies cw@[pos@[a] as int] == old(cw)@[pos@[a] as int] by {
                    assert(pos@[a] < k);
                }
            }
        }
        proof {
            if j < np && pos@[j as int] < k + 1 {
                if j >= 1 && pos@[j - 1] == k {
                    assert(pos@[j - 1] < pos@[j as int]);
                }
            }
        }
        k = k + 1;
    }
    proof {
        assert forall|a: int|
            0 <= a < pos@.len() implies cw@[pos@[a] as int] == old(cw)@[pos@[a] as int] by {
            if a >= j {
                assert(pos@[a] >= pos@[j as int] || a == j);
            }
        }
    }
}


/// Pads the input with randoms to length A/2 and interpolates it on the
/// even grid of the order-A subgroup.
#[verifier::rlimit(100)]
pub(crate) fn interpolate_input(x: &Vec<Fp>, rng: &mut Entropy) -> (xp: Vec<Fp>)
    requires
        all_wf(x@),
        x@.len() <= A / 2,
    ensures
        xp@.len() == A / 2,
        all_wf(xp@),
        exists|padded: Seq<nat>|
            #![trigger idft(padded, f_mul(ALPHA as nat, ALPHA as nat))]
            padded.len() == A / 2 && (forall|i: int|
                0 <= i < x@.len() ==> padded[i] == vals(x@)[i]) && (forall|i: int|
                0 <= i < padded.len() ==> in_field(#[trigger] padded[i])) && vals(xp@) == idft(
                padded,
                f_mul(ALPHA as nat, ALPHA as nat),
            ),
        forall|i: int|
            0 <= i < x@.len() ==> poly_eval(
                vals(xp@),
                f_pow(f_mul(ALPHA as nat, ALPHA as nat), i as nat),
            ) == vals(x@)[i],
{
    let t = x.len();
    let mut x_padded = clone_vec(x);
    pad_random(&mut x_padded, A / 2, rng);
    let alpha2 = Fp::alpha().square();
    let ghost padded_vals = vals(x_padded@);
    match fft2_inverse(&mut x_padded, &alpha2) {
        Ok(()) => {},
        Err(_) => {
            // the parameters make the inverse transform total here
            proof {
                crate::params::lemma_alpha_params();
                assert(alpha2.val() == f_mul(ALPHA as nat, ALPHA as nat));
                assert(padded_vals.len() == (A / 2) as nat);
                assert(fft_inverse_ok(2, padded_vals, alpha2.val()));
                assert(false);
            }
        },
    }
    proof {
        assert(vals(x_padded@).len() == x_padded@.len());
        assert(padded_vals.len() == A / 2);
        assert(x_padded@.len() == A / 2);
        assert forall|i2: int| 0 <= i2 < t implies padded_vals[i2] == vals(x@)[i2] by {
            assert(padded_vals[i2] == x@[i2].v as nat);
            assert(vals(x@)[i2] == x@[i2].v as nat);
        }
        assert forall|i2: int| 0 <= i2 < padded_vals.len() implies in_field(
            #[trigger] padded_vals[i2],
        ) by {}
        assert(vals(x_padded@) == idft(padded_vals, f_mul(ALPHA as nat, ALPHA as nat)));
        // the interpolated polynomial passes through the inputs on the grid
        crate::roundtrip::lemma_round_trip_alpha_even(padded_vals);
        let w = f_mul(ALPHA as nat, ALPHA as nat);
        assert(dft(vals(x_padded@), w) == padded_vals);
        assert forall|i2: int| 0 <= i2 < t implies poly_eval(
            vals(x_padded@),
            f_pow(w, i2 as nat),
        ) == vals(x@)[i2] by {
            assert(dft(vals(x_padded@), w)[i2] == poly_eval(vals(x_padded@), f_pow(w, i2 as nat)));
        }
    }
    x_padded
}

/// Zero-extends the polynomial to length B and transforms it: position i
/// of the result holds the polynomial evaluated at the i-th power of beta.
#[verifier::rlimit(100)]
pub(crate) fn extend_transform(x_poly: &Vec<Fp>) -> (cw: Vec<Fp>)
    requires
        all_wf(x_poly@),
        x_poly@.len() <= B,
    ensures
        cw@.len() == B,
        all_wf(cw@),
        forall|i: int|
            0 <= i < B ==> vals(cw@)[i] == poly_eval(vals(x_poly@), f_pow(BETA as nat, i as nat)),
{
    let ghost xpv = vals(x_poly@);
    let mut x_padded = clone_vec(x_poly);
    pad_zero(&mut x_padded, B);
    let ghost extended = vals(x_padded@);
    let ghost ext_elems = x_padded@;
    match fft3_in_place(&mut x_padded, &Fp::beta()) {
        Ok(()) => {},
        Err(_) => {
            // the parameters make the forward transform total here
            proof {
                crate::params::lemma_beta_params();
                assert(extended.len() == B as nat);
                assert(fft3_ok(extended, BETA as nat));
                assert(false);
            }
        },
    }
    proof {
        assert(extended.len() == B);
        assert(xpv.len() == x_poly@.len());
        assert forall|j: int| 0 <= j < xpv.len() implies extended[j] == xpv[j] by {
            assert(extended[j] == ext_elems[j].v as nat);
            assert(ext_elems[j] == x_poly@[j]);
            assert(xpv[j] == x_poly@[j].v as nat);
        }
        assert forall|j: int| xpv.len() <= j < B implies extended[j] == 0 by {
            assert(extended[j] == ext_elems[j].v as nat);
            assert(ext_elems[j].val() == 0);
        }
        lemma_grid_values(extended, xpv, vals(x_padded@));
        assert(vals(x_padded@).len() == x_padded@.len());
    }
    x_padded
}

/// The transform of a zero-extension carries the evaluations of the short
/// polynomial at every grid point.
#[verifier::rlimit(100)]
proof fn lemma_grid_values(ext: Seq<nat>, xpv: Seq<nat>, cw: Seq<nat>)
    requires
        ext.len() >= xpv.len(),
        forall|j: int| 0 <= j < xpv.len() ==> ext[j] == xpv[j],
        forall|j: int| xpv.len() <= j < ext.len() ==> ext[j] == 0,
        cw == dft(ext, BETA as nat),
    ensures
        forall|i: int|
            0 <= i < ext.len() ==> cw[i] == poly_eval(xpv, f_pow(BETA as nat, i as nat)),
{
    assert(ext =~= xpv + ext.skip(xpv.len() as int));
    assert forall|j: int|
        0 <= j < ext.skip(xpv.len() as int).len() implies #[trigger] ext.skip(
        xpv.len() as int,
    )[j] == 0 by {
        assert(ext.skip(xpv.len() as int)[j] == ext[j + xpv.len()]);
    }
    assert forall|i: int|
        0 <= i < ext.len() implies cw[i] == poly_eval(xpv, f_pow(BETA as nat, i as nat)) by {
        assert(cw[i] == poly_eval(ext, f_pow(BETA as nat, i as nat)));
        lemma_eval_zero_ext(xpv, ext.skip(xpv.len() as int), f_pow(BETA as nat, i as nat));
    }
}

/// Spreads the polynomial over the order-B grid and hides every position
/// outside the index set behind noise.
fn spread_and_hide(x_poly: &Vec<Fp>, pos: &Vec<usize>, rng: &mut Entropy) -> (cw: Vec<Fp>)
    requires
        all_wf(x_poly@),
        x_poly@.len() == A / 2,
        forall|i: int, j: int| 0 <= i < j < pos@.len() ==> pos@[i] < pos@[j],
        forall|i: int| 0 <= i < pos@.len() ==> (#[trigger] pos@[i]) < B,
    ensures
        cw@.len() == B,
        all_wf(cw@),
        forall|k: int|
            0 <= k < pos@.len() ==> vals(cw@)[pos@[k] as int] == poly_eval(
                vals(x_poly@),
                f_pow(BETA as nat, (#[trigger] pos@[k]) as nat),
            ),
{
    let mut cw = extend_transform(x_poly);
    let ghost cw0 = cw@;
    hide_positions(&mut cw, &pos, rng);
    proof {
        assert forall|k: int|
            0 <= k < pos@.len() implies vals(cw@)[pos@[k] as int] == poly_eval(
            vals(x_poly@),
            f_pow(BETA as nat, (#[trigger] pos@[k]) as nat),
        ) by {
            assert(cw@[pos@[k] as int] == cw0[pos@[k] as int]);
            assert(vals(cw@)[pos@[k] as int] == cw@[pos@[k] as int].v as nat);
            assert(vals(cw0)[pos@[k] as int] == cw0[pos@[k] as int].v as nat);
        }
    }
    cw
}

/// Encodes x: pad to A/2 with randoms, interpolate on the even grid of the
/// order-A subgroup, spread over the order-B grid, and hide every position
/// outside a fresh secret index set behind uniform noise. Returns the
/// codeword, the underlying polynomial, and the index set.
pub fn encode_reed_solomon(x: &Vec<Fp>, rng: &mut Entropy) -> (res: (
    Vec<Fp>,
    Vec<Fp>,
    Vec<usize>,
))
    requires
        all_wf(x@),
        x@.len() <= A / 2,
    ensures
        ({
            let cw = res.0;
            let xp = res.1;
            let pos = res.2;
            &&& cw@.len() == B
            &&& all_wf(cw@)
            &&& xp@.len() == A / 2
            &&& all_wf(xp@)
            &&& pos@.len() == A
            &&& (forall|i: int, j: int| 0 <= i < j < pos@.len() ==> pos@[i] < pos@[j])
            &&& (forall|i: int| 0 <= i < pos@.len() ==> (#[trigger] pos@[i]) < B)
            &&& (exists|padded: Seq<nat>|
                #![trigger idft(padded, f_mul(ALPHA as nat, ALPHA as nat))]
                padded.len() == A / 2 && (forall|i: int|
                    0 <= i < x@.len() ==> padded[i] == vals(x@)[i]) && (forall|i: int|
                    0 <= i < padded.len() ==> in_field(#[trigger] padded[i])) && vals(xp@) == idft(
                    padded,
                    f_mul(ALPHA as nat, ALPHA as nat),
                ))
            &&& (forall|i: int|
                0 <= i < x@.len() ==> poly_eval(
                    vals(xp@),
                    f_pow(f_mul(ALPHA as nat, ALPHA as nat), i as nat),
                ) == vals(x@)[i])
            &&& (forall|k: int|
                0 <= k < pos@.len() ==> vals(cw@)[pos@[k] as int] == poly_eval(
                    vals(xp@),
                    f_pow(BETA as nat, (#[trigger] pos@[k]) as nat),
                ))
        }),
{
    let pos = pick_indices(A, B, rng);
    let x_poly = interpolate_input(x, rng);
    let cw = spread_and_hide(&x_poly, &pos, rng);
    (cw, x_poly, pos)
}

/// Interleaves the input with fresh randoms: the input values sit at the
/// even indices.
pub fn pad_every_other(input: &Vec<Fp>, rng: &mut Entropy) -> (r: Vec<Fp>)
    requires
        all_wf(input@),
        input@.len() <= 0x7fffffff,
    ensures
        all_wf(r@),
        r@.len() == 2 * input@.len(),
        forall|i: int| 0 <= i < input@.len() ==> r@[2 * i] == input@[i],
{
    let mut out: Vec<Fp> = Vec::new();
    let mut i: usize = 0;
    while i < input.len()
        invariant
            out@.len() == 2 * i,
            i <= input@.len(),
            input@.len() <= 0x7fffffff,
            all_wf(input@),
            all_wf(out@),
            forall|j: int| 0 <= j < i ==> out@[2 * j] == input@[j],
        decreases input@.len() - i,
    {
        let ghost out0 = out@;
        out.push(input[i]);
        out.push(Fp::random(rng));
        i = i + 1;
        proof {
            assert forall|j: int| 0 <= j < i implies out@[2 * j] == input@[j] by {
                if j < i - 1 {
                    assert(out@[2 * j] == out0[2 * j]);
                }
            }
        }
    }
    out
}

/// Pads the input with randoms to length A and interpolates it on the full
/// grid of the order-A subgroup.
#[verifier::rlimit(100)]
pub(crate) fn interpolate_full(v: &Vec<Fp>, rng: &mut Entropy) -> (xp: Vec<Fp>)
    requires
        all_wf(v@),
        v@.len() <= A,
    ensures
        xp@.len() == A,
        all_wf(xp@),
        exists|padded: Seq<nat>|
            #![trigger idft(padded, ALPHA as nat)]
            padded.len() == A && (forall|i: int|
                0 <= i < v@.len() ==> padded[i] == vals(v@)[i]) && (forall|i: int|
                0 <= i < padded.len() ==> in_field(#[trigger] padded[i])) && vals(xp@) == idft(
                padded,
                ALPHA as nat,
            ),
        forall|i: int|
            0 <= i < v@.len() ==> poly_eval(vals(xp@), f_pow(ALPHA as nat, i as nat)) == vals(
                v@,
            )[i],
{
    let t = v.len();
    let mut padded = clone_vec(v);
    pad_random(&mut padded, A, rng);
    let alpha = Fp::alpha();
    let ghost padded_vals = vals(padded@);
    match fft2_inverse(&mut padded, &alpha) {
        Ok(()) => {},
        Err(_) => {
            // the parameters make the inverse transform total here
            proof {
                crate::params::lemma_alpha_params();
                assert(padded_vals.len() == A as nat);
                assert(fft_inverse_ok(2, padded_vals, alpha.val()));
                assert(false);
            }
        },
    }
    proof {
        assert(vals(padded@).len() == padded@.len());
        assert(padded_vals.len() == A);
        assert(padded@.len() == A);
        assert forall|i2: int| 0 <= i2 < t implies padded_vals[i2] == vals(v@)[i2] by {
            assert(padded_vals[i2] == v@[i2].v as nat);
            assert(vals(v@)[i2] == v@[i2].v as nat);
        }
        assert forall|i2: int| 0 <= i2 < padded_vals.len() implies in_field(
            #[trigger] padded_vals[i2],
        ) by {}
        assert(vals(padded@) == idft(padded_vals, ALPHA as nat));
        // the interpolated polynomial passes through the inputs on the grid
        crate::roundtrip::lemma_round_trip_alpha(padded_vals);
        assert(dft(vals(padded@), ALPHA as nat) == padded_vals);
        assert forall|i2: int| 0 <= i2 < t implies poly_eval(
            vals(padded@),
            f_pow(ALPHA as nat, i2 as nat),
        ) == vals(v@)[i2] by {
            assert(dft(vals(padded@), ALPHA as nat)[i2] == poly_eval(
                vals(padded@),
                f_pow(ALPHA as nat, i2 as nat),
            ));
        }
    }
    padded
}

/// Decodes a length-B word: apply the inverse transform on the order-B
/// grid, then reduce modulo the vanishing polynomial of the index set; the
/// remainder is the polynomial consistent with the values on that set.
#[verifier::loop_isolation(false)]
#[verifier::rlimit(100)]
pub fn decode_reed_solomon(points: &mut Vec<Fp>, pos: &Vec<usize>) -> (res: Result<
    Vec<Fp>,
    OleError,
>)
    requires
        all_wf(old(points)@),
        pos@.len() < 0xffffffff,
    ensures
        res is Ok <==> fft_inverse_ok(3, vals(old(points)@), BETA as nat),
        res is Err ==> final(points)@ == old(points)@ && res->Err_0
            == OleError::PreconditionError,
        res is Ok ==> ({
            let r = res->Ok_0;
            &&& all_wf(final(points)@)
            &&& vals(final(points)@) == idft(vals(old(points)@), BETA as nat)
            &&& all_wf(r@)
            &&& exists|rts: Seq<nat>, qq: Seq<nat>|
                #![trigger poly_from_roots_sp(rts), qq.len()]
                {
                    &&& rts.len() == pos@.len()
                    &&& (forall|t: int|
                        0 <= t < rts.len() ==> #[trigger] rts[t] == f_pow(
                            BETA as nat,
                            pos@[t] as nat,
                        ))
                    &&& r@.len() < poly_from_roots_sp(rts).len()
                    &&& (forall|k: int|
                        f_add(
                            poly_mul_coeff(qq, poly_from_roots_sp(rts), k),
                            coeff(vals(r@), k),
                        ) == #[trigger] coeff(vals(final(points)@), k))
                }
        }),
{
    let beta = Fp::beta();
    match fft3_inverse(points, &beta) {
        Ok(()) => {},
        Err(e) => {
            return Err(e);
        },
    }
    let mut roots: Vec<Fp> = Vec::new();
    let mut u: usize = 0;
    while u < pos.len()
        invariant
            roots@.len() == u,
            u <= pos@.len(),
            all_wf(roots@),
            forall|w: int| 0 <= w < u ==> vals(roots@)[w] == f_pow(BETA as nat, pos@[w] as nat),
        decreases pos@.len() - u,
    {
        let ghost roots0 = roots@;
        let p = beta.pow(pos[u] as u64);
        roots.push(p);
        proof {
            assert(roots@ =~= roots0.push(p));
            assert forall|w: int|
                0 <= w < u + 1 implies vals(roots@)[w] == f_pow(BETA as nat, pos@[w] as nat) by {
                assert(vals(roots@)[w] == roots@[w].v as nat);
                if w < u {
                    assert(roots@[w] == roots0[w]);
                    assert(vals(roots0)[w] == roots0[w].v as nat);
                }
            }
        }
        u = u + 1;
    }
    let b = poly_from_roots(&roots);
    proof {
        crate::poly::lemma_pfr_shape(vals(roots@));
        assert(vals(b@)[b@.len() - 1] == 1);
        assert(b@[b@.len() - 1].v as nat == 1);
        assert(crate::fmath::has_inverse(1)) by {
            crate::fmath::lemma_f_mul_one(1nat);
            vstd::arithmetic::div_mod::lemma_small_mod(1, qn());
            assert(in_field(1nat) && f_mul(1, 1) == 1);
        }
    }
    match euclid_division(points, &b) {
        Ok(division) => {
            proof {
                let rts = vals(roots@);
                let qq = vals(division.0@);
                assert(vals(division.1@).len() == division.1@.len());
                assert(vals(b@).len() == b@.len());
                assert(division.1@.len() < poly_from_roots_sp(rts).len());
            }
            Ok(division.1)
        },
        Err(_) => {
            proof {
                assert(false);
            }
            Err(OleError::PreconditionError)
        },
    }
}

} // verus!

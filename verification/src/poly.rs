//! Polynomial primitives over F_q: Horner evaluation, Euclidean division,
//! products of linear factors, and Lagrange interpolation at zero.
//!
//! A polynomial is an ordered sequence of coefficients, c_i at index i.
use crate::error::OleError;
use crate::field::{all_wf, vals, Fp};
use crate::fmath::{
    f_add, f_inv, f_mul, f_neg, f_sub, has_inverse, in_field, lemma_f_add_assoc,
    lemma_f_add_bound, lemma_f_add_noop, lemma_f_mul_assoc, lemma_f_mul_distrib, lemma_f_mul_neg,
    lemma_f_mul_noop, lemma_f_mul_one, lemma_f_sub_add_cancel, lemma_inverse_unique, qn,
};
use vstd::arithmetic::div_mod::lemma_small_mod;
use vstd::prelude::*;

verus! {

/// The coefficient of x^i, with zero outside the stored range.
pub open spec fn coeff(s: Seq<nat>, i: int) -> nat {
    if 0 <= i < s.len() {
        s[i]
    } else {
        0
    }
}

/// Evaluation of a coefficient sequence at a point, by the Horner recursion.
pub open spec fn poly_eval(s: Seq<nat>, x: nat) -> nat
    decreases s.len(),
{
    if s.len() == 0 {
        0
    } else {
        f_add(s[0], f_mul(x, poly_eval(s.skip(1), x)))
    }
}

/// Horner evaluation: |a| - 1 multiplications, highest coefficient first.
pub fn horner(coefficients: &Vec<Fp>, variable: &Fp) -> (r: Fp)
    requires
        all_wf(coefficients@),
        variable.wf(),
    ensures
        r.wf(),
        r.val() == poly_eval(vals(coefficients@), variable.val()),
{
    let n = coefficients.len();
    let mut acc = Fp::zero();
    let mut i: usize = n;
    proof {
        assert(vals(coefficients@).skip(n as int) =~= Seq::<nat>::empty());
    }
    while i > 0
        invariant
            all_wf(coefficients@),
            variable.wf(),
            acc.wf(),
            i <= n,
            n == coefficients@.len(),
            acc.val() == poly_eval(vals(coefficients@).skip(i as int), variable.val()),
        decreases i,
    {
        let ghost pre = vals(coefficients@).skip(i as int);
        i = i - 1;
        acc = acc.mul(*variable).add(coefficients[i]);
        proof {
            let s = vals(coefficients@).skip(i as int);
            assert(s.len() == n - i);
            assert(s[0] == coefficients@[i as int].v as nat);
            assert(s.skip(1) =~= pre);
            lemma_f_mul_noop(variable.val(), poly_eval(pre, variable.val()));
            lemma_f_add_noop(
                f_mul(variable.val(), poly_eval(pre, variable.val())),
                coefficients@[i as int].v as nat,
            );
            lemma_f_add_noop(
                coefficients@[i as int].v as nat,
                f_mul(variable.val(), poly_eval(pre, variable.val())),
            );
        }
    }
    proof {
        assert(vals(coefficients@).skip(0) =~= vals(coefficients@));
    }
    acc
}

/// Adds polynomial b onto polynomial a, coefficient by coefficient.
pub fn poly_add(a: &mut Vec<Fp>, b: &Vec<Fp>)
    requires
        all_wf(old(a)@),
        all_wf(b@),
        old(a)@.len() >= b@.len(),
    ensures
        final(a)@.len() == old(a)@.len(),
        all_wf(final(a)@),
        forall|i: int|
            0 <= i < b@.len() ==> vals(final(a)@)[i] == f_add(
                vals(old(a)@)[i],
                #[trigger] vals(b@)[i],
            ),
        forall|i: int| b@.len() <= i < final(a)@.len() ==> final(a)@[i] == old(a)@[i],
{
    let mut i: usize = 0;
    while i < b.len()
        invariant
            all_wf(a@),
            all_wf(b@),
            a@.len() == old(a)@.len(),
            b@.len() <= a@.len(),
            i <= b@.len(),
            forall|j: int|
                0 <= j < i ==> vals(a@)[j] == f_add(vals(old(a)@)[j], #[trigger] vals(b@)[j]),
            forall|j: int| i <= j < a@.len() ==> a@[j] == old(a)@[j],
        decreases b@.len() - i,
    {
        let t = a[i].add(b[i]);
        a.set(i, t);
        i = i + 1;
    }
}

/// The convolution of the first n coefficients of a against b, at index k.
pub open spec fn conv_at(a: Seq<nat>, b: Seq<nat>, k: int, n: nat) -> nat
    decreases n,
{
    if n == 0 {
        0
    } else {
        f_add(conv_at(a, b, k, (n - 1) as nat), f_mul(coeff(a, n - 1), coeff(b, k - (n - 1))))
    }
}

/// The k-th coefficient of the product polynomial a * b.
pub open spec fn poly_mul_coeff(a: Seq<nat>, b: Seq<nat>, k: int) -> nat {
    conv_at(a, b, k, a.len())
}

pub proof fn lemma_conv_bound(a: Seq<nat>, b: Seq<nat>, k: int, n: nat)
    ensures
        in_field(conv_at(a, b, k, n)),
    decreases n,
{
    if n > 0 {
        lemma_f_add_bound(
            conv_at(a, b, k, (n - 1) as nat),
            f_mul(coeff(a, n - 1), coeff(b, k - (n - 1))),
        );
    } else {
        assert(qn() > 0);
    }
}

/// Beyond every index the convolution contributes nothing: terms with an
/// out-of-range coefficient of a vanish.
proof fn lemma_conv_high_terms(a: Seq<nat>, b: Seq<nat>, k: int, n1: nat, n2: nat)
    requires
        a.len() <= n1 <= n2,
    ensures
        conv_at(a, b, k, n2) == conv_at(a, b, k, n1),
    decreases n2,
{
    if n2 > n1 {
        lemma_conv_high_terms(a, b, k, n1, (n2 - 1) as nat);
        assert(coeff(a, n2 - 1) == 0);
        lemma_f_mul_one(coeff(b, k - (n2 - 1)));
        lemma_conv_bound(a, b, k, (n2 - 1) as nat);
        lemma_small_mod(conv_at(a, b, k, (n2 - 1) as nat), qn());
    }
}

/// The schoolbook product of two polynomials: prod[i+j] accumulates a[i]*b[j].
pub fn naive_poly_mult(a: &Vec<Fp>, b: &Vec<Fp>) -> (r: Vec<Fp>)
    requires
        all_wf(a@),
        all_wf(b@),
        a@.len() >= 1,
        b@.len() >= 1,
        a@.len() + b@.len() <= usize::MAX,
    ensures
        all_wf(r@),
        r@.len() == a@.len() + b@.len() - 1,
        forall|k: int| 0 <= k < r@.len() ==> vals(r@)[k] == poly_mul_coeff(vals(a@), vals(b@), k),
{
    let la = a.len();
    let lb = b.len();
    let mut prod: Vec<Fp> = Vec::new();
    let mut z: usize = 0;
    while z < la + lb - 1
        invariant
            la + lb <= usize::MAX,
            la >= 1,
            prod@.len() == z,
            z <= la + lb - 1,
            forall|k: int| 0 <= k < z ==> (#[trigger] prod@[k]).v == 0,
        decreases la + lb - 1 - z,
    {
        prod.push(Fp::zero());
        z = z + 1;
    }
    proof {
        assert forall|k: int| 0 <= k < prod@.len() implies vals(prod@)[k] == conv_at(
            vals(a@),
            vals(b@),
            k,
            0,
        ) by {}
    }
    let mut i: usize = 0;
    while i < la
        invariant
            la + lb <= usize::MAX,
            all_wf(a@), all_wf(b@), all_wf(prod@),
            la == a@.len(), lb == b@.len(),
            prod@.len() == la + lb - 1,
            i <= la,
            forall|k: int|
                0 <= k < prod@.len() ==> vals(prod@)[k] == conv_at(
                    vals(a@), vals(b@), k, i as nat),
        decreases la - i,
    {
        let mut j: usize = 0;
        while j < lb
            invariant
                la + lb <= usize::MAX,
                all_wf(a@), all_wf(b@), all_wf(prod@),
                la == a@.len(), lb == b@.len(),
                prod@.len() == la + lb - 1,
                i < la,
                j <= lb,
                forall|k: int|
                    0 <= k < prod@.len() && !(i <= k < i + j) ==> vals(prod@)[k] == conv_at(
                        vals(a@), vals(b@), k, i as nat),
                forall|k: int|
                    i <= k < i + j ==> vals(prod@)[k] == f_add(
                        conv_at(vals(a@), vals(b@), k, i as nat),
                        f_mul(vals(a@)[i as int], coeff(vals(b@), k - i)),
                    ),
            decreases lb - j,
        {
            let ghost oldprod = prod@;
            let t = prod[i + j].add(a[i].mul(b[j]));
            prod.set(i + j, t);
            j = j + 1;
            proof {
                let av = vals(a@);
                let bv = vals(b@);
                assert(prod@ =~= oldprod.update(i + j - 1, t));
                assert forall|k: int| 0 <= k < prod@.len() && !(i <= k < i + j) implies vals(
                    prod@,
                )[k] == conv_at(av, bv, k, i as nat) by {
                    assert(prod@[k] == oldprod[k]);
                    assert(vals(oldprod)[k] == oldprod[k].v as nat);
                    assert(vals(prod@)[k] == prod@[k].v as nat);
                }
                assert forall|k: int| i <= k < i + j implies vals(prod@)[k] == f_add(
                    conv_at(av, bv, k, i as nat),
                    f_mul(av[i as int], coeff(bv, k - i)),
                ) by {
                    assert(vals(prod@)[k] == prod@[k].v as nat);
                    assert(vals(oldprod)[k] == oldprod[k].v as nat);
                    if k == i + j - 1 {
                        assert(prod@[k] == t);
                        assert(coeff(bv, k - i) == bv[j - 1]);
                        assert(vals(a@)[i as int] == a@[i as int].v as nat);
                        assert(vals(b@)[j - 1] == b@[j - 1].v as nat);
                    } else {
                        assert(prod@[k] == oldprod[k]);
                    }
                }
            }
        }
        i = i + 1;
        proof {
            assert forall|k: int| 0 <= k < prod@.len() implies vals(prod@)[k] == conv_at(
                vals(a@),
                vals(b@),
                k,
                i as nat,
            ) by {
                let av = vals(a@);
                let bv = vals(b@);
                let im = (i - 1) as nat;
                assert(conv_at(av, bv, k, i as nat) == f_add(
                    conv_at(av, bv, k, im),
                    f_mul(coeff(av, i - 1), coeff(bv, k - (i - 1))),
                ));
                if im <= k < im + lb {
                    assert(coeff(bv, k - (i - 1)) == bv[k - (i - 1)]);
                } else {
                    assert(coeff(bv, k - (i - 1)) == 0);
                    lemma_f_mul_one(coeff(av, i - 1));
                    lemma_conv_bound(av, bv, k, im);
                    lemma_small_mod(conv_at(av, bv, k, im), qn());
                }
            }
        }
    }
    proof {
        assert forall|k: int| 0 <= k < prod@.len() implies vals(prod@)[k] == poly_mul_coeff(
            vals(a@),
            vals(b@),
            k,
        ) by {
            lemma_conv_high_terms(vals(a@), vals(b@), k, vals(a@).len(), la as nat);
        }
    }
    prod
}

/// Bumping one coefficient of the left factor bumps every product
/// coefficient by the matching multiple.
proof fn lemma_conv_bump(qa: Seq<nat>, qb: Seq<nat>, b: Seq<nat>, m: int, s: nat, k: int, n: nat)
    requires
        0 <= m < qa.len(),
        qb == qa.update(m, f_add(qa[m], s)),
        n <= qa.len(),
    ensures
        m < n ==> conv_at(qb, b, k, n) == f_add(conv_at(qa, b, k, n), f_mul(s, coeff(b, k - m))),
        m >= n ==> conv_at(qb, b, k, n) == conv_at(qa, b, k, n),
    decreases n,
{
    if n > 0 {
        let nm = (n - 1) as nat;
        lemma_conv_bump(qa, qb, b, m, s, k, nm);
        let ca = conv_at(qa, b, k, nm);
        let ta = f_mul(coeff(qa, n - 1), coeff(b, k - (n - 1)));
        let x = f_mul(s, coeff(b, k - m));
        if m < n - 1 {
            // conv(qb, nm) == f_add(ca, x); terms at n-1 agree
            assert(coeff(qb, n - 1) == coeff(qa, n - 1));
            // f_add(f_add(ca, x), ta) == f_add(f_add(ca, ta), x)
            lemma_f_add_assoc(ca, x, ta);
            lemma_f_add_assoc(ca, ta, x);
            lemma_f_add_noop(x, ta);
        } else if m == n - 1 {
            // conv(qb, nm) == ca; term at n-1 gains x
            let cb = coeff(b, k - (n - 1));
            assert(coeff(qb, n - 1) == f_add(qa[m], s));
            assert(f_mul(f_add(qa[m], s), cb) == f_add(f_mul(qa[m], cb), f_mul(s, cb))) by {
                lemma_f_mul_noop(f_add(qa[m], s), cb);
                lemma_f_mul_distrib(cb, qa[m], s);
                lemma_f_mul_noop(cb, f_add(qa[m], s));
                lemma_f_mul_noop(cb, (qa[m] + s) as nat);
                lemma_f_mul_noop(cb, qa[m]);
                lemma_f_mul_noop(cb, s);
            }
            assert(coeff(qa, n - 1) == qa[m]);
            lemma_f_add_assoc(ca, f_mul(qa[m], cb), f_mul(s, cb));
        } else {
            assert(coeff(qb, n - 1) == coeff(qa, n - 1));
        }
    }
}

/// (pm + x) + (r - x) == pm + r in F_q.
proof fn lemma_add_sub_mix(pm: nat, r: nat, x: nat)
    ensures
        f_add(f_add(pm, x), f_sub(r, x)) == f_add(pm, r),
{
    lemma_f_add_assoc(pm, x, f_sub(r, x));
    lemma_f_sub_add_cancel(r, x);
    lemma_f_add_noop(x, f_sub(r, x));
    lemma_f_add_noop(f_sub(r, x), x);
    // f_add(x, f_sub(r, x)) == r % q
    lemma_f_add_noop(pm, r);
    lemma_f_add_noop(pm, (r % qn()) as nat);
}

/// Euclidean division of a by b: returns (quotient, remainder) with
/// a == quotient * b + remainder and deg(remainder) < deg(b). Fails exactly
/// when b is empty or its leading coefficient has no inverse.
/// One reduction row of the Euclidean division: adds s = lc(r)/lc(b) to the
/// quotient at position deg_r - d and subtracts s * b * x^(deg_r - d) from r,
/// cancelling r's coefficient at deg_r.
#[verifier::loop_isolation(false)]
#[verifier::rlimit(100)]
fn euclid_row(
    qv: &mut Vec<Fp>,
    r: &mut Vec<Fp>,
    b: &Vec<Fp>,
    c: Fp,
    deg_r: usize,
    Ghost(av): Ghost<Seq<nat>>,
)
    requires
        all_wf(old(qv)@),
        all_wf(old(r)@),
        all_wf(b@),
        b@.len() >= 1,
        c.wf(),
        f_mul(b@[b@.len() - 1].val(), c.val()) == 1,
        old(r)@.len() == old(qv)@.len(),
        b@.len() - 1 <= deg_r < old(r)@.len(),
        forall|k: int|
            f_add(
                conv_at(vals(old(qv)@), vals(b@), k, old(qv)@.len()),
                coeff(vals(old(r)@), k),
            ) == #[trigger] coeff(av, k),
    ensures
        all_wf(final(qv)@),
        all_wf(final(r)@),
        final(qv)@.len() == old(qv)@.len(),
        final(r)@.len() == old(r)@.len(),
        final(r)@[deg_r as int].val() == 0,
        forall|k: int| deg_r < k < final(r)@.len() ==> #[trigger] final(r)@[k] == old(r)@[k],
        forall|k: int|
            f_add(
                conv_at(vals(final(qv)@), vals(b@), k, final(qv)@.len()),
                coeff(vals(final(r)@), k),
            ) == #[trigger] coeff(av, k),
{
    let la = r.len();
    let lb = b.len();
    let d = lb - 1;
    let m = deg_r - d;
    let s = r[deg_r].mul(c);
    let ghost qv0 = qv@;
    let qold = qv[m];
    let qnew = qold.add(s);
    qv.set(m, qnew);
    proof {
        assert(qv@ =~= qv0.update(m as int, qnew));
        assert(vals(qv@) =~= vals(qv0).update(m as int, f_add(vals(qv0)[m as int], s.val())));
    }
    let ghost rb = r@;
    let mut ii: usize = 0;
    while ii < d + 1
        invariant
            all_wf(r@),
            r@.len() == la,
            ii <= d + 1,
            forall|k: int| 0 <= k < la && !(m <= k < m + ii) ==> #[trigger] r@[k] == rb[k],
            forall|k: int|
                m <= k < m + ii ==> (#[trigger] r@[k]).val() == f_sub(
                    rb[k].val(),
                    f_mul(s.val(), vals(b@)[k - m]),
                ) && r@[k].wf(),
        decreases d + 1 - ii,
    {
        let ghost rprev = r@;
        let t = r[m + ii].sub(s.mul(b[ii]));
        r.set(m + ii, t);
        ii = ii + 1;
        proof {
            assert(r@ =~= rprev.update(m + ii - 1, t));
            assert(vals(b@)[ii - 1] == b@[ii - 1].v as nat);
        }
    }
    proof {
        let bv = vals(b@);
        let rtop = rb[deg_r as int].val();
        assert(r@[deg_r as int].val() == f_sub(rtop, f_mul(s.val(), bv[d as int])));
        assert(f_mul(s.val(), bv[d as int]) == rtop % qn()) by {
            lemma_f_mul_assoc(rtop, c.val(), b@[d as int].val());
            lemma_f_mul_noop(c.val(), b@[d as int].val());
            lemma_f_mul_noop(b@[d as int].val(), c.val());
            lemma_f_mul_one(rtop);
            lemma_f_mul_noop(rtop, 1);
        }
        lemma_small_mod(rtop, qn());
        lemma_f_sub_add_cancel(rtop, rtop);
        assert(r@[deg_r as int].val() == 0);
        assert forall|k: int|
            f_add(conv_at(vals(qv@), vals(b@), k, la as nat), coeff(vals(r@), k))
                == #[trigger] coeff(av, k) by {
            let qa = vals(qv0);
            let qb = vals(qv@);
            let x = f_mul(s.val(), coeff(bv, k - m));
            lemma_conv_bump(qa, qb, bv, m as int, s.val(), k, la as nat);
            assert(conv_at(qb, bv, k, la as nat) == f_add(conv_at(qa, bv, k, la as nat), x));
            if m <= k < m + d + 1 {
                assert(coeff(bv, k - m) == bv[k - m]);
                assert(vals(r@)[k] == r@[k].v as nat);
                assert(vals(rb)[k] == rb[k].v as nat);
                assert(coeff(vals(r@), k) == f_sub(rb[k].val(), x));
                lemma_add_sub_mix(conv_at(qa, bv, k, la as nat), rb[k].val(), x);
                lemma_small_mod(rb[k].val(), qn());
                lemma_f_add_noop(conv_at(qa, bv, k, la as nat), rb[k].val());
            } else {
                assert(coeff(bv, k - m) == 0);
                lemma_f_mul_one(s.val());
                assert(x == 0);
                lemma_conv_bound(qa, bv, k, la as nat);
                lemma_f_mul_one(conv_at(qa, bv, k, la as nat));
                lemma_small_mod(conv_at(qa, bv, k, la as nat), qn());
                if 0 <= k < la {
                    assert(r@[k] == rb[k]);
                    assert(vals(r@)[k] == r@[k].v as nat);
                    assert(vals(rb)[k] == rb[k].v as nat);
                } else {
                    assert(coeff(vals(r@), k) == 0);
                    assert(coeff(vals(rb), k) == 0);
                }
            }
        }
    }
}

/// Euclidean division of a by b: returns (quotient, remainder) with
/// a == quotient * b + remainder and deg(remainder) < deg(b). Fails exactly
/// when b is empty or its leading coefficient has no inverse.
#[verifier::loop_isolation(false)]
#[verifier::rlimit(100)]
pub fn euclid_division(a: &Vec<Fp>, b: &Vec<Fp>) -> (res: Result<(Vec<Fp>, Vec<Fp>), OleError>)
    requires
        all_wf(a@),
        all_wf(b@),
    ensures
        res is Err <==> b@.len() == 0 || !has_inverse(b@[b@.len() - 1].val()),
        b@.len() > 0 && b@[b@.len() - 1].val() == 0 ==> res is Err,
        res is Err ==> res->Err_0 == OleError::PreconditionError,
        res is Ok ==> ({
            let qv = res->Ok_0.0;
            let r = res->Ok_0.1;
            &&& all_wf(qv@)
            &&& all_wf(r@)
            &&& qv@.len() == a@.len()
            &&& r@.len() < b@.len()
            &&& (a@.len() < b@.len() ==> r@ == a@)
            &&& (r@.len() > 0 ==> r@[r@.len() - 1].val() != 0 || a@.len() < b@.len())
            &&& forall|k: int|
                f_add(
                    poly_mul_coeff(vals(qv@), vals(b@), k),
                    coeff(vals(r@), k),
                ) == #[trigger] coeff(vals(a@), k)
        }),
{
    let lb = b.len();
    if lb == 0 {
        return Err(OleError::PreconditionError);
    }
    let lc = b[lb - 1];
    let c = match lc.invert() {
        Some(c) => c,
        None => {
            return Err(OleError::PreconditionError);
        },
    };
    proof {
        if lc.val() == 0 {
            crate::fmath::lemma_zero_no_inverse();
        }
    }
    let la = a.len();
    let mut qv: Vec<Fp> = Vec::new();
    let mut r: Vec<Fp> = Vec::new();
    let mut z: usize = 0;
    while z < la
        invariant
            z <= la,
            qv@.len() == z,
            r@.len() == z,
            forall|k: int| 0 <= k < z ==> (#[trigger] qv@[k]).v == 0,
            forall|k: int| 0 <= k < z ==> #[trigger] r@[k] == a@[k],
        decreases la - z,
    {
        qv.push(Fp::zero());
        r.push(a[z]);
        z = z + 1;
    }
    proof {
        assert(r@ =~= a@);
        lemma_conv_zero_left(vals(qv@), vals(b@));
        assert forall|k: int|
            f_add(conv_at(vals(qv@), vals(b@), k, la as nat), coeff(vals(r@), k))
                == #[trigger] coeff(vals(a@), k) by {
            assert(conv_at(vals(qv@), vals(b@), k, la as nat) == 0);
            lemma_f_mul_one(coeff(vals(r@), k));
            lemma_coeff_bound(vals(a@), k);
            lemma_small_mod(coeff(vals(r@), k), qn());
        }
    }
    if la == 0 {
        return Ok((qv, r));
    }
    let d = lb - 1;
    let mut deg_r: usize = la - 1;
    let mut rz = false;
    while !rz && deg_r >= d
        invariant
            all_wf(qv@),
            all_wf(r@),
            qv@.len() == la,
            r@.len() == la,
            deg_r < la,
            !rz ==> forall|k: int| deg_r < k < la ==> (#[trigger] r@[k]).val() == 0,
            rz ==> forall|k: int| 0 <= k < la ==> (#[trigger] r@[k]).val() == 0,
            la < lb ==> r@ == a@ && !rz && deg_r + 1 == la,
            !rz ==> r@[deg_r as int].val() != 0 || deg_r + 1 == la,
            forall|k: int|
                f_add(conv_at(vals(qv@), vals(b@), k, la as nat), coeff(vals(r@), k))
                    == #[trigger] coeff(vals(a@), k),
        decreases (if rz { 0int } else { deg_r + 1 }),
    {
        let ghost degr0 = deg_r as int;
        euclid_row(&mut qv, &mut r, b, c, deg_r, Ghost(vals(a@)));
        while deg_r > 0 && r[deg_r].is_zero()
            invariant
                deg_r < la,
                deg_r <= degr0,
                forall|k: int| deg_r < k < la ==> (#[trigger] r@[k]).val() == 0,
            decreases deg_r,
        {
            deg_r = deg_r - 1;
        }
        if deg_r == 0 && r[0].is_zero() {
            rz = true;
        }
        proof {
            if !rz && degr0 > 0 {
                assert(deg_r < degr0);
            }
        }
    }
    let rout: Vec<Fp>;
    let ghost rfull = r@;
    if rz {
        rout = Vec::new();
    } else {
        r.truncate(deg_r + 1);
        rout = r;
    }
    proof {
        if !rz {
            assert(rout@ =~= rfull.take(deg_r + 1));
        }
        assert forall|k: int|
            f_add(conv_at(vals(qv@), vals(b@), k, la as nat), coeff(vals(rout@), k))
                == #[trigger] coeff(vals(a@), k) by {
            assert(coeff(vals(rout@), k) == coeff(vals(rfull), k)) by {
                if 0 <= k < rout@.len() {
                    assert(rout@[k] == rfull[k]);
                    assert(vals(rout@)[k] == rout@[k].v as nat);
                    assert(vals(rfull)[k] == rfull[k].v as nat);
                } else if 0 <= k < rfull.len() {
                    assert(rfull[k].val() == 0);
                    assert(vals(rfull)[k] == rfull[k].v as nat);
                }
            }
        }
        if la < lb {
            assert(!rz);
            assert(deg_r + 1 == la);
            assert(rout@ =~= a@);
        }
    }
    Ok((qv, rout))
}

/// A convolution against an all-zero left factor is zero.
proof fn lemma_conv_zero_left(qa: Seq<nat>, b: Seq<nat>)
    requires
        forall|k: int| 0 <= k < qa.len() ==> qa[k] == 0,
    ensures
        forall|k: int, n: nat| n <= qa.len() ==> #[trigger] conv_at(qa, b, k, n) == 0,
{
    assert forall|k: int, n: nat| n <= qa.len() implies #[trigger] conv_at(qa, b, k, n) == 0 by {
        lemma_conv_zero_left_one(qa, b, k, n);
    }
}

proof fn lemma_conv_zero_left_one(qa: Seq<nat>, b: Seq<nat>, k: int, n: nat)
    requires
        forall|k: int| 0 <= k < qa.len() ==> qa[k] == 0,
        n <= qa.len(),
    ensures
        conv_at(qa, b, k, n) == 0,
    decreases n,
{
    if n > 0 {
        lemma_conv_zero_left_one(qa, b, k, (n - 1) as nat);
        assert(coeff(qa, n - 1) == 0);
        lemma_f_mul_one(coeff(b, k - (n - 1)));
        lemma_f_mul_one(0nat);
    }
}

/// A stored coefficient is a residue when the sequence is well formed; the
/// virtual ones beyond the end are zero.
proof fn lemma_coeff_bound(s: Seq<nat>, k: int)
    ensures
        coeff(s, k) < qn() || (0 <= k < s.len() && coeff(s, k) == s[k]),
{
}

/// The coefficients of (x - root) * p.
pub open spec fn mul_by_linear(p: Seq<nat>, root: nat) -> Seq<nat> {
    Seq::new(p.len() + 1, |k: int| f_sub(coeff(p, k - 1), f_mul(root, coeff(p, k))))
}

/// The monic polynomial whose roots are exactly the given points.
pub open spec fn poly_from_roots_sp(roots: Seq<nat>) -> Seq<nat>
    decreases roots.len(),
{
    if roots.len() == 0 {
        seq![1nat]
    } else {
        mul_by_linear(poly_from_roots_sp(roots.drop_last()), roots.last())
    }
}

/// The product polynomial has one coefficient per root plus a leading one.
pub proof fn lemma_pfr_shape(roots: Seq<nat>)
    ensures
        poly_from_roots_sp(roots).len() == roots.len() + 1,
        poly_from_roots_sp(roots)[roots.len() as int] == 1,
        forall|k: int|
            0 <= k <= roots.len() ==> in_field(#[trigger] poly_from_roots_sp(roots)[k]) || (
            k == roots.len() && poly_from_roots_sp(roots)[k] == 1),
    decreases roots.len(),
{
    if roots.len() == 0 {
    } else {
        let p = poly_from_roots_sp(roots.drop_last());
        let root = roots.last();
        lemma_pfr_shape(roots.drop_last());
        let n = roots.len() as int;
        assert(poly_from_roots_sp(roots)[n] == f_sub(coeff(p, n - 1), f_mul(root, coeff(p, n))));
        assert(coeff(p, n) == 0);
        lemma_f_mul_one(root);
        assert(f_mul(root, 0) == 0);
        assert(f_sub(1, 0) == 1) by {
            lemma_f_mul_one(1nat);
            lemma_small_mod(1, qn());
        }
        assert forall|k: int| 0 <= k <= roots.len() implies in_field(
            #[trigger] poly_from_roots_sp(roots)[k],
        ) || (k == roots.len() && poly_from_roots_sp(roots)[k] == 1) by {
            if k < n {
                lemma_f_add_bound(coeff(p, k - 1), f_mul(root, coeff(p, k)));
            }
        }
    }
}

/// Raising the constant coefficient raises the evaluation by as much.
proof fn lemma_eval_update0(s: Seq<nat>, v: nat, x: nat)
    requires
        s.len() >= 1,
    ensures
        poly_eval(s.update(0, f_add(s[0], v)), x) == f_add(poly_eval(s, x), v),
{
    let t = s.update(0, f_add(s[0], v));
    assert(t.skip(1) =~= s.skip(1));
    let m = f_mul(x, poly_eval(s.skip(1), x));
    // f_add(f_add(s0, v), m) == f_add(f_add(s0, m), v)
    lemma_f_add_assoc(s[0], v, m);
    lemma_f_add_assoc(s[0], m, v);
    lemma_f_add_noop(v, m);
}

/// Evaluating (x - root) * p multiplies the evaluation of p by (x - root).
#[verifier::rlimit(100)]
proof fn lemma_eval_mul_linear(p: Seq<nat>, root: nat, x: nat)
    ensures
        poly_eval(mul_by_linear(p, root), x) == f_mul(poly_eval(p, x), f_sub(x, root)),
    decreases p.len(),
{
    let ml = mul_by_linear(p, root);
    if p.len() == 0 {
        assert(ml.len() == 1);
        assert(ml[0] == f_sub(0, f_mul(root, 0)));
        lemma_f_mul_one(root);
        assert(f_neg(0nat) == 0) by {
            lemma_small_mod(0, qn());
        }
        assert(f_sub(0, 0) == 0) by {
            lemma_small_mod(0, qn());
        }
        assert(ml.skip(1) =~= Seq::<nat>::empty());
        assert(poly_eval(Seq::<nat>::empty(), x) == 0);
        assert(poly_eval(ml, x) == f_add(0, f_mul(x, 0)));
        lemma_f_mul_one(x);
        lemma_small_mod(0, qn());
        lemma_f_mul_one(f_sub(x, root));
    } else {
        let t = p.skip(1);
        let mlt = mul_by_linear(t, root);
        let e = poly_eval(t, x);
        let s = f_sub(x, root);
        let p0 = p[0];
        lemma_eval_mul_linear(t, root, x);
        // ml.skip(1) is mlt with p[0] added to its constant coefficient
        assert(ml.skip(1) =~= mlt.update(0, f_add(mlt[0], p0))) by {
            assert(ml.skip(1).len() == p.len());
            assert(mlt.update(0, f_add(mlt[0], p0)).len() == p.len());
            assert forall|k: int| 0 <= k < p.len() implies ml.skip(1)[k] == mlt.update(
                0,
                f_add(mlt[0], p0),
            )[k] by {
                assert(ml.skip(1)[k] == ml[k + 1]);
                assert(ml[k + 1] == f_sub(coeff(p, k), f_mul(root, coeff(p, k + 1))));
                if k == 0 {
                    assert(mlt[0] == f_sub(0, f_mul(root, coeff(t, 0))));
                    assert(coeff(p, 1) == coeff(t, 0));
                    // f_add(f_sub(0, m), p0) == f_sub(p0, m)
                    let m = f_mul(root, coeff(t, 0));
                    assert(f_sub(0nat, m) == f_neg(m)) by {
                        lemma_f_add_bound(m, m);
                        lemma_small_mod(f_neg(m), qn());
                        lemma_f_mul_one(f_neg(m));
                    }
                    lemma_f_add_noop(f_neg(m), p0);
                    lemma_f_add_noop(p0, f_neg(m));
                } else {
                    assert(coeff(p, k) == coeff(t, k - 1));
                    assert(coeff(p, k + 1) == coeff(t, k));
                    assert(mlt[k] == f_sub(coeff(t, k - 1), f_mul(root, coeff(t, k))));
                }
            }
        }
        assert(mlt.len() >= 1);
        lemma_eval_update0(mlt, p0, x);
        assert(poly_eval(ml.skip(1), x) == f_add(f_mul(e, s), p0));
        assert(ml[0] == f_sub(0, f_mul(root, p0)));
        let m0 = f_mul(root, p0);
        assert(f_sub(0nat, m0) == f_neg(m0)) by {
            lemma_f_add_bound(m0, m0);
            lemma_small_mod(f_neg(m0), qn());
            lemma_f_mul_one(f_neg(m0));
        }
        // left side: f_add(neg(root*p0), x * (e*s + p0))
        lemma_f_mul_distrib(x, f_mul(e, s), p0);
        lemma_f_mul_noop(x, f_add(f_mul(e, s), p0));
        // right side: (p0 + x*e) * s == p0*s + (x*e)*s
        assert(poly_eval(p, x) == f_add(p0, f_mul(x, e)));
        lemma_f_mul_distrib(s, p0, f_mul(x, e));
        lemma_f_mul_noop(s, f_add(p0, f_mul(x, e)));
        lemma_f_mul_noop(s, p0);
        lemma_f_mul_noop(s, f_mul(x, e));
        lemma_f_mul_noop(f_add(p0, f_mul(x, e)), s);
        assert(f_mul(poly_eval(p, x), s) == f_add(f_mul(p0, s), f_mul(f_mul(x, e), s)));
        // p0 * s == f_sub(x*p0, root*p0)
        crate::field::lemma_f_mul_sub_distrib(x, root, p0);
        lemma_f_mul_noop(f_sub(x, root), p0);
        lemma_f_mul_noop(x, p0);
        lemma_f_mul_noop(root, p0);
        assert(f_mul(p0, s) == f_sub(f_mul(x, p0), m0));
        // (x*e)*s == x*(e*s)
        lemma_f_mul_assoc(x, e, s);
        // assemble
        let u = f_mul(x, f_mul(e, s));
        let w = f_mul(x, p0);
        // lhs == f_add(neg m0, f_add(u, w)); rhs == f_add(f_add(w, neg m0), u)
        assert(f_sub(w, m0) == f_add(w, f_neg(m0)));
        lemma_f_add_assoc(w, f_neg(m0), u);
        lemma_f_add_noop(f_neg(m0), u);
        lemma_f_add_assoc(w, u, f_neg(m0));
        lemma_f_add_noop(f_add(u, w), f_neg(m0));
        lemma_f_add_noop(f_neg(m0), f_add(u, w));
        lemma_f_add_noop(u, w);
        lemma_f_add_noop(w, u);
    }
}

/// The product over (x - root_i) evaluates to zero at every root_i.
pub proof fn lemma_poly_from_roots_vanishes(roots: Seq<nat>, i: int)
    requires
        0 <= i < roots.len(),
    ensures
        poly_eval(poly_from_roots_sp(roots), roots[i]) == 0,
    decreases roots.len(),
{
    let p = poly_from_roots_sp(roots.drop_last());
    let root = roots.last();
    let x = roots[i];
    lemma_eval_mul_linear(p, root, x);
    if i == roots.len() - 1 {
        lemma_f_sub_add_cancel(x, x);
        assert(f_sub(x, root) == 0);
        lemma_f_mul_one(poly_eval(p, x));
    } else {
        assert(roots.drop_last()[i] == roots[i]);
        lemma_poly_from_roots_vanishes(roots.drop_last(), i);
        lemma_f_mul_one(f_sub(x, root));
    }
}

/// Builds the product of (x - a_i) over all inputs, in place; the result is
/// monic of degree |a|.
#[verifier::loop_isolation(false)]
#[verifier::rlimit(100)]
pub fn poly_from_roots(a: &Vec<Fp>) -> (r: Vec<Fp>)
    requires
        all_wf(a@),
    ensures
        all_wf(r@),
        r@.len() == a@.len() + 1,
        vals(r@) == poly_from_roots_sp(vals(a@)),
{
    let n = a.len();
    let mut result: Vec<Fp> = Vec::new();
    let mut z: usize = 0;
    while z < n
        invariant
            result@.len() == z,
            z <= n,
            forall|k: int| 0 <= k < z ==> (#[trigger] result@[k]).v == 0,
        decreases n - z,
    {
        result.push(Fp::zero());
        z = z + 1;
    }
    let mut i: usize = 0;
    while i < n
        invariant
            all_wf(result@),
            result@.len() == n,
            i <= n,
            poly_from_roots_sp(vals(a@).take(i as int)).len() == i + 1,
            forall|k: int|
                0 <= k < i ==> vals(result@)[k] == #[trigger] poly_from_roots_sp(
                    vals(a@).take(i as int),
                )[k],
            forall|k: int| i <= k < n ==> (#[trigger] result@[k]).val() == 0,
        decreases n - i,
    {
        let ghost prefix = vals(a@).take(i as int);
        let ghost pcur = poly_from_roots_sp(prefix);
        let ghost rpre = result@;
        proof {
            lemma_pfr_shape(prefix);
        }
        result.set(i, Fp::one());
        proof {
            assert(result@ =~= rpre.update(i as int, Fp { v: 1 }));
            assert forall|k: int| 0 <= k <= i implies vals(result@)[k] == pcur[k] by {
                assert(vals(result@)[k] == result@[k].v as nat);
                if k < i {
                    assert(result@[k] == rpre[k]);
                    assert(vals(rpre)[k] == rpre[k].v as nat);
                }
            }
        }
        let a_neg = a[i].neg();
        let ghost rootv = a@[i as int].val();
        let ghost prefix2 = vals(a@).take(i as int + 1);
        let ghost pnext = poly_from_roots_sp(prefix2);
        proof {
            assert(prefix2.drop_last() =~= prefix);
            assert(prefix2.last() == rootv);
            assert(pnext == mul_by_linear(pcur, rootv));
            lemma_small_mod(rootv, qn());
        }
        let ghost rsnap = result@;
        let mut j: usize = i;
        while j >= 1
            invariant
                all_wf(result@),
                result@.len() == n,
                j <= i,
                rsnap.len() == n,
                forall|k: int| 0 <= k < n && !(j < k <= i) ==> #[trigger] result@[k] == rsnap[k],
                forall|k: int|
                    j < k <= i ==> vals(result@)[k] == f_add(
                        f_mul(vals(rsnap)[k], f_neg(rootv)),
                        vals(rsnap)[k - 1],
                    ),
            decreases j,
        {
            let t = result[j].mul(a_neg).add(result[j - 1]);
            let ghost rprev = result@;
            result.set(j, t);
            j = j - 1;
            proof {
                assert(result@ =~= rprev.update(j + 1, t));
                assert forall|k: int|
                    j < k <= i implies vals(result@)[k] == f_add(
                    f_mul(vals(rsnap)[k], f_neg(rootv)),
                    vals(rsnap)[k - 1],
                ) by {
                    assert(vals(result@)[k] == result@[k].v as nat);
                    if k == j + 1 {
                        assert(result@[k] == t);
                        assert(rprev[k] == rsnap[k]);
                        assert(rprev[k - 1] == rsnap[k - 1]);
                        assert(vals(rsnap)[k] == rsnap[k].v as nat);
                        assert(vals(rsnap)[k - 1] == rsnap[k - 1].v as nat);
                    } else {
                        assert(result@[k] == rprev[k]);
                        assert(vals(rprev)[k] == rprev[k].v as nat);
                    }
                }
            }
        }
        let t0 = result[0].mul(a_neg);
        let ghost rprev0 = result@;
        result.set(0, t0);
        i = i + 1;
        proof {
            assert(result@ =~= rprev0.update(0, t0));
            lemma_pfr_shape(prefix2);
            assert forall|k: int| 0 <= k < i implies vals(result@)[k] == pnext[k] by {
                assert(vals(result@)[k] == result@[k].v as nat);
                assert(pnext[k] == f_sub(coeff(pcur, k - 1), f_mul(rootv, coeff(pcur, k))));
                if k == 0 {
                    assert(result@[0] == t0);
                    assert(rprev0[0] == rsnap[0]);
                    assert(vals(rsnap)[0] == rsnap[0].v as nat);
                    assert(rsnap[0].val() == pcur[0]);
                    assert(coeff(pcur, -1) == 0);
                    lemma_f_mul_neg(rootv, pcur[0]);
                    lemma_f_mul_noop(pcur[0], f_neg(rootv));
                    lemma_f_mul_noop(rootv, pcur[0]);
                    let m = f_mul(rootv, coeff(pcur, 0));
                    assert(f_sub(0nat, m) == f_neg(m)) by {
                        lemma_f_add_bound(m, m);
                        lemma_small_mod(f_neg(m), qn());
                        lemma_f_mul_one(f_neg(m));
                    }
                } else {
                    assert(k <= i - 1);
                    assert(rprev0[k] == result@[k]);
                    assert(vals(rprev0)[k] == rprev0[k].v as nat);
                    assert(rprev0[k].val() == f_add(
                        f_mul(vals(rsnap)[k], f_neg(rootv)),
                        vals(rsnap)[k - 1],
                    ));
                    assert(vals(rsnap)[k] == rsnap[k].v as nat);
                    assert(vals(rsnap)[k - 1] == rsnap[k - 1].v as nat);
                    assert(rsnap[k].val() == coeff(pcur, k));
                    assert(rsnap[k - 1].val() == coeff(pcur, k - 1));
                    lemma_f_mul_neg(rootv, coeff(pcur, k));
                    lemma_f_mul_noop(coeff(pcur, k), f_neg(rootv));
                    lemma_f_mul_noop(rootv, coeff(pcur, k));
                    lemma_f_add_noop(f_neg(f_mul(rootv, coeff(pcur, k))), coeff(pcur, k - 1));
                    lemma_f_add_noop(coeff(pcur, k - 1), f_neg(f_mul(rootv, coeff(pcur, k))));
                }
            }
            assert forall|k: int| i <= k < n implies (#[trigger] result@[k]).val() == 0 by {
                assert(result@[k] == rsnap[k]);
            }
        }
    }
    result.push(Fp::one());
    proof {
        assert(vals(a@).take(n as int) =~= vals(a@));
        lemma_pfr_shape(vals(a@));
        assert(vals(result@) =~= poly_from_roots_sp(vals(a@))) by {
            assert forall|k: int| 0 <= k < n + 1 implies vals(result@)[k] == poly_from_roots_sp(
                vals(a@),
            )[k] by {
                assert(vals(result@)[k] == result@[k].v as nat);
            }
        }
    }
    result
}

/// The product of x_j over j != i, taken over the first n points.
pub open spec fn lag_num(xs: Seq<nat>, i: int, n: nat) -> nat
    decreases n,
{
    if n == 0 {
        1
    } else if n - 1 == i {
        lag_num(xs, i, (n - 1) as nat)
    } else {
        f_mul(lag_num(xs, i, (n - 1) as nat), xs[n - 1])
    }
}

/// The product of (x_j - x_i) over j != i, taken over the first n points.
pub open spec fn lag_den(xs: Seq<nat>, i: int, n: nat) -> nat
    decreases n,
{
    if n == 0 {
        1
    } else if n - 1 == i {
        lag_den(xs, i, (n - 1) as nat)
    } else {
        f_mul(lag_den(xs, i, (n - 1) as nat), f_sub(xs[n - 1], xs[i]))
    }
}

/// The Lagrange interpolation formula at zero: the sum over i of
/// y_i * (prod x_j) / (prod (x_j - x_i)), with j ranging over the other
/// points.
pub open spec fn lag_sum(xs: Seq<nat>, ys: Seq<nat>, n: nat) -> nat
    decreases n,
{
    if n == 0 {
        0
    } else {
        f_add(
            lag_sum(xs, ys, (n - 1) as nat),
            f_mul(
                ys[n - 1],
                f_mul(lag_num(xs, n - 1, xs.len()), f_inv(lag_den(xs, n - 1, xs.len()))),
            ),
        )
    }
}

/// Two equal interpolation points make a denominator zero.
proof fn lemma_lag_den_zero(xs: Seq<nat>, i: int, j: int, n: nat)
    requires
        0 <= i < j < n <= xs.len(),
        xs[i] == xs[j],
    ensures
        lag_den(xs, i, n) == 0,
    decreases n,
{
    if n - 1 == j {
        lemma_f_sub_add_cancel(xs[j], xs[i]);
        assert(f_sub(xs[n - 1], xs[i]) == 0);
        lemma_f_mul_one(lag_den(xs, i, (n - 1) as nat));
    } else {
        lemma_lag_den_zero(xs, i, j, (n - 1) as nat);
        if n - 1 == i {
        } else {
            lemma_f_mul_one(f_sub(xs[n - 1], xs[i]));
            lemma_f_mul_noop(0nat, f_sub(xs[n - 1], xs[i]));
        }
    }
}

/// Lagrange interpolation at zero: the value at x = 0 of the interpolating
/// polynomial through (x_i, y_i). Fails exactly when some denominator
/// product has no inverse; equal points always make it fail.
#[verifier::loop_isolation(false)]
pub fn lagrangian_interpolation(xs: &Vec<Fp>, ys: &Vec<Fp>) -> (res: Result<Fp, OleError>)
    requires
        all_wf(xs@),
        all_wf(ys@),
        xs@.len() == ys@.len(),
    ensures
        res is Ok ==> res->Ok_0.wf() && res->Ok_0.val() == lag_sum(
            vals(xs@),
            vals(ys@),
            xs@.len(),
        ),
        res is Err <==> exists|i: int|
            0 <= i < xs@.len() && !has_inverse(#[trigger] lag_den(vals(xs@), i, xs@.len())),
        res is Err ==> res->Err_0 == OleError::PreconditionError,
        (exists|i: int, j: int|
            0 <= i < j < xs@.len() && vals(xs@)[i] == vals(xs@)[j]) ==> res is Err,
{
    let n = xs.len();
    let ghost xv = vals(xs@);
    let ghost yv = vals(ys@);
    proof {
        if exists|i: int, j: int| 0 <= i < j < xs@.len() && vals(xs@)[i] == vals(xs@)[j] {
            let (i, j) = choose|i: int, j: int|
                0 <= i < j < xs@.len() && vals(xs@)[i] == vals(xs@)[j];
            lemma_lag_den_zero(xv, i, j, n as nat);
            crate::fmath::lemma_zero_no_inverse();
            assert(!has_inverse(lag_den(xv, i, n as nat)));
        }
    }
    let mut result = Fp::zero();
    let mut i: usize = 0;
    while i < n
        invariant
            result.wf(),
            i <= n,
            result.val() == lag_sum(xv, yv, i as nat),
            forall|k: int| 0 <= k < i ==> has_inverse(#[trigger] lag_den(xv, k, n as nat)),
        decreases n - i,
    {
        let mut numer = Fp::one();
        let mut denom = Fp::one();
        let mut j: usize = 0;
        while j < n
            invariant
                numer.wf(),
                denom.wf(),
                i < n,
                j <= n,
                numer.val() == lag_num(xv, i as int, j as nat),
                denom.val() == lag_den(xv, i as int, j as nat),
            decreases n - j,
        {
            if j != i {
                numer = numer.mul(xs[j]);
                denom = denom.mul(xs[j].sub(xs[i]));
            }
            j = j + 1;
        }
        let dinv = match denom.invert() {
            Some(c) => c,
            None => {
                return Err(OleError::PreconditionError);
            },
        };
        proof {
            lemma_f_mul_noop(denom.val(), dinv.val());
            crate::fmath::lemma_f_inv_works(denom.val());
            lemma_inverse_unique(denom.val(), dinv.val(), f_inv(denom.val()));
        }
        let term = ys[i].mul(numer.mul(dinv));
        result = result.add(term);
        i = i + 1;
        proof {
            assert(lag_sum(xv, yv, i as nat) == f_add(
                lag_sum(xv, yv, (i - 1) as nat),
                f_mul(
                    yv[i - 1],
                    f_mul(lag_num(xv, i - 1, xv.len()), f_inv(lag_den(xv, i - 1, xv.len()))),
                ),
            ));
            assert(vals(ys@)[i - 1] == ys@[i - 1].v as nat);
        }
    }
    Ok(result)
}

} // verus!

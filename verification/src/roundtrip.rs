//! The transforms undo one another: applying the forward transform with a
//! primitive root and then the inverse — or the other way round — returns
//! the input bit for bit. The argument goes through sums of roots of unity:
//! over a full period every nontrivial power sums to zero.
use crate::fft::{dft, idft, pow_b};
use crate::field::{A, ALPHA, B, BETA};
use crate::fmath::{
    f_add, f_inv, f_mul, f_neg, f_pow, has_inverse, in_field, lemma_f_add_assoc,
    lemma_f_add_bound, lemma_f_add_noop, lemma_f_mul_assoc, lemma_f_mul_distrib, lemma_f_mul_neg,
    lemma_f_mul_noop, lemma_f_mul_one, lemma_f_neg_cancel, lemma_f_pow_adds,
    lemma_f_pow_distributes, lemma_f_pow_in_field, lemma_f_pow_multiplies, lemma_f_pow_of_one,
    lemma_f_pow_one, lemma_f_pow_reduce, lemma_inverse_unique, qn,
};
use crate::poly::poly_eval;
use vstd::arithmetic::div_mod::{lemma_fundamental_div_mod, lemma_small_mod};
use vstd::prelude::*;

verus! {

/// The sum of the first n powers of x, in F_q.
pub open spec fn psum(x: nat, n: nat) -> nat
    decreases n,
{
    if n == 0 {
        0
    } else {
        f_add(psum(x, (n - 1) as nat), f_pow(x, (n - 1) as nat))
    }
}

proof fn lemma_psum_in_field(x: nat, n: nat)
    ensures
        in_field(psum(x, n)),
{
    if n == 0 {
    } else {
        lemma_f_add_bound(psum(x, (n - 1) as nat), f_pow(x, (n - 1) as nat));
    }
}

/// A power sum splits at any point: the tail is the head sum scaled.
proof fn lemma_psum_split(x: nat, m: nat, k: nat)
    ensures
        psum(x, m + k) == f_add(psum(x, m), f_mul(f_pow(x, m), psum(x, k))),
    decreases k,
{
    lemma_psum_in_field(x, m);
    if k == 0 {
        lemma_f_mul_one(f_pow(x, m));
        lemma_f_mul_one(psum(x, m));
        lemma_small_mod(psum(x, m), qn());
    } else {
        let km = (k - 1) as nat;
        lemma_psum_split(x, m, km);
        lemma_f_pow_adds(x, m, km);
        // psum(x, m+k) == (psum(x,m) + pm*psum(x,km)) + pm*x^km
        lemma_f_add_assoc(psum(x, m), f_mul(f_pow(x, m), psum(x, km)), f_pow(x, m + km));
        lemma_f_add_noop(f_mul(f_pow(x, m), psum(x, km)), f_pow(x, m + km));
        lemma_f_mul_distrib(f_pow(x, m), psum(x, km), f_pow(x, km));
        lemma_f_mul_noop(f_pow(x, m), f_add(psum(x, km), f_pow(x, km)));
        lemma_f_mul_noop(f_pow(x, m), psum(x, k));
        lemma_f_add_bound(psum(x, km), f_pow(x, km));
        lemma_small_mod(psum(x, k), qn());
    }
}

/// The sum of n ones is n, reduced.
proof fn lemma_psum_of_one(n: nat)
    ensures
        psum(1, n) == n % qn(),
    decreases n,
{
    if n == 0 {
        lemma_small_mod(0, qn());
    } else {
        lemma_psum_of_one((n - 1) as nat);
        lemma_f_pow_of_one((n - 1) as nat);
        lemma_f_add_noop((n - 1) as nat, 1nat);
    }
}

/// Multiplying by q - 1 negates.
proof fn lemma_mul_minus_one(s: nat)
    requires
        in_field(s),
    ensures
        f_mul((qn() - 1) as nat, s) == f_neg(s),
{
    assert(f_neg(1nat) == (qn() - 1) as nat) by {
        lemma_small_mod(1, qn());
    }
    lemma_f_mul_neg(1, s);
    lemma_f_mul_one(s);
    lemma_small_mod(s, qn());
}

/// Powers of q - 1 alternate between one and q - 1.
proof fn lemma_pow_minus_one(e: nat)
    ensures
        e % 2 == 0 ==> f_pow((qn() - 1) as nat, e) == 1,
        e % 2 == 1 ==> f_pow((qn() - 1) as nat, e) == (qn() - 1) as nat,
    decreases e,
{
    let m = (qn() - 1) as nat;
    if e == 0 {
    } else {
        lemma_pow_minus_one((e - 1) as nat);
        if (e - 1) % 2 == 0 {
            lemma_f_mul_one(m);
            lemma_f_mul_noop(1, m);
            lemma_small_mod(m, qn());
        } else {
            lemma_mul_minus_one(m);
            assert(f_mul(m, m) == f_neg(m));
            assert(f_neg(m) == 1) by {
                lemma_small_mod(m, qn());
            }
        }
    }
}

/// Over a full radix-2 period, every nontrivial power of a primitive root
/// sums to zero.
proof fn lemma_psum_vanishes2(w: nat, k: nat, e: nat)
    requires
        k >= 1,
        f_pow(w, pow_b(2, (k - 1) as nat)) == (qn() - 1) as nat,
        1 <= e < pow_b(2, k),
    ensures
        psum(f_pow(w, e), pow_b(2, k)) == 0,
    decreases k,
{
    let h = pow_b(2, (k - 1) as nat);
    let n = pow_b(2, k);
    assert(n == 2 * h);
    let y = f_pow(w, e);
    lemma_psum_split(y, h, h);
    lemma_psum_in_field(y, h);
    let s = psum(y, h);
    // y^h == (w^h)^e == (-1)^e
    lemma_f_pow_multiplies(w, e, h);
    lemma_f_pow_multiplies(w, h, e);
    assert(e * h == h * e);
    assert(f_pow(y, h) == f_pow((qn() - 1) as nat, e)) by {
        lemma_f_pow_reduce(w, e);
        lemma_f_pow_reduce(w, h);
        if e == 0 {
        }
        assert(f_pow(f_pow(w, e), h) == f_pow(w, e * h));
        assert(f_pow(f_pow(w, h), e) == f_pow(w, h * e));
    }
    lemma_pow_minus_one(e);
    if e % 2 == 1 {
        // the scale factor is -1, so the two halves cancel
        assert(f_pow(y, h) == (qn() - 1) as nat);
        lemma_mul_minus_one(s);
        lemma_f_neg_cancel(s);
        assert(psum(y, n) == f_add(s, f_neg(s)));
    } else {
        // e is even: recurse on the square of the root
        assert(k >= 2) by {
            if k == 1 {
                assert(pow_b(2, 1) == 2 * pow_b(2, 0));
            }
        }
        let w2 = f_mul(w, w);
        let h2 = pow_b(2, (k - 2) as nat);
        assert(h == 2 * h2);
        assert(f_pow(w2, h2) == (qn() - 1) as nat) by {
            lemma_f_pow_one(w);
            assert(f_pow(w, 2) == f_mul(f_pow(w, 1), w));
            lemma_f_mul_noop(w, w);
            assert(f_pow(w, 2) == w2);
            lemma_f_pow_multiplies(w, 2, h2);
            assert(2 * h2 == h);
        }
        let e2 = e / 2;
        lemma_fundamental_div_mod(e as int, 2);
        assert(e % 2 == 0);
        assert(e == 2 * e2);
        assert(1 <= e2 < h);
        lemma_psum_vanishes2(w2, (k - 1) as nat, e2);
        assert(f_pow(w2, e2) == y) by {
            lemma_f_pow_one(w);
            assert(f_pow(w, 2) == f_mul(f_pow(w, 1), w));
            lemma_f_mul_noop(w, w);
            lemma_f_pow_multiplies(w, 2, e2);
            assert(2 * e2 == e);
        }
        assert(s == 0);
        lemma_f_mul_one(f_pow(y, h));
        assert(f_mul(f_pow(y, h), 0) == 0);
        lemma_f_mul_noop(f_pow(y, h), 0);
        assert(psum(y, n) == f_add(0, 0));
        lemma_small_mod(0, qn());
    }
}

/// Every element scaled by a constant.
spec fn scale_vec(v: Seq<nat>, c: nat) -> Seq<nat> {
    Seq::new(v.len(), |i: int| f_mul(c, v[i]))
}

/// Pointwise sum of two equally long vectors.
spec fn add_vec(u: Seq<nat>, v: Seq<nat>) -> Seq<nat> {
    Seq::new(u.len(), |i: int| f_add(u[i], v[i]))
}

/// The constant vector.
spec fn const_vec(c: nat, n: nat) -> Seq<nat> {
    Seq::new(n, |i: int| c)
}

/// Position i scaled by the i-th power of w.
spec fn twist_vec(v: Seq<nat>, w: nat) -> Seq<nat> {
    Seq::new(v.len(), |i: int| f_mul(f_pow(w, i as nat), v[i]))
}

/// A polynomial of any length evaluated on the first n powers of w.
spec fn grid_eval(t: Seq<nat>, w: nat, n: nat) -> Seq<nat> {
    Seq::new(n, |i: int| poly_eval(t, f_pow(w, i as nat)))
}

/// The evaluation of a transform, as a weighted sum of power sums: term k
/// contributes t[k] times the period sum of w^k * x.
spec fn wsum(t: Seq<nat>, w: nat, x: nat, n: nat) -> nat
    decreases t.len(),
{
    if t.len() == 0 {
        0
    } else {
        f_add(f_mul(t[0], psum(x, n)), wsum(t.skip(1), w, f_mul(w, x), n))
    }
}

proof fn lemma_wsum_in_field(t: Seq<nat>, w: nat, x: nat, n: nat)
    ensures
        in_field(wsum(t, w, x, n)),
{
    if t.len() == 0 {
    } else {
        lemma_f_add_bound(f_mul(t[0], psum(x, n)), wsum(t.skip(1), w, f_mul(w, x), n));
    }
}

proof fn lemma_eval_scale(v: Seq<nat>, c: nat, x: nat)
    ensures
        poly_eval(scale_vec(v, c), x) == f_mul(c, poly_eval(v, x)),
    decreases v.len(),
{
    if v.len() == 0 {
        lemma_f_mul_one(c);
    } else {
        assert(scale_vec(v, c).skip(1) =~= scale_vec(v.skip(1), c));
        lemma_eval_scale(v.skip(1), c, x);
        let e = poly_eval(v.skip(1), x);
        // c*v0 + x*(c*e) == c*(v0 + x*e)
        lemma_f_mul_assoc(x, c, e);
        lemma_f_mul_noop(x, c);
        lemma_f_mul_noop(c, x);
        lemma_f_mul_assoc(c, x, e);
        lemma_f_mul_noop(x, f_mul(c, e));
        lemma_f_mul_distrib(c, v[0], f_mul(x, e));
        lemma_f_mul_noop(c, f_add(v[0], f_mul(x, e)));
        assert(f_mul(x, f_mul(c, e)) == f_mul(c, f_mul(x, e)));
    }
}

proof fn lemma_eval_add(u: Seq<nat>, v: Seq<nat>, x: nat)
    requires
        u.len() == v.len(),
    ensures
        poly_eval(add_vec(u, v), x) == f_add(poly_eval(u, x), poly_eval(v, x)),
    decreases u.len(),
{
    if u.len() == 0 {
        lemma_small_mod(0, qn());
    } else {
        assert(add_vec(u, v).skip(1) =~= add_vec(u.skip(1), v.skip(1)));
        lemma_eval_add(u.skip(1), v.skip(1), x);
        let eu = poly_eval(u.skip(1), x);
        let ev = poly_eval(v.skip(1), x);
        // (u0 + v0) + x*(eu + ev) == (u0 + x*eu) + (v0 + x*ev)
        lemma_f_mul_distrib(x, eu, ev);
        lemma_f_mul_noop(x, f_add(eu, ev));
        lemma_f_add_noop(f_add(u[0], v[0]), f_add(f_mul(x, eu), f_mul(x, ev)));
        lemma_f_add_noop(u[0], v[0]);
        // shuffle four summands
        lemma_add_shuffle(u[0], v[0], f_mul(x, eu), f_mul(x, ev));
        lemma_f_add_noop(u[0], f_mul(x, eu));
        lemma_f_add_noop(v[0], f_mul(x, ev));
    }
}

/// (a + b) + (c + d) == (a + c) + (b + d) in F_q.
proof fn lemma_add_shuffle(a: nat, b: nat, c: nat, d: nat)
    ensures
        f_add(f_add(a, b), f_add(c, d)) == f_add(f_add(a, c), f_add(b, d)),
{
    lemma_f_add_assoc(f_add(a, b), c, d);
    lemma_f_add_noop(f_add(a, b), c);
    lemma_f_add_assoc(a, b, c);
    lemma_f_add_noop(b, c);
    lemma_f_add_noop(c, b);
    lemma_f_add_assoc(a, c, b);
    lemma_f_add_noop(f_add(a, c), b);
    lemma_f_add_assoc(f_add(a, c), b, d);
    lemma_f_add_noop(f_add(a, b), f_add(c, d));
    lemma_f_add_noop(f_add(f_add(a, b), c), d);
    lemma_f_add_noop(f_add(f_add(a, c), b), d);
    lemma_f_add_noop(f_add(a, c), f_add(b, d));
}

/// The head form of a power sum: 1 + x * psum(x, n - 1).
proof fn lemma_psum_head(x: nat, n: nat)
    requires
        n >= 1,
    ensures
        psum(x, n) == f_add(1, f_mul(x, psum(x, (n - 1) as nat))),
{
    lemma_psum_split(x, 1, (n - 1) as nat);
    assert(psum(x, 1) == f_add(psum(x, 0), f_pow(x, 0)));
    lemma_f_mul_one(0nat);
    lemma_small_mod(1, qn());
    assert(psum(x, 1) == 1);
    lemma_f_pow_one(x);
    lemma_f_mul_noop(x, psum(x, (n - 1) as nat));
    lemma_f_mul_noop(x % qn(), psum(x, (n - 1) as nat));
    assert(f_mul(f_pow(x, 1), psum(x, (n - 1) as nat)) == f_mul(x, psum(x, (n - 1) as nat)));
}

proof fn lemma_eval_const(c: nat, n: nat, x: nat)
    ensures
        poly_eval(const_vec(c, n), x) == f_mul(c, psum(x, n)),
    decreases n,
{
    if n == 0 {
        assert(const_vec(c, 0) =~= Seq::<nat>::empty());
        lemma_f_mul_one(c);
    } else {
        assert(const_vec(c, n).skip(1) =~= const_vec(c, (n - 1) as nat));
        lemma_eval_const(c, (n - 1) as nat, x);
        lemma_psum_head(x, n);
        let s = psum(x, (n - 1) as nat);
        // c + x*(c*s) == c*(1 + x*s)
        lemma_f_mul_assoc(x, c, s);
        lemma_f_mul_noop(x, c);
        lemma_f_mul_noop(c, x);
        lemma_f_mul_assoc(c, x, s);
        lemma_f_mul_noop(x, f_mul(c, s));
        assert(f_mul(x, f_mul(c, s)) == f_mul(c, f_mul(x, s)));
        lemma_f_mul_distrib(c, 1, f_mul(x, s));
        lemma_f_mul_noop(c, f_add(1, f_mul(x, s)));
        lemma_f_mul_one(c);
        lemma_f_add_noop(c % qn(), f_mul(c, f_mul(x, s)));
        lemma_f_add_noop(c, f_mul(c, f_mul(x, s)));
    }
}

proof fn lemma_eval_twist(v: Seq<nat>, w: nat, x: nat)
    ensures
        poly_eval(twist_vec(v, w), x) == poly_eval(v, f_mul(w, x)),
    decreases v.len(),
{
    if v.len() == 0 {
        assert(twist_vec(v, w) =~= Seq::<nat>::empty());
    } else {
        assert(twist_vec(v, w).skip(1) =~= scale_vec(twist_vec(v.skip(1), w), w)) by {
            assert forall|i: int|
                0 <= i < v.len() - 1 implies twist_vec(v, w).skip(1)[i] == scale_vec(
                twist_vec(v.skip(1), w),
                w,
            )[i] by {
                assert(twist_vec(v, w).skip(1)[i] == f_mul(f_pow(w, (i + 1) as nat), v[i + 1]));
                assert(scale_vec(twist_vec(v.skip(1), w), w)[i] == f_mul(
                    w,
                    f_mul(f_pow(w, i as nat), v[i + 1]),
                ));
                lemma_f_pow_adds(w, i as nat, 1);
                lemma_f_pow_one(w);
                lemma_f_mul_noop(f_pow(w, i as nat), w % qn());
                lemma_f_mul_noop(f_pow(w, i as nat), w);
                lemma_f_mul_assoc(w, f_pow(w, i as nat), v[i + 1]);
                lemma_f_mul_noop(w, f_pow(w, i as nat));
                lemma_f_mul_noop(f_pow(w, (i + 1) as nat), v[i + 1]);
                lemma_f_mul_noop(f_mul(w, f_pow(w, i as nat)), v[i + 1]);
            }
        }
        lemma_eval_twist(v.skip(1), w, x);
        lemma_eval_scale(twist_vec(v.skip(1), w), w, x);
        let e = poly_eval(v.skip(1), f_mul(w, x));
        // v0 + x*(w*e) == v0 + (w*x)*e
        assert(twist_vec(v, w)[0] == f_mul(f_pow(w, 0), v[0]));
        lemma_f_mul_one(v[0]);
        lemma_f_mul_noop(1, v[0]);
        lemma_f_add_noop(v[0] % qn(), f_mul(x, f_mul(w, e)));
        lemma_f_add_noop(v[0], f_mul(x, f_mul(w, e)));
        lemma_f_mul_assoc(x, w, e);
        lemma_f_mul_noop(x, w);
        lemma_f_mul_noop(w, x);
        lemma_f_mul_assoc(w, x, e);
        lemma_f_mul_noop(x, f_mul(w, e));
        lemma_f_mul_noop(f_mul(w, x), e);
        assert(f_mul(x, f_mul(w, e)) == f_mul(f_mul(w, x), e));
    }
}

/// Evaluating the grid of a polynomial at x gives the weighted power sum.
proof fn lemma_eval_grid(t: Seq<nat>, w: nat, x: nat, n: nat)
    ensures
        poly_eval(grid_eval(t, w, n), x) == wsum(t, w, x, n),
    decreases t.len(),
{
    if t.len() == 0 {
        assert forall|i: int| 0 <= i < n implies grid_eval(t, w, n)[i] == 0 by {}
        lemma_eval_zero_vec(grid_eval(t, w, n), x);
    } else {
        let tail = t.skip(1);
        assert(grid_eval(t, w, n) =~= add_vec(
            const_vec(t[0], n),
            twist_vec(grid_eval(tail, w, n), w),
        )) by {
            assert forall|i: int| 0 <= i < n implies grid_eval(t, w, n)[i] == add_vec(
                const_vec(t[0], n),
                twist_vec(grid_eval(tail, w, n), w),
            )[i] by {
                assert(grid_eval(t, w, n)[i] == poly_eval(t, f_pow(w, i as nat)));
                assert(poly_eval(t, f_pow(w, i as nat)) == f_add(
                    t[0],
                    f_mul(f_pow(w, i as nat), poly_eval(tail, f_pow(w, i as nat))),
                ));
            }
        }
        lemma_eval_add(const_vec(t[0], n), twist_vec(grid_eval(tail, w, n), w), x);
        lemma_eval_const(t[0], n, x);
        lemma_eval_twist(grid_eval(tail, w, n), w, x);
        lemma_eval_grid(tail, w, f_mul(w, x), n);
    }
}

/// A vector of zeros evaluates to zero.
proof fn lemma_eval_zero_vec(v: Seq<nat>, x: nat)
    requires
        forall|i: int| 0 <= i < v.len() ==> v[i] == 0,
    ensures
        poly_eval(v, x) == 0,
    decreases v.len(),
{
    if v.len() > 0 {
        lemma_eval_zero_vec(v.skip(1), x);
        lemma_f_mul_one(x);
        lemma_small_mod(0, qn());
    }
}

/// Powers of the inverse are complementary powers of the root.
proof fn lemma_pow_of_inverse(w: nat, winv: nat, n: nat, j: nat)
    requires
        f_mul(w, winv) == 1,
        f_pow(w, n) == 1,
        j <= n,
    ensures
        f_pow(winv, j) == f_pow(w, (n - j) as nat),
{
    lemma_f_pow_distributes(w, winv, j);
    lemma_f_pow_of_one(j);
    assert(f_pow(f_mul(w, winv), j) == 1);
    assert(f_mul(f_pow(w, j), f_pow(winv, j)) == 1);
    lemma_f_pow_adds(w, j, (n - j) as nat);
    assert(f_mul(f_pow(w, j), f_pow(w, (n - j) as nat)) == 1);
    lemma_f_pow_in_field(winv, j);
    lemma_f_pow_in_field(w, (n - j) as nat);
    lemma_inverse_unique(f_pow(w, j), f_pow(winv, j), f_pow(w, (n - j) as nat));
}

/// The weighted power sum of the tail from position k collapses: only the
/// term at the target index j survives, scaled by the length.
proof fn lemma_wsum_collapse(p: Seq<nat>, w: nat, winv: nat, j: int, k: int)
    requires
        0 <= j < p.len(),
        0 <= k <= p.len(),
        p.len() < qn(),
        f_pow(w, p.len()) == 1,
        in_field(winv),
        f_mul(w, winv) == 1,
        forall|e: nat| 1 <= e < p.len() ==> psum(f_pow(w, e), p.len()) == 0,
        forall|i: int| 0 <= i < p.len() ==> in_field(#[trigger] p[i]),
    ensures
        wsum(p.skip(k), w, f_mul(f_pow(w, k as nat), f_pow(winv, j as nat)), p.len()) == (if k
            <= j {
            f_mul(p[j], p.len() as nat)
        } else {
            0
        }),
    decreases p.len() - k,
{
    let n = p.len();
    let xk = f_mul(f_pow(w, k as nat), f_pow(winv, j as nat));
    if k == n {
        assert(p.skip(k) =~= Seq::<nat>::empty());
    } else {
        assert(p.skip(k).len() >= 1);
        assert(p.skip(k)[0] == p[k]);
        assert(p.skip(k).skip(1) =~= p.skip(k + 1));
        // the next evaluation point is one power of w further
        assert(f_mul(w, xk) == f_mul(f_pow(w, (k + 1) as nat), f_pow(winv, j as nat))) by {
            lemma_f_mul_assoc(w, f_pow(w, k as nat), f_pow(winv, j as nat));
            lemma_f_pow_adds(w, 1, k as nat);
            lemma_f_pow_one(w);
            lemma_f_mul_noop(w % qn(), f_pow(w, k as nat));
            lemma_f_mul_noop(w, f_pow(w, k as nat));
        }
        lemma_wsum_collapse(p, w, winv, j, k + 1);
        // the value of the evaluation point, as a power of w
        lemma_pow_of_inverse(w, winv, n as nat, j as nat);
        lemma_f_pow_adds(w, k as nat, (n - j) as nat);
        assert(xk == f_pow(w, (k + n - j) as nat));
        let rest = wsum(p.skip(k + 1), w, f_mul(w, xk), n as nat);
        assert(wsum(p.skip(k), w, xk, n as nat) == f_add(f_mul(p[k], psum(xk, n as nat)), rest));
        if k == j {
            assert(xk == 1) by {
                assert((k + n - j) as nat == n as nat);
            }
            lemma_psum_of_one(n as nat);
            lemma_small_mod(n as nat, qn());
            assert(psum(xk, n as nat) == n as nat);
            assert(rest == 0);
            lemma_f_mul_one(f_mul(p[j], n as nat));
            lemma_f_add_bound(p[j], n as nat);
            lemma_small_mod(f_mul(p[j], n as nat), qn());
        } else if k < j {
            let d = (k + n - j) as nat;
            assert(1 <= d < n);
            assert(psum(xk, n as nat) == 0);
            lemma_f_mul_one(p[k]);
            assert(f_mul(p[k], 0) == 0);
            lemma_f_mul_noop(p[k], 0);
            assert(rest == f_mul(p[j], n as nat));
            lemma_f_mul_one(rest);
            lemma_f_add_bound(p[j], n as nat);
            lemma_small_mod(rest, qn());
        } else {
            let d = (k + n - j) as nat;
            assert(d > n);
            assert(xk == f_pow(w, (k - j) as nat)) by {
                lemma_f_pow_adds(w, n as nat, (k - j) as nat);
                assert(d == n + (k - j));
                lemma_f_mul_one(f_pow(w, (k - j) as nat));
                lemma_f_mul_noop(1, f_pow(w, (k - j) as nat));
                lemma_f_pow_in_field(w, (k - j) as nat);
                lemma_small_mod(f_pow(w, (k - j) as nat), qn());
            }
            assert(1 <= k - j < n);
            assert(psum(xk, n as nat) == 0);
            lemma_f_mul_one(p[k]);
            lemma_f_mul_noop(p[k], 0);
            assert(rest == 0);
            lemma_f_mul_one(0nat);
            lemma_small_mod(0, qn());
        }
    }
}

/// The hypotheses shared by both compositions: an invertible primitive
/// root whose nontrivial powers sum to zero over the period, and an
/// invertible length.
spec fn roundtrip_ok(n: nat, w: nat) -> bool {
    &&& n < qn()
    &&& in_field(w)
    &&& f_pow(w, n) == 1
    &&& has_inverse(w)
    &&& has_inverse(n)
    &&& forall|e: nat| 1 <= e < n ==> psum(f_pow(w, e), n) == 0
}

/// Under the shared hypotheses the inverse transform undoes the forward one.
proof fn lemma_idft_of_dft(p: Seq<nat>, w: nat)
    requires
        roundtrip_ok(p.len(), w),
        forall|i: int| 0 <= i < p.len() ==> in_field(#[trigger] p[i]),
    ensures
        idft(dft(p, w), w) == p,
{
    let n = p.len();
    let winv = f_inv(w);
    crate::fmath::lemma_f_inv_works(w);
    crate::fmath::lemma_f_inv_works(n);
    assert(dft(p, w) =~= grid_eval(p, w, n));
    assert forall|j: int| 0 <= j < n implies idft(dft(p, w), w)[j] == p[j] by {
        let y = f_pow(winv, j as nat);
        lemma_eval_grid(p, w, y, n);
        assert(f_mul(f_pow(w, 0), y) == y) by {
            lemma_f_mul_one(y);
            lemma_f_mul_noop(1, y);
            lemma_f_pow_in_field(winv, j as nat);
            lemma_small_mod(y, qn());
        }
        assert(p.skip(0) =~= p);
        lemma_wsum_collapse(p, w, winv, j, 0);
        assert(wsum(p, w, y, n) == f_mul(p[j], n));
        assert(idft(dft(p, w), w)[j] == f_mul(f_inv(n), poly_eval(dft(p, w), y)));
        // scale away the length
        lemma_f_mul_assoc(f_inv(n), p[j], n);
        lemma_f_mul_noop(f_inv(n), p[j]);
        lemma_f_mul_noop(p[j], f_inv(n));
        lemma_f_mul_assoc(p[j], f_inv(n), n);
        lemma_f_mul_noop(f_inv(n), n);
        lemma_f_mul_noop(n, f_inv(n));
        lemma_f_mul_one(p[j]);
        lemma_small_mod(p[j], qn());
        assert(f_mul(f_inv(n), f_mul(p[j], n)) == f_mul(p[j], f_mul(n, f_inv(n))));
    }
    assert(idft(dft(p, w), w) =~= p);
}

/// Under the shared hypotheses the forward transform undoes the inverse one.
proof fn lemma_dft_of_idft(v: Seq<nat>, w: nat)
    requires
        roundtrip_ok(v.len(), w),
        forall|i: int| 0 <= i < v.len() ==> in_field(#[trigger] v[i]),
    ensures
        dft(idft(v, w), w) == v,
{
    let n = v.len();
    let winv = f_inv(w);
    crate::fmath::lemma_f_inv_works(w);
    crate::fmath::lemma_f_inv_works(n);
    // the hypotheses transfer to the inverse root
    assert(f_pow(winv, n) == 1) by {
        lemma_f_pow_distributes(w, winv, n);
        lemma_f_pow_of_one(n);
        assert(f_mul(f_pow(w, n), f_pow(winv, n)) == 1);
        lemma_f_mul_noop(1, f_pow(winv, n));
        lemma_f_pow_in_field(winv, n);
        lemma_small_mod(f_pow(winv, n), qn());
        lemma_f_mul_one(f_pow(winv, n));
    }
    assert forall|e: nat| 1 <= e < n implies psum(f_pow(winv, e), n) == 0 by {
        lemma_pow_of_inverse(w, winv, n, e);
        assert(f_pow(winv, e) == f_pow(w, (n - e) as nat));
        assert(1 <= n - e < n);
    }
    assert(idft(v, w) =~= scale_vec(grid_eval(v, winv, n), f_inv(n)));
    assert forall|i: int| 0 <= i < n implies dft(idft(v, w), w)[i] == v[i] by {
        let y = f_pow(w, i as nat);
        assert(dft(idft(v, w), w)[i] == poly_eval(idft(v, w), y));
        assert(poly_eval(idft(v, w), y) == poly_eval(scale_vec(grid_eval(v, winv, n), f_inv(n)), y));
        lemma_eval_scale(grid_eval(v, winv, n), f_inv(n), y);
        lemma_eval_grid(v, winv, y, n);
        assert(f_mul(f_pow(winv, 0), y) == y) by {
            lemma_f_mul_one(y);
            lemma_f_mul_noop(1, y);
            lemma_f_pow_in_field(w, i as nat);
            lemma_small_mod(y, qn());
        }
        assert(v.skip(0) =~= v);
        assert(f_mul(winv, w) == 1) by {
            lemma_f_mul_noop(w, winv);
        }
        lemma_wsum_collapse(v, winv, w, i, 0);
        assert(wsum(v, winv, y, n) == f_mul(v[i], n));
        lemma_f_mul_assoc(f_inv(n), v[i], n);
        lemma_f_mul_noop(f_inv(n), v[i]);
        lemma_f_mul_noop(v[i], f_inv(n));
        lemma_f_mul_assoc(v[i], f_inv(n), n);
        lemma_f_mul_noop(f_inv(n), n);
        lemma_f_mul_noop(n, f_inv(n));
        lemma_f_mul_one(v[i]);
        lemma_small_mod(v[i], qn());
        assert(f_mul(f_inv(n), f_mul(v[i], n)) == f_mul(v[i], f_mul(n, f_inv(n))));
    }
    assert(dft(idft(v, w), w) =~= v);
}

/// The radix-2 hypotheses: a power-of-two length below q with an inverse,
/// and an invertible root whose half-period power is -1.
proof fn lemma_roundtrip_ok2(n: nat, w: nat, k: nat)
    requires
        n == pow_b(2, k),
        k >= 1,
        n < qn(),
        in_field(w),
        f_pow(w, pow_b(2, (k - 1) as nat)) == (qn() - 1) as nat,
        has_inverse(w),
        has_inverse(n),
    ensures
        roundtrip_ok(n, w),
{
    let h = pow_b(2, (k - 1) as nat);
    assert(n == 2 * h);
    assert(f_pow(w, n) == 1) by {
        lemma_f_pow_adds(w, h, h);
        lemma_mul_minus_one((qn() - 1) as nat);
        assert(f_mul((qn() - 1) as nat, (qn() - 1) as nat) == f_neg((qn() - 1) as nat));
        lemma_small_mod((qn() - 1) as nat, qn());
    }
    assert forall|e: nat| 1 <= e < n implies psum(f_pow(w, e), n) == 0 by {
        lemma_psum_vanishes2(w, k, e);
    }
}

/// Interpolation then evaluation on a radix-2 grid returns the input: the
/// inverse transform with a generator of the order-n subgroup is the exact
/// inverse of the forward transform, in both orders.
pub proof fn lemma_fft2_round_trip(p: Seq<nat>, w: nat, k: nat)
    requires
        p.len() == pow_b(2, k),
        k >= 1,
        p.len() < qn(),
        in_field(w),
        f_pow(w, pow_b(2, (k - 1) as nat)) == (qn() - 1) as nat,
        has_inverse(w),
        has_inverse(p.len() as nat),
        forall|i: int| 0 <= i < p.len() ==> in_field(#[trigger] p[i]),
    ensures
        idft(dft(p, w), w) == p,
        dft(idft(p, w), w) == p,
{
    lemma_roundtrip_ok2(p.len(), w, k);
    lemma_idft_of_dft(p, w);
    lemma_dft_of_idft(p, w);
}

/// A primitive cube root satisfies z^3 == 1.
proof fn lemma_cube_root_unit(z: nat)
    requires
        in_field(z),
        f_add(f_add(1, z), f_mul(z, z)) == 0,
    ensures
        f_mul(z, f_mul(z, z)) == 1,
{
    let z2 = f_mul(z, z);
    let z3 = f_mul(z, z2);
    // z * (1 + z + z^2) == 0 expands to z + z^2 + z^3 == 0
    lemma_f_mul_distrib(z, f_add(1, z), z2);
    lemma_f_mul_noop(z, f_add(f_add(1, z), z2));
    lemma_f_mul_one(z);
    assert(f_mul(z, 0) == 0);
    lemma_f_mul_distrib(z, 1, z);
    lemma_f_mul_noop(z, f_add(1, z));
    lemma_small_mod(z, qn());
    assert(f_mul(z, f_add(1, z)) == f_add(z, f_mul(z, z)));
    assert(f_add(f_add(z, z2), z3) == 0);
    // 1 + (z + z^2) == 0 as well, so z^3 and 1 are both inverses of z + z^2
    lemma_f_add_assoc(1, z, z2);
    lemma_f_add_noop(1, f_add(z, z2));
    lemma_f_add_noop(f_add(z, z2), 1);
    assert(f_add(f_add(z, z2), 1) == 0);
    lemma_f_add_bound(z, z2);
    lemma_f_add_bound(z, z3);
    lemma_small_mod(1, qn());
    crate::fmath::lemma_f_add_cancel_unique(z3, 1, f_add(z, z2));
}

/// Over a full radix-3 period, every nontrivial power of a primitive root
/// sums to zero.
#[verifier::rlimit(100)]
proof fn lemma_psum_vanishes3(w: nat, m: nat, e: nat)
    requires
        m >= 1,
        f_add(
            f_add(1, f_pow(w, pow_b(3, (m - 1) as nat))),
            f_mul(f_pow(w, pow_b(3, (m - 1) as nat)), f_pow(w, pow_b(3, (m - 1) as nat))),
        ) == 0,
        1 <= e < pow_b(3, m),
    ensures
        psum(f_pow(w, e), pow_b(3, m)) == 0,
    decreases m,
{
    let h = pow_b(3, (m - 1) as nat);
    let n = pow_b(3, m);
    assert(n == 3 * h);
    let y = f_pow(w, e);
    let z = f_pow(w, h);
    lemma_f_pow_in_field(w, h);
    let z2 = f_mul(z, z);
    lemma_cube_root_unit(z);
    let s = psum(y, h);
    lemma_psum_in_field(y, h);
    // split the period in three
    lemma_psum_split(y, h, (2 * h) as nat);
    lemma_psum_split(y, h, h);
    let c = f_pow(y, h);
    assert(psum(y, (2 * h) as nat) == f_add(s, f_mul(c, s)));
    assert(psum(y, n) == f_add(s, f_mul(c, f_add(s, f_mul(c, s)))));
    // the twist factor is z^(e mod 3)
    lemma_f_pow_multiplies(w, e, h);
    lemma_f_pow_multiplies(w, h, e);
    lemma_f_pow_reduce(w, e);
    lemma_f_pow_reduce(w, h);
    assert(e * h == h * e);
    assert(c == f_pow(z, e));
    lemma_fundamental_div_mod(e as int, 3);
    let e3 = e / 3;
    let r = e % 3;
    assert(e == 3 * e3 + r);
    assert(f_pow(z, e) == f_pow(z, r)) by {
        lemma_f_pow_adds(z, (3 * e3) as nat, r);
        lemma_f_pow_multiplies(z, 3, e3);
        assert(f_pow(z, 3) == f_mul(z, f_mul(z, z))) by {
            lemma_f_pow_one(z);
            lemma_f_mul_noop(z % qn(), z);
            lemma_f_mul_noop(z, z);
            assert(f_pow(z, 2) == f_mul(f_pow(z, 1), z));
            assert(f_pow(z, 3) == f_mul(f_pow(z, 2), z));
            lemma_f_mul_noop(z2, z);
            lemma_f_mul_noop(z, z2);
            lemma_f_mul_assoc(z, z, z);
        }
        lemma_f_pow_of_one(e3);
        lemma_f_mul_one(f_pow(z, r));
        lemma_f_mul_noop(1, f_pow(z, r));
        lemma_f_pow_in_field(z, r);
        lemma_small_mod(f_pow(z, r), qn());
    }
    if r == 0 {
        // recurse on the cube of the root
        assert(m >= 2) by {
            if m == 1 {
                assert(pow_b(3, 1) == 3 * pow_b(3, 0));
            }
        }
        let w3 = f_mul(w, f_mul(w, w));
        assert(f_pow(w, 3) == w3) by {
            lemma_f_pow_one(w);
            lemma_f_mul_noop(w % qn(), w);
            lemma_f_mul_noop(w, w);
            assert(f_pow(w, 2) == f_mul(f_pow(w, 1), w));
            assert(f_pow(w, 3) == f_mul(f_pow(w, 2), w));
            lemma_f_mul_noop(f_mul(w, w), w);
            lemma_f_mul_assoc(w, w, w);
        }
        let h3 = pow_b(3, (m - 2) as nat);
        assert(h == 3 * h3);
        assert(f_pow(w3, h3) == z) by {
            lemma_f_pow_multiplies(w, 3, h3);
            assert(3 * h3 == h);
        }
        assert(1 <= e3 < h);
        lemma_psum_vanishes3(w3, (m - 1) as nat, e3);
        assert(f_pow(w3, e3) == y) by {
            lemma_f_pow_multiplies(w, 3, e3);
            assert(3 * e3 == e);
        }
        assert(s == 0);
        lemma_f_mul_one(c);
        assert(f_mul(c, 0) == 0);
        lemma_f_mul_noop(c, 0);
        lemma_small_mod(0, qn());
        assert(f_add(0nat, f_mul(c, f_add(0nat, 0nat))) == 0) by {
            lemma_small_mod(0, qn());
            lemma_f_mul_noop(c, 0);
            lemma_f_mul_one(c);
        }
    } else {
        // the three twisted copies cancel: (1 + c + c^2) * s == 0
        let cc = f_mul(c, c);
        assert(f_add(f_add(1, c), cc) == 0) by {
            if r == 1 {
                lemma_f_pow_one(z);
                lemma_small_mod(z, qn());
                assert(f_pow(z, 1) == z);
                assert(c == z);
            } else {
                assert(r == 2);
                lemma_f_pow_one(z);
                lemma_f_mul_noop(z % qn(), z);
                lemma_f_mul_noop(z, z);
                assert(f_pow(z, 2) == f_mul(f_pow(z, 1), z));
                assert(c == z2);
                // z2 * z2 == z, since z^3 == 1
                assert(f_mul(z2, z2) == z) by {
                    lemma_f_mul_assoc(z, z, z2);
                    assert(f_mul(z2, z2) == f_mul(z, f_mul(z, z2)));
                    assert(f_mul(z, f_mul(z, z2)) == f_mul(z, 1));
                    lemma_f_mul_one(z);
                    lemma_small_mod(z, qn());
                }
                // 1 + z^2 + z == 0 by commuting the given sum
                lemma_f_add_assoc(1, z, z2);
                lemma_f_add_noop(z, z2);
                lemma_f_add_noop(z2, z);
                lemma_f_add_assoc(1, z2, z);
            }
        }
        // factor s out of the three summands
        assert(psum(y, n) == f_mul(f_add(f_add(1, c), cc), s)) by {
            lemma_psum_in_field(y, h);
            lemma_f_mul_distrib(c, s, f_mul(c, s));
            lemma_f_mul_noop(c, f_add(s, f_mul(c, s)));
            lemma_f_mul_assoc(c, c, s);
            // psum == s + (c*s + c^2*s)
            lemma_f_mul_noop(f_add(f_add(1, c), cc), s);
            lemma_f_mul_noop(s, f_add(f_add(1, c), cc));
            lemma_f_mul_distrib(s, f_add(1, c), cc);
            lemma_f_mul_noop(s, f_add(1, c));
            lemma_f_mul_distrib(s, 1, c);
            lemma_f_mul_one(s);
            lemma_small_mod(s, qn());
            lemma_f_mul_noop(s, c);
            lemma_f_mul_noop(s, cc);
            lemma_f_mul_noop(c, s);
            lemma_f_mul_noop(cc, s);
            // s + (c s + cc s) == (s + c s) + cc s
            lemma_f_add_assoc(s, f_mul(c, s), f_mul(cc, s));
            lemma_f_add_noop(f_mul(c, s), f_mul(cc, s));
        }
        lemma_f_mul_one(s);
        lemma_f_mul_noop(0, s);
        assert(f_mul(0, s) == 0);
    }
}

/// The radix-3 hypotheses: a power-of-three length below q with an
/// inverse, and an invertible root whose third-period power is a primitive
/// cube root of unity.
proof fn lemma_roundtrip_ok3(n: nat, w: nat, m: nat)
    requires
        n == pow_b(3, m),
        m >= 1,
        n < qn(),
        in_field(w),
        f_add(
            f_add(1, f_pow(w, pow_b(3, (m - 1) as nat))),
            f_mul(f_pow(w, pow_b(3, (m - 1) as nat)), f_pow(w, pow_b(3, (m - 1) as nat))),
        ) == 0,
        has_inverse(w),
        has_inverse(n),
    ensures
        roundtrip_ok(n, w),
{
    let h = pow_b(3, (m - 1) as nat);
    assert(n == 3 * h);
    let z = f_pow(w, h);
    lemma_f_pow_in_field(w, h);
    lemma_cube_root_unit(z);
    assert(f_pow(w, n) == 1) by {
        lemma_f_pow_multiplies(w, h, 3);
        assert(h * 3 == n);
        lemma_f_pow_one(z);
        lemma_small_mod(z, qn());
        lemma_f_mul_noop(z, z);
        assert(f_pow(z, 2) == f_mul(f_pow(z, 1), z));
        assert(f_pow(z, 3) == f_mul(f_pow(z, 2), z));
        lemma_f_mul_noop(f_mul(z, z), z);
        lemma_f_mul_assoc(z, z, z);
    }
    assert forall|e: nat| 1 <= e < n implies psum(f_pow(w, e), n) == 0 by {
        lemma_psum_vanishes3(w, m, e);
    }
}

/// Interpolation then evaluation on a radix-3 grid returns the input, in
/// both orders.
pub proof fn lemma_fft3_round_trip(p: Seq<nat>, w: nat, m: nat)
    requires
        p.len() == pow_b(3, m),
        m >= 1,
        p.len() < qn(),
        in_field(w),
        f_add(
            f_add(1, f_pow(w, pow_b(3, (m - 1) as nat))),
            f_mul(f_pow(w, pow_b(3, (m - 1) as nat)), f_pow(w, pow_b(3, (m - 1) as nat))),
        ) == 0,
        has_inverse(w),
        has_inverse(p.len() as nat),
        forall|i: int| 0 <= i < p.len() ==> in_field(#[trigger] p[i]),
    ensures
        idft(dft(p, w), w) == p,
        dft(idft(p, w), w) == p,
{
    lemma_roundtrip_ok3(p.len(), w, m);
    lemma_idft_of_dft(p, w);
    lemma_dft_of_idft(p, w);
}

/// The round trip at the protocol grids: with alpha on length A, with
/// alpha squared on length A/2, and with beta on length B, the forward and
/// inverse transforms undo one another in both orders.
pub proof fn lemma_round_trip_alpha(p: Seq<nat>)
    requires
        p.len() == A,
        forall|i: int| 0 <= i < p.len() ==> in_field(#[trigger] p[i]),
    ensures
        idft(dft(p, ALPHA as nat), ALPHA as nat) == p,
        dft(idft(p, ALPHA as nat), ALPHA as nat) == p,
{
    crate::params::lemma_alpha_params();
    assert(pow_b(2, 8) == 256 && pow_b(2, 7) == 128) by {
        reveal_with_fuel(pow_b, 9);
    }
    lemma_fft2_round_trip(p, ALPHA as nat, 8);
}

pub proof fn lemma_round_trip_alpha_even(p: Seq<nat>)
    requires
        p.len() == A / 2,
        forall|i: int| 0 <= i < p.len() ==> in_field(#[trigger] p[i]),
    ensures
        idft(dft(p, f_mul(ALPHA as nat, ALPHA as nat)), f_mul(ALPHA as nat, ALPHA as nat)) == p,
        dft(idft(p, f_mul(ALPHA as nat, ALPHA as nat)), f_mul(ALPHA as nat, ALPHA as nat)) == p,
{
    crate::params::lemma_alpha_params();
    assert(pow_b(2, 7) == 128 && pow_b(2, 6) == 64) by {
        reveal_with_fuel(pow_b, 9);
    }
    let w = f_mul(ALPHA as nat, ALPHA as nat);
    assert(f_pow(w, 64) == (qn() - 1) as nat) by {
        crate::fmath::lemma_f_pow_one(ALPHA as nat);
        assert(f_pow(ALPHA as nat, 2) == f_mul(f_pow(ALPHA as nat, 1), ALPHA as nat));
        lemma_f_mul_noop(ALPHA as nat, ALPHA as nat);
        assert(f_pow(ALPHA as nat, 2) == w);
        lemma_f_pow_multiplies(ALPHA as nat, 2, 64);
        assert(2 * 64 == 128);
    }
    crate::fmath::lemma_f_add_bound(ALPHA as nat, ALPHA as nat);
    lemma_fft2_round_trip(p, w, 7);
}

pub proof fn lemma_round_trip_beta(p: Seq<nat>)
    requires
        p.len() == B,
        forall|i: int| 0 <= i < p.len() ==> in_field(#[trigger] p[i]),
    ensures
        idft(dft(p, BETA as nat), BETA as nat) == p,
        dft(idft(p, BETA as nat), BETA as nat) == p,
{
    crate::params::lemma_beta_params();
    assert(pow_b(3, 7) == 2187 && pow_b(3, 6) == 729) by {
        reveal_with_fuel(pow_b, 8);
    }
    lemma_fft3_round_trip(p, BETA as nat, 7);
}

} // verus!

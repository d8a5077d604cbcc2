//! The mathematical model of the prime field F_q: spec-level addition,
//! subtraction, multiplication and exponentiation of canonical residues,
//! together with the algebraic lemmas the rest of the library builds on.
use vstd::arithmetic::div_mod::{
    lemma_add_mod_noop, lemma_fundamental_div_mod, lemma_mod_multiples_vanish, lemma_mod_twice,
    lemma_mul_mod_noop, lemma_mul_mod_noop_left, lemma_mul_mod_noop_right, lemma_small_mod,
    lemma_sub_mod_noop,
};
use vstd::arithmetic::mul::{
    lemma_mul_is_associative, lemma_mul_is_commutative, lemma_mul_is_distributive_add,
    lemma_mul_is_distributive_add_other_way,
};
use vstd::arithmetic::power::{lemma_pow_adds, lemma_pow_mod_noop, lemma_pow_multiplies, pow};
use vstd::prelude::*;

verus! {

/// The 127-bit prime modulus q; q - 1 = 2^11 * 3^10 * 23 * 54697345034152330060240659727.
pub const Q: u128 = 152137607412117916810699707336809121793;

/// The modulus as a `nat`, for specifications.
pub open spec fn qn() -> nat {
    Q as nat
}

/// Canonical residue: an element of F_q is a natural number below q.
pub open spec fn in_field(a: nat) -> bool {
    a < qn()
}

/// Addition in F_q.
pub open spec fn f_add(a: nat, b: nat) -> nat {
    (a + b) % qn()
}

/// Negation in F_q.
pub open spec fn f_neg(a: nat) -> nat {
    if a % qn() == 0 {
        0
    } else {
        (qn() - a % qn()) as nat
    }
}

/// Subtraction in F_q.
pub open spec fn f_sub(a: nat, b: nat) -> nat {
    f_add(a, f_neg(b))
}

/// Multiplication in F_q.
pub open spec fn f_mul(a: nat, b: nat) -> nat {
    (a * b) % qn()
}

/// Exponentiation in F_q, by repeated multiplication.
pub open spec fn f_pow(a: nat, e: nat) -> nat
    decreases e,
{
    if e == 0 {
        1
    } else {
        f_mul(f_pow(a, (e - 1) as nat), a)
    }
}

/// An element has an inverse when some residue multiplies with it to one.
pub open spec fn has_inverse(a: nat) -> bool {
    exists|y: nat| in_field(y) && f_mul(a, y) == 1
}

/// The inverse of an element, where one exists.
pub open spec fn f_inv(a: nat) -> nat {
    choose|y: nat| in_field(y) && f_mul(a, y) == 1
}

pub proof fn lemma_f_add_bound(a: nat, b: nat)
    ensures
        in_field(f_add(a, b)),
        in_field(f_mul(a, b)),
        in_field(f_neg(a)),
        in_field(f_sub(a, b)),
{
}

/// Reducing an argument modulo q does not change a sum.
pub proof fn lemma_f_add_noop(a: nat, b: nat)
    ensures
        f_add(a % qn(), b) == f_add(a, b),
        f_add(a, b % qn()) == f_add(a, b),
        f_add(a, b) == f_add(b, a),
{
    lemma_add_mod_noop(a as int, b as int, Q as int);
    lemma_mod_twice(a as int, Q as int);
    lemma_mod_twice(b as int, Q as int);
    lemma_add_mod_noop(a as int, (b % qn()) as int, Q as int);
    lemma_add_mod_noop((a % qn()) as int, b as int, Q as int);
}

/// Reducing an argument modulo q does not change a product.
pub proof fn lemma_f_mul_noop(a: nat, b: nat)
    ensures
        f_mul(a % qn(), b) == f_mul(a, b),
        f_mul(a, b % qn()) == f_mul(a, b),
        f_mul(a, b) == f_mul(b, a),
{
    lemma_mul_mod_noop_left(a as int, b as int, Q as int);
    lemma_mul_mod_noop_right(a as int, b as int, Q as int);
    lemma_mul_is_commutative(a as int, b as int);
}

pub proof fn lemma_f_mul_assoc(a: nat, b: nat, c: nat)
    ensures
        f_mul(f_mul(a, b), c) == f_mul(a, f_mul(b, c)),
{
    lemma_mul_mod_noop_left((a * b) as int, c as int, Q as int);
    lemma_mul_mod_noop_right(a as int, (b * c) as int, Q as int);
    lemma_mul_is_associative(a as int, b as int, c as int);
}

pub proof fn lemma_f_add_assoc(a: nat, b: nat, c: nat)
    ensures
        f_add(f_add(a, b), c) == f_add(a, f_add(b, c)),
{
    lemma_f_add_noop((a + b) as nat, c);
    lemma_f_add_noop(a, (b + c) as nat);
    assert(a + b + c == a + (b + c));
}

/// Multiplication distributes over addition in F_q.
pub proof fn lemma_f_mul_distrib(a: nat, b: nat, c: nat)
    ensures
        f_mul(a, f_add(b, c)) == f_add(f_mul(a, b), f_mul(a, c)),
{
    lemma_mul_mod_noop_right(a as int, (b + c) as int, Q as int);
    lemma_mul_is_distributive_add(a as int, b as int, c as int);
    lemma_add_mod_noop((a * b) as int, (a * c) as int, Q as int);
}

pub proof fn lemma_f_mul_one(a: nat)
    ensures
        f_mul(a, 1) == a % qn(),
        f_mul(1, a) == a % qn(),
        f_mul(a, 0) == 0,
        f_mul(0, a) == 0,
        f_add(a, 0) == a % qn(),
        f_add(0, a) == a % qn(),
{
    lemma_mul_is_commutative(a as int, 1);
    lemma_mul_is_commutative(a as int, 0);
}

/// An element and its negation sum to zero.
pub proof fn lemma_f_neg_cancel(b: nat)
    ensures
        f_add(b, f_neg(b)) == 0,
        f_add(f_neg(b), b) == 0,
{
    let q = qn();
    lemma_f_add_noop(b, f_neg(b));
    lemma_f_add_noop(f_neg(b), b);
    if b % q == 0 {
        assert(f_add(b % q, f_neg(b)) == (0nat) % q);
        lemma_small_mod(0, q);
    } else {
        assert(b % q + f_neg(b) == q);
        assert(f_add(b % q, f_neg(b)) == q % q);
        lemma_small_mod(0, q);
        lemma_mod_multiples_vanish(1, 0, Q as int);
    }
}

/// a - b + b == a in F_q.
pub proof fn lemma_f_sub_add_cancel(a: nat, b: nat)
    ensures
        f_add(f_sub(a, b), b) == a % qn(),
        f_sub(f_add(a, b), b) == a % qn(),
        f_sub(a, b) == 0 <==> a % qn() == b % qn(),
{
    let q = qn();
    // first clause: (a + -b) + b == a + (-b + b) == a + 0 == a % q
    lemma_f_add_assoc(a, f_neg(b), b);
    lemma_f_neg_cancel(b);
    lemma_f_add_noop(a, f_add(f_neg(b), b));
    lemma_f_mul_one(a);
    // second clause: (a + b) + -b == a + (b + -b) == a + 0 == a % q
    lemma_f_add_assoc(a, b, f_neg(b));
    lemma_f_add_noop(a, f_add(b, f_neg(b)));
    // third clause
    if f_sub(a, b) == 0 {
        assert(f_add(f_sub(a, b), b) == f_add(0, b));
        lemma_f_mul_one(b);
    }
    if a % q == b % q {
        lemma_f_add_noop(a, f_neg(b));
        lemma_f_add_noop(b, f_neg(b));
        assert(f_sub(a, b) == f_add(a % q, f_neg(b)));
        assert(f_add(b % q, f_neg(b)) == 0);
    }
}

/// f_pow agrees with vstd's integer power, reduced modulo q.
pub proof fn lemma_f_pow_is_pow(a: nat, e: nat)
    ensures
        f_pow(a, e) == pow(a as int, e) % (Q as int),
    decreases e,
{
    reveal(pow);
    if e == 0 {
        assert(pow(a as int, 0) == 1);
        lemma_small_mod(1, qn());
    } else {
        let em = (e - 1) as nat;
        let p1 = pow(a as int, em);
        lemma_f_pow_is_pow(a, em);
        lemma_pow_nonneg(a, em);
        assert(pow(a as int, e) == a as int * p1);
        assert(f_pow(a, e) == ((p1 % (Q as int)) * a) % (Q as int));
        lemma_mul_mod_noop_left(p1, a as int, Q as int);
        lemma_mul_is_commutative(p1, a as int);
    }
}

/// vstd's power of a natural base is non-negative.
pub proof fn lemma_pow_nonneg(a: nat, e: nat)
    ensures
        pow(a as int, e) >= 0,
    decreases e,
{
    reveal(pow);
    if e > 0 {
        lemma_pow_nonneg(a, (e - 1) as nat);
        vstd::arithmetic::mul::lemma_mul_nonnegative(a as int, pow(a as int, (e - 1) as nat));
    }
}

/// Exponents add: a^(e1+e2) == a^e1 * a^e2 in F_q.
pub proof fn lemma_f_pow_adds(a: nat, e1: nat, e2: nat)
    ensures
        f_pow(a, e1 + e2) == f_mul(f_pow(a, e1), f_pow(a, e2)),
{
    lemma_f_pow_is_pow(a, e1 + e2);
    lemma_f_pow_is_pow(a, e1);
    lemma_f_pow_is_pow(a, e2);
    lemma_pow_adds(a as int, e1, e2);
    lemma_mul_mod_noop(pow(a as int, e1), pow(a as int, e2), Q as int);
}

/// Exponents multiply: a^(e1*e2) == (a^e1)^e2 in F_q.
pub proof fn lemma_f_pow_multiplies(a: nat, e1: nat, e2: nat)
    ensures
        f_pow(a, e1 * e2) == f_pow(f_pow(a, e1), e2),
    decreases e2,
{
    if e2 == 0 {
        assert(e1 * 0 == 0);
    } else {
        let em = (e2 - 1) as nat;
        assert(e1 * e2 == e1 * em + e1) by {
            lemma_mul_is_distributive_add(e1 as int, em as int, 1);
        }
        lemma_f_pow_multiplies(a, e1, em);
        lemma_f_pow_adds(a, e1 * em, e1);
        // f_pow(f_pow(a,e1), e2) == f_mul(f_pow(f_pow(a,e1), em), f_pow(a, e1))
        lemma_f_pow_adds(f_pow(a, e1), em, 1);
        lemma_f_pow_one(f_pow(a, e1));
        lemma_f_mul_noop(f_pow(f_pow(a, e1), em), f_pow(a, e1));
        lemma_f_pow_reduce(a, e1);
        lemma_f_mul_noop(f_pow(f_pow(a, e1), em), f_pow(a, e1) % qn());
    }
}

/// a^1 reduces to a mod q.
pub proof fn lemma_f_pow_one(a: nat)
    ensures
        f_pow(a, 1) == a % qn(),
{
    assert(f_pow(a, 0) == 1);
    assert(f_pow(a, 1) == f_mul(f_pow(a, 0), a));
    lemma_f_mul_one(a);
    lemma_f_mul_noop(1, a);
}

/// Reducing the base modulo q does not change a power.
pub proof fn lemma_f_pow_reduce(a: nat, e: nat)
    ensures
        f_pow(a % qn(), e) == f_pow(a, e),
        e > 0 ==> f_pow(a, e) % qn() == f_pow(a, e),
    decreases e,
{
    if e > 0 {
        lemma_f_pow_reduce(a, (e - 1) as nat);
        lemma_f_mul_noop(f_pow(a, (e - 1) as nat), a % qn());
        lemma_f_mul_noop(f_pow(a, (e - 1) as nat), a);
        lemma_f_add_bound(f_pow(a, (e - 1) as nat), a);
        lemma_small_mod(f_pow(a, e), qn());
    }
}

/// Additive inverses are unique among canonical residues.
pub proof fn lemma_f_add_cancel_unique(x: nat, xx: nat, y: nat)
    requires
        in_field(x),
        in_field(xx),
        in_field(y),
        f_add(x, y) == 0,
        f_add(xx, y) == 0,
    ensures
        x == xx,
{
    let q = qn();
    if x + y < q {
        lemma_small_mod((x + y) as nat, q);
    } else {
        lemma_mod_multiples_vanish(1, (x + y - q) as int, Q as int);
        lemma_small_mod((x + y - q) as nat, q);
    }
    if xx + y < q {
        lemma_small_mod((xx + y) as nat, q);
    } else {
        lemma_mod_multiples_vanish(1, (xx + y - q) as int, Q as int);
        lemma_small_mod((xx + y - q) as nat, q);
    }
}

/// Negation moves through multiplication.
pub proof fn lemma_f_mul_neg(a: nat, b: nat)
    ensures
        f_mul(f_neg(a), b) == f_neg(f_mul(a, b)),
{
    let q = qn();
    // both sides are additive inverses of f_mul(a, b)
    lemma_f_mul_distrib(b, a, f_neg(a));
    lemma_f_neg_cancel(a);
    lemma_f_mul_one(b);
    assert(f_mul(b, f_add(a, f_neg(a))) == f_add(f_mul(b, a), f_mul(b, f_neg(a))));
    assert(f_mul(b, f_add(a, f_neg(a))) == 0);
    assert(f_add(f_mul(b, a), f_mul(b, f_neg(a))) == 0);
    lemma_f_mul_noop(b, a);
    lemma_f_mul_noop(b, f_neg(a));
    assert(f_add(f_mul(a, b), f_mul(f_neg(a), b)) == 0);
    assert(f_add(f_mul(f_neg(a), b), f_mul(a, b)) == 0);
    // f_neg(f_mul(a,b)) is an additive inverse of f_mul(a,b) too
    lemma_f_neg_cancel(f_mul(a, b));
    lemma_f_add_bound(a, b);
    lemma_f_add_bound(f_neg(a), b);
    lemma_f_add_bound(f_mul(a, b), 0);
    lemma_f_add_cancel_unique(f_mul(f_neg(a), b), f_neg(f_mul(a, b)), f_mul(a, b));
}

/// Where an inverse exists, `f_inv` is it, and any inverse equals `f_inv`.
pub proof fn lemma_f_inv_works(a: nat)
    requires
        has_inverse(a),
    ensures
        in_field(f_inv(a)),
        f_mul(a, f_inv(a)) == 1,
{
}

/// Every power is a canonical residue.
pub proof fn lemma_f_pow_in_field(a: nat, e: nat)
    ensures
        in_field(f_pow(a, e)),
    decreases e,
{
    if e == 0 {
    } else {
        lemma_f_add_bound(f_pow(a, (e - 1) as nat), a);
    }
}

/// A power of a product is the product of the powers.
pub proof fn lemma_f_pow_distributes(a: nat, b: nat, e: nat)
    ensures
        f_pow(f_mul(a, b), e) == f_mul(f_pow(a, e), f_pow(b, e)),
    decreases e,
{
    if e == 0 {
        lemma_f_mul_one(1nat);
        lemma_small_mod(1, qn());
    } else {
        let em = (e - 1) as nat;
        lemma_f_pow_distributes(a, b, em);
        // (Pa * Pb) * (a * b) == (Pa * a) * (Pb * b), all modulo q
        let pa = f_pow(a, em);
        let pb = f_pow(b, em);
        lemma_f_mul_noop(f_mul(pa, pb), (a * b) as nat);
        assert(f_pow(f_mul(a, b), e) == f_mul(f_mul(pa, pb), (a * b) as nat));
        lemma_f_mul_assoc(f_mul(pa, pb), a, b);
        lemma_f_mul_assoc(pa, pb, a);
        lemma_f_mul_noop(pb, a);
        lemma_f_mul_assoc(pa, a, pb);
        lemma_f_mul_assoc(f_mul(pa, a), pb, b);
        assert(f_mul(f_mul(pa, pb), (a * b) as nat) == f_mul(f_mul(f_mul(pa, pb), a), b)) by {
            lemma_f_mul_assoc(f_mul(pa, pb), a, b);
            lemma_f_mul_noop(f_mul(f_mul(pa, pb), a), b);
            lemma_f_mul_noop(f_mul(pa, pb), f_mul(a, b));
        }
    }
}

/// One raised to any power stays one.
pub proof fn lemma_f_pow_of_one(e: nat)
    ensures
        f_pow(1, e) == 1,
    decreases e,
{
    if e > 0 {
        lemma_f_pow_of_one((e - 1) as nat);
        lemma_f_mul_one(1nat);
        lemma_small_mod(1, qn());
    }
}

/// Zero has no multiplicative inverse.
pub proof fn lemma_zero_no_inverse()
    ensures
        !has_inverse(0),
{
    if has_inverse(0) {
        let y = choose|y: nat| in_field(y) && f_mul(0, y) == 1;
        lemma_f_mul_one(y);
    }
}

/// The inverse of an element is unique.
pub proof fn lemma_inverse_unique(a: nat, x: nat, y: nat)
    requires
        in_field(x),
        in_field(y),
        f_mul(a, x) == 1,
        f_mul(a, y) == 1,
    ensures
        x == y,
{
    // x == x * (a * y) == (x * a) * y == 1 * y == y (all mod q)
    lemma_f_mul_assoc(x, a, y);
    lemma_f_mul_noop(x, a);
    lemma_f_mul_one(x);
    lemma_f_mul_one(y);
    lemma_small_mod(x, qn());
    lemma_small_mod(y, qn());
    lemma_f_mul_noop(f_mul(x, a), y);
    assert(f_mul(x, f_mul(a, y)) == f_mul(x, 1));
}

} // verus!

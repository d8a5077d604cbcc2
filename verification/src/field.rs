//! The prime field F_q: canonical-residue elements, verified arithmetic,
//! the subgroup generators alpha and beta, and the 16-byte wire form.
use crate::error::OleError;
use crate::fmath::{
    f_add, f_mul, f_neg, f_pow, f_sub, has_inverse, in_field, lemma_f_add_assoc,
    lemma_f_add_bound, lemma_f_add_noop, lemma_f_mul_assoc, lemma_f_mul_distrib, lemma_f_mul_noop,
    lemma_f_mul_one, lemma_f_sub_add_cancel, qn, Q,
};
use crate::rng::Entropy;
use vstd::arithmetic::div_mod::{
    lemma_fundamental_div_mod, lemma_mod_multiples_vanish, lemma_mod_self_0, lemma_mod_twice,
    lemma_mul_mod_noop_left, lemma_mul_mod_noop_right, lemma_small_mod,
};
use vstd::arithmetic::mul::{
    lemma_mul_is_associative, lemma_mul_is_commutative, lemma_mul_is_distributive_add,
    lemma_mul_nonnegative, lemma_mul_strictly_increases,
};
use vstd::prelude::*;

verus! {

/// Order of the radix-2 evaluation grid: the subgroup generated by alpha.
pub const A: usize = 256;

/// Order of the radix-3 evaluation grid: the subgroup generated by beta.
pub const B: usize = 2187;

/// Generator of the unique multiplicative subgroup of order A.
pub const ALPHA: u128 = 133143882366590327879973302471337732666;

/// Generator of the unique multiplicative subgroup of order B.
pub const BETA: u128 = 121862544860742244054334734067969623988;

/// 2^128 reduced modulo q, for folding wide random draws into the field.
pub const R128: u128 = 36007152096702629841975192758149967870;

/// An element of F_q, stored as its canonical residue in [0, q).
#[derive(Clone, Copy, Debug, PartialEq, Eq, Structural)]
pub struct Fp {
    pub v: u128,
}

/// The residues a sequence of elements stands for.
pub open spec fn vals(s: Seq<Fp>) -> Seq<nat> {
    s.map_values(|f: Fp| f.v as nat)
}

/// Every element of the sequence is a canonical residue.
pub open spec fn all_wf(s: Seq<Fp>) -> bool {
    forall|i: int| 0 <= i < s.len() ==> (#[trigger] s[i]).wf()
}

/// The little-endian value of a byte string.
pub open spec fn bytes_le_val(s: Seq<u8>) -> nat
    decreases s.len(),
{
    if s.len() == 0 {
        0
    } else {
        s[0] as nat + 256 * bytes_le_val(s.skip(1))
    }
}

/// 256 to the power k.
pub open spec fn pw256(k: nat) -> nat
    decreases k,
{
    if k == 0 {
        1nat
    } else {
        256 * pw256((k - 1) as nat)
    }
}

proof fn lemma_bytes_le_push(s: Seq<u8>, b: u8)
    ensures
        bytes_le_val(s.push(b)) == bytes_le_val(s) + (b as nat) * pw256(s.len()),
    decreases s.len(),
{
    if s.len() == 0 {
        assert(s.push(b).len() == 1);
        assert(s.push(b)[0] == b);
        assert(s.push(b).skip(1) =~= Seq::<u8>::empty());
        assert(bytes_le_val(Seq::<u8>::empty()) == 0);
        assert(bytes_le_val(s.push(b)) == b as nat + 256 * 0);
        assert((b as nat) * pw256(0) == b as nat) by {
            vstd::arithmetic::mul::lemma_mul_basics((b as nat) as int);
        }
    } else {
        assert(s.push(b).skip(1) =~= s.skip(1).push(b));
        lemma_bytes_le_push(s.skip(1), b);
        assert(bytes_le_val(s.push(b)) == s[0] as nat + 256 * (bytes_le_val(s.skip(1)) + (
        b as nat) * pw256((s.len() - 1) as nat)));
        assert(256 * (bytes_le_val(s.skip(1)) + (b as nat) * pw256((s.len() - 1) as nat)) == 256
            * bytes_le_val(s.skip(1)) + 256 * ((b as nat) * pw256((s.len() - 1) as nat))) by {
            lemma_mul_is_distributive_add(
                256,
                bytes_le_val(s.skip(1)) as int,
                ((b as nat) * pw256((s.len() - 1) as nat)) as int,
            );
        }
        assert(256 * ((b as nat) * pw256((s.len() - 1) as nat)) == (b as nat) * (256 * pw256(
            (s.len() - 1) as nat,
        ))) by {
            lemma_mul_is_associative(256, b as int, pw256((s.len() - 1) as nat) as int);
            lemma_mul_is_commutative(256, b as int);
            lemma_mul_is_associative(b as int, 256, pw256((s.len() - 1) as nat) as int);
        }
        assert(pw256(s.len()) == 256 * pw256((s.len() - 1) as nat));
        assert(bytes_le_val(s) == s[0] as nat + 256 * bytes_le_val(s.skip(1)));
        assert(bytes_le_val(s.push(b)) == s[0] as nat + 256 * bytes_le_val(s.skip(1)) + (
        b as nat) * pw256(s.len()));
    }
}

impl Fp {
    /// The residue this element stands for.
    pub open spec fn val(self) -> nat {
        self.v as nat
    }

    /// Every stored element is a canonical residue.
    pub open spec fn wf(self) -> bool {
        (self.v as nat) < qn()
    }

    pub fn zero() -> (r: Fp)
        ensures
            r.wf(),
            r.val() == 0,
    {
        Fp { v: 0 }
    }

    pub fn one() -> (r: Fp)
        ensures
            r.wf(),
            r.val() == 1,
    {
        Fp { v: 1 }
    }

    /// The element standing for an arbitrary 128-bit integer, reduced mod q.
    pub fn new(x: u128) -> (r: Fp)
        ensures
            r.wf(),
            r.val() == (x as nat) % qn(),
    {
        Fp { v: x % Q }
    }

    pub fn alpha() -> (r: Fp)
        ensures
            r.wf(),
            r.val() == ALPHA as nat,
    {
        Fp { v: ALPHA }
    }

    pub fn beta() -> (r: Fp)
        ensures
            r.wf(),
            r.val() == BETA as nat,
    {
        Fp { v: BETA }
    }

    pub fn is_zero(&self) -> (r: bool)
        ensures
            r == (self.val() == 0),
    {
        self.v == 0
    }

    pub fn add(self, o: Fp) -> (r: Fp)
        requires
            self.wf(),
            o.wf(),
        ensures
            r.wf(),
            r.val() == f_add(self.val(), o.val()),
    {
        let s = self.v + o.v;
        proof {
            if s >= Q {
                lemma_mod_multiples_vanish(1, (s - Q) as int, Q as int);
                lemma_small_mod((s - Q) as nat, qn());
            } else {
                lemma_small_mod(s as nat, qn());
            }
        }
        if s >= Q {
            Fp { v: s - Q }
        } else {
            Fp { v: s }
        }
    }

    pub fn neg(self) -> (r: Fp)
        requires
            self.wf(),
        ensures
            r.wf(),
            r.val() == f_neg(self.val()),
    {
        proof {
            lemma_small_mod(self.val(), qn());
        }
        if self.v == 0 {
            Fp { v: 0 }
        } else {
            Fp { v: Q - self.v }
        }
    }

    pub fn sub(self, o: Fp) -> (r: Fp)
        requires
            self.wf(),
            o.wf(),
        ensures
            r.wf(),
            r.val() == f_sub(self.val(), o.val()),
    {
        self.add(o.neg())
    }

    pub fn square(self) -> (r: Fp)
        requires
            self.wf(),
        ensures
            r.wf(),
            r.val() == f_mul(self.val(), self.val()),
    {
        self.mul(self)
    }

    /// Multiplication mod q, by binary decomposition of the right factor.
    pub fn mul(self, o: Fp) -> (r: Fp)
        requires
            self.wf(),
            o.wf(),
        ensures
            r.wf(),
            r.val() == f_mul(self.val(), o.val()),
    {
        let ghost a = self.val();
        let ghost b = o.val();
        let mut acc = self;
        let mut bb: u128 = o.v;
        let mut r = Fp { v: 0 };
        proof {
            lemma_f_mul_noop(acc.val(), bb as nat);
            lemma_f_mul_one(f_mul(acc.val(), bb as nat));
            lemma_f_add_bound(acc.val(), bb as nat);
            lemma_small_mod(f_mul(acc.val(), bb as nat), qn());
        }
        while bb != 0
            invariant
                acc.wf(),
                r.wf(),
                f_add(r.val(), f_mul(acc.val(), bb as nat)) == f_mul(a, b),
            decreases bb,
        {
            let ghost r0 = r.val();
            let ghost acc0 = acc.val();
            let ghost bbu: u128 = bb;
            let ghost bb0 = bb as nat;
            let bit = bb & 1;
            if bit == 1 {
                r = r.add(acc);
            }
            acc = acc.add(acc);
            bb = bb >> 1;
            proof {
                assert(bbu == 2 * (bbu >> 1) + (bbu & 1) && (bbu & 1) < 2) by (bit_vector);
                let bbn = bb as nat;
                let bitn = (bit) as nat;
                assert(bb0 == 2 * bbn + bitn);
                // f_mul(acc0, bb0) == f_add(f_mul(2*acc0, bbn), f_mul(acc0, bitn))
                assert(acc0 * (2 * bbn + bitn) == (2 * acc0) * bbn + acc0 * bitn) by {
                    lemma_mul_is_distributive_add(acc0 as int, (2 * bbn) as int, bitn as int);
                    lemma_mul_is_associative(acc0 as int, 2, bbn as int);
                    lemma_mul_is_commutative(acc0 as int, 2);
                    lemma_mul_is_associative(2, acc0 as int, bbn as int);
                }
                assert(f_mul(acc0, bb0) == ((2 * acc0) * bbn + acc0 * bitn) % qn());
                assert(((2 * acc0) * bbn + acc0 * bitn) % qn() == f_add(
                    f_mul(2 * acc0, bbn),
                    f_mul(acc0, bitn),
                )) by {
                    vstd::arithmetic::div_mod::lemma_add_mod_noop(
                        ((2 * acc0) * bbn) as int,
                        (acc0 * bitn) as int,
                        Q as int,
                    );
                }
                // the doubled accumulator is (2*acc0) reduced
                assert(acc.val() == f_add(acc0, acc0));
                assert(f_mul(acc.val(), bbn) == f_mul(2 * acc0, bbn)) by {
                    lemma_f_mul_noop((2 * acc0) as nat, bbn);
                    assert(acc0 + acc0 == 2 * acc0);
                }
                if bit == 1 {
                    assert(f_mul(acc0, bitn) == acc0 % qn()) by {
                        lemma_f_mul_one(acc0);
                    }
                    lemma_small_mod(acc0, qn());
                    // r.val() == f_add(r0, acc0)
                    lemma_f_add_assoc(r0, acc0, f_mul(acc.val(), bbn));
                    lemma_f_add_noop(r0, f_add(acc0, f_mul(acc.val(), bbn)));
                    lemma_f_add_noop(acc0, f_mul(acc.val(), bbn));
                    // f_add(f_add(r0, acc0), t) == f_add(r0, f_add(acc0, t))
                    assert(f_add(f_mul(acc.val(), bbn), acc0 % qn()) == f_add(
                        acc0,
                        f_mul(acc.val(), bbn),
                    )) by {
                        lemma_f_add_noop(f_mul(acc.val(), bbn), acc0);
                        lemma_f_add_noop(acc0, f_mul(acc.val(), bbn));
                    }
                } else {
                    assert(bitn == 0);
                    assert(f_mul(acc0, 0) == 0) by {
                        lemma_f_mul_one(acc0);
                    }
                    assert(f_add(f_mul(2 * acc0, bbn), 0) == f_mul(2 * acc0, bbn) % qn()) by {
                        lemma_f_mul_one(f_mul(2 * acc0, bbn));
                    }
                    lemma_f_add_bound(2 * acc0, bbn);
                    lemma_small_mod(f_mul(2 * acc0, bbn), qn());
                }
            }
        }
        proof {
            assert(f_mul(acc.val(), 0) == 0) by {
                lemma_f_mul_one(acc.val());
            }
            assert(f_add(r.val(), 0) == r.val() % qn()) by {
                lemma_f_mul_one(r.val());
            }
            lemma_small_mod(r.val(), qn());
        }
        r
    }

    /// Exponentiation by repeated multiplication.
    pub fn pow(self, e: u64) -> (r: Fp)
        requires
            self.wf(),
        ensures
            r.wf(),
            r.val() == f_pow(self.val(), e as nat),
    {
        let mut acc = Fp::one();
        let mut i: u64 = 0;
        while i < e
            invariant
                self.wf(),
                acc.wf(),
                i <= e,
                acc.val() == f_pow(self.val(), i as nat),
            decreases e - i,
        {
            acc = acc.mul(self);
            i = i + 1;
            proof {
                assert(f_pow(self.val(), i as nat) == f_mul(
                    f_pow(self.val(), (i - 1) as nat),
                    self.val(),
                ));
            }
        }
        acc
    }
}

/// d is a common divisor of x and y.
pub open spec fn common_div(d: nat, x: nat, y: nat) -> bool {
    x % d == 0 && y % d == 0
}

proof fn lemma_gcd_step(d: nat, r0: nat, r1: nat)
    requires
        d >= 1,
        r1 >= 1,
    ensures
        common_div(d, r1, r0 % r1) <==> common_div(d, r0, r1),
{
    let qq = r0 as int / r1 as int;
    let r2 = r0 % r1;
    lemma_fundamental_div_mod(r0 as int, r1 as int);
    assert(r0 == qq * r1 + r2);
    if r1 % d == 0 {
        assert((qq * r1) % (d as int) == 0) by {
            lemma_mul_mod_noop_right(qq, r1 as int, d as int);
            assert(qq * 0 == 0);
            lemma_mod_twice(qq * (r1 as int), d as int);
            lemma_small_mod(0, d);
        }
        if r2 % d == 0 {
            assert(r0 % d == 0) by {
                vstd::arithmetic::div_mod::lemma_add_mod_noop(
                    qq * (r1 as int),
                    r2 as int,
                    d as int,
                );
                lemma_small_mod(0, d);
            }
        }
        if r0 % d == 0 {
            assert(r2 % d == 0) by {
                vstd::arithmetic::div_mod::lemma_sub_mod_noop(
                    r0 as int,
                    qq * (r1 as int),
                    d as int,
                );
                lemma_small_mod(0, d);
                assert(r0 as int - qq * (r1 as int) == r2 as int);
            }
        }
    }
}

impl Fp {
    /// The multiplicative inverse, by the extended Euclidean algorithm on
    /// (q, v). Returns `None` exactly when no inverse exists; zero has none.
    pub fn invert(self) -> (r: Option<Fp>)
        requires
            self.wf(),
        ensures
            r is Some <==> has_inverse(self.val()),
            r is Some ==> r->Some_0.wf() && f_mul(self.val(), r->Some_0.val()) == 1,
            self.val() == 0 ==> r is None,
    {
        let ghost a = self.val();
        let mut r0: u128 = Q;
        let mut r1: u128 = self.v;
        let mut s0 = Fp { v: 0 };
        let mut s1 = Fp { v: 1 };
        proof {
            lemma_mod_self_0(Q as int);
            lemma_f_mul_one(a);
            lemma_small_mod(a, qn());
            lemma_small_mod(0, qn());
            assert(f_mul(0, a) == 0) by {
                lemma_f_mul_one(a);
            }
        }
        while r1 != 0
            invariant
                self.wf(),
                s0.wf(),
                s1.wf(),
                1 <= r0 <= Q,
                r1 < Q || (r1 == Q && r0 == Q),
                a == self.val(),
                f_mul(s0.val(), a) == (r0 as nat) % qn(),
                f_mul(s1.val(), a) == (r1 as nat) % qn(),
                forall|d: nat|
                    1 <= d ==> (#[trigger] common_div(d, r0 as nat, r1 as nat) <==> common_div(
                        d,
                        qn(),
                        a,
                    )),
            decreases r1,
        {
            let ghost g0 = r0 as nat;
            let ghost g1 = r1 as nat;
            let qq = r0 / r1;
            let r2 = r0 % r1;
            let qqr = if qq >= Q {
                qq - Q
            } else {
                qq
            };
            proof {
                assert(qq <= Q) by {
                    assert(r0 / r1 <= r0) by {
                        vstd::arithmetic::div_mod::lemma_div_nonincreasing(r0 as int, r1 as int);
                    }
                }
                if qq >= Q {
                    lemma_mod_multiples_vanish(1, (qq - Q) as int, Q as int);
                    lemma_small_mod((qq - Q) as nat, qn());
                } else {
                    lemma_small_mod(qq as nat, qn());
                }
                assert((qqr as nat) == (qq as nat) % qn());
            }
            let ghost olds0 = s0.val();
            let t = s0.sub(qqr_mul(qqr, s1));
            s0 = s1;
            s1 = t;
            r0 = r1;
            r1 = r2;
            proof {
                // congruence: t*a == (g0 - qq*g1) mod q == r2 mod q
                assert(in_field(olds0) && f_mul(olds0, a) == g0 % qn() && t.val() == f_sub(
                    olds0,
                    f_mul((qq as nat) % qn(), s0.val()),
                ));
                lemma_invert_step(a, g0, g1, qq as nat, s0.val(), t.val());
                assert forall|d: nat| 1 <= d implies (#[trigger] common_div(
                    d,
                    r0 as nat,
                    r1 as nat,
                ) <==> common_div(d, qn(), a)) by {
                    lemma_gcd_step(d, g0, g1);
                }
            }
        }
        if r0 == 1 {
            proof {
                lemma_small_mod(1, qn());
                lemma_f_mul_noop(s0.val(), a);
                assert(f_mul(a, s0.val()) == 1);
                assert(has_inverse(a)) by {
                    assert(in_field(s0.val()) && f_mul(a, s0.val()) == 1);
                }
                if a == 0 {
                    lemma_f_mul_one(s0.val());
                    assert(f_mul(s0.val(), 0) == 0);
                    assert(false);
                }
            }
            Some(s0)
        } else {
            proof {
                lemma_mod_self_0(r0 as int);
                lemma_small_mod(0, r0 as nat);
                assert(common_div(r0 as nat, r0 as nat, 0));
                assert(common_div(r0 as nat, qn(), a));
                lemma_no_inverse(a, r0 as nat);
            }
            None
        }
    }
}

/// Multiply a reduced quotient by a field element (helper for `invert`).
fn qqr_mul(qqr: u128, s: Fp) -> (r: Fp)
    requires
        qqr < Q,
        s.wf(),
    ensures
        r.wf(),
        r.val() == f_mul(qqr as nat, s.val()),
{
    Fp { v: qqr }.mul(s)
}

/// One step of the extended Euclidean algorithm preserves the congruence
/// s_i * a == r_i (mod q).
#[verifier::rlimit(50)]
proof fn lemma_invert_step(a: nat, g0: nat, g1: nat, qq: nat, s1v: nat, tv: nat)
    requires
        g1 >= 1,
        qq == g0 / g1,
        exists|s0v: nat|
            in_field(s0v) && f_mul(s0v, a) == g0 % qn() && tv == f_sub(
                s0v,
                f_mul(qq % qn(), s1v),
            ),
        in_field(s1v),
        in_field(tv),
        f_mul(s1v, a) == g1 % qn(),
    ensures
        f_mul(tv, a) == (g0 % g1) % qn(),
{
    let q = qn();
    let s0v = choose|s0v: nat|
        in_field(s0v) && f_mul(s0v, a) == g0 % qn() && tv == f_sub(s0v, f_mul(qq % qn(), s1v));
    let g2 = g0 % g1;
    lemma_fundamental_div_mod(g0 as int, g1 as int);
    lemma_mul_is_commutative(qq as int, g1 as int);
    assert(g0 == qq * g1 + g2);
    // tv * a == (s0v - qq*s1v) * a == s0v*a - qq*(s1v*a) == g0 - qq*g1 == g2 (mod q)
    let m = f_mul(qq % q, s1v);
    lemma_f_mul_noop(qq, s1v);
    assert(m == f_mul(qq, s1v));
    // f_mul(tv, a) == f_sub(f_mul(s0v,a), f_mul(m, a)) -- distribute over f_sub
    lemma_f_mul_sub_distrib(s0v, m, a);
    assert(f_mul(tv, a) == f_sub(f_mul(s0v, a), f_mul(m, a)));
    // f_mul(m, a) == f_mul(qq, f_mul(s1v, a)) == f_mul(qq, g1 % q) == f_mul(qq, g1)
    lemma_f_mul_assoc(qq, s1v, a);
    lemma_f_mul_noop(m, a);
    lemma_f_mul_noop(f_mul(qq, s1v), a);
    assert(f_mul(m, a) == f_mul(qq, f_mul(s1v, a)));
    lemma_f_mul_noop(qq, g1);
    assert(f_mul(m, a) == f_mul(qq, g1));
    // so f_mul(tv,a) == f_sub(g0 % q, (qq*g1) % q) == f_sub(g0, qq*g1)
    lemma_f_sub_noop(g0, qq * g1);
    assert(f_mul(tv, a) == f_sub(g0, qq * g1));
    // g0 == qq*g1 + g2, hence f_sub(g0, qq*g1) == g2 % q
    lemma_f_sub_add_cancel(g2, qq * g1);
    assert(f_sub(qq * g1 + g2, qq * g1) == g2 % q);
}

/// f_sub distributes over multiplication on the left.
pub proof fn lemma_f_mul_sub_distrib(x: nat, y: nat, a: nat)
    ensures
        f_mul(f_sub(x, y), a) == f_sub(f_mul(x, a), f_mul(y, a)),
{
    let q = qn();
    // f_sub(x,y) + y == x (mod q); multiply both sides by a
    lemma_f_sub_add_cancel(x, y);
    let s = f_sub(x, y);
    // (s + y) * a == s*a + y*a
    lemma_f_mul_noop(f_add(s, y), a);
    lemma_f_mul_noop(x, a);
    assert(f_mul(f_add(s, y), a) == f_mul(x % q, a));
    lemma_f_mul_distrib(a, s, y);
    lemma_f_mul_noop(a, f_add(s, y));
    lemma_f_mul_noop(a, s);
    lemma_f_mul_noop(a, y);
    assert(f_mul(f_add(s, y), a) == f_add(f_mul(s, a), f_mul(y, a)));
    // now cancel: f_sub(x*a, y*a) == f_sub(s*a + y*a, y*a) == s*a
    lemma_f_sub_add_cancel(f_mul(s, a), f_mul(y, a));
    lemma_f_add_bound(s, a);
    lemma_small_mod(f_mul(s, a), q);
    lemma_f_sub_noop_right(f_mul(x, a), f_add(f_mul(s, a), f_mul(y, a)));
}

/// Replacing either operand of f_sub by its reduction changes nothing.
pub proof fn lemma_f_sub_noop(x: nat, y: nat)
    ensures
        f_sub(x % qn(), y) == f_sub(x, y),
        f_sub(x, y % qn()) == f_sub(x, y),
{
    lemma_f_add_noop(x, f_neg(y));
    lemma_mod_twice(y as int, Q as int);
}

proof fn lemma_f_sub_noop_right(x: nat, y: nat)
    requires
        x % qn() == y % qn(),
    ensures
        f_sub(x, y) == f_sub(x, x),
        forall|z: nat| f_sub(#[trigger] f_sub(z, x), 0) == f_sub(z, x),
{
    assert(f_neg(x) == f_neg(y));
    assert forall|z: nat| f_sub(#[trigger] f_sub(z, x), 0) == f_sub(z, x) by {
        lemma_f_add_bound(z, x);
        lemma_small_mod(f_sub(z, x), qn());
        lemma_f_mul_one(f_sub(z, x));
    }
}

/// If the gcd of q and a is above one, a has no inverse.
proof fn lemma_no_inverse(a: nat, g: nat)
    requires
        g >= 2,
        common_div(g, qn(), a),
    ensures
        !has_inverse(a),
{
    if has_inverse(a) {
        let y = choose|y: nat| in_field(y) && f_mul(a, y) == 1;
        // a*y == k*q + 1 for some k
        let p = a * y;
        lemma_fundamental_div_mod(p as int, Q as int);
        let k = p as int / Q as int;
        assert(p == k * (Q as int) + 1);
        // modulo g: a % g == 0 so p % g == 0; q % g == 0 so p % g == 1 % g == 1
        assert((p as int) % (g as int) == 0) by {
            lemma_mul_mod_noop_left(a as int, y as int, g as int);
            assert((0 as int) * (y as int) == 0);
            lemma_mod_twice(a as int * y as int, g as int);
            lemma_small_mod(0, g);
        }
        assert((p as int) % (g as int) == 1) by {
            lemma_mul_mod_noop_right(k, Q as int, g as int);
            assert(k * 0 == 0);
            lemma_mod_twice(k * (Q as int), g as int);
            lemma_small_mod(0, g);
            vstd::arithmetic::div_mod::lemma_add_mod_noop(k * (Q as int), 1, g as int);
            lemma_small_mod(1, g);
        }
        assert(false);
    }
}

impl Fp {
    /// The 16-byte little-endian wire form.
    pub fn to_block(&self) -> (r: Vec<u8>)
        requires
            self.wf(),
        ensures
            r@.len() == 16,
            bytes_le_val(r@) == self.val(),
    {
        let mut out: Vec<u8> = Vec::new();
        let mut x: u128 = self.v;
        let ghost mut p: nat = 1;
        let mut k: usize = 0;
        while k < 16
            invariant
                k <= 16,
                out@.len() == k,
                p == pw256(k as nat),
                self.val() == bytes_le_val(out@) + (x as nat) * p,
            decreases 16 - k,
        {
            let ghost xu: u128 = x;
            let ghost xg = x as nat;
            let ghost outg = out@;
            let b = (x & 0xff) as u8;
            out.push(b);
            x = x >> 8;
            k = k + 1;
            proof {
                lemma_bytes_le_push(outg, b);
                assert(xu & 0xff == xu % 256) by (bit_vector);
                assert(xu >> 8 == xu / 256) by (bit_vector);
                lemma_fundamental_div_mod(xg as int, 256);
                let ghost dd = xg / 256;
                let ghost mm = xg % 256;
                assert(xg * p == mm * p + dd * (256 * p)) by (nonlinear_arith)
                    requires
                        xg == 256 * dd + mm,
                ;
                p = p * 256;
                assert(p == pw256(k as nat)) by {
                    lemma_mul_is_commutative(pw256((k - 1) as nat) as int, 256);
                }
            }
        }
        proof {
            lemma_pw256_16();
            assert(x as nat == 0) by {
                if (x as nat) >= 1 {
                    lemma_mul_strictly_increases(x as int, p as int);
                    lemma_mul_nonnegative(x as int, p as int);
                    assert((x as nat) * p >= p) by {
                        lemma_mul_is_commutative(x as int, p as int);
                        vstd::arithmetic::mul::lemma_mul_ordering(p as int, x as int);
                    }
                }
            }
            assert((0 as nat) * p == 0);
        }
        out
    }

    /// Reads an element from its 16-byte little-endian wire form, reducing
    /// values at or above q.
    pub fn from_block(bytes: &Vec<u8>) -> (r: Result<Fp, OleError>)
        ensures
            bytes@.len() == 16 ==> r == Result::<Fp, OleError>::Ok(
                Fp { v: (bytes_le_val(bytes@) % qn()) as u128 },
            ),
            bytes@.len() != 16 ==> r == Result::<Fp, OleError>::Err(OleError::PreconditionError),
            r is Ok ==> r->Ok_0.wf(),
    {
        if bytes.len() != 16 {
            return Err(OleError::PreconditionError);
        }
        let mut x: u128 = 0;
        let mut k: usize = 16;
        proof {
            assert(bytes@.skip(16) =~= Seq::<u8>::empty());
            assert(bytes_le_val(Seq::<u8>::empty()) == 0);
            lemma_pw256_le(0, 16);
        }
        while k > 0
            invariant
                k <= 16,
                bytes@.len() == 16,
                x as nat == bytes_le_val(bytes@.skip(k as int)),
                x < pw256((16 - k) as nat),
                pw256((16 - k) as nat) <= pw256(16),
            decreases k,
        {
            let ghost xg = x as nat;
            let ghost kg = k as int;
            proof {
                assert(pw256((16 - (kg - 1)) as nat) == 256 * pw256((16 - kg) as nat));
                lemma_pw256_16();
                assert(pw256((16 - (kg - 1)) as nat) <= pw256(16)) by {
                    lemma_pw256_le((16 - (kg - 1)) as nat, 16);
                }
            }
            k = k - 1;
            let b = bytes[k];
            x = x * 256 + (b as u128);
            proof {
                assert(bytes@.skip(k as int) =~= seq![bytes@[k as int]] + bytes@.skip(k as int + 1));
                lemma_bytes_le_cons(bytes@[k as int], bytes@.skip(k as int + 1));
                assert(x as nat == b as nat + 256 * xg) by {
                    lemma_mul_is_commutative(xg as int, 256);
                }
                assert((x as nat) < 256 * pw256((16 - kg) as nat)) by {
                    assert(xg <= pw256((16 - kg) as nat) - 1);
                    assert(256 * xg <= 256 * (pw256((16 - kg) as nat) - 1)) by {
                        vstd::arithmetic::mul::lemma_mul_inequality(
                            xg as int,
                            pw256((16 - kg) as nat) - 1,
                            256,
                        );
                        lemma_mul_is_commutative(xg as int, 256);
                        lemma_mul_is_commutative((pw256((16 - kg) as nat) - 1) as int, 256);
                    }
                    assert(256 * (pw256((16 - kg) as nat) - 1) == 256 * pw256((16 - kg) as nat)
                        - 256) by {
                        lemma_mul_is_distributive_add(256, pw256((16 - kg) as nat) as int - 1, 1);
                    }
                }
            }
        }
        proof {
            assert(bytes@.skip(0) =~= bytes@);
        }
        Ok(Fp { v: x % Q })
    }
}

proof fn lemma_pw256_16()
    ensures
        pw256(16) == 0x100000000000000000000000000000000nat,
{
    reveal_with_fuel(pw256, 17);
}

proof fn lemma_pw256_ge1(i: nat)
    ensures
        pw256(i) >= 1,
    decreases i,
{
    if i > 0 {
        lemma_pw256_ge1((i - 1) as nat);
    }
}

proof fn lemma_pw256_le(i: nat, j: nat)
    requires
        i <= j,
    ensures
        pw256(i) <= pw256(j),
        pw256(i) >= 1,
    decreases j,
{
    lemma_pw256_ge1(i);
    if i < j {
        lemma_pw256_le(i, (j - 1) as nat);
    }
}

proof fn lemma_bytes_le_cons(b: u8, s: Seq<u8>)
    ensures
        bytes_le_val(seq![b] + s) == b as nat + 256 * bytes_le_val(s),
{
    let t = seq![b] + s;
    assert(t.len() == 1 + s.len());
    assert(t[0] == b);
    assert(t.skip(1) =~= s);
}

impl Fp {
    /// A random field element: a 256-bit draw reduced modulo q, whose
    /// distance from uniform is below 2^-128.
    pub fn random(rng: &mut Entropy) -> (r: Fp)
        ensures
            r.wf(),
    {
        let w0 = rng.next_u64();
        let w1 = rng.next_u64();
        let w2 = rng.next_u64();
        let w3 = rng.next_u64();
        let hi = ((w0 as u128) << 64) | (w1 as u128);
        let lo = ((w2 as u128) << 64) | (w3 as u128);
        // hi * 2^128 + lo mod q, using 2^128 mod q
        Fp::new(hi).mul(Fp { v: R128 }).add(Fp::new(lo))
    }
}

} // verus!

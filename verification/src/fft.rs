//! Radix-2 and radix-3 decimation-in-time FFT kernels over F_q, their
//! inverses, and the digit-reversal permutation.
use crate::error::OleError;
use crate::field::{all_wf, vals, Fp};
use crate::fmath::{
    f_add, f_inv, f_mul, f_pow, has_inverse, lemma_f_add_assoc, lemma_f_add_noop,
    lemma_f_mul_assoc, lemma_f_mul_distrib, lemma_f_mul_noop, lemma_f_mul_one, lemma_f_pow_adds,
    lemma_f_pow_multiplies, lemma_f_pow_reduce, lemma_inverse_unique, qn,
};
use crate::poly::poly_eval;
use vstd::arithmetic::div_mod::{lemma_fundamental_div_mod, lemma_small_mod};
use vstd::arithmetic::mul::{
    lemma_mul_inequality, lemma_mul_is_associative, lemma_mul_is_commutative,
    lemma_mul_is_distributive_add, lemma_mul_strict_inequality,
};
use vstd::prelude::*;

verus! {

/// base to the power k.
pub open spec fn pow_b(base: nat, k: nat) -> nat
    decreases k,
{
    if k == 0 {
        1nat
    } else {
        base * pow_b(base, (k - 1) as nat)
    }
}

/// n is an exact power of base.
pub open spec fn is_pow_of(base: nat, n: nat) -> bool {
    exists|k: nat| n == pow_b(base, k)
}

/// The exponent for which n is the corresponding power of base.
pub open spec fn log_of(base: nat, n: nat) -> nat {
    choose|k: nat| n == pow_b(base, k)
}

/// The k low base-digits of i, reversed.
pub open spec fn digit_rev(base: nat, k: nat, i: nat) -> nat
    decreases k,
{
    if k == 0 {
        0
    } else {
        (i % base) * pow_b(base, (k - 1) as nat) + digit_rev(base, (k - 1) as nat, i / base)
    }
}

pub proof fn lemma_pow_b_pos(base: nat, k: nat)
    requires
        base >= 1,
    ensures
        pow_b(base, k) >= 1,
    decreases k,
{
    if k > 0 {
        lemma_pow_b_pos(base, (k - 1) as nat);
        lemma_mul_inequality(1, base as int, pow_b(base, (k - 1) as nat) as int);
    }
}

/// Powers of a base of at least two are strictly increasing in the exponent.
pub proof fn lemma_pow_b_increases(base: nat, k1: nat, k2: nat)
    requires
        base >= 2,
        k1 < k2,
    ensures
        pow_b(base, k1) < pow_b(base, k2),
    decreases k2,
{
    lemma_pow_b_pos(base, k1);
    if k2 == k1 + 1 {
        assert(pow_b(base, k2) == base * pow_b(base, k1));
        lemma_mul_strict_inequality(1, base as int, pow_b(base, k1) as int);
        lemma_mul_is_commutative(base as int, pow_b(base, k1) as int);
    } else {
        lemma_pow_b_increases(base, k1, (k2 - 1) as nat);
        lemma_pow_b_pos(base, (k2 - 1) as nat);
        assert(pow_b(base, k2) == base * pow_b(base, (k2 - 1) as nat));
        lemma_mul_strict_inequality(1, base as int, pow_b(base, (k2 - 1) as nat) as int);
        lemma_mul_is_commutative(base as int, pow_b(base, (k2 - 1) as nat) as int);
    }
}

/// The exponent of an exact power is unique.
pub proof fn lemma_pow_b_injective(base: nat, k1: nat, k2: nat)
    requires
        base >= 2,
        pow_b(base, k1) == pow_b(base, k2),
    ensures
        k1 == k2,
{
    if k1 < k2 {
        lemma_pow_b_increases(base, k1, k2);
    }
    if k2 < k1 {
        lemma_pow_b_increases(base, k2, k1);
    }
}

/// Decides whether n is an exact power of base, and finds the exponent.
fn find_log(base: usize, n: usize) -> (r: Option<usize>)
    requires
        base >= 2,
    ensures
        r is Some ==> n == pow_b(base as nat, r->0 as nat),
        r is None ==> !is_pow_of(base as nat, n as nat),
{
    let mut t: usize = 1;
    let mut k: usize = 0;
    loop
        invariant
            base >= 2,
            t == pow_b(base as nat, k as nat),
            t >= 1,
            k <= t,
            forall|j: nat| j < k ==> pow_b(base as nat, j) < n,
        decreases n - t,
    {
        if t == n {
            return Some(k);
        }
        if t > n || t > n / base {
            proof {
                assert forall|j: nat| n != pow_b(base as nat, j) by {
                    if j < k {
                    } else {
                        if j > k {
                            lemma_pow_b_increases(base as nat, k as nat, j);
                        }
                        if t > n {
                        } else {
                            // t <= n, t > n / base: base * t > n, so every
                            // power from k + 1 up exceeds n
                            assert(base * t > n) by {
                                lemma_fundamental_div_mod(n as int, base as int);
                                lemma_mul_is_commutative(base as int, (n / base) as int);
                                lemma_mul_is_commutative(base as int, t as int);
                                lemma_mul_inequality(
                                    (n / base) as int + 1,
                                    t as int,
                                    base as int,
                                );
                                lemma_mul_is_distributive_add(
                                    base as int,
                                    (n / base) as int,
                                    1,
                                );
                            }
                            if j > k {
                                assert(pow_b(base as nat, (k + 1) as nat) == base * pow_b(
                                    base as nat,
                                    k as nat,
                                ));
                                if j > k + 1 {
                                    lemma_pow_b_increases(base as nat, (k + 1) as nat, j);
                                }
                            }
                        }
                    }
                }
            }
            return None;
        }
        proof {
            assert(t * base <= n) by {
                lemma_fundamental_div_mod(n as int, base as int);
                lemma_mul_inequality(t as int, (n / base) as int, base as int);
                lemma_mul_is_commutative(base as int, (n / base) as int);
            }
            assert(t * base >= 2 * t) by {
                lemma_mul_inequality(2, base as int, t as int);
                lemma_mul_is_commutative(base as int, t as int);
                lemma_mul_is_commutative(2, t as int);
            }
        }
        t = t * base;
        k = k + 1;
        proof {
            lemma_mul_is_commutative(base as int, pow_b(base as nat, (k - 1) as nat) as int);
        }
    }
}

/// The reversal of k digits is below base^k.
proof fn lemma_digit_rev_bound(base: nat, k: nat, i: nat)
    requires
        base >= 2,
    ensures
        digit_rev(base, k, i) < pow_b(base, k),
    decreases k,
{
    if k == 0 {
    } else {
        let km = (k - 1) as nat;
        lemma_digit_rev_bound(base, km, i / base);
        lemma_pow_b_pos(base, km);
        assert(i % base <= base - 1);
        lemma_mul_inequality((i % base) as int, base as int - 1, pow_b(base, km) as int);
        lemma_mul_is_distributive_add(pow_b(base, km) as int, base as int - 1, 1);
        lemma_mul_is_commutative(pow_b(base, km) as int, base as int - 1);
        lemma_mul_is_commutative(pow_b(base, km) as int, base as int);
    }
}

/// Reversing d * base^(k-1) + r unpacks to the reversal of r shifted by one
/// digit, with d in the lowest place.
proof fn lemma_digit_rev_high(base: nat, k: nat, d: nat, r: nat)
    requires
        base >= 2,
        k >= 1,
        d < base,
        r < pow_b(base, (k - 1) as nat),
    ensures
        digit_rev(base, k, d * pow_b(base, (k - 1) as nat) + r) == digit_rev(
            base,
            (k - 1) as nat,
            r,
        ) * base + d,
    decreases k,
{
    let km = (k - 1) as nat;
    let bp = pow_b(base, km);
    let x = d * bp + r;
    if k == 1 {
        assert(bp == 1);
        vstd::arithmetic::mul::lemma_mul_basics(d as int);
        vstd::arithmetic::mul::lemma_mul_basics(base as int);
        assert(x == d + r && r == 0);
        assert(digit_rev(base, 1, d) == (d % base) * pow_b(base, 0) + digit_rev(base, 0, d / base));
        lemma_small_mod(d, base);
        assert(digit_rev(base, 0, (d / base) as nat) == 0);
        assert(pow_b(base, 0) == 1);
        vstd::arithmetic::mul::lemma_mul_basics((d % base) as int);
        assert(digit_rev(base, 0, r) == 0);
        assert(digit_rev(base, 0, r) * base == 0);
    } else {
        let km2 = (k - 2) as nat;
        let bp2 = pow_b(base, km2);
        assert(bp == base * bp2);
        // x % base == r % base and x / base == d * bp2 + r / base
        assert(x == base * (d * bp2 + r / base) + r % base) by {
            lemma_fundamental_div_mod(r as int, base as int);
            lemma_mul_is_distributive_add(base as int, (d * bp2) as int, (r / base) as int);
            lemma_mul_is_associative(base as int, d as int, bp2 as int);
            lemma_mul_is_commutative(base as int, d as int);
            lemma_mul_is_associative(d as int, base as int, bp2 as int);
        }
        assert(0 <= r % base < base);
        assert(x / base == d * bp2 + r / base && x % base == r % base) by {
            vstd::arithmetic::div_mod::lemma_fundamental_div_mod_converse(
                x as int,
                base as int,
                (d * bp2 + r / base) as int,
                (r % base) as int,
            );
        }
        assert(r / base < bp2) by {
            lemma_fundamental_div_mod(r as int, base as int);
            if r / base >= bp2 {
                lemma_mul_inequality(bp2 as int, (r / base) as int, base as int);
                lemma_mul_is_commutative(base as int, (r / base) as int);
                lemma_mul_is_commutative(base as int, bp2 as int);
            }
        }
        lemma_digit_rev_high(base, km, d, r / base);
        // digit_rev(base, k, x) == (r % base) * bp + digit_rev(base, km, d*bp2 + r/base)
        //                       == (r % base) * bp + digit_rev(base, km2, r/base) * base + d
        // digit_rev(base, km, r) * base + d
        //   == ((r % base) * bp2 + digit_rev(base, km2, r / base)) * base + d
        lemma_mul_is_distributive_add(
            base as int,
            ((r % base) * bp2) as int,
            digit_rev(base, km2, r / base) as int,
        );
        lemma_mul_is_commutative(
            base as int,
            ((r % base) * bp2 + digit_rev(base, km2, r / base)) as int,
        );
        lemma_mul_is_commutative(base as int, ((r % base) * bp2) as int);
        lemma_mul_is_commutative(base as int, digit_rev(base, km2, r / base) as int);
        lemma_mul_is_associative((r % base) as int, bp2 as int, base as int);
        lemma_mul_is_commutative(bp2 as int, base as int);
        lemma_mul_is_associative((r % base) as int, base as int, bp2 as int);
    }
}

/// Digit reversal is an involution on k-digit numbers.
proof fn lemma_digit_rev_involution(base: nat, k: nat, i: nat)
    requires
        base >= 2,
        i < pow_b(base, k),
    ensures
        digit_rev(base, k, digit_rev(base, k, i)) == i,
    decreases k,
{
    if k == 0 {
    } else {
        let km = (k - 1) as nat;
        let d = i % base;
        let r = digit_rev(base, km, i / base);
        lemma_digit_rev_bound(base, km, i / base);
        assert(digit_rev(base, k, i) == d * pow_b(base, km) + r);
        lemma_digit_rev_high(base, k, d, r);
        assert(i / base < pow_b(base, km)) by {
            lemma_fundamental_div_mod(i as int, base as int);
            if i / base >= pow_b(base, km) {
                lemma_mul_inequality(pow_b(base, km) as int, (i / base) as int, base as int);
                lemma_mul_is_commutative(base as int, (i / base) as int);
                lemma_mul_is_commutative(base as int, pow_b(base, km) as int);
            }
        }
        lemma_digit_rev_involution(base, km, i / base);
        lemma_fundamental_div_mod(i as int, base as int);
        lemma_mul_is_commutative(base as int, (i / base) as int);
    }
}

/// The k-digit reversal of one index, computed digit by digit.
fn rev_index(base: usize, k: usize, n: usize, i: usize) -> (r: usize)
    requires
        base >= 2,
        n == pow_b(base as nat, k as nat),
        i < n,
    ensures
        r as nat == digit_rev(base as nat, k as nat, i as nat),
        r < n,
{
    let mut r: usize = 0;
    let mut x: usize = i;
    let mut t: usize = 0;
    proof {
        lemma_digit_rev_bound(base as nat, k as nat, i as nat);
    }
    while t < k
        invariant
            base >= 2,
            t <= k,
            n == pow_b(base as nat, k as nat),
            (r as nat) < pow_b(base as nat, t as nat),
            digit_rev(base as nat, k as nat, i as nat) == (r as nat) * pow_b(
                base as nat,
                (k - t) as nat,
            ) + digit_rev(base as nat, (k - t) as nat, x as nat),
        decreases k - t,
    {
        let ghost r0 = r as nat;
        let ghost x0 = x as nat;
        let ghost bn = base as nat;
        let ghost rem = (k - t) as nat;
        proof {
            // r * base + x % base stays below base^(t+1), and base^(t+1) <= base^k
            lemma_pow_b_increases(bn, t as nat, (t + 1) as nat);
            if (t + 1) as nat <= (k as nat) && ((t + 1) as nat) < (k as nat) {
                lemma_pow_b_increases(bn, (t + 1) as nat, k as nat);
            }
            assert(pow_b(bn, (t + 1) as nat) <= pow_b(bn, k as nat));
            assert(r0 * bn + bn <= pow_b(bn, (t + 1) as nat)) by {
                lemma_mul_inequality(r0 as int + 1, pow_b(bn, t as nat) as int, bn as int);
                lemma_mul_is_commutative(bn as int, pow_b(bn, t as nat) as int);
                lemma_mul_is_distributive_add(bn as int, r0 as int, 1);
                lemma_mul_is_commutative(bn as int, r0 as int);
            }
        }
        r = r * base + x % base;
        x = x / base;
        t = t + 1;
        proof {
            let remm = (k - t) as nat;
            // digit_rev(bn, rem, x0) == (x0 % bn) * pow_b(bn, remm) + digit_rev(bn, remm, x0/bn)
            assert(r0 * pow_b(bn, rem) == (r0 * bn) * pow_b(bn, remm)) by {
                assert(pow_b(bn, rem) == bn * pow_b(bn, remm));
                lemma_mul_is_associative(r0 as int, bn as int, pow_b(bn, remm) as int);
            }
            lemma_mul_is_distributive_add(
                pow_b(bn, remm) as int,
                (r0 * bn) as int,
                (x0 % bn) as int,
            );
            lemma_mul_is_commutative(pow_b(bn, remm) as int, (r0 * bn) as int);
            lemma_mul_is_commutative(pow_b(bn, remm) as int, (x0 % bn) as int);
            lemma_mul_is_commutative((r0 * bn + x0 % bn) as int, pow_b(bn, remm) as int);
        }
    }
    proof {
        lemma_pow_b_pos(base as nat, 0);
        vstd::arithmetic::mul::lemma_mul_basics(r as int);
    }
    r
}

/// Permutes the data by reversing the base-b digits of each index. Fails,
/// before touching the data, unless the length is an exact power of the
/// base.
pub fn digit_reverse_swap<T: Copy>(data: &mut Vec<T>, base: usize) -> (res: Result<(), OleError>)
    requires
        base >= 2,
    ensures
        res is Ok <==> is_pow_of(base as nat, old(data)@.len()),
        res is Err ==> final(data)@ == old(data)@ && res->Err_0 == OleError::PreconditionError,
        res is Ok ==> final(data)@.len() == old(data)@.len() && forall|i: int|
            0 <= i < old(data)@.len() ==> final(data)@[i] == old(data)@[digit_rev(
                base as nat,
                log_of(base as nat, old(data)@.len()),
                i as nat,
            ) as int],
{
    let n = data.len();
    let k = match find_log(base, n) {
        Some(k) => k,
        None => {
            return Err(OleError::PreconditionError);
        },
    };
    proof {
        assert(is_pow_of(base as nat, n as nat));
        lemma_pow_b_injective(base as nat, log_of(base as nat, n as nat), k as nat);
    }
    let ghost kk = k as nat;
    let ghost bn = base as nat;
    let ghost orig = data@;
    let mut i: usize = 0;
    while i < n
        invariant
            base >= 2,
            n == pow_b(bn, kk),
            bn == base as nat,
            kk == k as nat,
            data@.len() == n,
            orig.len() == n,
            forall|j: int|
                0 <= j < n && (j < i || digit_rev(bn, kk, j as nat) < i) ==> #[trigger] data@[j]
                    == orig[digit_rev(bn, kk, j as nat) as int],
            forall|j: int|
                0 <= j < n && !(j < i || digit_rev(bn, kk, j as nat) < i) ==> #[trigger] data@[j]
                    == orig[j],
        decreases n - i,
    {
        let r = rev_index(base, k, n, i);
        proof {
            lemma_digit_rev_involution(bn, kk, i as nat);
        }
        if r > i {
            let ghost pre = data@;
            let vi = data[i];
            let vr = data[r];
            data.set(i, vr);
            data.set(r, vi);
            proof {
                assert(data@ =~= pre.update(i as int, vr).update(r as int, vi));
                assert forall|j: int|
                    0 <= j < n && (j < i + 1 || digit_rev(bn, kk, j as nat) < i + 1) implies #[trigger] data@[j]
                    == orig[digit_rev(bn, kk, j as nat) as int] by {
                    lemma_digit_rev_involution(bn, kk, j as nat);
                    if j == i {
                        assert(data@[j] == pre[r as int]);
                        assert(pre[r as int] == orig[r as int]);
                    } else if j == r {
                        assert(data@[j] == vi);
                        assert(pre[i as int] == orig[i as int]);
                    } else {
                        assert(data@[j] == pre[j]);
                        if digit_rev(bn, kk, j as nat) == i as nat {
                            assert(j as nat == digit_rev(bn, kk, i as nat));
                            assert(false);
                        }
                    }
                }
                assert forall|j: int|
                    0 <= j < n && !(j < i + 1 || digit_rev(bn, kk, j as nat) < i + 1) implies #[trigger] data@[j]
                    == orig[j] by {
                    assert(j != i && j != r);
                    assert(data@[j] == pre[j]);
                }
            }
        } else {
            proof {
                assert forall|j: int|
                    0 <= j < n && (j < i + 1 || digit_rev(bn, kk, j as nat) < i + 1) implies #[trigger] data@[j]
                    == orig[digit_rev(bn, kk, j as nat) as int] by {
                    lemma_digit_rev_involution(bn, kk, j as nat);
                    if j == i {
                        if digit_rev(bn, kk, j as nat) == j as nat {
                        } else {
                            assert(digit_rev(bn, kk, j as nat) < i);
                        }
                    }
                }
            }
        }
        i = i + 1;
    }
    Ok(())
}

/// The table that drives the digit-reversal permutation: entry j holds the
/// full k-digit reversal of j, for j below the half-power n1.
pub fn seed_table(base: usize, n: usize, n1: usize) -> (r: Vec<usize>)
    requires
        base >= 2,
        is_pow_of(base as nat, n as nat),
        n1 <= n,
    ensures
        r@.len() == n1,
        forall|j: int|
            0 <= j < n1 ==> r@[j] as nat == digit_rev(
                base as nat,
                log_of(base as nat, n as nat),
                j as nat,
            ),
{
    let k = match find_log(base, n) {
        Some(k) => k,
        None => {
            proof {
                assert(false);
            }
            0
        },
    };
    proof {
        lemma_pow_b_injective(base as nat, log_of(base as nat, n as nat), k as nat);
    }
    let mut r: Vec<usize> = Vec::new();
    let mut j: usize = 0;
    while j < n1
        invariant
            base >= 2,
            n == pow_b(base as nat, k as nat),
            n1 <= n,
            r@.len() == j,
            j <= n1,
            forall|t: int|
                0 <= t < j ==> r@[t] as nat == digit_rev(base as nat, k as nat, t as nat),
        decreases n1 - j,
    {
        let v = rev_index(base, k, n, j);
        r.push(v);
        j = j + 1;
    }
    r
}

/// The half-power n1 used to drive the table-based permutation: base to
/// half the exponent of n, and whether the exponent is odd. Fails unless n
/// is an exact power of the base.
pub fn calc_n1(base: usize, n: usize) -> (res: Result<(usize, bool), OleError>)
    requires
        base >= 2,
    ensures
        res is Ok <==> is_pow_of(base as nat, n as nat),
        res is Err ==> res->Err_0 == OleError::PreconditionError,
        res is Ok ==> ({
            let k = log_of(base as nat, n as nat);
            &&& res->Ok_0.1 == (k % 2 == 1)
            &&& res->Ok_0.0 as nat == pow_b(base as nat, ((k - k % 2) / 2) as nat)
        }),
{
    let k = match find_log(base, n) {
        Some(k) => k,
        None => {
            return Err(OleError::PreconditionError);
        },
    };
    proof {
        assert(is_pow_of(base as nat, n as nat));
        lemma_pow_b_injective(base as nat, log_of(base as nat, n as nat), k as nat);
    }
    let half = k / 2;
    let mut t: usize = 1;
    let mut z: usize = 0;
    proof {
        lemma_pow_b_pos(base as nat, half as nat);
        if half > 0 {
            lemma_pow_b_increases(base as nat, half as nat, k as nat);
        }
        lemma_pow_b_increases(base as nat, 0, 1);
    }
    while z < half
        invariant
            base >= 2,
            z <= half,
            half <= k,
            n == pow_b(base as nat, k as nat),
            t == pow_b(base as nat, z as nat),
            pow_b(base as nat, half as nat) <= n,
        decreases half - z,
    {
        proof {
            if (z + 1) as nat <= half as nat && ((z + 1) as nat) < (half as nat) {
                lemma_pow_b_increases(base as nat, (z + 1) as nat, half as nat);
            }
            lemma_mul_is_commutative(base as int, pow_b(base as nat, z as nat) as int);
        }
        t = t * base;
        z = z + 1;
    }
    proof {
        assert((k as nat) % 2 == (k % 2) as nat);
        assert(((k as nat) - (k as nat) % 2) / 2 == (k / 2) as nat);
    }
    Ok((t, k % 2 == 1))
}

/// The even-index coefficients.
pub open spec fn evens(p: Seq<nat>) -> Seq<nat> {
    Seq::new((p.len() + 1) / 2, |i: int| p[2 * i])
}

/// The odd-index coefficients.
pub open spec fn odds(p: Seq<nat>) -> Seq<nat> {
    Seq::new(p.len() / 2, |i: int| p[2 * i + 1])
}

/// The discrete Fourier transform: position i holds the evaluation of p at
/// the i-th power of w.
pub open spec fn dft(p: Seq<nat>, w: nat) -> Seq<nat> {
    Seq::new(p.len(), |i: int| poly_eval(p, f_pow(w, i as nat)))
}

/// The inverse transform: evaluate at powers of the inverse root, then
/// scale by the inverse of the length.
pub open spec fn idft(p: Seq<nat>, w: nat) -> Seq<nat> {
    Seq::new(
        p.len(),
        |j: int| f_mul(f_inv(p.len() as nat), poly_eval(p, f_pow(f_inv(w), j as nat))),
    )
}

/// The preconditions of the radix-2 forward transform.
pub open spec fn fft2_ok(p: Seq<nat>, w: nat) -> bool {
    is_pow_of(2, p.len()) && f_pow(w, p.len()) == 1
}

/// The preconditions of the radix-3 forward transform.
pub open spec fn fft3_ok(p: Seq<nat>, w: nat) -> bool {
    is_pow_of(3, p.len()) && f_pow(w, p.len()) == 1
}

/// The preconditions of an inverse transform with radix b.
pub open spec fn fft_inverse_ok(base: nat, p: Seq<nat>, w: nat) -> bool {
    is_pow_of(base, p.len()) && has_inverse(w) && f_pow(f_inv(w), p.len()) == 1 && has_inverse(
        p.len() as nat,
    )
}

/// Splitting a polynomial by index parity splits its evaluation:
/// p(x) = e(x^2) + x * o(x^2).
proof fn lemma_eval_split2(p: Seq<nat>, x: nat)
    ensures
        poly_eval(p, x) == f_add(
            poly_eval(evens(p), f_mul(x, x)),
            f_mul(x, poly_eval(odds(p), f_mul(x, x))),
        ),
    decreases p.len(),
{
    let xx = f_mul(x, x);
    if p.len() == 0 {
        assert(evens(p) =~= Seq::<nat>::empty());
        assert(odds(p) =~= Seq::<nat>::empty());
        lemma_f_mul_one(x);
        lemma_f_mul_one(0nat);
        lemma_small_mod(0, qn());
    } else {
        let t = p.skip(1);
        assert(evens(t) =~= odds(p));
        assert(odds(t) =~= evens(p).skip(1));
        lemma_eval_split2(t, x);
        let eo = poly_eval(odds(p), xx);
        let ee2 = poly_eval(evens(p).skip(1), xx);
        // eval(t, x) == f_add(eo, f_mul(x, ee2))
        // eval(p, x) == f_add(p[0], f_mul(x, eval(t, x)))
        lemma_f_mul_distrib(x, eo, f_mul(x, ee2));
        lemma_f_mul_noop(x, f_add(eo, f_mul(x, ee2)));
        // f_mul(x, f_mul(x, ee2)) == f_mul(xx, ee2)
        lemma_f_mul_assoc(x, x, ee2);
        // eval(evens(p), xx) == f_add(p[0], f_mul(xx, ee2))
        assert(evens(p).len() >= 1);
        assert(evens(p)[0] == p[0]);
        assert(poly_eval(evens(p), xx) == f_add(evens(p)[0], f_mul(xx, ee2)));
        // shuffle: p0 + (x*eo + xx*ee2) == (p0 + xx*ee2) + x*eo
        let a0 = p[0];
        let bb = f_mul(x, eo);
        let cc = f_mul(xx, ee2);
        lemma_f_add_assoc(a0, bb, cc);
        lemma_f_add_assoc(a0, cc, bb);
        lemma_f_add_noop(bb, cc);
    }
}

/// Every third coefficient, starting at offset zero, one, or two.
pub open spec fn trio0(p: Seq<nat>) -> Seq<nat> {
    Seq::new((p.len() + 2) / 3, |i: int| p[3 * i])
}

pub open spec fn trio1(p: Seq<nat>) -> Seq<nat> {
    Seq::new((p.len() + 1) / 3, |i: int| p[3 * i + 1])
}

pub open spec fn trio2(p: Seq<nat>) -> Seq<nat> {
    Seq::new(p.len() / 3, |i: int| p[3 * i + 2])
}

/// Splitting a polynomial by index residue mod 3 splits its evaluation:
/// p(x) = t0(x^3) + x * t1(x^3) + x^2 * t2(x^3).
#[verifier::rlimit(100)]
proof fn lemma_eval_split3(p: Seq<nat>, x: nat)
    ensures
        poly_eval(p, x) == f_add(
            f_add(
                poly_eval(trio0(p), f_mul(x, f_mul(x, x))),
                f_mul(x, poly_eval(trio1(p), f_mul(x, f_mul(x, x)))),
            ),
            f_mul(f_mul(x, x), poly_eval(trio2(p), f_mul(x, f_mul(x, x)))),
        ),
    decreases p.len(),
{
    let xc = f_mul(x, f_mul(x, x));
    if p.len() == 0 {
        assert(trio0(p) =~= Seq::<nat>::empty());
        assert(trio1(p) =~= Seq::<nat>::empty());
        assert(trio2(p) =~= Seq::<nat>::empty());
        lemma_f_mul_one(x);
        lemma_f_mul_one(f_mul(x, x));
        lemma_f_mul_one(0nat);
        lemma_small_mod(0, qn());
    } else {
        let t = p.skip(1);
        assert(trio0(t) =~= trio1(p));
        assert(trio1(t) =~= trio2(p));
        assert(trio2(t) =~= trio0(p).skip(1));
        lemma_eval_split3(t, x);
        let e1 = poly_eval(trio1(p), xc);
        let e2 = poly_eval(trio2(p), xc);
        let e0t = poly_eval(trio0(p).skip(1), xc);
        // eval(t, x) == (e1 + x*e2) + x^2*e0t
        // eval(p, x) == p0 + x * eval(t, x)
        let inner = f_add(f_add(e1, f_mul(x, e2)), f_mul(f_mul(x, x), e0t));
        lemma_f_mul_noop(x, inner);
        lemma_f_mul_distrib(x, f_add(e1, f_mul(x, e2)), f_mul(f_mul(x, x), e0t));
        lemma_f_mul_noop(x, f_add(e1, f_mul(x, e2)));
        lemma_f_mul_distrib(x, e1, f_mul(x, e2));
        // x * (x*e2) == (x*x)*e2
        lemma_f_mul_assoc(x, x, e2);
        // x * ((x*x)*e0t) == xc*e0t
        lemma_f_mul_assoc(x, f_mul(x, x), e0t);
        // eval(trio0(p), xc) == p0 + xc*e0t
        assert(trio0(p).len() >= 1);
        assert(trio0(p)[0] == p[0]);
        assert(poly_eval(trio0(p), xc) == f_add(trio0(p)[0], f_mul(xc, e0t)));
        // assemble: p0 + ((x e1 + xx e2) + xc e0t) == ((p0 + xc e0t) + x e1) + xx e2
        let a0 = p[0];
        let bb = f_mul(x, e1);
        let cc = f_mul(f_mul(x, x), e2);
        let dd = f_mul(xc, e0t);
        assert(f_mul(x, inner) == f_add(f_add(bb, cc), dd));
        // p0 + ((b + c) + d) == p0 + (d + (b + c)) == (p0 + d) + (b + c)
        lemma_f_add_noop(f_add(bb, cc), dd);
        lemma_f_add_assoc(a0, dd, f_add(bb, cc));
        lemma_f_add_noop(dd, f_add(bb, cc));
        // (p0 + d) + (b + c) == ((p0 + d) + b) + c
        lemma_f_add_assoc(f_add(a0, dd), bb, cc);
    }
}

/// Copies out the even- and odd-index elements.
fn split2(coeffs: &Vec<Fp>) -> (r: (Vec<Fp>, Vec<Fp>))
    requires
        all_wf(coeffs@),
    ensures
        all_wf(r.0@),
        all_wf(r.1@),
        vals(r.0@) == evens(vals(coeffs@)),
        vals(r.1@) == odds(vals(coeffs@)),
{
    let n = coeffs.len();
    let mut ev: Vec<Fp> = Vec::new();
    let mut od: Vec<Fp> = Vec::new();
    let mut i: usize = 0;
    while i < n
        invariant
            all_wf(coeffs@),
            n == coeffs@.len(),
            i <= n,
            ev@.len() == (i + 1) / 2,
            od@.len() == i / 2,
            forall|t: int| 0 <= t < ev@.len() ==> #[trigger] ev@[t] == coeffs@[2 * t],
            forall|t: int| 0 <= t < od@.len() ==> #[trigger] od@[t] == coeffs@[2 * t + 1],
        decreases n - i,
    {
        if i % 2 == 0 {
            ev.push(coeffs[i]);
        } else {
            od.push(coeffs[i]);
        }
        i = i + 1;
    }
    proof {
        assert(vals(ev@) =~= evens(vals(coeffs@)));
        assert(vals(od@) =~= odds(vals(coeffs@)));
    }
    (ev, od)
}

/// Copies out the elements at each index residue mod 3.
fn split3(coeffs: &Vec<Fp>) -> (r: (Vec<Fp>, Vec<Fp>, Vec<Fp>))
    requires
        all_wf(coeffs@),
    ensures
        all_wf(r.0@),
        all_wf(r.1@),
        all_wf(r.2@),
        vals(r.0@) == trio0(vals(coeffs@)),
        vals(r.1@) == trio1(vals(coeffs@)),
        vals(r.2@) == trio2(vals(coeffs@)),
{
    let n = coeffs.len();
    let mut s0: Vec<Fp> = Vec::new();
    let mut s1: Vec<Fp> = Vec::new();
    let mut s2: Vec<Fp> = Vec::new();
    let mut i: usize = 0;
    while i < n
        invariant
            all_wf(coeffs@),
            n == coeffs@.len(),
            i <= n,
            s0@.len() == (i + 2) / 3,
            s1@.len() == (i + 1) / 3,
            s2@.len() == i / 3,
            forall|t: int| 0 <= t < s0@.len() ==> #[trigger] s0@[t] == coeffs@[3 * t],
            forall|t: int| 0 <= t < s1@.len() ==> #[trigger] s1@[t] == coeffs@[3 * t + 1],
            forall|t: int| 0 <= t < s2@.len() ==> #[trigger] s2@[t] == coeffs@[3 * t + 2],
        decreases n - i,
    {
        if i % 3 == 0 {
            s0.push(coeffs[i]);
        } else if i % 3 == 1 {
            s1.push(coeffs[i]);
        } else {
            s2.push(coeffs[i]);
        }
        i = i + 1;
    }
    proof {
        assert(vals(s0@) =~= trio0(vals(coeffs@)));
        assert(vals(s1@) =~= trio1(vals(coeffs@)));
        assert(vals(s2@) =~= trio2(vals(coeffs@)));
    }
    (s0, s1, s2)
}

/// The radix-2 recursion: split by parity, transform both halves with the
/// squared root, then combine with one twiddle per output.
#[verifier::loop_isolation(false)]
#[verifier::rlimit(100)]
fn fft2_rec(coeffs: &Vec<Fp>, omega: Fp, Ghost(k): Ghost<nat>) -> (r: Vec<Fp>)
    requires
        all_wf(coeffs@),
        omega.wf(),
        coeffs@.len() == pow_b(2, k),
        f_pow(omega.val(), coeffs@.len() as nat) == 1,
    ensures
        all_wf(r@),
        r@.len() == coeffs@.len(),
        forall|i: int|
            0 <= i < r@.len() ==> vals(r@)[i] == poly_eval(
                vals(coeffs@),
                f_pow(omega.val(), i as nat),
            ),
    decreases coeffs@.len(),
{
    let n = coeffs.len();
    let ghost pv = vals(coeffs@);
    let ghost wv = omega.val();
    if n == 1 {
        let mut out: Vec<Fp> = Vec::new();
        out.push(coeffs[0]);
        proof {
            assert(pv.skip(1) =~= Seq::<nat>::empty());
            assert(poly_eval(Seq::<nat>::empty(), f_pow(wv, 0)) == 0);
            assert(poly_eval(pv, f_pow(wv, 0)) == f_add(pv[0], f_mul(f_pow(wv, 0), 0)));
            lemma_f_mul_one(f_pow(wv, 0));
            lemma_f_mul_one(pv[0]);
            lemma_small_mod(pv[0], qn());
            assert(vals(out@)[0] == pv[0]);
        }
        return out;
    }
    proof {
        lemma_pow_b_pos(2, k);
        assert(k >= 1) by {
            if k == 0 {
                assert(pow_b(2, 0) == 1);
            }
        }
        assert(n == 2 * pow_b(2, (k - 1) as nat));
    }
    let half = n / 2;
    let pieces = split2(coeffs);
    let ev = pieces.0;
    let od = pieces.1;
    let w2 = omega.mul(omega);
    proof {
        // w2 is omega squared, and its half-power is one
        crate::fmath::lemma_f_pow_one(wv);
        assert(f_pow(wv, 2) == f_mul(f_pow(wv, 1), wv));
        lemma_f_mul_noop(wv % qn(), wv);
        assert(f_pow(wv, 2) == f_mul(wv, wv));
        lemma_f_pow_multiplies(wv, 2, half as nat);
        assert(2 * (half as nat) == n as nat);
        assert(f_pow(w2.val(), half as nat) == 1) by {
            lemma_f_pow_reduce(wv, 2);
            lemma_f_pow_multiplies(wv, 2, half as nat);
        }
        assert(vals(ev@).len() == ev@.len());
        assert(vals(od@).len() == od@.len());
        assert(vals(ev@).len() == evens(pv).len());
        assert(pv.len() == n);
        assert(ev@.len() == half);
        assert(od@.len() == half);
    }
    let b_vals = fft2_rec(&ev, w2, Ghost((k - 1) as nat));
    let c_vals = fft2_rec(&od, w2, Ghost((k - 1) as nat));
    let ghost w2v = w2.val();
    let mut out: Vec<Fp> = Vec::new();
    let mut i: usize = 0;
    while i < n
        invariant
            out@.len() == i,
            i <= n,
            all_wf(out@),
            forall|t: int| 0 <= t < i ==> vals(out@)[t] == poly_eval(pv, f_pow(wv, t as nat)),
        decreases n - i,
    {
        let idx = if i < half {
            i
        } else {
            i - half
        };
        let x = omega.pow(i as u64);
        let v = b_vals[idx].add(x.mul(c_vals[idx]));
        let ghost out0 = out@;
        out.push(v);
        proof {
            assert(out@ =~= out0.push(v));
            assert forall|t: int| 0 <= t < i implies vals(out@)[t] == poly_eval(
                pv,
                f_pow(wv, t as nat),
            ) by {
                assert(out@[t] == out0[t]);
                assert(vals(out@)[t] == out@[t].v as nat);
                assert(vals(out0)[t] == out0[t].v as nat);
            }
            let xi = f_pow(wv, i as nat);
            lemma_eval_split2(pv, xi);
            // xi * xi == f_pow(w2v, idx)
            lemma_f_pow_adds(wv, i as nat, i as nat);
            lemma_f_pow_multiplies(wv, 2, i as nat);
            assert(2 * (i as nat) == i + i);
            assert(f_mul(xi, xi) == f_pow(f_pow(wv, 2), i as nat));
            lemma_f_pow_reduce(wv, 2);
            assert(f_mul(xi, xi) == f_pow(w2v, i as nat));
            if i >= half {
                lemma_f_pow_adds(w2v, half as nat, (i - half) as nat);
                assert(f_pow(w2v, i as nat) == f_mul(f_pow(w2v, half as nat), f_pow(w2v, (i
                    - half) as nat)));
                lemma_f_mul_one(f_pow(w2v, (i - half) as nat));
                crate::fmath::lemma_f_pow_reduce(w2v, (i - half) as nat);
                if (i - half) as nat == 0 {
                    lemma_small_mod(1, qn());
                }
                assert(f_pow(w2v, i as nat) == f_pow(w2v, idx as nat));
            }
            assert(vals(b_vals@)[idx as int] == poly_eval(evens(pv), f_pow(w2v, idx as nat)));
            assert(vals(c_vals@)[idx as int] == poly_eval(odds(pv), f_pow(w2v, idx as nat)));
            assert(vals(b_vals@)[idx as int] == b_vals@[idx as int].v as nat);
            assert(vals(c_vals@)[idx as int] == c_vals@[idx as int].v as nat);
            assert(vals(out@)[i as int] == v.v as nat);
            assert(v.val() == f_add(
                poly_eval(evens(pv), f_mul(xi, xi)),
                f_mul(xi, poly_eval(odds(pv), f_mul(xi, xi))),
            ));
        }
        i = i + 1;
    }
    out
}

/// The radix-3 recursion.
#[verifier::loop_isolation(false)]
#[verifier::rlimit(100)]
fn fft3_rec(coeffs: &Vec<Fp>, omega: Fp, Ghost(k): Ghost<nat>) -> (r: Vec<Fp>)
    requires
        all_wf(coeffs@),
        omega.wf(),
        coeffs@.len() == pow_b(3, k),
        f_pow(omega.val(), coeffs@.len() as nat) == 1,
    ensures
        all_wf(r@),
        r@.len() == coeffs@.len(),
        forall|i: int|
            0 <= i < r@.len() ==> vals(r@)[i] == poly_eval(
                vals(coeffs@),
                f_pow(omega.val(), i as nat),
            ),
    decreases coeffs@.len(),
{
    let n = coeffs.len();
    let ghost pv = vals(coeffs@);
    let ghost wv = omega.val();
    if n == 1 {
        let mut out: Vec<Fp> = Vec::new();
        out.push(coeffs[0]);
        proof {
            assert(pv.skip(1) =~= Seq::<nat>::empty());
            assert(poly_eval(Seq::<nat>::empty(), f_pow(wv, 0)) == 0);
            assert(poly_eval(pv, f_pow(wv, 0)) == f_add(pv[0], f_mul(f_pow(wv, 0), 0)));
            lemma_f_mul_one(f_pow(wv, 0));
            lemma_f_mul_one(pv[0]);
            lemma_small_mod(pv[0], qn());
            assert(vals(out@)[0] == pv[0]);
        }
        return out;
    }
    proof {
        lemma_pow_b_pos(3, k);
        assert(k >= 1) by {
            if k == 0 {
                assert(pow_b(3, 0) == 1);
            }
        }
        assert(n == 3 * pow_b(3, (k - 1) as nat));
    }
    let third = n / 3;
    let pieces = split3(coeffs);
    let w3 = omega.mul(omega).mul(omega);
    proof {
        crate::fmath::lemma_f_pow_one(wv);
        assert(f_pow(wv, 2) == f_mul(f_pow(wv, 1), wv));
        lemma_f_mul_noop(wv % qn(), wv);
        assert(f_pow(wv, 2) == f_mul(wv, wv));
        assert(f_pow(wv, 3) == f_mul(f_pow(wv, 2), wv));
        assert(w3.val() == f_mul(f_mul(wv, wv), wv));
        assert(3 * (third as nat) == n as nat);
        assert(f_pow(w3.val(), third as nat) == 1) by {
            lemma_f_pow_reduce(wv, 3);
            lemma_f_pow_multiplies(wv, 3, third as nat);
        }
        assert(vals(pieces.0@).len() == pieces.0@.len());
        assert(vals(pieces.1@).len() == pieces.1@.len());
        assert(vals(pieces.2@).len() == pieces.2@.len());
        assert(vals(pieces.0@).len() == trio0(pv).len());
        assert(pv.len() == n);
        assert(pieces.0@.len() == third);
        assert(pieces.1@.len() == third);
        assert(pieces.2@.len() == third);
    }
    let a_vals = fft3_rec(&pieces.0, w3, Ghost((k - 1) as nat));
    let b_vals = fft3_rec(&pieces.1, w3, Ghost((k - 1) as nat));
    let c_vals = fft3_rec(&pieces.2, w3, Ghost((k - 1) as nat));
    let ghost w3v = w3.val();
    let mut out: Vec<Fp> = Vec::new();
    let mut i: usize = 0;
    while i < n
        invariant
            out@.len() == i,
            i <= n,
            all_wf(out@),
            forall|t: int| 0 <= t < i ==> vals(out@)[t] == poly_eval(pv, f_pow(wv, t as nat)),
        decreases n - i,
    {
        let idx = i % third;
        let x = omega.pow(i as u64);
        let x2 = x.mul(x);
        let v = a_vals[idx].add(x.mul(b_vals[idx])).add(x2.mul(c_vals[idx]));
        let ghost out0 = out@;
        out.push(v);
        proof {
            assert(out@ =~= out0.push(v));
            assert forall|t: int| 0 <= t < i implies vals(out@)[t] == poly_eval(
                pv,
                f_pow(wv, t as nat),
            ) by {
                assert(out@[t] == out0[t]);
                assert(vals(out@)[t] == out@[t].v as nat);
                assert(vals(out0)[t] == out0[t].v as nat);
            }
            let xi = f_pow(wv, i as nat);
            lemma_eval_split3(pv, xi);
            // xi^3 == f_pow(w3v, i) == f_pow(w3v, idx)
            lemma_f_pow_adds(wv, i as nat, i as nat);
            lemma_f_pow_adds(wv, (i + i) as nat, i as nat);
            lemma_f_pow_multiplies(wv, 3, i as nat);
            assert(3 * (i as nat) == i + i + i);
            assert(f_mul(xi, f_mul(xi, xi)) == f_pow(wv, 3 * (i as nat))) by {
                lemma_f_mul_noop(xi, f_mul(xi, xi));
                lemma_f_mul_noop(f_mul(xi, xi), xi);
                lemma_f_mul_assoc(xi, xi, xi);
            }
            lemma_f_pow_reduce(wv, 3);
            assert(f_mul(xi, f_mul(xi, xi)) == f_pow(w3v, i as nat));
            let j = i / third;
            lemma_fundamental_div_mod(i as int, third as int);
            lemma_mul_is_commutative(third as int, j as int);
            assert(i as nat == (j as nat) * (third as nat) + idx as nat);
            assert(f_pow(w3v, i as nat) == f_pow(w3v, idx as nat)) by {
                lemma_f_pow_adds(w3v, (j as nat) * (third as nat), idx as nat);
                lemma_f_pow_multiplies(w3v, third as nat, j as nat);
                lemma_mul_is_commutative(j as int, third as int);
                crate::fmath::lemma_f_pow_of_one(j as nat);
                assert(f_pow(w3v, (third as nat) * (j as nat)) == f_pow(
                    f_pow(w3v, third as nat),
                    j as nat,
                ));
                assert(f_pow(w3v, (j as nat) * (third as nat)) == 1);
                lemma_f_mul_one(f_pow(w3v, idx as nat));
                crate::fmath::lemma_f_pow_reduce(w3v, idx as nat);
                if idx as nat == 0 {
                    lemma_small_mod(1, qn());
                }
            }
            assert(vals(a_vals@)[idx as int] == poly_eval(trio0(pv), f_pow(w3v, idx as nat)));
            assert(vals(b_vals@)[idx as int] == poly_eval(trio1(pv), f_pow(w3v, idx as nat)));
            assert(vals(c_vals@)[idx as int] == poly_eval(trio2(pv), f_pow(w3v, idx as nat)));
            assert(vals(a_vals@)[idx as int] == a_vals@[idx as int].v as nat);
            assert(vals(b_vals@)[idx as int] == b_vals@[idx as int].v as nat);
            assert(vals(c_vals@)[idx as int] == c_vals@[idx as int].v as nat);
            assert(vals(out@)[i as int] == v.v as nat);
            assert(x2.val() == f_mul(xi, xi));
            assert(v.val() == f_add(
                f_add(
                    poly_eval(trio0(pv), f_mul(xi, f_mul(xi, xi))),
                    f_mul(xi, poly_eval(trio1(pv), f_mul(xi, f_mul(xi, xi)))),
                ),
                f_mul(f_mul(xi, xi), poly_eval(trio2(pv), f_mul(xi, f_mul(xi, xi)))),
            ));
        }
        i = i + 1;
    }
    out
}

/// The radix-2 FFT on a fresh vector: position i of the result holds the
/// input polynomial evaluated at the i-th power of alpha. Fails unless the
/// length is a power of two and alpha raised to the length is one.
pub fn fft2(a_coeffs: &Vec<Fp>, alpha: &Fp) -> (res: Result<Vec<Fp>, OleError>)
    requires
        all_wf(a_coeffs@),
        alpha.wf(),
    ensures
        res is Ok <==> fft2_ok(vals(a_coeffs@), alpha.val()),
        res is Err ==> res->Err_0 == OleError::PreconditionError,
        res is Ok ==> all_wf(res->Ok_0@) && vals(res->Ok_0@) == dft(vals(a_coeffs@), alpha.val()),
{
    let n = a_coeffs.len();
    let k = match find_log(2, n) {
        Some(k) => k,
        None => {
            return Err(OleError::PreconditionError);
        },
    };
    let pw = alpha.pow(n as u64);
    if pw.v != 1 {
        return Err(OleError::PreconditionError);
    }
    let out = fft2_rec(a_coeffs, *alpha, Ghost(k as nat));
    proof {
        assert(vals(out@) =~= dft(vals(a_coeffs@), alpha.val()));
    }
    Ok(out)
}

/// The radix-3 FFT on a fresh vector, with the same contract for powers of
/// three.
pub fn fft3(coeffs: &Vec<Fp>, beta: &Fp) -> (res: Result<Vec<Fp>, OleError>)
    requires
        all_wf(coeffs@),
        beta.wf(),
    ensures
        res is Ok <==> fft3_ok(vals(coeffs@), beta.val()),
        res is Err ==> res->Err_0 == OleError::PreconditionError,
        res is Ok ==> all_wf(res->Ok_0@) && vals(res->Ok_0@) == dft(vals(coeffs@), beta.val()),
{
    let n = coeffs.len();
    let k = match find_log(3, n) {
        Some(k) => k,
        None => {
            return Err(OleError::PreconditionError);
        },
    };
    let pw = beta.pow(n as u64);
    if pw.v != 1 {
        return Err(OleError::PreconditionError);
    }
    let out = fft3_rec(coeffs, *beta, Ghost(k as nat));
    proof {
        assert(vals(out@) =~= dft(vals(coeffs@), beta.val()));
    }
    Ok(out)
}

/// The in-place radix-2 FFT: on success the vector holds its own transform;
/// on failure it is untouched.
pub fn fft2_in_place(coeffs: &mut Vec<Fp>, alpha: &Fp) -> (res: Result<(), OleError>)
    requires
        all_wf(old(coeffs)@),
        alpha.wf(),
    ensures
        res is Ok <==> fft2_ok(vals(old(coeffs)@), alpha.val()),
        res is Err ==> final(coeffs)@ == old(coeffs)@ && res->Err_0 == OleError::PreconditionError,
        res is Ok ==> all_wf(final(coeffs)@) && vals(final(coeffs)@) == dft(
            vals(old(coeffs)@),
            alpha.val(),
        ),
{
    match fft2(coeffs, alpha) {
        Ok(v) => {
            *coeffs = v;
            Ok(())
        },
        Err(e) => Err(e),
    }
}

/// The in-place radix-3 FFT.
pub fn fft3_in_place(coeffs: &mut Vec<Fp>, beta: &Fp) -> (res: Result<(), OleError>)
    requires
        all_wf(old(coeffs)@),
        beta.wf(),
    ensures
        res is Ok <==> fft3_ok(vals(old(coeffs)@), beta.val()),
        res is Err ==> final(coeffs)@ == old(coeffs)@ && res->Err_0 == OleError::PreconditionError,
        res is Ok ==> all_wf(final(coeffs)@) && vals(final(coeffs)@) == dft(
            vals(old(coeffs)@),
            beta.val(),
        ),
{
    match fft3(coeffs, beta) {
        Ok(v) => {
            *coeffs = v;
            Ok(())
        },
        Err(e) => Err(e),
    }
}

/// The inverse radix-2 FFT: the forward transform with the inverse root,
/// scaled by the inverse of the length. On failure the vector is untouched.
pub fn fft2_inverse(points: &mut Vec<Fp>, alpha: &Fp) -> (res: Result<(), OleError>)
    requires
        all_wf(old(points)@),
        alpha.wf(),
    ensures
        res is Ok <==> fft_inverse_ok(2, vals(old(points)@), alpha.val()),
        res is Err ==> final(points)@ == old(points)@ && res->Err_0
            == OleError::PreconditionError,
        res is Ok ==> all_wf(final(points)@) && vals(final(points)@) == idft(
            vals(old(points)@),
            alpha.val(),
        ),
{
    let n = points.len();
    let winv = match alpha.invert() {
        Some(w) => w,
        None => {
            return Err(OleError::PreconditionError);
        },
    };
    let ninv = match Fp::new(n as u128).invert() {
        Some(v) => v,
        None => {
            proof {
                lemma_small_mod(n as nat, qn());
            }
            return Err(OleError::PreconditionError);
        },
    };
    proof {
        lemma_small_mod(n as nat, qn());
        lemma_f_mul_noop(alpha.val(), winv.val());
        crate::fmath::lemma_f_inv_works(alpha.val());
        lemma_inverse_unique(alpha.val(), winv.val(), f_inv(alpha.val()));
        crate::fmath::lemma_f_inv_works(n as nat);
        lemma_f_mul_noop(n as nat, ninv.val());
        lemma_inverse_unique(n as nat, ninv.val(), f_inv(n as nat));
    }
    match fft2_in_place(points, &winv) {
        Ok(()) => {},
        Err(e) => {
            return Err(e);
        },
    }
    proof {
        assert(vals(points@).len() == points@.len());
        assert(vals(old(points)@).len() == old(points)@.len());
        assert(points@.len() == n);
    }
    let ghost mid = points@;
    let mut j: usize = 0;
    while j < n
        invariant
            all_wf(points@),
            points@.len() == n,
            mid.len() == n,
            ninv.wf(),
            j <= n,
            forall|t: int| 0 <= t < j ==> vals(points@)[t] == f_mul(ninv.val(), vals(mid)[t]),
            forall|t: int| j <= t < n ==> #[trigger] points@[t] == mid[t],
        decreases n - j,
    {
        let ghost pts0 = points@;
        let t = points[j].mul(ninv);
        points.set(j, t);
        j = j + 1;
        proof {
            assert(points@ =~= pts0.update(j - 1, t));
            assert forall|t2: int| 0 <= t2 < j implies vals(points@)[t2] == f_mul(
                ninv.val(),
                vals(mid)[t2],
            ) by {
                assert(vals(points@)[t2] == points@[t2].v as nat);
                assert(vals(mid)[t2] == mid[t2].v as nat);
                if t2 < j - 1 {
                    assert(points@[t2] == pts0[t2]);
                    assert(vals(pts0)[t2] == pts0[t2].v as nat);
                } else {
                    lemma_f_mul_noop(pts0[t2].val(), ninv.val());
                }
            }
        }
    }
    proof {
        assert(vals(points@) =~= idft(vals(old(points)@), alpha.val())) by {
            assert forall|t: int| 0 <= t < n implies vals(points@)[t] == idft(
                vals(old(points)@),
                alpha.val(),
            )[t] by {
                assert(vals(mid)[t] == poly_eval(vals(old(points)@), f_pow(winv.val(), t as nat)));
            }
        }
    }
    Ok(())
}

/// The inverse radix-3 FFT.
pub fn fft3_inverse(points: &mut Vec<Fp>, beta: &Fp) -> (res: Result<(), OleError>)
    requires
        all_wf(old(points)@),
        beta.wf(),
    ensures
        res is Ok <==> fft_inverse_ok(3, vals(old(points)@), beta.val()),
        res is Err ==> final(points)@ == old(points)@ && res->Err_0
            == OleError::PreconditionError,
        res is Ok ==> all_wf(final(points)@) && vals(final(points)@) == idft(
            vals(old(points)@),
            beta.val(),
        ),
{
    let n = points.len();
    let winv = match beta.invert() {
        Some(w) => w,
        None => {
            return Err(OleError::PreconditionError);
        },
    };
    let ninv = match Fp::new(n as u128).invert() {
        Some(v) => v,
        None => {
            proof {
                lemma_small_mod(n as nat, qn());
            }
            return Err(OleError::PreconditionError);
        },
    };
    proof {
        lemma_small_mod(n as nat, qn());
        lemma_f_mul_noop(beta.val(), winv.val());
        crate::fmath::lemma_f_inv_works(beta.val());
        lemma_inverse_unique(beta.val(), winv.val(), f_inv(beta.val()));
        crate::fmath::lemma_f_inv_works(n as nat);
        lemma_f_mul_noop(n as nat, ninv.val());
        lemma_inverse_unique(n as nat, ninv.val(), f_inv(n as nat));
    }
    match fft3_in_place(points, &winv) {
        Ok(()) => {},
        Err(e) => {
            return Err(e);
        },
    }
    proof {
        assert(vals(points@).len() == points@.len());
        assert(vals(old(points)@).len() == old(points)@.len());
        assert(points@.len() == n);
    }
    let ghost mid = points@;
    let mut j: usize = 0;
    while j < n
        invariant
            all_wf(points@),
            points@.len() == n,
            mid.len() == n,
            ninv.wf(),
            j <= n,
            forall|t: int| 0 <= t < j ==> vals(points@)[t] == f_mul(ninv.val(), vals(mid)[t]),
            forall|t: int| j <= t < n ==> #[trigger] points@[t] == mid[t],
        decreases n - j,
    {
        let ghost pts0 = points@;
        let t = points[j].mul(ninv);
        points.set(j, t);
        j = j + 1;
        proof {
            assert(points@ =~= pts0.update(j - 1, t));
            assert forall|t2: int| 0 <= t2 < j implies vals(points@)[t2] == f_mul(
                ninv.val(),
                vals(mid)[t2],
            ) by {
                assert(vals(points@)[t2] == points@[t2].v as nat);
                assert(vals(mid)[t2] == mid[t2].v as nat);
                if t2 < j - 1 {
                    assert(points@[t2] == pts0[t2]);
                    assert(vals(pts0)[t2] == pts0[t2].v as nat);
                } else {
                    lemma_f_mul_noop(pts0[t2].val(), ninv.val());
                }
            }
        }
    }
    proof {
        assert(vals(points@) =~= idft(vals(old(points)@), beta.val())) by {
            assert forall|t: int| 0 <= t < n implies vals(points@)[t] == idft(
                vals(old(points)@),
                beta.val(),
            )[t] by {
                assert(vals(mid)[t] == poly_eval(vals(old(points)@), f_pow(winv.val(), t as nat)));
            }
        }
    }
    Ok(())
}

/// The forward transform agrees with Horner evaluation: position i of the
/// transform of p holds p evaluated at the i-th power of w.
pub proof fn lemma_dft_is_evaluation(p: Seq<nat>, w: nat, i: int)
    requires
        0 <= i < p.len(),
    ensures
        dft(p, w)[i] == poly_eval(p, f_pow(w, i as nat)),
{
}

} // verus!

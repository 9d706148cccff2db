//! Algebraic laws of the field operations.
//!
//! The spec functions `fadd`, `fsub`, `fmul`, `fneg` of `field` act on
//! arbitrary mathematical representatives; this module proves the ring laws
//! they obey (commutativity, associativity, distributivity, cancellation) and
//! the laws of the power function `fpow`.  Every later proof about
//! polynomials, transforms and multi-scalar multiplication reduces to these.

use vstd::prelude::*;
use vstd::arithmetic::div_mod::*;
use vstd::arithmetic::mul::*;
use crate::field::{fadd, fsub, fmul, fneg, P};

verus! {

/// `b` to the power `e` in the field, on mathematical representatives.
pub open spec fn fpow(b: nat, e: nat) -> nat
    decreases e,
{
    if e == 0 {
        1
    } else {
        fmul(b, fpow(b, (e - 1) as nat))
    }
}

/// Every field operation lands in the canonical range.
pub proof fn lemma_ops_in_range(a: nat, b: nat)
    ensures
        fadd(a, b) < P,
        fsub(a, b) < P,
        fmul(a, b) < P,
        fneg(a) < P,
{
    lemma_mod_bound((a + b) as int, P as int);
    lemma_mod_bound((a + P) - (b % (P as nat)), P as int);
    lemma_mod_bound((a * b) as int, P as int);
    lemma_mod_bound((P as int) - (a % (P as nat)), P as int);
}

/// `fpow` lands in the canonical range for positive exponents.
pub proof fn lemma_fpow_in_range(b: nat, e: nat)
    requires
        e > 0 || b < P,
    ensures
        fpow(b, e) < P,
{
    if e == 0 {
    } else {
        lemma_ops_in_range(b, fpow(b, (e - 1) as nat));
    }
}

/// Reducing an argument of `fadd` does not change the sum.
pub proof fn lemma_fadd_mod(a: nat, b: nat)
    ensures
        fadd(a % (P as nat), b) == fadd(a, b),
        fadd(a, b % (P as nat)) == fadd(a, b),
{
    lemma_add_mod_noop(a as int, b as int, P as int);
    lemma_mod_twice(a as int, P as int);
    lemma_mod_twice(b as int, P as int);
    lemma_add_mod_noop(a as int % (P as int), b as int, P as int);
    lemma_add_mod_noop(a as int, b as int % (P as int), P as int);
}

/// Reducing an argument of `fmul` does not change the product.
pub proof fn lemma_fmul_mod(a: nat, b: nat)
    ensures
        fmul(a % (P as nat), b) == fmul(a, b),
        fmul(a, b % (P as nat)) == fmul(a, b),
{
    lemma_mul_mod_noop_left(a as int, b as int, P as int);
    lemma_mul_mod_noop_right(a as int, b as int, P as int);
}

/// Addition is associative.
pub proof fn lemma_fadd_assoc(a: nat, b: nat, c: nat)
    ensures
        fadd(fadd(a, b), c) == fadd(a, fadd(b, c)),
{
    lemma_fadd_mod((a + b) as nat, c);
    lemma_fadd_mod(a, (b + c) as nat);
    assert(fadd((a + b) as nat, c) == fadd(a, (b + c) as nat));
}

/// Multiplication is associative.
pub proof fn lemma_fmul_assoc(a: nat, b: nat, c: nat)
    ensures
        fmul(fmul(a, b), c) == fmul(a, fmul(b, c)),
{
    lemma_fmul_mod((a * b) as nat, c);
    lemma_fmul_mod(a, (b * c) as nat);
    assert((a * b) * c == a * (b * c)) by (nonlinear_arith);
}

/// Multiplication distributes over addition.
pub proof fn lemma_fmul_distrib(a: nat, b: nat, c: nat)
    ensures
        fmul(a, fadd(b, c)) == fadd(fmul(a, b), fmul(a, c)),
{
    lemma_fmul_mod(a, (b + c) as nat);
    assert(a * (b + c) == a * b + a * c) by (nonlinear_arith);
    lemma_add_mod_noop((a * b) as int, (a * c) as int, P as int);
}

/// Subtracting is adding the additive inverse.
pub proof fn lemma_fsub_is_fadd_fneg(a: nat, b: nat)
    ensures
        fsub(a, b) == fadd(a, fneg(b)),
{
    let p = P as int;
    let bm = b as int % p;
    lemma_mod_bound(b as int, p);
    if bm == 0 {
        lemma_add_mod_noop(a as int, 0, p);
        lemma_mod_twice(a as int, p);
        assert(fsub(a, b) == (a + p) % p);
        lemma_mod_add_multiples_vanish(a as int, p);
        assert(fneg(b) == p % p);
        lemma_mod_self_0(p);
    } else {
        assert(fneg(b) == (p - bm) % p);
        lemma_small_mod((p - bm) as nat, P as nat);
        assert(fneg(b) == p - bm);
        assert(fadd(a, fneg(b)) == (a + (p - bm)) % p);
    }
}

/// Adding then subtracting an element is the identity (up to reduction).
pub proof fn lemma_fadd_fsub_cancel(a: nat, b: nat)
    ensures
        fsub(fadd(a, b), b) == a % (P as nat),
        fadd(fsub(a, b), b) == a % (P as nat),
{
    let p = P as int;
    lemma_mod_bound((a + b) as int, p);
    lemma_mod_bound(b as int, p);
    lemma_mod_bound((a + p) - (b % (P as nat)), p);
    // fsub(fadd(a,b), b) == ((a+b)%p + p - b%p) % p == (a+b+p-b%p) % p
    lemma_add_mod_noop((a + b) as int, p - (b as int % p), p);
    lemma_mod_twice((a + b) as int, p);
    lemma_mod_twice(p - (b as int % p), p);
    // (a + b + p - b%p) % p == (a + p + (b - b%p)) % p ; b - b%p == (b/p)*p
    lemma_fundamental_div_mod(b as int, p);
    let q = b as int / p;
    assert((a + b) + (p - (b as int % p)) == (a as int + p) + q * p);
    lemma_mod_multiples_vanish(q, a as int + p, p);
    lemma_mod_add_multiples_vanish(a as int, p);
    lemma_mod_twice(a as int, p);
    // second half
    lemma_add_mod_noop(((a + p) - (b as int % p)) % p, b as int, p);
    lemma_mod_twice(((a + p) - (b as int % p)), p);
    lemma_mod_twice(b as int, p);
    assert(((a + p) - (b as int % p)) + b == (a as int + p) + (b - (b as int % p)));
    lemma_mod_multiples_vanish(q, a as int + p, p);
}

/// An element plus its additive inverse is zero.
pub proof fn lemma_fneg_cancel(a: nat)
    ensures
        fadd(a, fneg(a)) == 0,
{
    let p = P as int;
    lemma_mod_bound(a as int, p);
    lemma_fsub_is_fadd_fneg(a, a);
    // fsub(a, a) == (a + p - a%p) % p
    lemma_fundamental_div_mod(a as int, p);
    let q = a as int / p;
    assert((a as int + p) - (a as int % p) == (q + 1) * p) by {
        assert((a as int + p) - (a as int % p) == q * p + p);
        assert(q * p + p == (q + 1) * p) by (nonlinear_arith);
    }
    lemma_mod_multiples_basic(q + 1, p);
}

/// Multiplication by zero and one.
pub proof fn lemma_fmul_basics(a: nat)
    ensures
        fmul(0, a) == 0,
        fmul(a, 0) == 0,
        fmul(1, a) == a % (P as nat),
        fmul(a, 1) == a % (P as nat),
        fadd(a, 0) == a % (P as nat),
        fadd(0, a) == a % (P as nat),
{
    lemma_mod_self_0(P as int);
}

/// The additive inverse factors out of a product.
pub proof fn lemma_fmul_fneg(a: nat, b: nat)
    ensures
        fmul(fneg(a), b) == fneg(fmul(a, b)),
{
    let p = P as int;
    lemma_mod_bound(a as int, p);
    let am = a as int % p;
    lemma_fmul_mod(a, b);
    // fneg(a) == (p - a%p) % p
    if am == 0 {
        lemma_mod_self_0(p);
        assert(fneg(a) == p % p);
        assert(fneg(a) == 0);
        lemma_fmul_basics(b);
        lemma_fmul_mod(a, b);
        assert(fmul(a, b) == fmul(am as nat, b));
        lemma_fmul_basics(b);
        assert(fmul(0, b) == 0);
        assert(fneg(0) == (p - 0) % p);
        lemma_mod_self_0(p);
        assert(fmul(a, b) == 0);
        assert(fneg(fmul(a, b)) == 0);
    } else {
        lemma_small_mod((p - am) as nat, P as nat);
        assert(fneg(a) == p - am);
        // ((p - am) * b) % p == (p*b - am*b) % p
        assert((p - am) * b == b * p + (-(am * b))) by (nonlinear_arith);
        lemma_mod_multiples_vanish(b as int, -(am * b), p);
        // so fmul(fneg(a), b) == (-(am*b)) % p
        assert(fmul(fneg(a), b) == (-(am as int * b)) % p);
        // fneg(fmul(a,b)): fmul(a,b) == (am*b)%p
        assert(fmul(a, b) == (am as nat * b) % (P as nat));
        let m = am * b;
        lemma_mod_bound(m, p);
        lemma_mod_twice(m, p);
        let mm = m % p;
        if mm == 0 {
            lemma_mod_self_0(p);
            assert(fneg(fmul(a, b)) == p % p);
            lemma_fundamental_div_mod(m, p);
            let q = m / p;
            assert(-m == (-q) * p) by (nonlinear_arith)
                requires
                    m == q * p + 0,
            ;
            lemma_mod_multiples_basic(-q, p);
        } else {
            lemma_small_mod((p - mm) as nat, P as nat);
            assert(fneg(fmul(a, b)) == p - mm);
            lemma_fundamental_div_mod(m, p);
            let q = m / p;
            assert(-m == (-q - 1) * p + (p - mm)) by (nonlinear_arith)
                requires
                    m == q * p + mm,
            ;
            lemma_fundamental_div_mod_converse(-m, p, -q - 1, p - mm);
        }
    }
}

/// Multiplication is commutative.
pub proof fn lemma_fmul_comm(a: nat, b: nat)
    ensures
        fmul(a, b) == fmul(b, a),
{
    assert(a * b == b * a) by (nonlinear_arith);
}

/// Reducing an argument of `fsub` does not change the difference.
pub proof fn lemma_fsub_mod(a: nat, b: nat)
    ensures
        fsub(a % (P as nat), b) == fsub(a, b),
        fsub(a, b % (P as nat)) == fsub(a, b),
{
    let p = P as int;
    lemma_mod_twice(b as int, p);
    lemma_mod_bound(b as int, p);
    // first argument: ((a%p) + p - b%p) % p == (a + p - b%p) % p
    lemma_add_mod_noop(a as int, p - (b as int % p), p);
    lemma_mod_twice(a as int, p);
    lemma_mod_twice(p - (b as int % p), p);
    lemma_add_mod_noop(a as int % p, p - (b as int % p), p);
}

/// Multiplication distributes over subtraction.
pub proof fn lemma_fmul_distrib_sub(a: nat, b: nat, c: nat)
    ensures
        fmul(a, fsub(b, c)) == fsub(fmul(a, b), fmul(a, c)),
{
    lemma_fsub_is_fadd_fneg(b, c);
    lemma_fmul_distrib(a, b, fneg(c));
    // fmul(a, fneg(c)) == fneg(fmul(a, c))
    lemma_fmul_comm(a, fneg(c));
    lemma_fmul_fneg(c, a);
    lemma_fmul_comm(c, a);
    lemma_fsub_is_fadd_fneg(fmul(a, b), fmul(a, c));
    // fneg(fmul(a,c)) is canonical, so reducing it changes nothing
    lemma_ops_in_range(c, a);
    assert(fmul(a, fsub(b, c)) == fadd(fmul(a, b), fneg(fmul(a, c))));
}

/// Multiplying by minus one negates.
pub proof fn lemma_fmul_minus_one(a: nat)
    ensures
        fmul((P - 1) as nat, a) == fneg(a),
{
    let p = P as int;
    lemma_mod_bound(a as int, p);
    let am = a as int % p;
    lemma_fundamental_div_mod(a as int, p);
    let q = a as int / p;
    // (P-1)*a == (a - 1) * P + (P - a), shifted into the canonical range
    if am == 0 {
        assert((p - 1) * a == (a as int - q) * p) by (nonlinear_arith)
            requires
                a as int == q * p,
        ;
        lemma_mod_multiples_basic(a as int - q, p);
        lemma_mod_self_0(p);
        assert(fneg(a) == p % p);
    } else {
        lemma_small_mod((p - am) as nat, P as nat);
        assert(fneg(a) == p - am);
        assert((p - 1) * a == (a as int - q - 1) * p + (p - am)) by (nonlinear_arith)
            requires
                a as int == q * p + am,
        ;
        lemma_fundamental_div_mod_converse((p - 1) * a, p, a as int - q - 1, p - am);
    }
}

/// Regrouping a sum of four terms of the second shape.
pub proof fn lemma_fadd4_regroup(a: nat, b: nat, c: nat, d: nat)
    ensures
        fadd(fadd(a, b), fadd(c, d)) == fadd(a, fadd(c, fadd(b, d))),
{
    lemma_fadd_assoc(a, b, fadd(c, d));
    lemma_fadd_assoc(b, c, d);
    lemma_fadd_assoc(c, b, d);
}

/// Swapping the first two terms of a right-nested sum of three.
pub proof fn lemma_fadd3_swap(a: nat, b: nat, c: nat)
    ensures
        fadd(a, fadd(b, c)) == fadd(b, fadd(a, c)),
{
    lemma_fadd_assoc(a, b, c);
    lemma_fadd_assoc(b, a, c);
}

/// Regrouping a sum of four terms after folding an outer pair: if `a` and
/// `d` sum to `s`, then `(a + b) + (c + d)` equals `c + (b + s)`.
pub proof fn lemma_fadd4_fold(a: nat, b: nat, c: nat, d: nat, s: nat)
    requires
        fadd(a, d) == s,
    ensures
        fadd(fadd(a, b), fadd(c, d)) == fadd(c, fadd(b, s)),
{
    lemma_fadd_assoc(a, b, d);
    lemma_fadd_assoc(a, d, b);
    lemma_fadd_assoc(fadd(a, b), d, c);
    lemma_fadd_assoc(s, b, c);
    lemma_fadd_assoc(c, b, s);
}

/// Negating twice reduces to the canonical representative.
pub proof fn lemma_fneg_fneg(a: nat)
    ensures
        fneg(fneg(a)) == a % (P as nat),
{
    let p = P as int;
    lemma_mod_bound(a as int, p);
    let am = a as int % p;
    if am == 0 {
        lemma_mod_self_0(p);
        assert(fneg(a) == p % p);
        assert(fneg(a) == 0);
        lemma_small_mod(0, P as nat);
        assert(fneg(0nat) == p % p);
    } else {
        lemma_small_mod((p - am) as nat, P as nat);
        assert(fneg(a) == p - am);
        assert(fneg(fneg(a)) == (p - ((p - am) % p)) % p);
        lemma_small_mod((p - am) as nat, P as nat);
        lemma_small_mod(am as nat, P as nat);
    }
}

/// Subtracting a negated element is adding it.
pub proof fn lemma_fsub_fneg(a: nat, b: nat)
    ensures
        fsub(a, fneg(b)) == fadd(a, b),
{
    lemma_fsub_is_fadd_fneg(a, fneg(b));
    lemma_fneg_fneg(b);
    lemma_fadd_mod(a, b);
}

/// Two canonical elements subtract to zero exactly when they are equal.
pub proof fn lemma_fsub_zero_iff(a: nat, b: nat)
    requires
        a < P,
        b < P,
    ensures
        (fsub(a, b) == 0) <==> (a == b),
{
    let p = P as int;
    lemma_small_mod(b, P as nat);
    if a == b {
        lemma_mod_self_0(p);
        assert(fsub(a, b) == p % p);
    } else if a > b {
        lemma_mod_add_multiples_vanish((a - b) as int, p);
        lemma_small_mod((a - b) as nat, P as nat);
        assert(fsub(a, b) == (a - b) as nat);
    } else {
        lemma_small_mod(((a + p) - b) as nat, P as nat);
        assert(fsub(a, b) == ((a + p) - b) as nat);
    }
}

/// The order-`2^k` primitive root predicate: `w` is canonical, `w` raised to
/// `2^k` is one, and (for positive `k`) `w` raised to `2^(k-1)` is minus one.
pub open spec fn is_primitive_root(w: nat, k: nat) -> bool {
    &&& w < P
    &&& fpow(w, vstd::arithmetic::power2::pow2(k)) == 1
    &&& (k > 0 ==> fpow(w, vstd::arithmetic::power2::pow2((k - 1) as nat)) == (P - 1) as nat)
}

/// One squaring step along a chain of powers: doubling the exponent squares
/// the value.
pub proof fn lemma_fpow_double_exp(b: nat, e: nat)
    ensures
        fpow(b, 2 * e) == fmul(fpow(b, e), fpow(b, e)),
{
    lemma_fpow_add(b, e, e);
}

/// The square of a primitive root of order `2^k` is a primitive root of
/// order `2^(k-1)`.
pub proof fn lemma_primitive_root_square(w: nat, k: nat)
    requires
        k >= 1,
        is_primitive_root(w, k),
    ensures
        is_primitive_root(fmul(w, w), (k - 1) as nat),
{
    vstd::arithmetic::power2::lemma_pow2_unfold(k);
    let h = vstd::arithmetic::power2::pow2((k - 1) as nat);
    lemma_fpow_square(w, h);
    assert(fpow(fmul(w, w), h) == fpow(w, 2 * h));
    assert(2 * h == vstd::arithmetic::power2::pow2(k));
    lemma_ops_in_range(w, w);
    if k >= 2 {
        vstd::arithmetic::power2::lemma_pow2_unfold((k - 1) as nat);
        let h2 = vstd::arithmetic::power2::pow2((k - 2) as nat);
        lemma_fpow_square(w, h2);
        assert(fpow(fmul(w, w), h2) == fpow(w, 2 * h2));
        assert(2 * h2 == h);
    }
}

/// Certificate for the chosen generator of the order-`2^8` subgroup: `3` is a
/// primitive root of order `2^8`, `86` is its inverse and likewise primitive,
/// and `129` is the inverse of two.
pub proof fn lemma_field_constants()
    ensures
        is_primitive_root(3, 8),
        is_primitive_root(86, 8),
        fmul(3, 86) == 1,
        fmul(2, 129) == 1,
{
    lemma_pow2_values();
    // chain of squarings for 3
    assert(fpow(3, 1) == fmul(3, fpow(3, 0)));
    assert(fpow(3, 0) == 1);
    assert(fpow(3, 1) == 3) by {
        assert(fmul(3, 1) == 3nat % (P as nat));
    }
    lemma_fpow_double_exp(3, 1);
    assert(fpow(3, 2) == fmul(3, 3));
    lemma_fpow_double_exp(3, 2);
    assert(fpow(3, 4) == fmul(9, 9));
    lemma_fpow_double_exp(3, 4);
    assert(fpow(3, 8) == fmul(81, 81));
    lemma_fpow_double_exp(3, 8);
    assert(fpow(3, 16) == fmul(136, 136));
    lemma_fpow_double_exp(3, 16);
    assert(fpow(3, 32) == fmul(249, 249));
    lemma_fpow_double_exp(3, 32);
    assert(fpow(3, 64) == fmul(64, 64));
    lemma_fpow_double_exp(3, 64);
    assert(fpow(3, 128) == fmul(241, 241));
    lemma_fpow_double_exp(3, 128);
    assert(fpow(3, 256) == fmul(256, 256));
    // chain of squarings for 86
    assert(fpow(86, 1) == fmul(86, fpow(86, 0)));
    assert(fpow(86, 0) == 1);
    assert(fpow(86, 1) == 86) by {
        assert(fmul(86, 1) == 86nat % (P as nat));
    }
    lemma_fpow_double_exp(86, 1);
    assert(fpow(86, 2) == fmul(86, 86));
    lemma_fpow_double_exp(86, 2);
    assert(fpow(86, 4) == fmul(200, 200));
    lemma_fpow_double_exp(86, 4);
    assert(fpow(86, 8) == fmul(165, 165));
    lemma_fpow_double_exp(86, 8);
    assert(fpow(86, 16) == fmul(240, 240));
    lemma_fpow_double_exp(86, 16);
    assert(fpow(86, 32) == fmul(32, 32));
    lemma_fpow_double_exp(86, 32);
    assert(fpow(86, 64) == fmul(253, 253));
    lemma_fpow_double_exp(86, 64);
    assert(fpow(86, 128) == fmul(16, 16));
    lemma_fpow_double_exp(86, 128);
    assert(fpow(86, 256) == fmul(256, 256));
}

/// The concrete powers of two that the certificates mention.
pub proof fn lemma_pow2_values()
    ensures
        vstd::arithmetic::power2::pow2(0) == 1,
        vstd::arithmetic::power2::pow2(1) == 2,
        vstd::arithmetic::power2::pow2(2) == 4,
        vstd::arithmetic::power2::pow2(3) == 8,
        vstd::arithmetic::power2::pow2(4) == 16,
        vstd::arithmetic::power2::pow2(5) == 32,
        vstd::arithmetic::power2::pow2(6) == 64,
        vstd::arithmetic::power2::pow2(7) == 128,
        vstd::arithmetic::power2::pow2(8) == 256,
{
    vstd::arithmetic::power2::lemma2_to64();
}

/// Unfolding law of the power: splitting off one factor.
pub proof fn lemma_fpow_peel(b: nat, e: nat)
    requires
        e > 0,
    ensures
        fpow(b, e) == fmul(b, fpow(b, (e - 1) as nat)),
        fpow(b, e) == fmul(fpow(b, (e - 1) as nat), b),
{
    assert(b * fpow(b, (e - 1) as nat) == fpow(b, (e - 1) as nat) * b) by (nonlinear_arith);
}

/// The power of a sum of exponents is the product of the powers.
pub proof fn lemma_fpow_add(b: nat, e1: nat, e2: nat)
    ensures
        fpow(b, e1 + e2) == fmul(fpow(b, e1), fpow(b, e2)),
    decreases e1,
{
    if e1 == 0 {
        lemma_fmul_basics(fpow(b, e2));
        if e2 > 0 {
            lemma_fpow_in_range(b, e2);
            lemma_small_mod(fpow(b, e2), P as nat);
        } else {
            lemma_small_mod(1, P as nat);
        }
    } else {
        lemma_fpow_add(b, (e1 - 1) as nat, e2);
        assert(fpow(b, e1 + e2) == fmul(b, fpow(b, ((e1 - 1) + e2) as nat)));
        lemma_fmul_assoc(b, fpow(b, (e1 - 1) as nat), fpow(b, e2));
    }
}

/// Reducing the base does not change the power.
pub proof fn lemma_fpow_base_mod(b: nat, e: nat)
    ensures
        fpow(b % (P as nat), e) == fpow(b, e),
    decreases e,
{
    if e > 0 {
        lemma_fpow_base_mod(b, (e - 1) as nat);
        lemma_fmul_mod(b, fpow(b, (e - 1) as nat));
    }
}

/// The power of a doubled exponent is the power of the square.
pub proof fn lemma_fpow_square(b: nat, e: nat)
    ensures
        fpow(fmul(b, b), e) == fpow(b, 2 * e),
    decreases e,
{
    if e > 0 {
        lemma_fpow_square(b, (e - 1) as nat);
        assert(2 * e == 2 * (e - 1) + 2);
        lemma_fpow_add(b, 2, (2 * (e - 1)) as nat);
        // fpow(b, 2) == fmul(b, b) reduced
        assert(fpow(b, 0) == 1);
        assert(fpow(b, 1) == fmul(b, fpow(b, 0)));
        assert(fpow(b, 2) == fmul(b, fpow(b, 1)));
        assert(fpow(b, 2) == fmul(b, fmul(b, 1)));
        lemma_fmul_mod(b, b);
        lemma_fmul_basics(b);
        assert(fmul(b, 1) == b % (P as nat));
        assert(fmul(b, fmul(b, 1)) == fmul(b, b));
        // so fpow(b, 2e) == fmul(fmul(b,b), fpow(b, 2(e-1)))
        assert(fpow(fmul(b, b), e) == fmul(fmul(b, b), fpow(fmul(b, b), (e - 1) as nat)));
    }
}

/// One is fixed by every power.
pub proof fn lemma_fpow_one_base(e: nat)
    ensures
        fpow(1, e) == 1,
    decreases e,
{
    if e > 0 {
        lemma_fpow_one_base((e - 1) as nat);
        lemma_fmul_basics(1);
        lemma_small_mod(1, P as nat);
    }
}

/// A power of a product is the product of the powers.
pub proof fn lemma_fpow_distributes(a: nat, b: nat, e: nat)
    ensures
        fpow(fmul(a, b), e) == fmul(fpow(a, e), fpow(b, e)),
    decreases e,
{
    if e == 0 {
        lemma_fmul_basics(1);
        lemma_small_mod(1, P as nat);
    } else {
        let e1 = (e - 1) as nat;
        lemma_fpow_distributes(a, b, e1);
        let pa = fpow(a, e1);
        let pb = fpow(b, e1);
        // (a*b) * (pa*pb) == (a*pa) * (b*pb)
        lemma_fmul_mod((a * b) as nat, fmul(pa, pb));
        lemma_fmul_assoc(a, b, fmul(pa, pb));
        lemma_fmul_assoc(b, pa, pb);
        lemma_fmul_comm(b, pa);
        lemma_fmul_assoc(pa, b, pb);
        // b * (pa * pb) == pa * (b * pb)
        assert(fmul(b, fmul(pa, pb)) == fmul(pa, fmul(b, pb)));
        assert(fmul(fmul(a, b), fmul(pa, pb)) == fmul(a, fmul(b, fmul(pa, pb))));
        lemma_fmul_assoc(a, pa, fmul(b, pb));
        assert(fpow(fmul(a, b), e) == fmul(fmul(a, b), fpow(fmul(a, b), e1)));
    }
}

/// A power of a power is the power of the product of exponents.
pub proof fn lemma_fpow_mul(b: nat, e1: nat, e2: nat)
    ensures
        fpow(fpow(b, e1), e2) == fpow(b, e1 * e2),
    decreases e2,
{
    if e2 == 0 {
        assert(e1 * 0 == 0) by (nonlinear_arith);
    } else {
        lemma_fpow_mul(b, e1, (e2 - 1) as nat);
        assert(e1 * e2 == e1 + e1 * (e2 - 1)) by (nonlinear_arith);
        lemma_fpow_add(b, e1, (e1 * (e2 - 1)) as nat);
        if e1 == 0 {
            lemma_fmul_basics(fpow(b, (e1 * (e2 - 1)) as nat));
            lemma_fmul_basics(fpow(1, (e2 - 1) as nat));
            assert(fpow(fpow(b, 0), e2) == fmul(1, fpow(1, (e2 - 1) as nat)));
        } else {
            lemma_fpow_in_range(b, e1);
            lemma_fmul_mod(fpow(b, e1), fpow(b, (e1 * (e2 - 1)) as nat));
        }
    }
}

} // verus!

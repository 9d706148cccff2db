//! Number-theoretic facts about the modulus.
//!
//! The crate's algebraic guarantees that go beyond ring arithmetic — that
//! every nonzero element has a multiplicative inverse, and that a product is
//! zero only when a factor is — rest on the primality of `P`.  This module
//! proves primality by bounded trial division, derives Bezout's identity for
//! the Euclidean greatest common divisor, and concludes with the two facts
//! the rest of the crate consumes: coprimality with `P` of every nonzero
//! canonical representative, and the zero-product law.

use vstd::prelude::*;
use vstd::arithmetic::div_mod::*;
use vstd::arithmetic::mul::*;
use crate::field::{fmul, P};

verus! {

/// The greatest common divisor, by the Euclidean recursion.
pub open spec fn gcd(a: nat, b: nat) -> nat
    decreases b,
{
    if b == 0 {
        a
    } else {
        gcd(b, a % b)
    }
}

/// The Euclidean recursion preserves positivity.
pub proof fn lemma_gcd_pos(a: nat, b: nat)
    requires
        a > 0,
    ensures
        gcd(a, b) > 0,
    decreases b,
{
    if b > 0 {
        lemma_mod_bound(a as int, b as int);
        lemma_gcd_pos(b, a % b);
    }
}

/// The greatest common divisor divides both of its arguments.
pub proof fn lemma_gcd_divides(a: nat, b: nat)
    requires
        a > 0,
    ensures
        gcd(a, b) > 0,
        a % gcd(a, b) == 0,
        b % gcd(a, b) == 0,
    decreases b,
{
    lemma_gcd_pos(a, b);
    let g = gcd(a, b);
    if b == 0 {
        lemma_mod_self_0(a as int);
        assert(0int % (a as int) == 0) by {
            lemma_small_mod(0, a);
        }
    } else {
        lemma_mod_bound(a as int, b as int);
        lemma_gcd_divides(b, a % b);
        // b % g == 0 and (a % b) % g == 0; conclude a % g == 0.
        lemma_fundamental_div_mod(a as int, b as int);
        let q = a as int / b as int;
        // a == q * b + a % b; both terms are multiples of g.
        lemma_fundamental_div_mod(b as int, g as int);
        lemma_fundamental_div_mod((a % b) as int, g as int);
        let kb = b as int / g as int;
        let kr = (a % b) as int / g as int;
        assert(b as int == kb * g);
        assert((a % b) as int == kr * g);
        assert(a as int == (q * kb + kr) * g) by (nonlinear_arith)
            requires
                a as int == q * b + (a % b),
                b as int == kb * g,
                (a % b) as int == kr * g,
        ;
        lemma_mod_multiples_basic(q * kb + kr, g as int);
    }
}

/// `x` and `y` witness Bezout's identity for `a` and `b`.
pub open spec fn bezout_pair(a: nat, b: nat, x: int, y: int) -> bool {
    a * x + b * y == gcd(a, b)
}

/// Bezout's identity: the greatest common divisor is an integer combination.
pub proof fn lemma_bezout(a: nat, b: nat)
    ensures
        exists|x: int, y: int| #[trigger] bezout_pair(a, b, x, y),
    decreases b,
{
    if b == 0 {
        assert(a * 1int + b * 0int == gcd(a, b)) by (nonlinear_arith)
            requires
                gcd(a, b) == a,
                b == 0,
        ;
        assert(bezout_pair(a, b, 1int, 0int));
    } else {
        lemma_mod_bound(a as int, b as int);
        lemma_bezout(b, a % b);
        let (x0, y0): (int, int) = choose|x: int, y: int| #[trigger] bezout_pair(b, a % b, x, y);
        lemma_fundamental_div_mod(a as int, b as int);
        let q = a as int / b as int;
        // gcd == b*x0 + (a - q*b)*y0 == a*y0 + b*(x0 - q*y0)
        assert(a * y0 + b * (x0 - q * y0) == gcd(a, b)) by (nonlinear_arith)
            requires
                b * x0 + (a % b) * y0 == gcd(b, a % b),
                gcd(b, a % b) == gcd(a, b),
                (a % b) as int == a - b * q,
        ;
        assert(bezout_pair(a, b, y0, x0 - q * y0));
    }
}

/// The modulus has no divisor strictly between one and itself.
pub proof fn lemma_modulus_prime()
    ensures
        forall|d: int| 2 <= d < P ==> #[trigger] ((P as int) % d) != 0,
{
    assert forall|d: int| 2 <= d < P implies #[trigger] ((P as int) % d) != 0 by {
        if (P as int) % d == 0 {
            let p = P as int;
            lemma_fundamental_div_mod(p, d);
            let e = p / d;
            lemma_div_pos_is_pos(p, d);
            assert(p == d * e);
            assert(e >= 2) by (nonlinear_arith)
                requires
                    p == d * e,
                    2 <= d < p,
                    e >= 0,
                    p == 257,
            ;
            // one of the two factors is at most 16
            assert(d <= 16 || e <= 16) by (nonlinear_arith)
                requires
                    p == d * e,
                    p == 257,
                    d >= 2,
                    e >= 2,
            ;
            let f = if d <= 16 { d } else { e };
            assert(p % f == 0) by {
                if d <= 16 {
                } else {
                    lemma_mod_multiples_basic(d, e);
                    assert((d * e) % e == 0);
                    assert(p % e == 0);
                }
            }
            assert(2 <= f <= 16);
            assert(257int % 2 == 1);
            assert(257int % 3 == 2);
            assert(257int % 4 == 1);
            assert(257int % 5 == 2);
            assert(257int % 6 == 5);
            assert(257int % 7 == 5);
            assert(257int % 8 == 1);
            assert(257int % 9 == 5);
            assert(257int % 10 == 7);
            assert(257int % 11 == 4);
            assert(257int % 12 == 5);
            assert(257int % 13 == 10);
            assert(257int % 14 == 5);
            assert(257int % 15 == 2);
            assert(257int % 16 == 1);
            assert(false);
        }
    }
}

/// Every canonical nonzero representative is coprime to the modulus.
pub proof fn lemma_coprime_with_modulus(a: nat)
    requires
        0 < a < P,
    ensures
        gcd(P as nat, a) == 1,
{
    let g = gcd(P as nat, a);
    lemma_gcd_divides(P as nat, a);
    if g != 1 {
        // g divides P, so g is at least 2; g also divides a, so g <= a < P.
        lemma_fundamental_div_mod(a as int, g as int);
        let k = a as int / g as int;
        lemma_div_pos_is_pos(a as int, g as int);
        assert(a as int == g as int * k);
        assert(k >= 1 && g <= a) by (nonlinear_arith)
            requires
                a as int == g as int * k,
                a > 0,
                g > 0,
                k >= 0,
        ;
        assert(2 <= g < P);
        lemma_modulus_prime();
        assert((P as int) % (g as int) != 0);
        assert(false);
    }
}

/// Scaling by a multiple of the modulus leaves no residue.
proof fn lemma_multiple_scaled(c: int, y: int)
    requires
        c % (P as int) == 0,
    ensures
        (c * y) % (P as int) == 0,
{
    let p = P as int;
    lemma_fundamental_div_mod(c, p);
    let q = c / p;
    assert(c * y == (q * y) * p) by (nonlinear_arith)
        requires
            c == q * p,
    ;
    lemma_mod_multiples_basic(q * y, p);
}

/// Euclid's lemma at the modulus: if `P` divides a product and not the first
/// factor, it divides the second.
pub proof fn lemma_euclid(a: nat, b: nat)
    requires
        fmul(a, b) == 0,
        a % (P as nat) != 0,
    ensures
        b % (P as nat) == 0,
{
    let p = P as int;
    let am = a % (P as nat);
    lemma_mod_bound(a as int, p);
    lemma_coprime_with_modulus(am);
    lemma_bezout(P as nat, am);
    let (x, y): (int, int) = choose|x: int, y: int| #[trigger] bezout_pair(P as nat, am, x, y);
    assert((P as nat) * x + am * y == gcd(P as nat, am));
    // b == b * (p*x + am*y) == (b*x)*p + (am*b)*y
    crate::algebra::lemma_fmul_mod(a, b);
    assert(fmul(am, b) == 0);
    assert((am * b) % (P as nat) == 0);
    lemma_multiple_scaled((am as int) * (b as int), y);
    assert(((am * b) * y) % p == 0);
    assert(b as int == (b * x) * p + (am * b) * y) by (nonlinear_arith)
        requires
            p * x + am * y == 1,
    ;
    lemma_mod_multiples_vanish(b as int * x, (am as int * b as int) * y, p);
    assert((b as int) % p == ((am as int * b as int) * y) % p);
}

/// The zero-product law: a product of nonzero field elements is nonzero.
pub proof fn lemma_no_zero_divisors(a: nat, b: nat)
    requires
        a < P,
        b < P,
        a != 0,
        b != 0,
    ensures
        fmul(a, b) != 0,
{
    if fmul(a, b) == 0 {
        lemma_small_mod(a, P as nat);
        lemma_euclid(a, b);
        lemma_small_mod(b, P as nat);
        assert(false);
    }
}

} // verus!

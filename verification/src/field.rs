//! The scalar field used by this crate.
//!
//! Every routine in this crate is generic in spirit over "a prime field with
//! high 2-adicity"; this module provides the concrete instance the crate is
//! verified against: the integers modulo `P = 257 = 2^8 + 1`.  The modulus is
//! prime (proved in `number`), and `P - 1 = 2^8`, so the multiplicative group
//! contains a primitive `2^8`-th root of unity, which is what the radix-2
//! transform needs.
//!
//! A field element is a single machine word holding its canonical
//! representative in `[0, P)`; the mathematical model of an element is that
//! representative as a `nat`.

use vstd::prelude::*;

verus! {

/// The field modulus.
pub const P: u64 = 257;

/// The 2-adicity of the field: `P - 1 == 2^S`.
pub const S: u32 = 8;

/// Sum in the field, on mathematical representatives.
pub open spec fn fadd(a: nat, b: nat) -> nat {
    (a + b) % (P as nat)
}

/// Difference in the field, on mathematical representatives.
pub open spec fn fsub(a: nat, b: nat) -> nat {
    (((a + P) - (b % (P as nat))) % (P as int)) as nat
}

/// Product in the field, on mathematical representatives.
pub open spec fn fmul(a: nat, b: nat) -> nat {
    (a * b) % (P as nat)
}

/// Additive inverse in the field, on mathematical representatives.
pub open spec fn fneg(a: nat) -> nat {
    (((P as int) - (a % (P as nat))) % (P as int)) as nat
}

/// The mathematical representatives of a sequence of field elements.
pub open spec fn vals(s: Seq<Fp>) -> Seq<nat> {
    s.map(|i: int, x: Fp| x@)
}

/// The pointwise reading of the representatives.
pub proof fn lemma_vals_props(s: Seq<Fp>)
    ensures
        vals(s).len() == s.len(),
        forall|i: int| 0 <= i < s.len() ==> #[trigger] vals(s)[i] == s[i]@,
{
}

/// Every element of the sequence is canonical.
pub open spec fn all_wf(s: Seq<Fp>) -> bool {
    forall|i: int| 0 <= i < s.len() ==> (#[trigger] s[i]).wf()
}

/// An element of the field: its canonical representative in `[0, P)`.
#[derive(Clone, Copy, PartialEq, Eq, Structural, Debug)]
pub struct Fp {
    pub v: u64,
}

impl View for Fp {
    type V = nat;

    open spec fn view(&self) -> nat {
        self.v as nat
    }
}

impl Fp {
    /// The canonical representative is reduced.
    pub open spec fn wf(self) -> bool {
        self.v < P
    }

    /// The additive identity.
    pub fn zero() -> (r: Fp)
        ensures
            r.wf(),
            r@ == 0,
    {
        Fp { v: 0 }
    }

    /// The multiplicative identity.
    pub fn one() -> (r: Fp)
        ensures
            r.wf(),
            r@ == 1,
    {
        Fp { v: 1 }
    }

    /// Builds an element from an arbitrary word by reducing it.
    pub fn new(v: u64) -> (r: Fp)
        ensures
            r.wf(),
            r@ == v as nat % (P as nat),
    {
        Fp { v: v % P }
    }

    /// Field addition.
    pub fn add(self, o: Fp) -> (r: Fp)
        requires
            self.wf(),
            o.wf(),
        ensures
            r.wf(),
            r@ == fadd(self@, o@),
    {
        Fp { v: (self.v + o.v) % P }
    }

    /// Field subtraction.
    pub fn sub(self, o: Fp) -> (r: Fp)
        requires
            self.wf(),
            o.wf(),
        ensures
            r.wf(),
            r@ == fsub(self@, o@),
    {
        Fp { v: (self.v + P - o.v) % P }
    }

    /// Field multiplication.
    pub fn mul(self, o: Fp) -> (r: Fp)
        requires
            self.wf(),
            o.wf(),
        ensures
            r.wf(),
            r@ == fmul(self@, o@),
    {
        proof {
            assert(self.v * o.v < 66049) by (nonlinear_arith)
                requires
                    self.v < 257,
                    o.v < 257,
            ;
        }
        Fp { v: (self.v * o.v) % P }
    }

    /// Additive inverse.
    pub fn neg(self) -> (r: Fp)
        requires
            self.wf(),
        ensures
            r.wf(),
            r@ == fneg(self@),
    {
        Fp { v: (P - self.v) % P }
    }

    /// The representative returned by `two_inv`.
    pub open spec fn two_inv_val() -> nat {
        129
    }

    /// The representative returned by `root_of_unity_inv`.
    pub open spec fn root_of_unity_inv_val() -> nat {
        86
    }

    /// The fixed multiplicative inverse of two.
    pub fn two_inv() -> (r: Fp)
        ensures
            r.wf(),
            r@ == Self::two_inv_val(),
            fmul(2, r@) == 1,
    {
        proof {
            crate::algebra::lemma_field_constants();
        }
        Fp { v: 129 }
    }

    /// A fixed generator of the order-`2^S` subgroup of the multiplicative
    /// group.
    pub fn root_of_unity() -> (r: Fp)
        ensures
            r.wf(),
            crate::algebra::is_primitive_root(r@, S as nat),
    {
        proof {
            crate::algebra::lemma_field_constants();
        }
        Fp { v: 3 }
    }

    /// The multiplicative inverse of `root_of_unity`, itself a generator of
    /// the order-`2^S` subgroup.
    pub fn root_of_unity_inv() -> (r: Fp)
        ensures
            r.wf(),
            r@ == Self::root_of_unity_inv_val(),
            crate::algebra::is_primitive_root(r@, S as nat),
            fmul(Self::root_of_unity_val(), r@) == 1,
    {
        proof {
            crate::algebra::lemma_field_constants();
        }
        Fp { v: 86 }
    }

    /// The representative returned by `root_of_unity`.
    pub open spec fn root_of_unity_val() -> nat {
        3
    }

    /// Exponentiation by squaring.
    pub fn pow(self, e: u64) -> (r: Fp)
        requires
            self.wf(),
        ensures
            r.wf(),
            r@ == crate::algebra::fpow(self@, e as nat),
    {
        proof {
            crate::algebra::lemma_fmul_basics(crate::algebra::fpow(self@, e as nat));
            if e > 0 {
                crate::algebra::lemma_fpow_in_range(self@, e as nat);
                vstd::arithmetic::div_mod::lemma_small_mod(
                    crate::algebra::fpow(self@, e as nat),
                    P as nat,
                );
            } else {
                vstd::arithmetic::div_mod::lemma_small_mod(1, P as nat);
            }
        }
        let mut result = Fp::one();
        let mut base = self;
        let mut k = e;
        while k > 0
            invariant
                base.wf(),
                result.wf(),
                fmul(result@, crate::algebra::fpow(base@, k as nat)) == crate::algebra::fpow(
                    self@,
                    e as nat,
                ),
            decreases k,
        {
            let ghost b0 = base@;
            let ghost r0 = result@;
            let ghost k0 = k as nat;
            if k % 2 == 1 {
                result = result.mul(base);
            }
            base = base.mul(base);
            k = k / 2;
            proof {
                crate::algebra::lemma_fpow_square(b0, (k0 / 2) as nat);
                if k0 % 2 == 1 {
                    assert(k0 == 2 * (k0 / 2) + 1);
                    crate::algebra::lemma_fpow_peel(b0, k0);
                    assert(crate::algebra::fpow(b0, k0) == fmul(
                        b0,
                        crate::algebra::fpow(b0, (2 * (k0 / 2)) as nat),
                    ));
                    crate::algebra::lemma_fmul_assoc(r0, b0, crate::algebra::fpow(base@, k as nat));
                } else {
                    assert(k0 == 2 * (k0 / 2));
                }
            }
        }
        proof {
            crate::algebra::lemma_fmul_basics(result@);
            vstd::arithmetic::div_mod::lemma_small_mod(result@, P as nat);
        }
        result
    }

    /// The canonical fixed-width byte representation: eight bytes, little
    /// endian.  This is the stable layout an external transport (such as an
    /// accelerator upload) marshals from.
    pub fn to_repr(self) -> (r: Vec<u8>)
        ensures
            r@.len() == 8,
            forall|i: int|
                0 <= i < 8 ==> (#[trigger] r@[i]) as nat == (self@ / vstd::arithmetic::power2::pow2(
                    (8 * i) as nat,
                )) % 256,
    {
        let mut r: Vec<u8> = Vec::new();
        let mut i: usize = 0;
        let mut d: u64 = 1;
        proof {
            vstd::arithmetic::power2::lemma2_to64();
        }
        while i < 8
            invariant
                i <= 8,
                r@.len() == i,
                1 <= d,
                i < 8 ==> d as nat == vstd::arithmetic::power2::pow2((8 * i) as nat),
                forall|t: int|
                    0 <= t < i ==> (#[trigger] r@[t]) as nat == (self@
                        / vstd::arithmetic::power2::pow2((8 * t) as nat)) % 256,
            decreases 8 - i,
        {
            let ghost r0 = r@;
            proof {
                vstd::arithmetic::div_mod::lemma_mod_bound((self.v / d) as int, 256);
            }
            r.push(((self.v / d) % 256) as u8);
            if i < 7 {
                proof {
                    vstd::arithmetic::power2::lemma_pow2_adds((8 * i) as nat, 8);
                    vstd::arithmetic::power2::lemma2_to64();
                    vstd::arithmetic::power2::lemma2_to64_rest();
                    assert(vstd::arithmetic::power2::pow2(8) == 256);
                    assert(vstd::arithmetic::power2::pow2((8 * i + 8) as nat)
                        == vstd::arithmetic::power2::pow2((8 * i) as nat) * 256);
                    assert(d as nat <= 0x1_0000_0000_0000) by {
                        assert(vstd::arithmetic::power2::pow2(48) == 0x1_0000_0000_0000);
                        if 8 * i < 48 {
                            vstd::arithmetic::power2::lemma_pow2_strictly_increases(
                                (8 * i) as nat,
                                48,
                            );
                        }
                    }
                    assert((d as int) * 256 <= 0x1_0000_0000_0000 * 256) by (nonlinear_arith)
                        requires
                            d as int <= 0x1_0000_0000_0000,
                    ;
                }
                d = d * 256;
            }
            i = i + 1;
        }
        r
    }

    /// The multiplicative inverse of a nonzero element, by the extended
    /// Euclidean algorithm.  Success is owed for every nonzero element
    /// because the modulus is prime.
    pub fn invert(self) -> (r: Fp)
        requires
            self.wf(),
            self@ != 0,
        ensures
            r.wf(),
            fmul(self@, r@) == 1,
    {
        let a = self.v;
        let mut r0: u64 = P;
        let mut s0: u64 = 0;
        let mut r1: u64 = a;
        let mut s1: u64 = 1;
        proof {
            vstd::arithmetic::div_mod::lemma_mod_self_0(P as int);
            vstd::arithmetic::div_mod::lemma_small_mod(a as nat, P as nat);
            crate::algebra::lemma_fmul_basics(a as nat);
            vstd::arithmetic::div_mod::lemma_small_mod(1, P as nat);
        }
        while r1 != 0
            invariant
                0 < a < P,
                r0 <= P,
                r0 > 0,
                r1 < P,
                s0 < P,
                s1 < P,
                fmul(a as nat, s0 as nat) == (r0 as nat) % (P as nat),
                fmul(a as nat, s1 as nat) == r1 as nat,
                crate::number::gcd(r0 as nat, r1 as nat) == crate::number::gcd(
                    P as nat,
                    a as nat,
                ),
            decreases r1,
        {
            let q = r0 / r1;
            let r2 = r0 % r1;
            proof {
                assert((q % P) * s1 < 66049) by (nonlinear_arith)
                    requires
                        q % P < 257,
                        s1 < 257,
                ;
            }
            let t = (q % P) * s1 % P;
            let s2 = (s0 + P - t) % P;
            proof {
                let p = P as nat;
                let an = a as nat;
                let qn = q as nat;
                let r0n = r0 as nat;
                let r1n = r1 as nat;
                let r2n = r2 as nat;
                // t == fmul(q, s1)
                crate::algebra::lemma_fmul_mod(qn, s1 as nat);
                assert(t as nat == fmul(qn, s1 as nat));
                // s2 == fsub(s0, t)
                vstd::arithmetic::div_mod::lemma_mod_bound((qn * (s1 as nat)) as int, P as int);
                vstd::arithmetic::div_mod::lemma_small_mod(t as nat, p);
                assert(s2 as nat == fsub(s0 as nat, t as nat));
                // a * s2 == fsub(a*s0, a*t) == fsub(r0, q*r1) == r2
                crate::algebra::lemma_fmul_distrib_sub(an, s0 as nat, t as nat);
                assert(fmul(an, s2 as nat) == fsub(fmul(an, s0 as nat), fmul(an, t as nat)));
                // fmul(a, t) == fmul(q, fmul(a, s1)) == fmul(q, r1)
                crate::algebra::lemma_fmul_assoc(an, qn, s1 as nat);
                crate::algebra::lemma_fmul_comm(an, qn);
                crate::algebra::lemma_fmul_assoc(qn, an, s1 as nat);
                crate::algebra::lemma_fmul_mod(an, (qn * (s1 as nat)) as nat);
                assert(fmul(an, t as nat) == fmul(an, fmul(qn, s1 as nat)));
                assert(fmul(an, fmul(qn, s1 as nat)) == fmul(fmul(an, qn), s1 as nat));
                assert(fmul(fmul(an, qn), s1 as nat) == fmul(fmul(qn, an), s1 as nat));
                assert(fmul(fmul(qn, an), s1 as nat) == fmul(qn, fmul(an, s1 as nat)));
                assert(fmul(an, t as nat) == fmul(qn, r1n));
                // fsub of reduced forms
                crate::algebra::lemma_fsub_mod(r0n, (qn * r1n) as nat);
                assert(fsub(fmul(an, s0 as nat), fmul(an, t as nat)) == fsub(
                    r0n,
                    (qn * r1n) as nat,
                ));
                // r0 == q * r1 + r2
                vstd::arithmetic::div_mod::lemma_fundamental_div_mod(r0 as int, r1 as int);
                assert(r0n == r1n * qn + r2n);
                vstd::arithmetic::mul::lemma_mul_is_commutative(r1 as int, q as int);
                assert(r0n == qn * r1n + r2n);
                crate::algebra::lemma_fadd_fsub_cancel(r2n, (qn * r1n) as nat);
                crate::algebra::lemma_fsub_mod((r2n + qn * r1n) as nat, (qn * r1n) as nat);
                assert(fsub(r0n, (qn * r1n) as nat) == r2n % p);
                vstd::arithmetic::div_mod::lemma_mod_bound(r2 as int, r1 as int);
                vstd::arithmetic::div_mod::lemma_small_mod(r2n, p);
                assert(fmul(an, s2 as nat) == r2n);
                // the Euclidean step preserves the greatest common divisor
                assert(crate::number::gcd(r0n, r1n) == crate::number::gcd(r1n, r0n % r1n));
                vstd::arithmetic::div_mod::lemma_small_mod(r1n, p);
            }
            r0 = r1;
            s0 = s1;
            r1 = r2;
            s1 = s2;
        }
        proof {
            crate::number::lemma_coprime_with_modulus(a as nat);
            assert(crate::number::gcd(r0 as nat, 0) == r0 as nat);
            assert(r0 == 1);
            vstd::arithmetic::div_mod::lemma_small_mod(1, P as nat);
        }
        Fp { v: s0 }
    }
}

} // verus!

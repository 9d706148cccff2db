//! Multi-scalar multiplication (MSM): the weighted sum of group points.
//!
//! `best_multiexp` computes the sum over `i` of `coeffs[i] * bases[i]`.
//! The workhorse is the bucket (Pippenger) method of `multiexp_serial`:
//! scalars are cut into `c`-bit segments, points with equal segment value
//! share one bucket, and each segment's buckets are folded by summation by
//! parts, so every point costs one addition per segment.  `small_multiexp`
//! is the plain double-and-add reference; the two agree exactly, both being
//! pinned to the spec `msm_value`.

use vstd::prelude::*;
use vstd::arithmetic::power2::pow2;
use crate::field::{fadd, fmul, vals, all_wf, lemma_vals_props, Fp, P};
use crate::group::{Affine, Projective, FftGroup};
use crate::parallel::NUM_WORKERS;
use crate::scalar::{digit, digits_of, shift_all, lemma_digits_of_props, lemma_shift_all_props};

verus! {

/// The mathematical representatives of a sequence of compact points.
pub open spec fn avals(s: Seq<Affine>) -> Seq<nat> {
    Seq::new(s.len(), |i: int| s[i].c@)
}

/// Every point of the sequence is canonical.
pub open spec fn all_awf(s: Seq<Affine>) -> bool {
    forall|i: int| 0 <= i < s.len() ==> (#[trigger] s[i]).wf()
}

/// The multi-scalar multiplication value: the sum over `i` of
/// `cs[i] * bs[i]` in the group.
pub open spec fn msm_value(cs: Seq<nat>, bs: Seq<nat>) -> nat
    decreases cs.len(),
{
    if cs.len() == 0 {
        0
    } else {
        fadd(msm_value(cs.drop_last(), bs.drop_last()), fmul(cs.last(), bs.last()))
    }
}

/// The MSM value is always canonical.
pub proof fn lemma_msm_in_range(cs: Seq<nat>, bs: Seq<nat>)
    ensures
        msm_value(cs, bs) < P,
{
    if cs.len() == 0 {
    } else {
        crate::algebra::lemma_ops_in_range(
            msm_value(cs.drop_last(), bs.drop_last()),
            fmul(cs.last(), bs.last()),
        );
    }
}

/// An MSM with all-zero scalars is zero.
pub proof fn lemma_msm_zero(cs: Seq<nat>, bs: Seq<nat>)
    requires
        forall|i: int| 0 <= i < cs.len() ==> #[trigger] cs[i] == 0,
    ensures
        msm_value(cs, bs) == 0,
    decreases cs.len(),
{
    if cs.len() > 0 {
        lemma_msm_zero(cs.drop_last(), bs.drop_last());
        crate::algebra::lemma_fmul_basics(bs.last());
        vstd::arithmetic::div_mod::lemma_small_mod(0, P as nat);
    }
}

/// One step of the split: folding one split term into split running sums.
#[verifier::spinoff_prover]
#[verifier::rlimit(100)]
proof fn lemma_msm_split_step(m1: nat, m0: nat, h: nat, l: nat, cl: nat, g: nat, k: nat)
    requires
        cl == k * h + l,
    ensures
        fadd(fadd(fmul(k, m1), m0), fmul(cl, g)) == fadd(
            fmul(k, fadd(m1, fmul(h, g))),
            fadd(m0, fmul(l, g)),
        ),
{
    assert(cl * g == k * (h * g) + l * g) by (nonlinear_arith)
        requires
            cl == k * h + l,
    ;
    crate::algebra::lemma_fmul_mod(k, (h * g) as nat);
    vstd::arithmetic::div_mod::lemma_add_mod_noop(
        (k * (h * g)) as int,
        (l * g) as int,
        P as int,
    );
    assert(fmul(cl, g) == fadd(fmul(k, fmul(h, g)), fmul(l, g)));
    crate::algebra::lemma_fmul_distrib(k, m1, fmul(h, g));
    crate::algebra::lemma_fadd4_regroup(fmul(k, m1), m0, fmul(k, fmul(h, g)), fmul(l, g));
    crate::algebra::lemma_fadd4_regroup(fmul(k, m1), fmul(k, fmul(h, g)), m0, fmul(l, g));
}

/// Splitting the scalars pointwise as `k * high + low` splits the MSM
/// value into `k` times the MSM of the high parts plus the MSM of the low
/// parts.
pub proof fn lemma_msm_split(cs: Seq<nat>, hi: Seq<nat>, lo: Seq<nat>, bs: Seq<nat>, k: nat)
    requires
        cs.len() == hi.len() == lo.len(),
        forall|i: int| 0 <= i < cs.len() ==> #[trigger] cs[i] == k * hi[i] + lo[i],
    ensures
        msm_value(cs, bs) == fadd(fmul(k, msm_value(hi, bs)), msm_value(lo, bs)),
    decreases cs.len(),
{
    if cs.len() == 0 {
        crate::algebra::lemma_fmul_basics(k);
        vstd::arithmetic::div_mod::lemma_small_mod(0, P as nat);
    } else {
        lemma_msm_split(cs.drop_last(), hi.drop_last(), lo.drop_last(), bs.drop_last(), k);
        let g = bs.last();
        let m1 = msm_value(hi.drop_last(), bs.drop_last());
        let m0 = msm_value(lo.drop_last(), bs.drop_last());
        lemma_msm_split_step(m1, m0, hi.last(), lo.last(), cs.last(), g, k);
        assert(msm_value(cs, bs) == fadd(fadd(fmul(k, m1), m0), fmul(cs.last(), g)));
        assert(msm_value(hi, bs) == fadd(m1, fmul(hi.last(), g)));
        assert(msm_value(lo, bs) == fadd(m0, fmul(lo.last(), g)));
    }
}

/// The MSM of concatenations is the sum of the MSMs of the parts.
pub proof fn lemma_msm_concat(c1: Seq<nat>, c2: Seq<nat>, b1: Seq<nat>, b2: Seq<nat>)
    requires
        c1.len() == b1.len(),
        c2.len() == b2.len(),
    ensures
        msm_value(c1 + c2, b1 + b2) == fadd(msm_value(c1, b1), msm_value(c2, b2)),
    decreases c2.len(),
{
    if c2.len() == 0 {
        assert(c1 + c2 =~= c1);
        assert(b1 + b2 =~= b1);
        lemma_msm_in_range(c1, b1);
        vstd::arithmetic::div_mod::lemma_small_mod(msm_value(c1, b1), P as nat);
    } else {
        lemma_msm_concat(c1, c2.drop_last(), b1, b2.drop_last());
        assert((c1 + c2).drop_last() =~= c1 + c2.drop_last());
        assert((b1 + b2).drop_last() =~= b1 + b2.drop_last());
        assert((c1 + c2).last() == c2.last());
        assert((b1 + b2).last() == b2.last());
        crate::algebra::lemma_fadd_assoc(
            msm_value(c1, b1),
            msm_value(c2.drop_last(), b2.drop_last()),
            fmul(c2.last(), b2.last()),
        );
    }
}

/// The pointwise reading of the point representatives.
pub proof fn lemma_avals_props(s: Seq<Affine>)
    ensures
        avals(s).len() == s.len(),
        forall|i: int| 0 <= i < s.len() ==> #[trigger] avals(s)[i] == s[i].c@,
{
}

/// The sum of the bucket values from `b` up.
pub open spec fn bsuffix(s: Seq<nat>, b: int) -> nat
    decreases s.len() - b,
{
    if b < 0 || b >= s.len() {
        0
    } else {
        fadd(s[b], bsuffix(s, b + 1))
    }
}

/// The gain of the summation-by-parts fold from `b` up: the sum of the
/// suffix sums, which weights bucket `b'` by `b' + 1 - b`.
pub open spec fn wsum_from(s: Seq<nat>, b: int) -> nat
    decreases s.len() - b,
{
    if b < 0 || b >= s.len() {
        0
    } else {
        fadd(wsum_from(s, b + 1), bsuffix(s, b))
    }
}

/// Adding `g` into bucket `p` adds `g` to every suffix sum at or below `p`
/// and leaves the ones above unchanged.
pub proof fn lemma_bsuffix_update(s: Seq<nat>, p: int, g: nat, b: int)
    requires
        0 <= p < s.len(),
        0 <= b <= s.len(),
    ensures
        b <= p ==> bsuffix(s.update(p, fadd(s[p], g)), b) == fadd(bsuffix(s, b), g),
        b > p ==> bsuffix(s.update(p, fadd(s[p], g)), b) == bsuffix(s, b),
    decreases s.len() - b,
{
    let u = s.update(p, fadd(s[p], g));
    if b >= s.len() {
    } else {
        lemma_bsuffix_update(s, p, g, b + 1);
        if b < p {
            crate::algebra::lemma_fadd_assoc(s[b], bsuffix(s, b + 1), g);
        } else if b == p {
            // the updated head contributes the extra g
            crate::algebra::lemma_fadd_assoc(s[b], g, bsuffix(s, b + 1));
            crate::algebra::lemma_fadd_assoc(s[b], bsuffix(s, b + 1), g);
            assert(fadd(g, bsuffix(s, b + 1)) == fadd(bsuffix(s, b + 1), g));
        }
    }
}

/// One step of the gain update below the touched bucket: folding the
/// extra `g` of the deeper gain and of the suffix into one heavier weight.
#[verifier::spinoff_prover]
#[verifier::rlimit(100)]
proof fn lemma_wsum_update_step(w: nat, sfx: nat, g: nat, k: nat)
    ensures
        fadd(fadd(w, fmul(k, g)), fadd(sfx, g)) == fadd(
            fadd(w, sfx),
            fmul((k + 1) as nat, g),
        ),
{
    assert((k + 1) * g == k * g + g) by (nonlinear_arith);
    vstd::arithmetic::div_mod::lemma_add_mod_noop((k * g) as int, g as int, P as int);
    crate::algebra::lemma_fadd_mod((k * g) as nat, g);
    assert(fmul((k + 1) as nat, g) == fadd(fmul(k, g), g));
    crate::algebra::lemma_fadd4_regroup(w, fmul(k, g), sfx, g);
    crate::algebra::lemma_fadd4_regroup(w, sfx, fmul(k, g), g);
}

/// Adding `g` into bucket `p` adds `(p + 1 - b) * g` to the fold gain from
/// `b`, for `b` at or below `p`.
pub proof fn lemma_wsum_update(s: Seq<nat>, p: int, g: nat, b: int)
    requires
        0 <= p < s.len(),
        0 <= b <= s.len(),
        g < P,
    ensures
        b <= p ==> wsum_from(s.update(p, fadd(s[p], g)), b) == fadd(
            wsum_from(s, b),
            fmul((p + 1 - b) as nat, g),
        ),
        b > p ==> wsum_from(s.update(p, fadd(s[p], g)), b) == wsum_from(s, b),
    decreases s.len() - b,
{
    let u = s.update(p, fadd(s[p], g));
    if b >= s.len() {
    } else {
        lemma_wsum_update(s, p, g, b + 1);
        lemma_bsuffix_update(s, p, g, b);
        if b == p {
            // weight one: the gain grows by exactly g
            crate::algebra::lemma_fmul_basics(g);
            vstd::arithmetic::div_mod::lemma_small_mod(g, P as nat);
            crate::algebra::lemma_fadd_assoc(wsum_from(s, b + 1), bsuffix(s, b), g);
        } else if b < p {
            let k = (p - b) as nat;
            lemma_wsum_update_step(wsum_from(s, b + 1), bsuffix(s, b), g, k);
        }
    }
}

/// The group values a bucket table holds.
pub open spec fn bucket_vals(s: Seq<Bucket>) -> Seq<nat> {
    s.map(|i: int, b: Bucket| b.bval())
}

/// The pointwise reading of the bucket values.
pub proof fn lemma_bucket_vals_props(s: Seq<Bucket>)
    ensures
        bucket_vals(s).len() == s.len(),
        forall|i: int| 0 <= i < s.len() ==> #[trigger] bucket_vals(s)[i] == s[i].bval(),
{
}

/// A tri-state bucket accumulator: empty, holding one compact point, or an
/// accumulated projective sum.  The compact-to-projective promotion is
/// deferred until a second point lands in the bucket.
#[derive(Clone, Copy, PartialEq, Eq, Structural, Debug)]
pub enum Bucket {
    /// No point has landed in this bucket.
    Empty,
    /// Exactly one point, kept in the compact form.
    Single(Affine),
    /// Two or more points, accumulated in the projective form.
    Accumulated(Projective),
}

impl Bucket {
    /// The group value the bucket holds.
    pub open spec fn bval(self) -> nat {
        match self {
            Bucket::Empty => 0,
            Bucket::Single(a) => a.c@,
            Bucket::Accumulated(p) => p.c@,
        }
    }

    /// The held point is canonical.
    pub open spec fn bwf(self) -> bool {
        match self {
            Bucket::Empty => true,
            Bucket::Single(a) => a.wf(),
            Bucket::Accumulated(p) => p.wf(),
        }
    }

    /// Adds a compact point into the bucket, by the checked transitions
    /// empty-to-single and single-to-accumulated.
    pub fn add_assign(&mut self, other: &Affine)
        requires
            old(self).bwf(),
            other.wf(),
        ensures
            final(self).bwf(),
            final(self).bval() == fadd(old(self).bval(), other.c@),
    {
        let next = match *self {
            Bucket::Empty => {
                proof {
                    crate::algebra::lemma_fmul_basics(other.c@);
                    vstd::arithmetic::div_mod::lemma_small_mod(other.c@, P as nat);
                }
                Bucket::Single(*other)
            },
            Bucket::Single(a) => Bucket::Accumulated(a.to_projective().add_affine(other)),
            Bucket::Accumulated(p) => Bucket::Accumulated(p.add_affine(other)),
        };
        *self = next;
    }

    /// Folds the bucket into a running projective sum.
    pub fn add(self, other: Projective) -> (r: Projective)
        requires
            self.bwf(),
            other.wf(),
        ensures
            r.wf(),
            r.gval() == fadd(self.bval(), other.gval()),
    {
        match self {
            Bucket::Empty => {
                proof {
                    crate::algebra::lemma_fmul_basics(other.gval());
                    vstd::arithmetic::div_mod::lemma_small_mod(other.gval(), P as nat);
                }
                other
            },
            Bucket::Single(a) => other.add_affine(&a),
            Bucket::Accumulated(p) => other.add_projective(&p),
        }
    }
}

/// Computes a power of two as a machine word by repeated doubling.
fn pow2_u64(k: u32) -> (r: u64)
    requires
        k < 64,
    ensures
        r as nat == pow2(k as nat),
{
    proof {
        vstd::arithmetic::power2::lemma2_to64();
        vstd::arithmetic::power2::lemma2_to64_rest();
    }
    let mut r: u64 = 1;
    let mut t: u32 = 0;
    while t < k
        invariant
            t <= k < 64,
            r as nat == pow2(t as nat),
        decreases k - t,
    {
        proof {
            vstd::arithmetic::power2::lemma_pow2_unfold((t + 1) as nat);
            vstd::arithmetic::power2::lemma_pow2_strictly_increases((t + 1) as nat, 64);
            assert(pow2(64) == 0x1_0000_0000_0000_0000) by {
                vstd::arithmetic::power2::lemma2_to64_rest();
            }
            assert(2 * pow2(t as nat) < 0x1_0000_0000_0000_0000);
        }
        r = r * 2;
        t = t + 1;
    }
    r
}

/// Computes a power of two as a size by repeated doubling.
fn pow2_usize(k: u32) -> (r: usize)
    requires
        pow2(k as nat) <= usize::MAX,
    ensures
        r as nat == pow2(k as nat),
{
    proof {
        vstd::arithmetic::power2::lemma2_to64();
    }
    let mut r: usize = 1;
    let mut t: u32 = 0;
    while t < k
        invariant
            t <= k,
            r as nat == pow2(t as nat),
            pow2(k as nat) <= usize::MAX,
        decreases k - t,
    {
        proof {
            vstd::arithmetic::power2::lemma_pow2_unfold((t + 1) as nat);
            if ((t + 1) as nat) < k as nat {
                vstd::arithmetic::power2::lemma_pow2_strictly_increases(
                    (t + 1) as nat,
                    k as nat,
                );
            }
            assert(pow2((t + 1) as nat) <= pow2(k as nat));
        }
        r = r * 2;
        t = t + 1;
    }
    r
}

/// Reads the `c`-bit segment of a scalar word at bit offset
/// `segment * c`.  Segments past the width of the representation are zero.
pub fn get_at(segment: usize, c: usize, v: u64) -> (r: u64)
    requires
        1 <= c < 64,
        segment <= 64,
    ensures
        r as nat == digit(v as nat, segment as nat, c as nat),
        (r as nat) < pow2(c as nat),
{
    proof {
        assert(segment * c <= 64 * 63) by (nonlinear_arith)
            requires
                segment <= 64,
                c < 64,
        ;
        vstd::arithmetic::power2::lemma_pow2_pos(c as nat);
        vstd::arithmetic::power2::lemma_pow2_pos((segment * c) as nat);
    }
    let skip = segment * c;
    if skip >= 64 {
        proof {
            vstd::arithmetic::power2::lemma2_to64_rest();
            if 64 < skip {
                vstd::arithmetic::power2::lemma_pow2_strictly_increases(64, skip as nat);
            }
            assert((v as nat) < pow2(skip as nat)) by {
                assert((v as nat) < pow2(64));
            }
            vstd::arithmetic::div_mod::lemma_basic_div(v as int, pow2(skip as nat) as int);
            vstd::arithmetic::div_mod::lemma_small_mod(0, pow2(c as nat));
        }
        0
    } else {
        let d = pow2_u64(skip as u32);
        let m = pow2_u64(c as u32);
        let r = (v / d) % m;
        proof {
            vstd::arithmetic::div_mod::lemma_mod_bound((v / d) as int, m as int);
        }
        r
    }
}

/// Shifting by one more segment peels the segment's digit off the shifted
/// value.
proof fn lemma_shift_peel(v: nat, seg: nat, c: nat)
    ensures
        v / pow2(seg * c) == pow2(c) * (v / pow2((seg + 1) * c)) + digit(v, seg, c),
{
    let a = pow2(seg * c);
    let b = pow2(c);
    vstd::arithmetic::power2::lemma_pow2_pos(seg * c);
    vstd::arithmetic::power2::lemma_pow2_pos(c);
    vstd::arithmetic::power2::lemma_pow2_adds(seg * c, c);
    assert((seg + 1) * c == seg * c + c) by (nonlinear_arith);
    assert(pow2((seg + 1) * c) == a * b);
    vstd::arithmetic::div_mod::lemma_div_denominator(v as int, a as int, b as int);
    assert(v / pow2((seg + 1) * c) == (v / a) / b) by {
        assert(a as int * b as int == (a * b) as int);
    }
    vstd::arithmetic::div_mod::lemma_fundamental_div_mod((v / a) as int, b as int);
}

/// The window width used by the bucket method for `n` points: one bit
/// below 4 points, three below 32, and otherwise an integer stand-in for
/// the natural logarithm of `n`, computed from the base-two logarithm.
fn window_size(n: usize) -> (c: usize)
    ensures
        1 <= c < 64,
        pow2(c as nat) <= usize::MAX,
{
    proof {
        vstd::arithmetic::power2::lemma2_to64();
    }
    if n < 4 {
        1
    } else if n < 32 {
        3
    } else {
        let r = crate::parallel::log2_floor(n);
        let c = ((r as usize) * 7 + 9) / 10;
        proof {
            assert(r >= 5) by {
                if r < 5 {
                    vstd::arithmetic::power2::lemma_pow2_strictly_increases(r as nat + 1, 5);
                    assert(pow2((r + 1) as nat) <= pow2(5));
                }
            }
            assert(c <= r) by {
                assert((r as int * 7 + 9) / 10 <= r as int) by (nonlinear_arith)
                    requires
                        r >= 5,
                ;
            }
            assert(pow2(c as nat) <= pow2(r as nat)) by {
                if (c as nat) < r as nat {
                    vstd::arithmetic::power2::lemma_pow2_strictly_increases(
                        c as nat,
                        r as nat,
                    );
                }
            }
            assert(c >= 4) by {
                assert((r as int * 7 + 9) / 10 >= 4) by (nonlinear_arith)
                    requires
                        r >= 5,
                ;
            }
        }
        c
    }
}

/// Single-threaded bucket-method MSM: adds the weighted sum of the points
/// into `acc`, which must start at the identity.  The scalar bits are
/// processed as `c`-bit segments from the most significant down; per
/// segment the accumulator is doubled `c` times, each point is binned by
/// its segment value (zero segments are skipped, bucket 0 serves value 1),
/// and the buckets are folded from the highest down by summation by parts.
pub fn multiexp_serial(coeffs: &Vec<Fp>, bases: &Vec<Affine>, acc: &mut Projective)
    requires
        coeffs@.len() == bases@.len(),
        all_wf(coeffs@),
        all_awf(bases@),
        old(acc).wf(),
        old(acc).gval() == 0,
    ensures
        final(acc).wf(),
        final(acc).gval() == msm_value(vals(coeffs@), avals(bases@)),
{
    let ghost cv = vals(coeffs@);
    let ghost bv = avals(bases@);
    let n = coeffs.len();
    let c = window_size(n);
    let segments = 64 / c + 1;
    proof {
        // above the top segment every scalar is shifted to zero
        assert((64int / (c as int)) * (c as int) <= 64 < (64int / (c as int)) * (c as int)
            + c) by {
            vstd::arithmetic::div_mod::lemma_fundamental_div_mod(64int, c as int);
            vstd::arithmetic::div_mod::lemma_mod_bound(64int, c as int);
            assert((64int / (c as int)) * (c as int) == (c as int) * (64int / (c as int)))
                by (nonlinear_arith);
        }
        assert(c * segments > 64) by (nonlinear_arith)
            requires
                segments as int == 64int / (c as int) + 1,
                1 <= c < 64,
                (64int / (c as int)) * (c as int) <= 64,
                64 < (64int / (c as int)) * (c as int) + c,
        ;
        lemma_shift_all_props(cv, (c * segments) as nat);
        lemma_vals_props(coeffs@);
        let top = shift_all(cv, (c * segments) as nat);
        assert forall|i: int| 0 <= i < top.len() implies #[trigger] top[i] == 0 by {
            assert(shift_all(cv, (c * segments) as nat)[i] == cv[i] / pow2(
                (c * segments) as nat,
            ));
            assert(vals(coeffs@)[i] == coeffs@[i]@);
            assert(coeffs@[i].wf());
            assert(cv[i] < P);
            vstd::arithmetic::power2::lemma2_to64();
            assert(pow2(9) <= pow2((c * segments) as nat)) by {
                if 9 < c * segments {
                    vstd::arithmetic::power2::lemma_pow2_strictly_increases(
                        9,
                        (c * segments) as nat,
                    );
                }
            }
            vstd::arithmetic::div_mod::lemma_basic_div(
                cv[i] as int,
                pow2((c * segments) as nat) as int,
            );
        }
        lemma_msm_zero(top, bv);
    }
    let mut seg = segments;
    while seg > 0
        invariant
            coeffs@.len() == bases@.len() == n,
            all_wf(coeffs@),
            all_awf(bases@),
            cv == vals(coeffs@),
            bv == avals(bases@),
            1 <= c < 64,
            pow2(c as nat) <= usize::MAX,
            segments == 64nat / (c as nat) + 1,
            seg <= segments,
            acc.wf(),
            acc.gval() == msm_value(shift_all(cv, (c * seg) as nat), bv),
        decreases seg,
    {
        seg = seg - 1;
        let ghost hi_shift = shift_all(cv, (c * (seg + 1)) as nat);
        let ghost acc_in = acc.gval();
        // double the running accumulator c times
        let mut t: usize = 0;
        proof {
            crate::algebra::lemma_fmul_basics(acc_in);
            vstd::arithmetic::div_mod::lemma_small_mod(acc_in, P as nat);
            vstd::arithmetic::power2::lemma2_to64();
        }
        while t < c
            invariant
                t <= c < 64,
                acc.wf(),
                acc.gval() == fmul(pow2(t as nat), acc_in),
                acc_in < P,
            decreases c - t,
        {
            let ghost prev = acc.gval();
            *acc = acc.double();
            proof {
                assert(fadd(prev, prev) == fmul(2, prev)) by {
                    assert(prev + prev == 2 * prev);
                }
                crate::algebra::lemma_fmul_assoc(2, pow2(t as nat), acc_in);
                crate::algebra::lemma_fmul_mod((2 * pow2(t as nat)) as nat, acc_in);
                vstd::arithmetic::power2::lemma_pow2_unfold((t + 1) as nat);
                assert(fmul(2, fmul(pow2(t as nat), acc_in)) == fmul(
                    pow2((t + 1) as nat),
                    acc_in,
                ));
            }
            t = t + 1;
        }
        let ghost acc2 = acc.gval();
        let ghost dv = digits_of(cv, seg as nat, c as nat);
        // bin every point by its segment value
        proof {
            vstd::arithmetic::power2::lemma_pow2_pos(c as nat);
        }
        let nb = pow2_usize(c as u32) - 1;
        let mut buckets: Vec<Bucket> = Vec::new();
        let mut k: usize = 0;
        while k < nb
            invariant
                buckets@.len() == k <= nb,
                forall|b: int| 0 <= b < k ==> (#[trigger] buckets@[b]) == Bucket::Empty,
            decreases nb - k,
        {
            buckets.push(Bucket::Empty);
            k = k + 1;
        }
        let ghost bvals0 = bucket_vals(buckets@);
        proof {
            lemma_wsum_zero(bvals0, 0);
            assert(dv.subrange(0, 0) =~= Seq::<nat>::empty());
            assert(bv.subrange(0, 0) =~= Seq::<nat>::empty());
        }
        let mut j: usize = 0;
        while j < n
            invariant
                coeffs@.len() == bases@.len() == n,
                all_wf(coeffs@),
                all_awf(bases@),
                cv == vals(coeffs@),
                bv == avals(bases@),
                dv == digits_of(cv, seg as nat, c as nat),
                1 <= c < 64,
                seg <= 64,
                j <= n,
                buckets@.len() == nb,
                nb + 1 == pow2(c as nat),
                forall|b: int| 0 <= b < nb ==> (#[trigger] buckets@[b]).bwf(),
                wsum_from(bucket_vals(buckets@), 0) == msm_value(
                    dv.subrange(0, j as int),
                    bv.subrange(0, j as int),
                ),
            decreases n - j,
        {
            let ghost bvals = bucket_vals(buckets@);
            let d = get_at(seg, c, coeff_word(coeffs, j));
            proof {
                lemma_vals_props(coeffs@);
                lemma_digits_of_props(cv, seg as nat, c as nat);
                lemma_avals_props(bases@);
                assert(cv[j as int] == coeffs@[j as int]@);
                assert(d as nat == dv[j as int]);
                assert(dv.subrange(0, j as int + 1).drop_last() =~= dv.subrange(0, j as int));
                assert(bv.subrange(0, j as int + 1).drop_last() =~= bv.subrange(0, j as int));
                assert(dv.subrange(0, j as int + 1).last() == dv[j as int]);
                assert(bv.subrange(0, j as int + 1).last() == bv[j as int]);
                assert(bv[j as int] == bases@[j as int].c@);
                assert(bases@[j as int].wf());
            }
            if d != 0 {
                let idx = (d - 1) as usize;
                proof {
                    assert(idx < nb);
                }
                let mut slot = *bucket_at(&buckets, idx);
                slot.add_assign(poly_base(bases, j));
                let ghost bprev = buckets@;
                buckets[idx] = slot;
                proof {
                    let newvals = bucket_vals(buckets@);
                    assert(newvals =~= bvals.update(
                        idx as int,
                        fadd(bvals[idx as int], bv[j as int]),
                    )) by {
                        assert forall|b: int| 0 <= b < nb implies newvals[b] == bvals.update(
                            idx as int,
                            fadd(bvals[idx as int], bv[j as int]),
                        )[b] by {
                            assert(newvals[b] == buckets@[b].bval());
                            assert(bvals[b] == bprev[b].bval());
                            if b != idx {
                                assert(buckets@[b] == bprev[b]);
                            }
                        }
                    }
                    lemma_wsum_update(bvals, idx as int, bv[j as int], 0);
                    assert(idx as int + 1 == d as int);
                    assert(fmul((idx + 1) as nat, bv[j as int]) == fmul(
                        dv[j as int],
                        bv[j as int],
                    ));
                }
            } else {
                proof {
                    crate::algebra::lemma_fmul_basics(bv[j as int]);
                    lemma_msm_in_range(dv.subrange(0, j as int), bv.subrange(0, j as int));
                    vstd::arithmetic::div_mod::lemma_small_mod(
                        msm_value(dv.subrange(0, j as int), bv.subrange(0, j as int)),
                        P as nat,
                    );
                    vstd::arithmetic::div_mod::lemma_small_mod(0, P as nat);
                    assert(fmul(dv[j as int], bv[j as int]) == 0);
                }
            }
            j = j + 1;
        }
        // fold the buckets from the top down by summation by parts
        let ghost bvals = bucket_vals(buckets@);
        let mut running = Projective::identity();
        let mut bix = nb;
        proof {
            crate::algebra::lemma_fmul_basics(acc2);
            vstd::arithmetic::div_mod::lemma_small_mod(acc2, P as nat);
        }
        while bix > 0
            invariant
                buckets@.len() == nb,
                bvals == bucket_vals(buckets@),
                forall|b: int| 0 <= b < nb ==> (#[trigger] buckets@[b]).bwf(),
                bix <= nb,
                running.wf(),
                acc.wf(),
                acc2 < P,
                running.gval() == bsuffix(bvals, bix as int),
                acc.gval() == fadd(acc2, wsum_from(bvals, bix as int)),
            decreases bix,
        {
            bix = bix - 1;
            let ghost racc = acc.gval();
            let ghost rrun = running.gval();
            running = bucket_at(&buckets, bix).add(running);
            *acc = acc.add_projective(&running);
            proof {
                assert(bvals[bix as int] == buckets@[bix as int].bval());
                assert(running.gval() == bsuffix(bvals, bix as int));
                crate::algebra::lemma_fadd_assoc(
                    acc2,
                    wsum_from(bvals, bix as int + 1),
                    bsuffix(bvals, bix as int),
                );
            }
        }
        proof {
            lemma_shift_all_props(cv, (c * seg) as nat);
            lemma_shift_all_props(cv, (c * (seg + 1)) as nat);
            lemma_digits_of_props(cv, seg as nat, c as nat);
            assert(dv.subrange(0, n as int) =~= dv);
            assert(bv.subrange(0, n as int) =~= bv);
            // recombine the high shifts and the digits
            let low = shift_all(cv, (c * seg) as nat);
            assert forall|i: int| 0 <= i < low.len() implies #[trigger] low[i] == pow2(
                c as nat,
            ) * hi_shift[i] + dv[i] by {
                assert(shift_all(cv, (c * seg) as nat)[i] == cv[i] / pow2((c * seg) as nat));
                assert(shift_all(cv, (c * (seg + 1)) as nat)[i] == cv[i] / pow2(
                    (c * (seg + 1)) as nat,
                ));
                assert(digits_of(cv, seg as nat, c as nat)[i] == digit(
                    cv[i],
                    seg as nat,
                    c as nat,
                ));
                lemma_shift_peel(cv[i], seg as nat, c as nat);
                assert((seg as nat) * (c as nat) == (c * seg) as nat) by (nonlinear_arith);
                assert(((seg + 1) as nat) * (c as nat) == (c * (seg + 1)) as nat)
                    by (nonlinear_arith);
            }
            lemma_msm_split(low, hi_shift, dv, bv, pow2(c as nat));
            assert(acc2 == fmul(pow2(c as nat), msm_value(hi_shift, bv)));
        }
    }
    proof {
        assert(c * 0 == 0);
        assert(pow2(0) == 1) by {
            vstd::arithmetic::power2::lemma2_to64();
        }
        lemma_shift_all_props(cv, 0);
        assert(shift_all(cv, 0) =~= cv) by {
            assert forall|i: int| 0 <= i < cv.len() implies shift_all(cv, 0)[i] == cv[i] by {
                assert(shift_all(cv, 0)[i] == cv[i] / pow2(0));
            }
        }
    }
}

/// The zero bucket table folds to zero.
proof fn lemma_wsum_zero(s: Seq<nat>, b: int)
    requires
        forall|i: int| 0 <= i < s.len() ==> #[trigger] s[i] == 0,
        b >= 0,
    ensures
        bsuffix(s, b) == 0,
        wsum_from(s, b) == 0,
    decreases s.len() - b,
{
    if b < s.len() {
        lemma_wsum_zero(s, b + 1);
        vstd::arithmetic::div_mod::lemma_small_mod(0, P as nat);
    }
}

/// Reference double-and-add MSM: iterates every bit of the fixed-width
/// scalar representation, most significant first, sharing the doublings
/// across points.  Asymptotically worse than the bucket method but with no
/// bucket bookkeeping; the two agree exactly, both being pinned to
/// `msm_value`.
pub fn small_multiexp(coeffs: &Vec<Fp>, bases: &Vec<Affine>) -> (r: Projective)
    requires
        coeffs@.len() == bases@.len(),
        all_wf(coeffs@),
        all_awf(bases@),
    ensures
        r.wf(),
        r.gval() == msm_value(vals(coeffs@), avals(bases@)),
{
    let ghost cv = vals(coeffs@);
    let ghost bv = avals(bases@);
    let n = coeffs.len();
    let mut acc = Projective::identity();
    proof {
        lemma_vals_props(coeffs@);
        lemma_avals_props(bases@);
        lemma_shift_all_props(cv, 64);
        let top = shift_all(cv, 64);
        assert forall|i: int| 0 <= i < top.len() implies #[trigger] top[i] == 0 by {
            assert(shift_all(cv, 64)[i] == cv[i] / pow2(64));
            assert(vals(coeffs@)[i] == coeffs@[i]@);
            assert(coeffs@[i].wf());
            vstd::arithmetic::power2::lemma2_to64();
            vstd::arithmetic::power2::lemma2_to64_rest();
            assert(pow2(9) <= pow2(64)) by {
                vstd::arithmetic::power2::lemma_pow2_strictly_increases(9, 64);
            }
            vstd::arithmetic::div_mod::lemma_basic_div(cv[i] as int, pow2(64) as int);
        }
        lemma_msm_zero(top, bv);
    }
    let mut pos: usize = 64;
    while pos > 0
        invariant
            coeffs@.len() == bases@.len() == n,
            all_wf(coeffs@),
            all_awf(bases@),
            cv == vals(coeffs@),
            bv == avals(bases@),
            pos <= 64,
            acc.wf(),
            acc.gval() == msm_value(shift_all(cv, pos as nat), bv),
        decreases pos,
    {
        pos = pos - 1;
        let ghost hi_shift = shift_all(cv, (pos + 1) as nat);
        let ghost acc_in = acc.gval();
        let ghost prev = acc.gval();
        acc = acc.double();
        proof {
            assert(fadd(prev, prev) == fmul(2, prev)) by {
                assert(prev + prev == 2 * prev);
            }
        }
        let ghost acc2 = acc.gval();
        let ghost dv = digits_of(cv, pos as nat, 1);
        proof {
            lemma_digits_of_props(cv, pos as nat, 1);
            crate::algebra::lemma_fmul_basics(acc2);
            vstd::arithmetic::div_mod::lemma_small_mod(acc2, P as nat);
            assert(dv.subrange(0, 0) =~= Seq::<nat>::empty());
            assert(bv.subrange(0, 0) =~= Seq::<nat>::empty());
        }
        let mut j: usize = 0;
        while j < n
            invariant
                coeffs@.len() == bases@.len() == n,
                all_wf(coeffs@),
                all_awf(bases@),
                cv == vals(coeffs@),
                bv == avals(bases@),
                dv == digits_of(cv, pos as nat, 1),
                pos <= 64,
                j <= n,
                acc.wf(),
                acc2 < P,
                acc.gval() == fadd(
                    acc2,
                    msm_value(dv.subrange(0, j as int), bv.subrange(0, j as int)),
                ),
            decreases n - j,
        {
            proof {
                lemma_vals_props(coeffs@);
                lemma_avals_props(bases@);
                lemma_digits_of_props(cv, pos as nat, 1);
                assert(dv.subrange(0, j as int + 1).drop_last() =~= dv.subrange(0, j as int));
                assert(bv.subrange(0, j as int + 1).drop_last() =~= bv.subrange(0, j as int));
                assert(bases@[j as int].wf());
                lemma_msm_in_range(dv.subrange(0, j as int), bv.subrange(0, j as int));
            }
            let bit = get_at(pos, 1, coeff_word(coeffs, j));
            let ghost msofar = msm_value(dv.subrange(0, j as int), bv.subrange(0, j as int));
            if bit != 0 {
                let ghost aprev = acc.gval();
                acc = acc.add_affine(poly_base(bases, j));
                proof {
                    vstd::arithmetic::power2::lemma2_to64();
                    assert(dv[j as int] == 1);
                    crate::algebra::lemma_fmul_basics(bv[j as int]);
                    vstd::arithmetic::div_mod::lemma_small_mod(bv[j as int], P as nat);
                    assert(fmul(dv[j as int], bv[j as int]) == bv[j as int]);
                    crate::algebra::lemma_fadd_assoc(acc2, msofar, bv[j as int]);
                }
            } else {
                proof {
                    assert(dv[j as int] == 0);
                    crate::algebra::lemma_fmul_basics(bv[j as int]);
                    vstd::arithmetic::div_mod::lemma_small_mod(msofar, P as nat);
                    vstd::arithmetic::div_mod::lemma_small_mod(0, P as nat);
                    assert(fmul(dv[j as int], bv[j as int]) == 0);
                }
            }
            j = j + 1;
        }
        proof {
            lemma_shift_all_props(cv, pos as nat);
            lemma_shift_all_props(cv, (pos + 1) as nat);
            lemma_digits_of_props(cv, pos as nat, 1);
            assert(dv.subrange(0, n as int) =~= dv);
            assert(bv.subrange(0, n as int) =~= bv);
            let low = shift_all(cv, pos as nat);
            assert forall|i: int| 0 <= i < low.len() implies #[trigger] low[i] == pow2(1)
                * hi_shift[i] + dv[i] by {
                assert(shift_all(cv, pos as nat)[i] == cv[i] / pow2(pos as nat));
                assert(shift_all(cv, (pos + 1) as nat)[i] == cv[i] / pow2((pos + 1) as nat));
                assert(digits_of(cv, pos as nat, 1)[i] == digit(cv[i], pos as nat, 1));
                lemma_shift_peel(cv[i], pos as nat, 1);
                assert((pos as nat) * 1 == pos as nat) by (nonlinear_arith);
                assert(((pos + 1) as nat) * 1 == (pos + 1) as nat) by (nonlinear_arith);
            }
            lemma_msm_split(low, hi_shift, dv, bv, pow2(1));
            assert(pow2(1) == 2) by {
                vstd::arithmetic::power2::lemma2_to64();
            }
            assert(acc2 == fmul(pow2(1), msm_value(hi_shift, bv)));
        }
    }
    proof {
        lemma_shift_all_props(cv, 0);
        assert(pow2(0) == 1) by {
            vstd::arithmetic::power2::lemma2_to64();
        }
        assert(shift_all(cv, 0) =~= cv) by {
            assert forall|i: int| 0 <= i < cv.len() implies shift_all(cv, 0)[i] == cv[i] by {
                assert(shift_all(cv, 0)[i] == cv[i] / pow2(0));
            }
        }
    }
    acc
}

/// Copies a contiguous range of a vector.
fn copy_range<T: Copy>(v: &Vec<T>, lo: usize, hi: usize) -> (r: Vec<T>)
    requires
        lo <= hi <= v.len(),
    ensures
        r@ == v@.subrange(lo as int, hi as int),
{
    let mut r: Vec<T> = Vec::new();
    let mut i = lo;
    while i < hi
        invariant
            lo <= i <= hi <= v.len(),
            r@ == v@.subrange(lo as int, i as int),
        decreases hi - i,
    {
        r.push(v[i]);
        proof {
            assert(r@ =~= v@.subrange(lo as int, i as int + 1));
        }
        i = i + 1;
    }
    r
}

/// The multi-threaded MSM entry: above the worker-count threshold the
/// input splits into near-equal contiguous chunks, one bucket-method run
/// per chunk with its private accumulator (the segment doublings are local
/// to each chunk), and the per-chunk results are summed in chunk order.
/// Below the threshold a single serial run is used.
pub fn best_multiexp_cpu(coeffs: &Vec<Fp>, bases: &Vec<Affine>) -> (r: Projective)
    requires
        coeffs@.len() == bases@.len(),
        all_wf(coeffs@),
        all_awf(bases@),
    ensures
        r.wf(),
        r.gval() == msm_value(vals(coeffs@), avals(bases@)),
{
    let ghost cv = vals(coeffs@);
    let ghost bv = avals(bases@);
    let n = coeffs.len();
    let num_threads = crate::parallel::current_num_threads();
    if n > num_threads {
        let chunk = n / num_threads;
        proof {
            vstd::arithmetic::div_mod::lemma_fundamental_div_mod(
                n as int,
                num_threads as int,
            );
            assert(chunk >= 1);
            assert(cv.subrange(0, 0) =~= Seq::<nat>::empty());
            assert(bv.subrange(0, 0) =~= Seq::<nat>::empty());
        }
        let mut total = Projective::identity();
        let mut start: usize = 0;
        while start < n
            invariant
                coeffs@.len() == bases@.len() == n,
                all_wf(coeffs@),
                all_awf(bases@),
                cv == vals(coeffs@),
                bv == avals(bases@),
                chunk >= 1,
                start <= n,
                total.wf(),
                total.gval() == msm_value(
                    cv.subrange(0, start as int),
                    bv.subrange(0, start as int),
                ),
            decreases n - start,
        {
            let end = if n - start < chunk {
                n
            } else {
                start + chunk
            };
            let ccoeffs = copy_range(coeffs, start, end);
            let cbases = copy_range(bases, start, end);
            proof {
                lemma_vals_props(coeffs@);
                lemma_vals_props(ccoeffs@);
                lemma_avals_props(bases@);
                lemma_avals_props(cbases@);
                assert(vals(ccoeffs@) =~= cv.subrange(start as int, end as int)) by {
                    assert forall|i: int| 0 <= i < ccoeffs@.len() implies vals(ccoeffs@)[i]
                        == cv.subrange(start as int, end as int)[i] by {
                        assert(vals(ccoeffs@)[i] == ccoeffs@[i]@);
                        assert(ccoeffs@[i] == coeffs@[start + i]);
                        assert(cv[start + i] == coeffs@[start + i]@);
                    }
                }
                assert(avals(cbases@) =~= bv.subrange(start as int, end as int)) by {
                    assert forall|i: int| 0 <= i < cbases@.len() implies avals(cbases@)[i]
                        == bv.subrange(start as int, end as int)[i] by {
                        assert(avals(cbases@)[i] == cbases@[i].c@);
                        assert(cbases@[i] == bases@[start + i]);
                        assert(bv[start + i] == bases@[start + i].c@);
                    }
                }
                assert forall|i: int| 0 <= i < ccoeffs@.len() implies (
                #[trigger] ccoeffs@[i]).wf() by {
                    assert(ccoeffs@[i] == coeffs@[start + i]);
                }
                assert forall|i: int| 0 <= i < cbases@.len() implies (
                #[trigger] cbases@[i]).wf() by {
                    assert(cbases@[i] == bases@[start + i]);
                }
            }
            let mut part = Projective::identity();
            multiexp_serial(&ccoeffs, &cbases, &mut part);
            let ghost t0 = total.gval();
            total = total.add_projective(&part);
            proof {
                lemma_msm_concat(
                    cv.subrange(0, start as int),
                    cv.subrange(start as int, end as int),
                    bv.subrange(0, start as int),
                    bv.subrange(start as int, end as int),
                );
                assert(cv.subrange(0, start as int) + cv.subrange(start as int, end as int)
                    =~= cv.subrange(0, end as int));
                assert(bv.subrange(0, start as int) + bv.subrange(start as int, end as int)
                    =~= bv.subrange(0, end as int));
            }
            start = end;
        }
        proof {
            assert(cv.subrange(0, n as int) =~= cv);
            assert(bv.subrange(0, n as int) =~= bv);
        }
        total
    } else {
        let mut acc = Projective::identity();
        multiexp_serial(coeffs, bases, &mut acc);
        acc
    }
}

/// The externally visible MSM entry point: dispatches to the CPU path (an
/// accelerator path, when present, must agree with it as a group element).
pub fn best_multiexp(coeffs: &Vec<Fp>, bases: &Vec<Affine>) -> (r: Projective)
    requires
        coeffs@.len() == bases@.len(),
        all_wf(coeffs@),
        all_awf(bases@),
    ensures
        r.wf(),
        r.gval() == msm_value(vals(coeffs@), avals(bases@)),
{
    best_multiexp_cpu(coeffs, bases)
}

/// Reads one scalar's machine word.
fn coeff_word(coeffs: &Vec<Fp>, i: usize) -> (r: u64)
    requires
        i < coeffs.len(),
    ensures
        r as nat == vals(coeffs@)[i as int],
{
    proof {
        assert(vals(coeffs@)[i as int] == coeffs@[i as int]@);
    }
    coeffs[i].v
}

/// Reads one base point.
fn poly_base(bases: &Vec<Affine>, i: usize) -> (r: &Affine)
    requires
        i < bases.len(),
    ensures
        *r == bases@[i as int],
{
    &bases[i]
}

/// Reads one bucket.
fn bucket_at(buckets: &Vec<Bucket>, i: usize) -> (r: &Bucket)
    requires
        i < buckets@.len(),
    ensures
        *r == buckets@[i as int],
{
    &buckets[i]
}

} // verus!

//! Polynomial utilities.
//!
//! A polynomial is an ordered sequence of field coefficients, little-endian
//! in degree: index 0 is the constant term and the degree is the length
//! minus one.  Trailing zero coefficients are never trimmed.  This module
//! provides pointwise evaluation, the inner product, synthetic (Kate)
//! division by a linear factor, vanishing-polynomial evaluation and power
//! sequences; Lagrange interpolation lives in `interpolate`.

use vstd::prelude::*;
use crate::field::{fadd, fsub, fmul, vals, all_wf, Fp, P};
use crate::algebra::{
    fpow,
    lemma_ops_in_range,
    lemma_fpow_in_range,
    lemma_fpow_peel,
    lemma_fmul_basics,
    lemma_fmul_comm,
    lemma_fmul_assoc,
    lemma_fmul_distrib,
};
use crate::parallel::{below_fanout_threshold, ceil_chunk_len};

verus! {

/// The value of the polynomial with coefficient sequence `c` at `x`.
pub open spec fn poly_eval(c: Seq<nat>, x: nat) -> nat
    decreases c.len(),
{
    if c.len() == 0 {
        0
    } else {
        fadd(c[0], fmul(x, poly_eval(c.drop_first(), x)))
    }
}

/// The inner product of two coefficient sequences.
pub open spec fn dot(a: Seq<nat>, b: Seq<nat>) -> nat
    decreases a.len(),
{
    if a.len() == 0 {
        0
    } else {
        fadd(dot(a.drop_last(), b.drop_last()), fmul(a.last(), b.last()))
    }
}

/// The value of the vanishing polynomial of `roots` at `z`: the product of
/// `z` minus each root.
pub open spec fn vanishing_eval(roots: Seq<nat>, z: nat) -> nat
    decreases roots.len(),
{
    if roots.len() == 0 {
        1
    } else {
        fmul(vanishing_eval(roots.drop_last(), z), fsub(z, roots.last()))
    }
}

/// The polynomial value is always canonical.
pub proof fn lemma_poly_eval_in_range(c: Seq<nat>, x: nat)
    ensures
        poly_eval(c, x) < P,
{
    if c.len() == 0 {
    } else {
        lemma_ops_in_range(c[0], fmul(x, poly_eval(c.drop_first(), x)));
    }
}

/// Splitting a coefficient sequence: the whole value is the front value
/// plus the back value rescaled by `x` to the length of the front.
pub proof fn lemma_poly_eval_split(s1: Seq<nat>, s2: Seq<nat>, x: nat)
    ensures
        poly_eval(s1 + s2, x) == fadd(poly_eval(s1, x), fmul(fpow(x, s1.len()), poly_eval(s2, x))),
    decreases s1.len(),
{
    if s1.len() == 0 {
        assert(s1 + s2 =~= s2);
        lemma_fmul_basics(poly_eval(s2, x));
        lemma_poly_eval_in_range(s2, x);
        vstd::arithmetic::div_mod::lemma_small_mod(poly_eval(s2, x), P as nat);
        assert(fpow(x, 0) == 1);
        lemma_fmul_basics(0);
        vstd::arithmetic::div_mod::lemma_small_mod(0, P as nat);
    } else {
        let t = s1.drop_first();
        lemma_poly_eval_split(t, s2, x);
        assert((s1 + s2).drop_first() =~= t + s2);
        assert((s1 + s2)[0] == s1[0]);
        // peel the head coefficient off both sides
        assert(poly_eval(s1 + s2, x) == fadd(s1[0], fmul(x, poly_eval(t + s2, x))));
        let a = poly_eval(t, x);
        let b = poly_eval(s2, x);
        // fmul(x, fadd(a, fmul(fpow(x, t.len()), b)))
        lemma_fmul_distrib(x, a, fmul(fpow(x, t.len()), b));
        lemma_fmul_assoc(x, fpow(x, t.len()), b);
        lemma_fpow_peel(x, s1.len());
        assert(fpow(x, s1.len()) == fmul(x, fpow(x, t.len())));
        // regroup the additions
        crate::algebra::lemma_fadd_assoc(
            s1[0],
            fmul(x, a),
            fmul(fpow(x, s1.len()), b),
        );
        assert(poly_eval(s1, x) == fadd(s1[0], fmul(x, a)));
    }
}

/// Evaluates the coefficients `poly[lo..hi]` at `point` by a single Horner
/// fold from the highest coefficient down.
fn eval_range(poly: &Vec<Fp>, point: Fp, lo: usize, hi: usize) -> (r: Fp)
    requires
        all_wf(poly@),
        point.wf(),
        lo <= hi <= poly.len(),
    ensures
        r.wf(),
        r@ == poly_eval(vals(poly@).subrange(lo as int, hi as int), point@),
{
    let ghost c = vals(poly@);
    let mut acc = Fp::zero();
    let mut j = hi;
    proof {
        assert(c.subrange(hi as int, hi as int) =~= Seq::<nat>::empty());
    }
    while j > lo
        invariant
            all_wf(poly@),
            point.wf(),
            acc.wf(),
            lo <= j <= hi <= poly.len(),
            c == vals(poly@),
            acc@ == poly_eval(c.subrange(j as int, hi as int), point@),
        decreases j,
    {
        j = j - 1;
        let ghost prev = acc@;
        acc = acc.mul(point).add(*poly_index(poly, j));
        proof {
            let s = c.subrange(j as int, hi as int);
            assert(s[0] == c[j as int]);
            assert(s.drop_first() =~= c.subrange(j as int + 1, hi as int));
            assert(poly_eval(s, point@) == fadd(c[j as int], fmul(point@, prev)));
            lemma_fmul_comm(point@, prev);
        }
    }
    acc
}

/// Reads one coefficient.
fn poly_index(poly: &Vec<Fp>, i: usize) -> (r: &Fp)
    requires
        i < poly.len(),
    ensures
        *r == poly@[i as int],
{
    &poly[i]
}

/// Evaluates a polynomial, given in coefficient form, at `point`, by
/// Horner's method.  Short inputs use a single fold; longer ones are split
/// into contiguous chunks, each chunk is folded on its own, rescaled by
/// `point` to the power of the chunk's starting index, and the partial
/// values are summed in chunk order.
pub fn eval_polynomial(poly: &Vec<Fp>, point: Fp) -> (r: Fp)
    requires
        all_wf(poly@),
        point.wf(),
    ensures
        r.wf(),
        r@ == poly_eval(vals(poly@), point@),
{
    let ghost c = vals(poly@);
    let n = poly.len();
    proof {
        assert(c.subrange(0, n as int) =~= c);
    }
    if below_fanout_threshold(n) {
        eval_range(poly, point, 0, n)
    } else {
        let chunk_size = ceil_chunk_len(n);
        let mut total = Fp::zero();
        let mut start: usize = 0;
        while start < n
            invariant
                all_wf(poly@),
                point.wf(),
                total.wf(),
                start <= n == poly.len(),
                chunk_size >= 1,
                c == vals(poly@),
                total@ == poly_eval(c.subrange(0, start as int), point@),
            decreases n - start,
        {
            let end = if n - start < chunk_size {
                n
            } else {
                start + chunk_size
            };
            let part = eval_range(poly, point, start, end);
            let scaled = part.mul(point.pow(start as u64));
            let ghost t0 = total@;
            total = total.add(scaled);
            proof {
                lemma_poly_eval_split(
                    c.subrange(0, start as int),
                    c.subrange(start as int, end as int),
                    point@,
                );
                assert(c.subrange(0, start as int) + c.subrange(start as int, end as int)
                    =~= c.subrange(0, end as int));
                lemma_fmul_comm(part@, fpow(point@, start as nat));
            }
            start = end;
        }
        total
    }
}

/// The inner product of two coefficient vectors of the same length.
pub fn compute_inner_product(a: &Vec<Fp>, b: &Vec<Fp>) -> (r: Fp)
    requires
        all_wf(a@),
        all_wf(b@),
        a@.len() == b@.len(),
    ensures
        r.wf(),
        r@ == dot(vals(a@), vals(b@)),
{
    let ghost av = vals(a@);
    let ghost bv = vals(b@);
    let mut acc = Fp::zero();
    let mut i: usize = 0;
    proof {
        assert(av.subrange(0, 0) =~= Seq::<nat>::empty());
        assert(bv.subrange(0, 0) =~= Seq::<nat>::empty());
    }
    while i < a.len()
        invariant
            all_wf(a@),
            all_wf(b@),
            a@.len() == b@.len(),
            acc.wf(),
            i <= a.len(),
            av == vals(a@),
            bv == vals(b@),
            acc@ == dot(av.subrange(0, i as int), bv.subrange(0, i as int)),
        decreases a.len() - i,
    {
        let term = poly_index(a, i).mul(*poly_index(b, i));
        acc = acc.add(term);
        proof {
            let s1 = av.subrange(0, i as int + 1);
            let s2 = bv.subrange(0, i as int + 1);
            assert(s1.drop_last() =~= av.subrange(0, i as int));
            assert(s2.drop_last() =~= bv.subrange(0, i as int));
            assert(s1.last() == av[i as int]);
            assert(s2.last() == bv[i as int]);
        }
        i = i + 1;
    }
    proof {
        assert(av.subrange(0, a@.len() as int) =~= av);
        assert(bv.subrange(0, b@.len() as int) =~= bv);
    }
    acc
}

/// The quotient of the polynomial `c` under synthetic division by the
/// linear factor `X - b`: coefficient `i` of the quotient is the value at
/// `b` of the polynomial formed by the coefficients above index `i`.
pub open spec fn kate_quotient(c: Seq<nat>, b: nat) -> Seq<nat> {
    Seq::new((c.len() - 1) as nat, |i: int| poly_eval(c.subrange(i + 1, c.len() as int), b))
}

/// The division identity of synthetic division: for every point `x`, the
/// dividend equals the quotient times `x - b`, plus the value of the
/// dividend at `b` (the remainder).
#[verifier::spinoff_prover]
#[verifier::rlimit(100)]
pub proof fn lemma_kate_identity(c: Seq<nat>, b: nat, x: nat)
    requires
        c.len() >= 1,
    ensures
        poly_eval(c, x) == fadd(
            fmul(poly_eval(kate_quotient(c, b), x), fsub(x, b)),
            poly_eval(c, b),
        ),
    decreases c.len(),
{
    if c.len() == 1 {
        assert(kate_quotient(c, b) =~= Seq::<nat>::empty());
        lemma_fmul_basics(fsub(x, b));
        lemma_poly_eval_in_range(c, b);
        lemma_poly_eval_in_range(c, x);
        vstd::arithmetic::div_mod::lemma_small_mod(poly_eval(c, b), P as nat);
        // a constant polynomial has the same value everywhere
        assert(c.drop_first().len() == 0);
        assert(poly_eval(c, x) == fadd(c[0], fmul(x, 0)));
        lemma_fmul_basics(x);
        lemma_fmul_basics(b);
        lemma_fmul_basics(c[0]);
        assert(poly_eval(c, x) == c[0] % (P as nat));
        assert(poly_eval(c, b) == c[0] % (P as nat));
    } else {
        let t = c.drop_first();
        lemma_kate_identity(t, b, x);
        let kq = kate_quotient(c, b);
        let kqt = kate_quotient(t, b);
        // the quotient of `c` is the remainder of the tail, then the
        // quotient of the tail
        assert(kq =~= seq![poly_eval(t, b)] + kqt) by {
            assert(kq.len() == c.len() - 1);
            assert(kq[0] == poly_eval(c.subrange(1, c.len() as int), b));
            assert(c.subrange(1, c.len() as int) =~= t);
            assert forall|i: int| 1 <= i < kq.len() implies kq[i] == kqt[i - 1] by {
                assert(kq[i] == poly_eval(c.subrange(i + 1, c.len() as int), b));
                assert(kqt[i - 1] == poly_eval(t.subrange(i, t.len() as int), b));
                assert(c.subrange(i + 1, c.len() as int) =~= t.subrange(i, t.len() as int));
            }
        }
        let rp = poly_eval(t, b);
        let a = poly_eval(kqt, x);
        let d = fsub(x, b);
        // value of the quotient at x: head plus x times the tail value
        assert(poly_eval(kq, x) == fadd(rp, fmul(x, a))) by {
            assert(kq[0] == rp);
            assert(kq.drop_first() =~= kqt);
        }
        // expand both sides
        assert(poly_eval(c, x) == fadd(c[0], fmul(x, poly_eval(t, x))));
        assert(poly_eval(c, b) == fadd(c[0], fmul(b, rp)));
        assert(poly_eval(t, x) == fadd(fmul(a, d), rp));
        // distribute the factor d over the quotient value
        lemma_fmul_comm(fadd(rp, fmul(x, a)), d);
        lemma_fmul_distrib(d, rp, fmul(x, a));
        assert(fmul(poly_eval(kq, x), d) == fadd(fmul(d, rp), fmul(d, fmul(x, a))));
        // fmul(d, rp) + fmul(b, rp) recombine to fmul(x, rp)
        lemma_fmul_comm(d, rp);
        lemma_fmul_comm(b, rp);
        lemma_fmul_distrib(rp, d, b);
        crate::algebra::lemma_fadd_fsub_cancel(x, b);
        assert(fadd(d, b) == x % (P as nat));
        crate::algebra::lemma_fmul_mod(rp, x);
        lemma_fmul_comm(rp, x);
        assert(fmul(rp, fadd(d, b)) == fmul(x, rp));
        let s1 = fmul(x, rp);
        let s2 = fmul(x, fmul(a, d));
        assert(fadd(fmul(d, rp), fmul(b, rp)) == s1);
        // fmul(d, fmul(x, a)) == fmul(x, fmul(a, d)) == s2
        lemma_fmul_comm(d, fmul(x, a));
        lemma_fmul_assoc(x, a, d);
        assert(fmul(d, fmul(x, a)) == s2);
        // right-hand side: (d*rp + s2) + (c0 + b*rp) == c0 + (s2 + s1)
        crate::algebra::lemma_fadd4_fold(fmul(d, rp), s2, c[0], fmul(b, rp), s1);
        // left-hand side: c0 + x*(a*d + rp) == c0 + (s2 + s1)
        lemma_fmul_distrib(x, fmul(a, d), rp);
        assert(poly_eval(c, x) == fadd(c[0], fadd(s2, s1)));
    }
}

/// Exact division: when `b` is a root of the dividend, the dividend is
/// the quotient times `X - b` at every point, with no remainder.
pub proof fn lemma_kate_division_exact(c: Seq<nat>, b: nat, x: nat)
    requires
        c.len() >= 1,
        poly_eval(c, b) == 0,
    ensures
        poly_eval(c, x) == fmul(poly_eval(kate_quotient(c, b), x), fsub(x, b)),
{
    lemma_kate_identity(c, b, x);
    let q = fmul(poly_eval(kate_quotient(c, b), x), fsub(x, b));
    lemma_ops_in_range(poly_eval(kate_quotient(c, b), x), fsub(x, b));
    crate::algebra::lemma_fmul_basics(q);
    vstd::arithmetic::div_mod::lemma_small_mod(q, P as nat);
    assert(fadd(q, 0) == q);
}

/// Divides the polynomial `poly` by the linear factor `X - b`: returns the
/// quotient of synthetic division, one coefficient shorter than the input.
/// For every point `x`, the input equals the quotient times `x - b` plus
/// the input's value at `b`; when `b` is a root the division is exact.
pub fn kate_division(poly: &Vec<Fp>, b: Fp) -> (r: Vec<Fp>)
    requires
        all_wf(poly@),
        b.wf(),
        poly.len() >= 1,
    ensures
        r@.len() == poly@.len() - 1,
        all_wf(r@),
        vals(r@) == kate_quotient(vals(poly@), b@),
        forall|x: nat|
            poly_eval(vals(poly@), x) == fadd(
                fmul(poly_eval(vals(r@), x), fsub(x, b@)),
                poly_eval(vals(poly@), b@),
            ),
{
    let ghost c = vals(poly@);
    let n = poly.len();
    let bneg = b.neg();
    let mut q: Vec<Fp> = Vec::new();
    let mut k: usize = 0;
    while k < n - 1
        invariant
            q@.len() == k <= n - 1,
            all_wf(q@),
        decreases n - k,
    {
        q.push(Fp::zero());
        k = k + 1;
    }
    let mut tmp = Fp::zero();
    let mut j = n;
    proof {
        assert(c.subrange(n as int, n as int) =~= Seq::<nat>::empty());
        lemma_fmul_basics(bneg@);
    }
    while j > 1
        invariant
            all_wf(poly@),
            all_wf(q@),
            b.wf(),
            bneg.wf(),
            tmp.wf(),
            bneg@ == crate::field::fneg(b@),
            1 <= j <= n == poly.len(),
            q@.len() == n - 1,
            c == vals(poly@),
            tmp@ == fmul(poly_eval(c.subrange(j as int, n as int), b@), bneg@),
            forall|t: int|
                j - 1 <= t < n - 1 ==> vals(q@)[t] == poly_eval(
                    c.subrange(t + 1, n as int),
                    b@,
                ),
        decreases j,
    {
        j = j - 1;
        let ghost pe_next = poly_eval(c.subrange(j as int + 1, n as int), b@);
        let lead = poly_index(poly, j).sub(tmp);
        proof {
            let s = c.subrange(j as int, n as int);
            assert(s[0] == c[j as int]);
            assert(s.drop_first() =~= c.subrange(j as int + 1, n as int));
            // tmp holds the previous quotient coefficient times minus b
            crate::algebra::lemma_fmul_comm(pe_next, crate::field::fneg(b@));
            crate::algebra::lemma_fmul_fneg(b@, pe_next);
            crate::algebra::lemma_fmul_comm(b@, pe_next);
            assert(tmp@ == crate::field::fneg(fmul(b@, pe_next)));
            crate::algebra::lemma_fsub_fneg(c[j as int], fmul(b@, pe_next));
            assert(lead@ == fadd(c[j as int], fmul(b@, pe_next)));
            assert(lead@ == poly_eval(s, b@));
        }
        let ghost q0 = q@;
        q[j - 1] = lead;
        tmp = lead.mul(bneg);
        proof {
            assert forall|t: int|
                j - 1 <= t < n - 1 implies vals(q@)[t] == poly_eval(
                    c.subrange(t + 1, n as int),
                    b@,
                ) by {
                assert(vals(q@)[t] == q@[t]@);
                if t > j - 1 {
                    assert(q@[t] == q0[t]);
                    assert(vals(q0)[t] == q0[t]@);
                }
            }
        }
    }
    proof {
        assert(vals(q@) =~= kate_quotient(c, b@));
        assert forall|x: nat|
            poly_eval(c, x) == fadd(
                fmul(poly_eval(vals(q@), x), fsub(x, b@)),
                poly_eval(c, b@),
            ) by {
            lemma_kate_identity(c, b@, x);
        }
    }
    q
}

/// Evaluates the product of `z` minus each root over `roots[lo..hi]` by a
/// single left-to-right fold.
fn vanish_range(roots: &Vec<Fp>, z: Fp, lo: usize, hi: usize) -> (r: Fp)
    requires
        all_wf(roots@),
        z.wf(),
        lo <= hi <= roots.len(),
    ensures
        r.wf(),
        r@ == vanishing_eval(vals(roots@).subrange(lo as int, hi as int), z@),
{
    let ghost c = vals(roots@);
    let mut acc = Fp::one();
    let mut j = lo;
    proof {
        assert(c.subrange(lo as int, lo as int) =~= Seq::<nat>::empty());
    }
    while j < hi
        invariant
            all_wf(roots@),
            z.wf(),
            acc.wf(),
            lo <= j <= hi <= roots.len(),
            c == vals(roots@),
            acc@ == vanishing_eval(c.subrange(lo as int, j as int), z@),
        decreases hi - j,
    {
        let ghost prev = acc@;
        acc = z.sub(*poly_index(roots, j)).mul(acc);
        proof {
            let s = c.subrange(lo as int, j as int + 1);
            assert(s.drop_last() =~= c.subrange(lo as int, j as int));
            assert(s.last() == c[j as int]);
            lemma_fmul_comm(fsub(z@, c[j as int]), prev);
        }
        j = j + 1;
    }
    acc
}

/// The vanishing value of a concatenation is the product of the vanishing
/// values of the parts.
pub proof fn lemma_vanishing_concat(s1: Seq<nat>, s2: Seq<nat>, z: nat)
    ensures
        vanishing_eval(s1 + s2, z) == fmul(vanishing_eval(s1, z), vanishing_eval(s2, z)),
    decreases s2.len(),
{
    if s2.len() == 0 {
        assert(s1 + s2 =~= s1);
        lemma_fmul_basics(vanishing_eval(s1, z));
        lemma_vanishing_in_range(s1, z);
        vstd::arithmetic::div_mod::lemma_small_mod(vanishing_eval(s1, z), P as nat);
    } else {
        let t = s2.drop_last();
        lemma_vanishing_concat(s1, t, z);
        assert((s1 + s2).drop_last() =~= s1 + t);
        assert((s1 + s2).last() == s2.last());
        lemma_fmul_assoc(vanishing_eval(s1, z), vanishing_eval(t, z), fsub(z, s2.last()));
    }
}

/// The vanishing value is always canonical.
pub proof fn lemma_vanishing_in_range(s: Seq<nat>, z: nat)
    ensures
        vanishing_eval(s, z) < P,
{
    if s.len() == 0 {
    } else {
        lemma_ops_in_range(vanishing_eval(s.drop_last(), z), fsub(z, s.last()));
    }
}

/// The vanishing value of canonical roots at a canonical point is zero
/// exactly when the point is one of the roots.
pub proof fn lemma_vanishing_zero_iff(roots: Seq<nat>, z: nat)
    requires
        z < P,
        forall|i: int| 0 <= i < roots.len() ==> #[trigger] roots[i] < P,
    ensures
        (vanishing_eval(roots, z) == 0) <==> (exists|i: int|
            0 <= i < roots.len() && roots[i] == z),
    decreases roots.len(),
{
    if roots.len() == 0 {
    } else {
        let t = roots.drop_last();
        lemma_vanishing_zero_iff(t, z);
        let vt = vanishing_eval(t, z);
        let d = fsub(z, roots.last());
        crate::algebra::lemma_fsub_zero_iff(z, roots.last());
        lemma_vanishing_in_range(t, z);
        crate::algebra::lemma_ops_in_range(z, roots.last());
        if vt != 0 && d != 0 {
            crate::number::lemma_no_zero_divisors(vt, d);
            assert(vanishing_eval(roots, z) != 0);
            assert forall|i: int| 0 <= i < roots.len() implies roots[i] != z by {
                if i < roots.len() - 1 {
                    assert(t[i] == roots[i]);
                }
            }
        } else {
            lemma_fmul_basics(d);
            lemma_fmul_basics(vt);
            crate::algebra::lemma_fmul_mod(vt, d);
            if vt == 0 {
                assert(fmul(vt, d) == 0) by {
                    lemma_fmul_basics(d);
                }
                let i = choose|i: int| 0 <= i < t.len() && t[i] == z;
                assert(roots[i] == z);
            } else {
                assert(d == 0);
                assert(fmul(vt, d) == 0) by {
                    lemma_fmul_basics(vt);
                }
                assert(roots[roots.len() - 1] == z);
            }
        }
    }
}

/// Evaluates the vanishing polynomial of `roots` at `z`: the product of
/// `z - root` over all roots.  Short inputs use a single fold; longer ones
/// are split into contiguous chunks whose partial products are multiplied
/// in chunk order.
pub fn evaluate_vanishing_polynomial(roots: &Vec<Fp>, z: Fp) -> (r: Fp)
    requires
        all_wf(roots@),
        z.wf(),
    ensures
        r.wf(),
        r@ == vanishing_eval(vals(roots@), z@),
{
    let ghost c = vals(roots@);
    let n = roots.len();
    proof {
        assert(c.subrange(0, n as int) =~= c);
    }
    if below_fanout_threshold(n) {
        vanish_range(roots, z, 0, n)
    } else {
        let chunk_size = ceil_chunk_len(n);
        let mut total = Fp::one();
        let mut start: usize = 0;
        while start < n
            invariant
                all_wf(roots@),
                z.wf(),
                total.wf(),
                start <= n == roots.len(),
                chunk_size >= 1,
                c == vals(roots@),
                total@ == vanishing_eval(c.subrange(0, start as int), z@),
            decreases n - start,
        {
            let end = if n - start < chunk_size {
                n
            } else {
                start + chunk_size
            };
            let part = vanish_range(roots, z, start, end);
            total = total.mul(part);
            proof {
                lemma_vanishing_concat(
                    c.subrange(0, start as int),
                    c.subrange(start as int, end as int),
                    z@,
                );
                assert(c.subrange(0, start as int) + c.subrange(start as int, end as int)
                    =~= c.subrange(0, end as int));
            }
            start = end;
        }
        total
    }
}

/// The first `n` powers of `base`, starting at the multiplicative identity.
pub fn powers(base: Fp, n: usize) -> (r: Vec<Fp>)
    requires
        base.wf(),
    ensures
        r@.len() == n,
        all_wf(r@),
        forall|i: int| 0 <= i < n ==> vals(r@)[i] == fpow(base@, i as nat),
{
    let mut out: Vec<Fp> = Vec::new();
    let mut acc = Fp::one();
    let mut i: usize = 0;
    while i < n
        invariant
            base.wf(),
            acc.wf(),
            out@.len() == i <= n,
            all_wf(out@),
            acc@ == fpow(base@, i as nat),
            forall|j: int| 0 <= j < i ==> vals(out@)[j] == fpow(base@, j as nat),
        decreases n - i,
    {
        let ghost out0 = out@;
        let ghost acc0 = acc@;
        out.push(acc);
        acc = acc.mul(base);
        proof {
            lemma_fpow_peel(base@, (i + 1) as nat);
            assert forall|j: int| 0 <= j < i + 1 implies vals(out@)[j] == fpow(
                base@,
                j as nat,
            ) by {
                assert(vals(out@)[j] == out@[j]@);
                if j < i {
                    assert(out@[j] == out0[j]);
                    assert(vals(out0)[j] == out0[j]@);
                } else {
                    assert(out@[j]@ == acc0);
                }
            }
        }
        i = i + 1;
    }
    out
}

} // verus!

//! Lagrange interpolation.
//!
//! Given `n` pairwise-distinct points and matching evaluations,
//! `lagrange_interpolate` returns the coefficients of the unique
//! interpolating polynomial of degree below `n`: its ensures states that
//! evaluating the result at each point gives back the matching evaluation.
//! The pairwise differences are inverted in one batched inversion pass
//! (one field inversion plus a linear number of multiplications), and each
//! Lagrange basis numerator is built by repeated multiplication by scaled
//! linear factors.

use vstd::prelude::*;
use crate::field::{fadd, fsub, fmul, fneg, vals, all_wf, lemma_vals_props, Fp, P};
use crate::algebra::{
    lemma_ops_in_range,
    lemma_fmul_basics,
    lemma_fmul_comm,
    lemma_fmul_assoc,
    lemma_fmul_distrib,
    lemma_fmul_fneg,
    lemma_fsub_is_fadd_fneg,
    lemma_fadd4_regroup,
};
use crate::poly::{poly_eval, lemma_poly_eval_in_range, lemma_poly_eval_split};

verus! {

/// The product of the first `upto` entries of `s`.
pub open spec fn prefix_prod(s: Seq<nat>, upto: int) -> nat
    decreases upto,
{
    if upto <= 0 {
        1
    } else {
        fmul(prefix_prod(s, upto - 1), s[upto - 1])
    }
}

/// A nonzero canonical sequence has nonzero canonical prefix products.
proof fn lemma_prefix_prod_nonzero(s: Seq<nat>, upto: int)
    requires
        0 <= upto <= s.len(),
        forall|i: int| 0 <= i < s.len() ==> 0 < #[trigger] s[i] < P,
    ensures
        0 < prefix_prod(s, upto) < P,
    decreases upto,
{
    if upto > 0 {
        lemma_prefix_prod_nonzero(s, upto - 1);
        crate::number::lemma_no_zero_divisors(prefix_prod(s, upto - 1), s[upto - 1]);
        lemma_ops_in_range(prefix_prod(s, upto - 1), s[upto - 1]);
    }
}

/// Inverts every element of a nonzero vector in one batched pass: running
/// prefix products, a single inversion of the total, and a backward sweep
/// recovering each elementwise inverse.
pub fn batch_invert(v: &Vec<Fp>) -> (r: Vec<Fp>)
    requires
        all_wf(v@),
        forall|i: int| 0 <= i < v@.len() ==> vals(v@)[i] != 0,
    ensures
        r@.len() == v@.len(),
        all_wf(r@),
        forall|i: int| 0 <= i < v@.len() ==> fmul(vals(v@)[i], #[trigger] vals(r@)[i]) == 1,
{
    let ghost vv = vals(v@);
    let n = v.len();
    proof {
        lemma_vals_props(v@);
        assert forall|i: int| 0 <= i < vv.len() implies 0 < #[trigger] vv[i] < P by {
            assert(vals(v@)[i] == v@[i]@);
            assert(v@[i].wf());
        }
    }
    if n == 0 {
        let r: Vec<Fp> = Vec::new();
        return r;
    }
    // forward pass: prefix products
    let mut prefix: Vec<Fp> = Vec::new();
    let mut acc = Fp::one();
    let mut i: usize = 0;
    while i < n
        invariant
            n == v@.len(),
            all_wf(v@),
            vv == vals(v@),
            forall|t: int| 0 <= t < vv.len() ==> 0 < #[trigger] vv[t] < P,
            i <= n,
            prefix@.len() == i,
            all_wf(prefix@),
            acc.wf(),
            acc@ == prefix_prod(vv, i as int),
            forall|t: int| 0 <= t < i ==> #[trigger] vals(prefix@)[t] == prefix_prod(vv, t + 1),
        decreases n - i,
    {
        let ghost pre0 = prefix@;
        acc = acc.mul(v[i]);
        prefix.push(acc);
        proof {
            lemma_vals_props(v@);
            lemma_vals_props(prefix@);
            lemma_vals_props(pre0);
            assert forall|t: int| 0 <= t < i + 1 implies #[trigger] vals(prefix@)[t]
                == prefix_prod(vv, t + 1) by {
                assert(vals(prefix@)[t] == prefix@[t]@);
                if t < i {
                    assert(prefix@[t] == pre0[t]);
                    assert(vals(pre0)[t] == pre0[t]@);
                }
            }
        }
        i = i + 1;
    }
    // one inversion of the total product
    proof {
        lemma_prefix_prod_nonzero(vv, n as int);
        lemma_vals_props(prefix@);
        assert(vals(prefix@)[n - 1] == prefix@[n - 1 as int]@);
        assert(prefix@[n - 1 as int]@ == prefix_prod(vv, n as int));
        assert(prefix@[n - 1 as int].wf());
    }
    let mut run = prefix[n - 1].invert();
    proof {
        lemma_fmul_comm(prefix_prod(vv, n as int), run@);
    }
    // backward sweep
    let mut out: Vec<Fp> = Vec::new();
    let mut k: usize = 0;
    while k < n
        invariant
            n == v@.len(),
            all_wf(v@),
            vv == vals(v@),
            forall|t: int| 0 <= t < vv.len() ==> 0 < #[trigger] vv[t] < P,
            prefix@.len() == n,
            all_wf(prefix@),
            forall|t: int| 0 <= t < n ==> #[trigger] vals(prefix@)[t] == prefix_prod(vv, t + 1),
            k <= n,
            out@.len() == k,
            all_wf(out@),
            run.wf(),
            fmul(run@, prefix_prod(vv, (n - k) as int)) == 1,
            forall|t: int|
                0 <= t < k ==> fmul(vv[n - 1 - t], #[trigger] vals(out@)[t]) == 1,
        decreases n - k,
    {
        let idx = n - 1 - k;
        let ghost runv = run@;
        let r_i = if idx == 0 {
            run
        } else {
            proof {
                lemma_vals_props(prefix@);
                assert(vals(prefix@)[idx - 1] == prefix@[idx - 1]@);
            }
            run.mul(prefix[idx - 1])
        };
        proof {
            // r_i inverts the element at idx
            let pp = prefix_prod(vv, idx as int);
            assert(prefix_prod(vv, idx as int + 1) == fmul(pp, vv[idx as int]));
            if idx == 0 {
                assert(pp == 1);
                lemma_fmul_basics(vv[idx as int]);
                crate::algebra::lemma_fmul_mod(runv, vv[idx as int]);
                assert(fmul(runv, fmul(pp, vv[idx as int])) == fmul(runv, vv[idx as int]))
                    by {
                    lemma_fmul_basics(vv[idx as int]);
                    vstd::arithmetic::div_mod::lemma_small_mod(vv[idx as int], P as nat);
                }
                lemma_fmul_comm(runv, vv[idx as int]);
                assert(fmul(vv[idx as int], r_i@) == 1);
            } else {
                // run * (prefix[idx-1] * v[idx]) == 1
                lemma_fmul_assoc(runv, pp, vv[idx as int]);
                assert(fmul(fmul(runv, pp), vv[idx as int]) == 1);
                lemma_fmul_comm(fmul(runv, pp), vv[idx as int]);
                assert(r_i@ == fmul(runv, pp));
                assert(fmul(vv[idx as int], r_i@) == 1);
            }
        }
        let ghost out0 = out@;
        out.push(r_i);
        run = run.mul(v[idx]);
        proof {
            lemma_vals_props(v@);
            lemma_vals_props(out@);
            lemma_vals_props(out0);
            // the running inverse now inverts one prefix fewer
            let pp = prefix_prod(vv, idx as int);
            lemma_fmul_assoc(runv, vv[idx as int], pp);
            lemma_fmul_comm(vv[idx as int], pp);
            lemma_fmul_assoc(runv, pp, vv[idx as int]);
            assert(fmul(fmul(runv, vv[idx as int]), pp) == fmul(runv, fmul(vv[idx as int], pp)));
            assert(fmul(vv[idx as int], pp) == fmul(pp, vv[idx as int]));
            assert(fmul(runv, fmul(pp, vv[idx as int])) == 1);
            assert(fmul(run@, prefix_prod(vv, idx as int)) == 1);
            assert forall|t: int| 0 <= t < k + 1 implies fmul(
                vv[n - 1 - t],
                #[trigger] vals(out@)[t],
            ) == 1 by {
                assert(vals(out@)[t] == out@[t]@);
                if t < k {
                    assert(out@[t] == out0[t]);
                    assert(vals(out0)[t] == out0[t]@);
                }
            }
        }
        k = k + 1;
    }
    // the backward sweep produced the inverses in reverse order
    let mut res: Vec<Fp> = Vec::new();
    let mut t: usize = 0;
    while t < n
        invariant
            n == out@.len() == v@.len(),
            all_wf(out@),
            vv == vals(v@),
            forall|u: int|
                0 <= u < n ==> fmul(vv[n - 1 - u], #[trigger] vals(out@)[u]) == 1,
            t <= n,
            res@.len() == t,
            all_wf(res@),
            forall|u: int| 0 <= u < t ==> fmul(vv[u], #[trigger] vals(res@)[u]) == 1,
        decreases n - t,
    {
        let ghost res0 = res@;
        res.push(out[n - 1 - t]);
        proof {
            lemma_vals_props(out@);
            lemma_vals_props(res@);
            lemma_vals_props(res0);
            assert forall|u: int| 0 <= u < t + 1 implies fmul(
                vv[u],
                #[trigger] vals(res@)[u],
            ) == 1 by {
                assert(vals(res@)[u] == res@[u]@);
                if u < t {
                    assert(res@[u] == res0[u]);
                    assert(vals(res0)[u] == res0[u]@);
                } else {
                    assert(res@[u] == out@[n - 1 - u]);
                    assert(vals(out@)[n - 1 - u] == out@[n - 1 - u]@);
                    assert(fmul(vv[n - 1 - (n - 1 - u)], vals(out@)[n - 1 - u]) == 1);
                }
            }
        }
        t = t + 1;
    }
    res
}

/// The position of the difference `x_j - x_k` in the flattened table of
/// pairwise differences: row `j` holds the `n - 1` differences against the
/// other points, in point order.
pub open spec fn flatidx(n: int, j: int, k: int) -> int {
    j * (n - 1) + (if k < j {
        k
    } else {
        k - 1
    })
}

/// The partial Lagrange basis numerator for point `j`: the product of the
/// scaled linear factors for points below `upto`, skipping `j` itself,
/// evaluated at `y`.
pub open spec fn basis_partial(pts: Seq<nat>, ds: Seq<nat>, j: int, upto: int, y: nat) -> nat
    decreases upto,
{
    if upto <= 0 {
        1
    } else {
        let prev = basis_partial(pts, ds, j, upto - 1, y);
        if upto - 1 == j {
            prev
        } else {
            fmul(prev, fmul(ds[flatidx(pts.len() as int, j, upto - 1)], fsub(y, pts[upto - 1])))
        }
    }
}

/// The partial interpolation sum: evaluations of the first `j` basis
/// polynomials weighted by the matching evaluations, at `y`.
pub open spec fn interp_sum(pts: Seq<nat>, ds: Seq<nat>, evs: Seq<nat>, j: int, y: nat) -> nat
    decreases j,
{
    if j <= 0 {
        0
    } else {
        fadd(
            interp_sum(pts, ds, evs, j - 1, y),
            fmul(evs[j - 1], basis_partial(pts, ds, j - 1, pts.len() as int, y)),
        )
    }
}

/// At a point other than its own, a basis numerator that has processed
/// that point vanishes.
proof fn lemma_basis_at_other(pts: Seq<nat>, ds: Seq<nat>, j: int, i: int, upto: int)
    requires
        0 <= i < pts.len(),
        i != j,
        i < upto,
        pts[i] < P,
    ensures
        basis_partial(pts, ds, j, upto, pts[i]) == 0,
    decreases upto,
{
    if upto - 1 == i {
        crate::algebra::lemma_fsub_zero_iff(pts[i], pts[i]);
        lemma_fmul_basics(ds[flatidx(pts.len() as int, j, upto - 1)]);
        lemma_fmul_basics(basis_partial(pts, ds, j, upto - 1, pts[i]));
    } else {
        lemma_basis_at_other(pts, ds, j, i, upto - 1);
        if upto - 1 == j {
        } else {
            lemma_fmul_basics(
                fmul(ds[flatidx(pts.len() as int, j, upto - 1)], fsub(pts[i], pts[upto - 1])),
            );
        }
    }
}

/// At its own point, a basis numerator is one, because every factor is a
/// difference times its inverse.
proof fn lemma_basis_at_self(pts: Seq<nat>, ds: Seq<nat>, j: int, upto: int)
    requires
        0 <= j < pts.len(),
        upto <= pts.len(),
        forall|k: int|
            0 <= k < pts.len() && k != j ==> fmul(
                #[trigger] ds[flatidx(pts.len() as int, j, k)],
                fsub(pts[j], pts[k]),
            ) == 1,
    ensures
        basis_partial(pts, ds, j, upto, pts[j]) == 1,
    decreases upto,
{
    if upto > 0 {
        lemma_basis_at_self(pts, ds, j, upto - 1);
        if upto - 1 == j {
        } else {
            lemma_fmul_basics(1);
            vstd::arithmetic::div_mod::lemma_small_mod(1, P as nat);
        }
    }
}

/// The interpolation sum at sample point `i` is the matching evaluation
/// once point `i` has been summed, and zero before.
proof fn lemma_interp_at(pts: Seq<nat>, ds: Seq<nat>, evs: Seq<nat>, i: int, j: int)
    requires
        0 <= i < pts.len(),
        j <= pts.len(),
        evs.len() == pts.len(),
        forall|t: int| 0 <= t < pts.len() ==> #[trigger] pts[t] < P,
        forall|t: int| 0 <= t < evs.len() ==> #[trigger] evs[t] < P,
        forall|jj: int, k: int|
            0 <= jj < pts.len() && 0 <= k < pts.len() && k != jj ==> fmul(
                #[trigger] ds[flatidx(pts.len() as int, jj, k)],
                fsub(pts[jj], pts[k]),
            ) == 1,
    ensures
        interp_sum(pts, ds, evs, j, pts[i]) == if j > i {
            evs[i]
        } else {
            0
        },
    decreases j,
{
    if j > 0 {
        lemma_interp_at(pts, ds, evs, i, j - 1);
        if j - 1 == i {
            lemma_basis_at_self(pts, ds, i, pts.len() as int);
            lemma_fmul_basics(evs[i]);
            vstd::arithmetic::div_mod::lemma_small_mod(evs[i], P as nat);
            lemma_fmul_basics(evs[i]);
        } else {
            lemma_basis_at_other(pts, ds, j - 1, i, pts.len() as int);
            lemma_fmul_basics(evs[j - 1]);
            if j - 1 > i {
                vstd::arithmetic::div_mod::lemma_small_mod(evs[i], P as nat);
                lemma_fmul_basics(evs[i]);
            } else {
                vstd::arithmetic::div_mod::lemma_small_mod(0, P as nat);
                lemma_fmul_basics(0);
            }
        }
    }
}

/// Scaling every coefficient scales the value.
proof fn lemma_eval_scale(p: Seq<nat>, r: Seq<nat>, s: nat, y: nat)
    requires
        r.len() == p.len(),
        forall|i: int| 0 <= i < p.len() ==> #[trigger] r[i] == fmul(p[i], s),
    ensures
        poly_eval(r, y) == fmul(poly_eval(p, y), s),
    decreases p.len(),
{
    if p.len() == 0 {
        lemma_fmul_basics(s);
    } else {
        lemma_eval_scale(p.drop_first(), r.drop_first(), s, y);
        assert(r.drop_first().len() == p.drop_first().len());
        assert forall|i: int| 0 <= i < p.drop_first().len() implies #[trigger] r.drop_first()[i]
            == fmul(p.drop_first()[i], s) by {
            assert(r.drop_first()[i] == r[i + 1]);
            assert(p.drop_first()[i] == p[i + 1]);
        }
        let ep = poly_eval(p.drop_first(), y);
        assert(r[0] == fmul(p[0], s));
        // (p0 + y*ep) * s == p0*s + y*(ep*s)
        lemma_fmul_comm(fadd(p[0], fmul(y, ep)), s);
        lemma_fmul_distrib(s, p[0], fmul(y, ep));
        lemma_fmul_comm(s, p[0]);
        lemma_fmul_comm(s, fmul(y, ep));
        lemma_fmul_assoc(y, ep, s);
        lemma_fmul_comm(fmul(y, ep), s);
    }
}

/// One head step of pointwise addition of values.
#[verifier::spinoff_prover]
#[verifier::rlimit(100)]
proof fn lemma_eval_add_step(p0: nat, q0: nat, ep: nat, eq: nat, y: nat)
    ensures
        fadd(fadd(p0, q0), fmul(y, fadd(ep, eq))) == fadd(
            fadd(p0, fmul(y, ep)),
            fadd(q0, fmul(y, eq)),
        ),
{
    lemma_fmul_distrib(y, ep, eq);
    lemma_fadd4_regroup(p0, fmul(y, ep), q0, fmul(y, eq));
    lemma_fadd4_regroup(p0, q0, fmul(y, ep), fmul(y, eq));
}

/// Adding coefficients pointwise adds the values.
proof fn lemma_eval_add(p: Seq<nat>, q: Seq<nat>, r: Seq<nat>, y: nat)
    requires
        p.len() == q.len() == r.len(),
        forall|i: int| 0 <= i < p.len() ==> #[trigger] r[i] == fadd(p[i], q[i]),
    ensures
        poly_eval(r, y) == fadd(poly_eval(p, y), poly_eval(q, y)),
    decreases p.len(),
{
    if p.len() == 0 {
        vstd::arithmetic::div_mod::lemma_small_mod(0, P as nat);
    } else {
        lemma_eval_add(p.drop_first(), q.drop_first(), r.drop_first(), y);
        assert forall|i: int| 0 <= i < p.drop_first().len() implies #[trigger] r.drop_first()[i]
            == fadd(p.drop_first()[i], q.drop_first()[i]) by {
            assert(r.drop_first()[i] == r[i + 1]);
            assert(p.drop_first()[i] == p[i + 1]);
            assert(q.drop_first()[i] == q[i + 1]);
        }
        let ep = poly_eval(p.drop_first(), y);
        let eq = poly_eval(q.drop_first(), y);
        assert(r[0] == fadd(p[0], q[0]));
        lemma_eval_add_step(p[0], q[0], ep, eq, y);
    }
}

/// A polynomial of all-zero coefficients vanishes everywhere.
proof fn lemma_eval_zero(p: Seq<nat>, y: nat)
    requires
        forall|i: int| 0 <= i < p.len() ==> #[trigger] p[i] == 0,
    ensures
        poly_eval(p, y) == 0,
    decreases p.len(),
{
    if p.len() > 0 {
        lemma_eval_zero(p.drop_first(), y);
        lemma_fmul_basics(y);
        vstd::arithmetic::div_mod::lemma_small_mod(0, P as nat);
    }
}

/// Multiplies every coefficient by `s`.
fn poly_scale(p: &Vec<Fp>, s: Fp) -> (r: Vec<Fp>)
    requires
        all_wf(p@),
        s.wf(),
    ensures
        r@.len() == p@.len(),
        all_wf(r@),
        forall|i: int| 0 <= i < p@.len() ==> #[trigger] vals(r@)[i] == fmul(vals(p@)[i], s@),
        forall|y: nat| poly_eval(vals(r@), y) == fmul(poly_eval(vals(p@), y), s@),
{
    let mut r: Vec<Fp> = Vec::new();
    let mut i: usize = 0;
    while i < p.len()
        invariant
            all_wf(p@),
            s.wf(),
            i <= p@.len(),
            r@.len() == i,
            all_wf(r@),
            forall|t: int| 0 <= t < i ==> #[trigger] vals(r@)[t] == fmul(vals(p@)[t], s@),
        decreases p@.len() - i,
    {
        let ghost r0 = r@;
        proof {
            lemma_vals_props(p@);
        }
        r.push(p[i].mul(s));
        proof {
            lemma_vals_props(r@);
            lemma_vals_props(r0);
            lemma_vals_props(p@);
            assert forall|t: int| 0 <= t < i + 1 implies #[trigger] vals(r@)[t] == fmul(
                vals(p@)[t],
                s@,
            ) by {
                assert(vals(r@)[t] == r@[t]@);
                if t < i {
                    assert(r@[t] == r0[t]);
                    assert(vals(r0)[t] == r0[t]@);
                }
            }
        }
        i = i + 1;
    }
    proof {
        assert forall|y: nat| poly_eval(vals(r@), y) == fmul(
            poly_eval(vals(p@), y),
            s@,
        ) by {
            lemma_vals_props(r@);
            lemma_vals_props(p@);
            lemma_eval_scale(vals(p@), vals(r@), s@, y);
        }
    }
    r
}

/// Adds two coefficient vectors of the same length pointwise.
fn poly_add(p: &Vec<Fp>, q: &Vec<Fp>) -> (r: Vec<Fp>)
    requires
        all_wf(p@),
        all_wf(q@),
        p@.len() == q@.len(),
    ensures
        r@.len() == p@.len(),
        all_wf(r@),
        forall|y: nat|
            poly_eval(vals(r@), y) == fadd(poly_eval(vals(p@), y), poly_eval(vals(q@), y)),
{
    let mut r: Vec<Fp> = Vec::new();
    let mut i: usize = 0;
    while i < p.len()
        invariant
            all_wf(p@),
            all_wf(q@),
            p@.len() == q@.len(),
            i <= p@.len(),
            r@.len() == i,
            all_wf(r@),
            forall|t: int|
                0 <= t < i ==> #[trigger] vals(r@)[t] == fadd(vals(p@)[t], vals(q@)[t]),
        decreases p@.len() - i,
    {
        let ghost r0 = r@;
        proof {
            lemma_vals_props(p@);
            lemma_vals_props(q@);
        }
        r.push(p[i].add(q[i]));
        proof {
            lemma_vals_props(r@);
            lemma_vals_props(r0);
            lemma_vals_props(p@);
            lemma_vals_props(q@);
            assert forall|t: int| 0 <= t < i + 1 implies #[trigger] vals(r@)[t] == fadd(
                vals(p@)[t],
                vals(q@)[t],
            ) by {
                assert(vals(r@)[t] == r@[t]@);
                if t < i {
                    assert(r@[t] == r0[t]);
                    assert(vals(r0)[t] == r0[t]@);
                }
            }
        }
        i = i + 1;
    }
    proof {
        assert forall|y: nat|
            poly_eval(vals(r@), y) == fadd(
                poly_eval(vals(p@), y),
                poly_eval(vals(q@), y),
            ) by {
            lemma_eval_add(vals(p@), vals(q@), vals(r@), y);
        }
    }
    r
}

/// Multiplies the polynomial `tmp` by the scaled linear factor
/// `d * (X - xk)`: the result is one coefficient longer, and its value at
/// any `y` is the value of `tmp` times `d * (y - xk)`.
fn mul_linear(tmp: &Vec<Fp>, d: Fp, xk: Fp) -> (r: Vec<Fp>)
    requires
        all_wf(tmp@),
        d.wf(),
        xk.wf(),
    ensures
        r@.len() == tmp@.len() + 1,
        all_wf(r@),
        forall|y: nat|
            poly_eval(vals(r@), y) == fmul(
                poly_eval(vals(tmp@), y),
                fmul(d@, fsub(y, xk@)),
            ),
{
    let cc = d.mul(xk).neg();
    // tmp padded with a trailing zero, scaled by -d*xk
    let mut padded = tmp.clone();
    padded.push(Fp::zero());
    proof {
        lemma_vals_props(padded@);
        lemma_vals_props(tmp@);
        assert forall|t: int| 0 <= t < padded@.len() implies (#[trigger] padded@[t]).wf() by {
            if t < tmp@.len() {
                assert(padded@[t] == tmp@[t]);
            }
        }
    }
    let s1 = poly_scale(&padded, cc);
    // tmp shifted up by one, scaled by d
    let mut shifted: Vec<Fp> = Vec::new();
    shifted.push(Fp::zero());
    let mut i: usize = 0;
    while i < tmp.len()
        invariant
            all_wf(tmp@),
            i <= tmp@.len(),
            shifted@.len() == i + 1,
            shifted@[0]@ == 0,
            all_wf(shifted@),
            forall|t: int| 0 <= t < i ==> #[trigger] shifted@[t + 1] == tmp@[t],
        decreases tmp@.len() - i,
    {
        let ghost sh0 = shifted@;
        proof {
            lemma_vals_props(tmp@);
        }
        shifted.push(tmp[i]);
        proof {
            assert forall|t: int| 0 <= t < i + 1 implies #[trigger] shifted@[t + 1]
                == tmp@[t] by {
                if t < i {
                    assert(shifted@[t + 1] == sh0[t + 1]);
                }
            }
        }
        i = i + 1;
    }
    let s2 = poly_scale(&shifted, d);
    let r = poly_add(&s1, &s2);
    proof {
        let tv = vals(tmp@);
        lemma_vals_props(tmp@);
        lemma_vals_props(padded@);
        lemma_vals_props(shifted@);
        // the padded sequence has the same value as tmp
        assert(vals(padded@) =~= tv + seq![0nat]) by {
            assert forall|t: int| 0 <= t < padded@.len() implies vals(padded@)[t] == (tv
                + seq![0nat])[t] by {
                assert(vals(padded@)[t] == padded@[t]@);
                if t < tmp@.len() {
                    assert(padded@[t] == tmp@[t]);
                    assert(tv[t] == tmp@[t]@);
                }
            }
        }
        // the shifted sequence is a zero followed by tmp
        assert(vals(shifted@) =~= seq![0nat] + tv) by {
            assert forall|t: int| 0 <= t < shifted@.len() implies vals(shifted@)[t] == (seq![
                0nat,
            ] + tv)[t] by {
                assert(vals(shifted@)[t] == shifted@[t]@);
                if t >= 1 {
                    assert(shifted@[(t - 1) + 1] == tmp@[t - 1]);
                    assert(tv[t - 1] == tmp@[t - 1]@);
                }
            }
        }
        assert forall|y: nat|
            poly_eval(vals(r@), y) == fmul(
                poly_eval(tv, y),
                fmul(d@, fsub(y, xk@)),
            ) by {
            let evt = poly_eval(tv, y);
            lemma_poly_eval_in_range(tv, y);
            // a trailing zero does not change the value
            assert(poly_eval(vals(padded@), y) == evt) by {
                lemma_poly_eval_split(tv, seq![0nat], y);
                assert(poly_eval(seq![0nat], y) == 0) by {
                    lemma_eval_zero(seq![0nat], y);
                }
                lemma_fmul_basics(crate::algebra::fpow(y, tv.len()));
                vstd::arithmetic::div_mod::lemma_small_mod(0, P as nat);
                lemma_fmul_basics(evt);
                vstd::arithmetic::div_mod::lemma_small_mod(evt, P as nat);
            }
            // a leading zero multiplies the value by y
            assert(poly_eval(vals(shifted@), y) == fmul(y, evt)) by {
                assert((seq![0nat] + tv)[0] == 0);
                assert((seq![0nat] + tv).drop_first() =~= tv);
                lemma_ops_in_range(y, evt);
                lemma_fmul_basics((y * evt) as nat);
                vstd::arithmetic::div_mod::lemma_small_mod(fmul(y, evt), P as nat);
                crate::algebra::lemma_fadd_mod(0, (y * evt) as nat);
                assert(poly_eval(seq![0nat] + tv, y) == fadd(0, fmul(y, evt)));
                lemma_fmul_basics(fmul(y, evt));
            }
            // combine the two scaled halves
            assert(poly_eval(vals(s1@), y) == fmul(evt, cc@));
            assert(poly_eval(vals(s2@), y) == fmul(fmul(y, evt), d@));
            lemma_mul_linear_combine(evt, d@, xk@, y);
        }
    }
    r
}

/// The value identity behind one linear-factor multiplication step.
#[verifier::spinoff_prover]
#[verifier::rlimit(100)]
proof fn lemma_mul_linear_combine(evt: nat, d: nat, xk: nat, y: nat)
    ensures
        fadd(fmul(evt, fneg(fmul(d, xk))), fmul(fmul(y, evt), d)) == fmul(
            evt,
            fmul(d, fsub(y, xk)),
        ),
{
    let cc = fneg(fmul(d, xk));
    // d * (y - xk) == d*y + cc
    lemma_fsub_is_fadd_fneg(y, xk);
    lemma_fmul_distrib(d, y, fneg(xk));
    assert(fmul(d, fneg(xk)) == cc) by {
        lemma_fmul_comm(d, fneg(xk));
        lemma_fmul_fneg(xk, d);
        lemma_fmul_comm(xk, d);
    }
    // multiply through by evt
    lemma_fmul_distrib(evt, fmul(d, y), cc);
    assert(fmul(evt, fmul(d, fsub(y, xk))) == fadd(fmul(evt, fmul(d, y)), fmul(evt, cc)));
    // the cross term matches
    assert(fmul(fmul(y, evt), d) == fmul(evt, fmul(d, y))) by {
        lemma_fmul_comm(fmul(y, evt), d);
        lemma_fmul_assoc(d, y, evt);
        lemma_fmul_comm(d, y);
        lemma_fmul_assoc(y, d, evt);
        lemma_fmul_comm(fmul(d, evt), y);
        lemma_fmul_assoc(d, evt, y);
        lemma_fmul_comm(evt, fmul(d, y));
        lemma_fmul_comm(fmul(d, evt), y);
        lemma_fmul_assoc(evt, d, y);
        lemma_fmul_comm(evt, d);
    }
}

/// Returns the coefficients of the unique polynomial of degree below `n`
/// through `n` pairwise-distinct points with the given evaluations: for
/// every `i`, evaluating the result at `points[i]` gives `evals[i]`.  For
/// a single point the constant polynomial is returned.  All pairwise
/// differences are inverted in one batched pass; each Lagrange basis
/// numerator is then built by repeated multiplication by its scaled linear
/// factors and accumulated, weighted by the matching evaluation.
pub fn lagrange_interpolate(points: &Vec<Fp>, evals: &Vec<Fp>) -> (r: Vec<Fp>)
    requires
        points@.len() == evals@.len(),
        all_wf(points@),
        all_wf(evals@),
        forall|i: int, j: int|
            0 <= i < j < points@.len() ==> vals(points@)[i] != vals(points@)[j],
    ensures
        r@.len() == points@.len(),
        all_wf(r@),
        forall|i: int|
            0 <= i < points@.len() ==> poly_eval(vals(r@), #[trigger] vals(points@)[i])
                == vals(evals@)[i],
{
    let ghost pv = vals(points@);
    let ghost ev = vals(evals@);
    let n = points.len();
    proof {
        lemma_vals_props(points@);
        lemma_vals_props(evals@);
        assert forall|t: int| 0 <= t < n implies #[trigger] pv[t] < P by {
            assert(pv[t] == points@[t]@);
            assert(points@[t].wf());
        }
        assert forall|t: int| 0 <= t < n implies #[trigger] ev[t] < P by {
            assert(ev[t] == evals@[t]@);
            assert(evals@[t].wf());
        }
    }
    if n == 0 {
        let r: Vec<Fp> = Vec::new();
        return r;
    }
    if n == 1 {
        let mut r: Vec<Fp> = Vec::new();
        r.push(evals[0]);
        proof {
            lemma_vals_props(r@);
            assert forall|i: int| 0 <= i < 1 implies poly_eval(
                vals(r@),
                #[trigger] vals(points@)[i],
            ) == vals(evals@)[i] by {
                let y = pv[0];
                assert(vals(r@)[0] == evals@[0]@);
                assert(ev[0] == evals@[0]@);
                assert(vals(r@).drop_first().len() == 0);
                assert(poly_eval(vals(r@).drop_first(), y) == 0);
                lemma_fmul_basics(y);
                vstd::arithmetic::div_mod::lemma_small_mod(0, P as nat);
                assert(poly_eval(vals(r@), y) == fadd(ev[0], fmul(y, 0)));
                lemma_fmul_basics(ev[0]);
                vstd::arithmetic::div_mod::lemma_small_mod(ev[0], P as nat);
            }
        }
        return r;
    }
    // the flattened table of pairwise differences, row-major
    let mut denoms: Vec<Fp> = Vec::new();
    let mut j: usize = 0;
    while j < n
        invariant
            n == points@.len() == evals@.len(),
            2 <= n,
            all_wf(points@),
            pv == vals(points@),
            forall|t: int| 0 <= t < n ==> #[trigger] pv[t] < P,
            forall|i: int, jj: int| 0 <= i < jj < n ==> pv[i] != pv[jj],
            j <= n,
            denoms@.len() == j * (n - 1),
            all_wf(denoms@),
            forall|t: int| 0 <= t < denoms@.len() ==> #[trigger] vals(denoms@)[t] != 0,
            forall|jj: int, kk: int|
                0 <= jj < j && 0 <= kk < n && kk != jj ==> #[trigger] vals(denoms@)[flatidx(
                    n as int,
                    jj,
                    kk,
                )] == fsub(pv[jj], pv[kk]),
        decreases n - j,
    {
        let mut k: usize = 0;
        let mut cnt: usize = 0;
        while k < n
            invariant
                n == points@.len(),
                2 <= n,
                all_wf(points@),
                pv == vals(points@),
                forall|t: int| 0 <= t < n ==> #[trigger] pv[t] < P,
                forall|i: int, jj: int| 0 <= i < jj < n ==> pv[i] != pv[jj],
                j < n,
                k <= n,
                cnt == if k <= j {
                    k as int
                } else {
                    k - 1
                },
                denoms@.len() == j * (n - 1) + cnt,
                all_wf(denoms@),
                forall|t: int| 0 <= t < denoms@.len() ==> #[trigger] vals(denoms@)[t] != 0,
                forall|jj: int, kk: int|
                    0 <= jj < j && 0 <= kk < n && kk != jj ==> #[trigger] vals(denoms@)[flatidx(
                        n as int,
                        jj,
                        kk,
                    )] == fsub(pv[jj], pv[kk]),
                forall|kk: int|
                    0 <= kk < k && kk != j ==> #[trigger] vals(denoms@)[flatidx(
                        n as int,
                        j as int,
                        kk,
                    )] == fsub(pv[j as int], pv[kk]),
            decreases n - k,
        {
            if k != j {
                let ghost d0 = denoms@;
                let diff = points[j].sub(points[k]);
                denoms.push(diff);
                proof {
                    lemma_vals_props(points@);
                    lemma_vals_props(denoms@);
                    lemma_vals_props(d0);
                    assert(diff@ == fsub(pv[j as int], pv[k as int]));
                    assert(diff@ != 0) by {
                        crate::algebra::lemma_fsub_zero_iff(pv[j as int], pv[k as int]);
                        if k < j {
                            assert(pv[k as int] != pv[j as int]);
                        }
                    }
                    assert(flatidx(n as int, j as int, k as int) == j * (n - 1) + cnt);
                    assert forall|t: int| 0 <= t < denoms@.len() implies (
                    #[trigger] vals(denoms@)[t]) != 0 by {
                        assert(vals(denoms@)[t] == denoms@[t]@);
                        if t < d0.len() {
                            assert(denoms@[t] == d0[t]);
                            assert(vals(d0)[t] == d0[t]@);
                        }
                    }
                    assert forall|jj: int, kk: int|
                        0 <= jj < j + 1 && 0 <= kk < n && kk != jj && !(jj == j && kk
                            >= k + 1) implies #[trigger] vals(denoms@)[flatidx(
                        n as int,
                        jj,
                        kk,
                    )] == fsub(pv[jj], pv[kk]) by {
                        let fi = flatidx(n as int, jj, kk);
                        assert(0 <= fi < denoms@.len()) by (nonlinear_arith)
                            requires
                                fi == jj * (n - 1) + (if kk < jj {
                                    kk
                                } else {
                                    kk - 1
                                }),
                                0 <= jj <= j < n,
                                0 <= kk < n,
                                kk != jj,
                                jj < j || (jj == j && kk <= k),
                                denoms@.len() == j * (n - 1) + cnt + 1,
                                cnt == if k <= j {
                                    k as int
                                } else {
                                    k - 1
                                },
                        ;
                        assert(vals(denoms@)[fi] == denoms@[fi]@);
                        if fi < d0.len() {
                            assert(denoms@[fi] == d0[fi]);
                            assert(vals(d0)[fi] == d0[fi]@);
                        } else {
                            assert(fi == d0.len()) by (nonlinear_arith)
                                requires
                                    fi == jj * (n - 1) + (if kk < jj {
                                        kk
                                    } else {
                                        kk - 1
                                    }),
                                    d0.len() == j * (n - 1) + cnt,
                                    fi >= d0.len(),
                                    0 <= jj <= j < n,
                                    0 <= kk < n,
                                    kk != jj,
                                    jj < j || (jj == j && kk <= k),
                                    cnt == if k <= j {
                                        k as int
                                    } else {
                                        k - 1
                                    },
                            ;
                            assert(jj == j && kk == k) by (nonlinear_arith)
                                requires
                                    jj * (n - 1) + (if kk < jj {
                                        kk
                                    } else {
                                        kk - 1
                                    }) == j * (n - 1) + cnt,
                                    0 <= jj <= j < n,
                                    0 <= kk < n,
                                    kk != jj,
                                    jj < j || (jj == j && kk <= k),
                                    cnt == if k <= j {
                                        k as int
                                    } else {
                                        k - 1
                                    },
                                    2 <= n,
                            ;
                        }
                    }
                }
                cnt = cnt + 1;
            }
            k = k + 1;
        }
        proof {
            assert((j + 1) * (n - 1) == j * (n - 1) + (n - 1)) by (nonlinear_arith);
        }
        j = j + 1;
    }
    // one batched inversion of every difference
    proof {
        lemma_vals_props(denoms@);
    }
    let dinvs = batch_invert(&denoms);
    let ghost dsv = vals(dinvs@);
    proof {
        lemma_vals_props(dinvs@);
        assert forall|jj: int, kk: int|
            0 <= jj < n && 0 <= kk < n && kk != jj implies fmul(
            #[trigger] dsv[flatidx(n as int, jj, kk)],
            fsub(pv[jj], pv[kk]),
        ) == 1 by {
            let fi = flatidx(n as int, jj, kk);
            assert(0 <= fi < denoms@.len()) by (nonlinear_arith)
                requires
                    fi == jj * (n - 1) + (if kk < jj {
                        kk
                    } else {
                        kk - 1
                    }),
                    0 <= jj < n,
                    0 <= kk < n,
                    kk != jj,
                    denoms@.len() == n * (n - 1),
            ;
            assert(vals(denoms@)[fi] == fsub(pv[jj], pv[kk]));
            assert(fmul(vals(denoms@)[fi], dsv[fi]) == 1);
            lemma_fmul_comm(vals(denoms@)[fi], dsv[fi]);
        }
    }
    // accumulate the weighted basis numerators
    let mut final_poly: Vec<Fp> = Vec::new();
    let mut t: usize = 0;
    while t < n
        invariant
            t <= n,
            final_poly@.len() == t,
            all_wf(final_poly@),
            forall|u: int| 0 <= u < t ==> #[trigger] vals(final_poly@)[u] == 0,
        decreases n - t,
    {
        let ghost f0 = final_poly@;
        final_poly.push(Fp::zero());
        proof {
            lemma_vals_props(final_poly@);
            lemma_vals_props(f0);
            assert forall|u: int| 0 <= u < t + 1 implies #[trigger] vals(final_poly@)[u]
                == 0 by {
                assert(vals(final_poly@)[u] == final_poly@[u]@);
                if u < t {
                    assert(final_poly@[u] == f0[u]);
                    assert(vals(f0)[u] == f0[u]@);
                }
            }
        }
        t = t + 1;
    }
    proof {
        assert forall|y: nat| poly_eval(vals(final_poly@), y) == interp_sum(
            pv,
            dsv,
            ev,
            0,
            y,
        ) by {
            lemma_eval_zero(vals(final_poly@), y);
        }
    }
    let dl = dinvs.len();
    let mut jj: usize = 0;
    let mut row_base: usize = 0;
    while jj < n
        invariant
            n == points@.len() == evals@.len(),
            2 <= n,
            dl == dinvs@.len(),
            row_base == jj * (n - 1),
            all_wf(points@),
            all_wf(evals@),
            pv == vals(points@),
            ev == vals(evals@),
            dsv == vals(dinvs@),
            dinvs@.len() == n * (n - 1),
            all_wf(dinvs@),
            forall|t0: int| 0 <= t0 < n ==> #[trigger] pv[t0] < P,
            forall|t0: int| 0 <= t0 < n ==> #[trigger] ev[t0] < P,
            forall|a: int, b: int|
                0 <= a < n && 0 <= b < n && b != a ==> fmul(
                    #[trigger] dsv[flatidx(n as int, a, b)],
                    fsub(pv[a], pv[b]),
                ) == 1,
            jj <= n,
            final_poly@.len() == n,
            all_wf(final_poly@),
            forall|y: nat|
                poly_eval(vals(final_poly@), y) == interp_sum(pv, dsv, ev, jj as int, y),
        decreases n - jj,
    {
        let mut tmp: Vec<Fp> = Vec::new();
        tmp.push(Fp::one());
        proof {
            lemma_vals_props(tmp@);
            assert forall|y: nat| poly_eval(vals(tmp@), y) == basis_partial(
                pv,
                dsv,
                jj as int,
                0,
                y,
            ) by {
                assert(vals(tmp@)[0] == 1);
                assert(vals(tmp@).drop_first().len() == 0);
                assert(poly_eval(vals(tmp@).drop_first(), y) == 0);
                lemma_fmul_basics(y);
                vstd::arithmetic::div_mod::lemma_small_mod(0, P as nat);
                assert(poly_eval(vals(tmp@), y) == fadd(1, fmul(y, 0)));
                lemma_fmul_basics(1);
                vstd::arithmetic::div_mod::lemma_small_mod(1, P as nat);
            }
        }
        let mut k: usize = 0;
        while k < n
            invariant
                n == points@.len(),
                2 <= n,
                all_wf(points@),
                pv == vals(points@),
                dsv == vals(dinvs@),
                dinvs@.len() == n * (n - 1),
                all_wf(dinvs@),
                dl == dinvs@.len(),
                row_base == jj * (n - 1),
                jj < n,
                k <= n,
                tmp@.len() == 1 + (if k <= jj {
                    k as int
                } else {
                    k - 1
                }),
                all_wf(tmp@),
                forall|y: nat|
                    poly_eval(vals(tmp@), y) == basis_partial(pv, dsv, jj as int, k as int, y),
            decreases n - k,
        {
            if k != jj {
                proof {
                    assert(0 <= flatidx(n as int, jj as int, k as int) < n * (n - 1))
                        by (nonlinear_arith)
                        requires
                            jj < n,
                            k < n,
                            k != jj,
                            2 <= n,
                    ;
                    lemma_vals_props(dinvs@);
                    lemma_vals_props(points@);
                    assert(row_base + (if (k as int) < jj as int {
                        k as int
                    } else {
                        k - 1
                    }) == flatidx(n as int, jj as int, k as int));
                }
                let fi = row_base + (if k < jj {
                    k
                } else {
                    k - 1
                });
                let d = dinvs[fi];
                let ghost told = vals(tmp@);
                tmp = mul_linear(&tmp, d, points[k]);
                proof {
                    assert(d@ == dsv[flatidx(n as int, jj as int, k as int)]);
                    assert(points@[k as int]@ == pv[k as int]);
                    assert forall|y: nat| poly_eval(vals(tmp@), y) == basis_partial(
                        pv,
                        dsv,
                        jj as int,
                        k as int + 1,
                        y,
                    ) by {
                        assert(poly_eval(vals(tmp@), y) == fmul(
                            poly_eval(told, y),
                            fmul(d@, fsub(y, pv[k as int])),
                        ));
                    }
                }
            } else {
                proof {
                    assert forall|y: nat| poly_eval(vals(tmp@), y) == basis_partial(
                        pv,
                        dsv,
                        jj as int,
                        k as int + 1,
                        y,
                    ) by {
                    }
                }
            }
            k = k + 1;
        }
        proof {
            lemma_vals_props(evals@);
        }
        let scaled = poly_scale(&tmp, evals[jj]);
        let ghost fprev = vals(final_poly@);
        final_poly = poly_add(&final_poly, &scaled);
        proof {
            assert(evals@[jj as int]@ == ev[jj as int]);
            assert forall|y: nat| poly_eval(vals(final_poly@), y) == interp_sum(
                pv,
                dsv,
                ev,
                jj as int + 1,
                y,
            ) by {
                assert(poly_eval(vals(final_poly@), y) == fadd(
                    poly_eval(fprev, y),
                    poly_eval(vals(scaled@), y),
                ));
                assert(poly_eval(vals(scaled@), y) == fmul(
                    basis_partial(pv, dsv, jj as int, n as int, y),
                    ev[jj as int],
                ));
                lemma_fmul_comm(basis_partial(pv, dsv, jj as int, n as int, y), ev[jj as int]);
            }
            // the next row of the difference table starts one stride later
            assert((jj + 1) * (n - 1) == jj * (n - 1) + (n - 1)) by (nonlinear_arith);
            assert((jj + 1) * (n - 1) <= n * (n - 1)) by (nonlinear_arith)
                requires
                    jj + 1 <= n,
            ;
        }
        row_base = row_base + (n - 1);
        jj = jj + 1;
    }
    proof {
        assert forall|i: int|
            0 <= i < points@.len() implies poly_eval(
            vals(final_poly@),
            #[trigger] vals(points@)[i],
        ) == vals(evals@)[i] by {
            lemma_interp_at(pv, dsv, ev, i, n as int);
        }
    }
    final_poly
}

} // verus!

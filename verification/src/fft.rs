//! The radix-2 transform (NTT/FFT) over a group.
//!
//! `best_fft_cpu` transforms a buffer of `2^log_n` group elements in place:
//! interpreted as polynomial coefficients over the scalar field, the buffer
//! becomes the polynomial's values at the successive powers of `omega`.
//! The implementation first applies the bit-reversal permutation, then runs
//! butterfly combination passes — stage by stage over all blocks when the
//! transform is shallow enough for stage-level fan-out, and by recursive
//! halving otherwise.  Both strategies compute the same function, stated by
//! the spec `sfft` and tied to pointwise polynomial evaluation when `omega`
//! is a primitive root of order `2^log_n`.

use vstd::prelude::*;
use vstd::arithmetic::power2::pow2;
use crate::field::{fadd, fsub, fmul, fneg, Fp, P};
use crate::algebra::{fpow, is_primitive_root};
use crate::group::FftGroup;
use crate::poly::poly_eval;

verus! {

/// The mathematical representatives of a sequence of group elements.
pub open spec fn gvals<G: FftGroup>(s: Seq<G>) -> Seq<nat> {
    s.map(|i: int, x: G| x.gval())
}

/// Every element of the sequence is canonical.
pub open spec fn all_gwf<G: FftGroup>(s: Seq<G>) -> bool {
    forall|i: int| 0 <= i < s.len() ==> (#[trigger] s[i]).gwf()
}

/// The even-indexed elements.
pub open spec fn evens(s: Seq<nat>) -> Seq<nat> {
    Seq::new(((s.len() + 1) / 2) as nat, |i: int| s[2 * i])
}

/// The odd-indexed elements.
pub open spec fn odds(s: Seq<nat>) -> Seq<nat> {
    Seq::new((s.len() / 2) as nat, |i: int| s[2 * i + 1])
}

/// One butterfly combination of two half-transforms `l` and `r` of equal
/// length: entry `i` of the result is `l[i] + w^i * r[i]`, and entry
/// `i + len` is `l[i] - w^i * r[i]`.
pub open spec fn combine(l: Seq<nat>, r: Seq<nat>, w: nat) -> Seq<nat> {
    Seq::new(2 * l.len(), |i: int|
        if i < l.len() {
            fadd(l[i], fmul(fpow(w, i as nat), r[i]))
        } else {
            fsub(l[i - l.len()], fmul(fpow(w, (i - l.len()) as nat), r[i - l.len()]))
        })
}

/// Entry `j * tc` of the twiddle table `tw` holds `w` to the `j`.
pub open spec fn twiddle_at_ok(tw: Seq<Fp>, tc: int, j: int, w: nat) -> bool {
    j * tc < tw.len() && tw[j * tc]@ == fpow(w, j as nat)
}

/// The twiddle table `tw` serves a combination pass of `half` pairs with
/// stride `tc` for the root `w`.
pub open spec fn twiddle_ok(tw: Seq<Fp>, tc: int, half: int, w: nat) -> bool {
    forall|j: int| 1 <= j < half ==> #[trigger] twiddle_at_ok(tw, tc, j, w)
}

/// The decimation-in-time transform of `v` at `w`, by the even/odd
/// recursion on the natural coefficient order.
pub open spec fn sfft(v: Seq<nat>, w: nat) -> Seq<nat>
    decreases v.len(),
{
    if v.len() <= 1 {
        v
    } else {
        combine(sfft(evens(v), fmul(w, w)), sfft(odds(v), fmul(w, w)), w)
    }
}

/// The function the in-place butterfly network computes on its (already
/// permuted) input: recursive halving into contiguous halves, then one
/// combination pass.
pub open spec fn bfly(v: Seq<nat>, w: nat) -> Seq<nat>
    decreases v.len(),
{
    if v.len() <= 1 {
        v
    } else {
        let h = (v.len() / 2) as int;
        combine(
            bfly(v.subrange(0, h), fmul(w, w)),
            bfly(v.subrange(h, v.len() as int), fmul(w, w)),
            w,
        )
    }
}

/// The `l`-bit reversal of `i`: the low bit of `i` becomes the high bit of
/// the result.
pub open spec fn brev(i: nat, l: nat) -> nat
    decreases l,
{
    if l == 0 {
        0
    } else {
        (i % 2) * pow2((l - 1) as nat) + brev(i / 2, (l - 1) as nat)
    }
}

/// The sequence permuted by `l`-bit reversal of indices.
pub open spec fn brev_permute(s: Seq<nat>, l: nat) -> Seq<nat> {
    Seq::new(s.len(), |i: int| s[brev(i as nat, l) as int])
}

/// The bit reversal of an `l`-bit value is an `l`-bit value.
pub proof fn lemma_brev_range(i: nat, l: nat)
    ensures
        brev(i, l) < pow2(l),
    decreases l,
{
    vstd::arithmetic::power2::lemma_pow2_pos(l);
    if l > 0 {
        lemma_brev_range(i / 2, (l - 1) as nat);
        vstd::arithmetic::power2::lemma_pow2_unfold(l);
        vstd::arithmetic::power2::lemma_pow2_pos((l - 1) as nat);
        assert((i % 2) * pow2((l - 1) as nat) <= pow2((l - 1) as nat)) by {
            if i % 2 == 0 {
                assert((i % 2) * pow2((l - 1) as nat) == 0);
            } else {
                assert(i % 2 == 1);
                assert((i % 2) * pow2((l - 1) as nat) == pow2((l - 1) as nat));
            }
        }
    }
}

/// Appending a top bit to the input prepends it as the low bit of the
/// reversal.
pub proof fn lemma_brev_step(m: nat, b: nat, t: nat)
    requires
        m < pow2(t),
        b <= 1,
    ensures
        brev(m + b * pow2(t), (t + 1) as nat) == 2 * brev(m, t) + b,
    decreases t,
{
    let i = m + b * pow2(t);
    if t == 0 {
        assert(pow2(0) == 1) by {
            vstd::arithmetic::power2::lemma2_to64();
        }
        assert(m == 0);
        assert(i == b);
        assert(brev(b, 1) == (b % 2) * pow2(0) + brev(b / 2, 0));
    } else {
        vstd::arithmetic::power2::lemma_pow2_unfold(t);
        // the appended bit does not change parity, and halving moves it
        // down one position
        assert(b * pow2(t) == (b * pow2((t - 1) as nat)) * 2) by (nonlinear_arith)
            requires
                pow2(t) == 2 * pow2((t - 1) as nat),
        ;
        let bh = b * pow2((t - 1) as nat);
        assert(i == m + bh * 2);
        assert(i % 2 == m % 2 && i / 2 == m / 2 + bh) by {
            vstd::arithmetic::div_mod::lemma_fundamental_div_mod(m as int, 2);
            vstd::arithmetic::div_mod::lemma_fundamental_div_mod_converse(
                i as int,
                2,
                (m / 2 + bh) as int,
                (m % 2) as int,
            );
        }
        assert(m / 2 < pow2((t - 1) as nat)) by {
            vstd::arithmetic::div_mod::lemma_fundamental_div_mod(m as int, 2);
        }
        lemma_brev_step(m / 2, b, (t - 1) as nat);
        assert(brev(i, (t + 1) as nat) == (i % 2) * pow2(t) + brev(i / 2, t));
        assert(brev(i / 2, t) == 2 * brev(m / 2, (t - 1) as nat) + b);
        assert(brev(m, t) == (m % 2) * pow2((t - 1) as nat) + brev(m / 2, (t - 1) as nat));
        assert((m % 2) * pow2(t) == 2 * ((m % 2) * pow2((t - 1) as nat))) by (nonlinear_arith)
            requires
                pow2(t) == 2 * pow2((t - 1) as nat),
        ;
    }
}

/// Bit reversal is an involution on `l`-bit values.
pub proof fn lemma_brev_involution(i: nat, l: nat)
    requires
        i < pow2(l),
    ensures
        brev(brev(i, l), l) == i,
    decreases l,
{
    if l == 0 {
        assert(pow2(0) == 1) by {
            vstd::arithmetic::power2::lemma2_to64();
        }
    } else {
        let t = (l - 1) as nat;
        vstd::arithmetic::power2::lemma_pow2_unfold(l);
        let b = i / pow2(t);
        let m = (i % pow2(t)) as nat;
        vstd::arithmetic::power2::lemma_pow2_pos(t);
        vstd::arithmetic::div_mod::lemma_fundamental_div_mod(i as int, pow2(t) as int);
        vstd::arithmetic::div_mod::lemma_mod_bound(i as int, pow2(t) as int);
        assert(b <= 1) by (nonlinear_arith)
            requires
                i == pow2(t) * b + m,
                i < 2 * pow2(t),
                pow2(t) > 0,
                b >= 0,
                m >= 0,
        ;
        assert(i == m + b * pow2(t)) by (nonlinear_arith)
            requires
                i == pow2(t) * b + m,
        ;
        lemma_brev_step(m, b, t);
        // brev(i, l) == 2 * brev(m, t) + b
        let x = brev(m, t);
        lemma_brev_range(m, t);
        // unfold the outer reversal on 2x + b
        assert(brev((2 * x + b) as nat, l) == ((2 * x + b) % 2) * pow2(t) + brev(
            (2 * x + b) / 2,
            t,
        ));
        assert((2 * x + b) % 2 == b && (2 * x + b) / 2 == x) by {
            vstd::arithmetic::div_mod::lemma_fundamental_div_mod_converse(
                (2 * x + b) as int,
                2,
                x as int,
                b as int,
            );
        }
        lemma_brev_involution(m, t);
    }
}

/// Bit-reversal permutation splits a sequence into the reversal of its even
/// part followed by the reversal of its odd part.
pub proof fn lemma_brev_permute_split(s: Seq<nat>, l: nat)
    requires
        l >= 1,
        s.len() == pow2(l),
    ensures
        brev_permute(s, l) == brev_permute(evens(s), (l - 1) as nat) + brev_permute(
            odds(s),
            (l - 1) as nat,
        ),
{
    let t = (l - 1) as nat;
    let h = pow2(t) as int;
    vstd::arithmetic::power2::lemma_pow2_unfold(l);
    vstd::arithmetic::power2::lemma_pow2_pos(t);
    let lhs = brev_permute(s, l);
    let rhs = brev_permute(evens(s), t) + brev_permute(odds(s), t);
    assert forall|i: int| 0 <= i < s.len() implies lhs[i] == rhs[i] by {
        if i < h {
            lemma_brev_step(i as nat, 0, t);
            assert(brev(i as nat, l) == 2 * brev(i as nat, t));
            lemma_brev_range(i as nat, t);
            assert(rhs[i] == brev_permute(evens(s), t)[i]);
            assert(brev_permute(evens(s), t)[i] == evens(s)[brev(i as nat, t) as int]);
            assert(evens(s)[brev(i as nat, t) as int] == s[2 * (brev(i as nat, t) as int)]);
        } else {
            let m = (i - h) as nat;
            lemma_brev_step(m, 1, t);
            assert(brev(i as nat, l) == 2 * brev(m, t) + 1);
            lemma_brev_range(m, t);
            assert(rhs[i] == brev_permute(odds(s), t)[i - h]);
            assert(brev_permute(odds(s), t)[i - h] == odds(s)[brev(m, t) as int]);
            assert(odds(s)[brev(m, t) as int] == s[2 * (brev(m, t) as int) + 1]);
        }
    }
    assert(lhs =~= rhs);
}

/// Computes the `l`-bit reversal of an index.
fn bitreverse(i: usize, l: u32) -> (r: usize)
    requires
        l < 64,
        (i as nat) < pow2(l as nat),
        pow2(l as nat) <= usize::MAX as nat,
    ensures
        r as nat == brev(i as nat, l as nat),
        (r as nat) < pow2(l as nat),
{
    proof {
        vstd::arithmetic::power2::lemma2_to64();
        assert(brev(i as nat % pow2(0), 0) == 0);
    }
    let mut r: usize = 0;
    let mut n = i;
    let mut t: u32 = 0;
    while t < l
        invariant
            t <= l < 64,
            (i as nat) < pow2(l as nat),
            pow2(l as nat) <= usize::MAX as nat,
            n as nat == (i as nat) / pow2(t as nat),
            r as nat == brev((i as nat) % pow2(t as nat), t as nat),
            (r as nat) < pow2(t as nat),
        decreases l - t,
    {
        proof {
            let ip = i as nat;
            let pt = pow2(t as nat);
            vstd::arithmetic::power2::lemma_pow2_pos(t as nat);
            vstd::arithmetic::power2::lemma_pow2_adds(t as nat, 1);
            assert(pow2(1) == 2) by {
                vstd::arithmetic::power2::lemma2_to64();
            }
            assert(pow2((t + 1) as nat) == pt * 2);
            // peel the next bit of the input
            vstd::arithmetic::div_mod::lemma_mod_breakdown(ip as int, pt as int, 2);
            assert(ip % (pt * 2) == pt * ((ip / pt) % 2) + ip % pt);
            let b = (ip / pt) % 2;
            let m = ip % pt;
            vstd::arithmetic::div_mod::lemma_mod_bound(ip as int, pt as int);
            assert(pt * b == b * pt) by (nonlinear_arith);
            lemma_brev_step(m, b, t as nat);
            assert(brev(ip % pow2((t + 1) as nat), (t + 1) as nat) == 2 * brev(m, t as nat)
                + b);
            // the next bit is the parity of the shifted-down input
            assert(b == (n as nat) % 2);
            // shifting down one more bit divides by the next power of two
            vstd::arithmetic::div_mod::lemma_div_denominator(ip as int, pt as int, 2);
            // the doubled reversal still fits
            if ((t + 1) as nat) < l as nat {
                vstd::arithmetic::power2::lemma_pow2_strictly_increases(
                    (t + 1) as nat,
                    l as nat,
                );
            }
            assert(pow2((t + 1) as nat) <= pow2(l as nat));
        }
        r = r * 2 + (n % 2);
        n = n / 2;
        t = t + 1;
    }
    proof {
        vstd::arithmetic::div_mod::lemma_small_mod(i as nat, pow2(l as nat));
    }
    r
}

/// Applies the bit-reversal permutation in place: element `k` swaps with
/// the element at the `l`-bit reversal of `k`, each pair exactly once.
fn bit_reverse_permute<G: FftGroup>(a: &mut Vec<G>, l: u32)
    requires
        l < 64,
        old(a).len() == pow2(l as nat),
        all_gwf(old(a)@),
    ensures
        final(a)@.len() == old(a)@.len(),
        all_gwf(final(a)@),
        gvals(final(a)@) == brev_permute(gvals(old(a)@), l as nat),
{
    let ghost orig = gvals(old(a)@);
    let n = a.len();
    let mut k: usize = 0;
    while k < n
        invariant
            l < 64,
            a@.len() == n == pow2(l as nat),
            k <= n,
            all_gwf(a@),
            orig == gvals(old(a)@),
            forall|j: int|
                0 <= j < n && (j < k || brev(j as nat, l as nat) < k as nat) ==> gvals(a@)[j]
                    == orig[brev(j as nat, l as nat) as int],
            forall|j: int|
                0 <= j < n && !(j < k || brev(j as nat, l as nat) < k as nat) ==> gvals(
                    a@,
                )[j] == orig[j],
        decreases n - k,
    {
        let rk = bitreverse(k, l);
        proof {
            lemma_brev_involution(k as nat, l as nat);
        }
        if k < rk {
            let vk = a[k];
            let vr = a[rk];
            let ghost before = a@;
            a[k] = vr;
            a[rk] = vk;
            proof {
                assert forall|j: int|
                    0 <= j < n && (j < k + 1 || brev(j as nat, l as nat) < (k + 1) as nat)
                        implies gvals(a@)[j] == orig[brev(j as nat, l as nat) as int] by {
                    if j == k {
                        assert(a@[j] == vr);
                        assert(gvals(a@)[j] == vr.gval());
                        assert(vr == before[rk as int]);
                        assert(gvals(before)[rk as int] == before[rk as int].gval());
                        assert(gvals(before)[rk as int] == orig[rk as int]);
                    } else if j == rk {
                        assert(a@[j] == vk);
                        assert(gvals(a@)[j] == vk.gval());
                        assert(brev(rk as nat, l as nat) == k as nat);
                        assert(vk == before[k as int]);
                        assert(gvals(before)[k as int] == before[k as int].gval());
                        assert(gvals(before)[k as int] == orig[k as int]);
                    } else {
                        assert(a@[j] == before[j]);
                        assert(gvals(a@)[j] == a@[j].gval());
                        assert(gvals(before)[j] == before[j].gval());
                        if j < k || brev(j as nat, l as nat) < k as nat {
                            assert(gvals(before)[j] == orig[brev(j as nat, l as nat) as int]);
                        } else {
                            // the pair owner index must be exactly k, which
                            // only happens for j == k or j == rk
                            if brev(j as nat, l as nat) == k as nat {
                                lemma_brev_involution(j as nat, l as nat);
                                assert(j == rk);
                            }
                            assert(false);
                        }
                    }
                }
                assert forall|j: int|
                    0 <= j < n && !(j < k + 1 || brev(j as nat, l as nat) < (k + 1) as nat)
                        implies gvals(a@)[j] == orig[j] by {
                    assert(j != k && j != rk);
                    assert(a@[j] == before[j]);
                    assert(gvals(a@)[j] == a@[j].gval());
                    assert(gvals(before)[j] == before[j].gval());
                    assert(gvals(before)[j] == orig[j]);
                }
            }
        } else {
            proof {
                assert forall|j: int|
                    0 <= j < n && (j < k + 1 || brev(j as nat, l as nat) < (k + 1) as nat)
                        implies gvals(a@)[j] == orig[brev(j as nat, l as nat) as int] by {
                    if j == k {
                        if rk < k {
                        } else {
                            assert(rk == k);
                        }
                    } else if !(j < k || brev(j as nat, l as nat) < k as nat) {
                        if brev(j as nat, l as nat) == k as nat {
                            lemma_brev_involution(j as nat, l as nat);
                            assert(j == rk);
                            assert(j >= k);
                            assert(j == k);
                        }
                        assert(false);
                    }
                }
            }
        }
        k = k + 1;
    }
    proof {
        assert forall|j: int| 0 <= j < n implies gvals(a@)[j] == brev_permute(
            orig,
            l as nat,
        )[j] by {
            lemma_brev_range(j as nat, l as nat);
        }
        assert(gvals(a@) =~= brev_permute(orig, l as nat));
    }
}

/// Applies one butterfly combination pass over the block
/// `a[start .. start + 2 * half]`, whose halves already hold the two
/// half-transforms: pair `i` combines with the twiddle `w^i`, read from the
/// precomputed table at stride `tc` (the first pair uses the identity as a
/// fast path).
fn butterfly_pass<G: FftGroup>(
    a: &mut Vec<G>,
    start: usize,
    half: usize,
    tc: usize,
    twiddles: &Vec<Fp>,
    Ghost(w): Ghost<nat>,
)
    requires
        half >= 1,
        start + 2 * half <= old(a).len(),
        all_gwf(old(a)@),
        crate::field::all_wf(twiddles@),
        w < P,
        twiddle_ok(twiddles@, tc as int, half as int, w),
    ensures
        final(a)@.len() == old(a)@.len(),
        all_gwf(final(a)@),
        forall|j: int|
            0 <= j < old(a)@.len() && !(start <= j < start + 2 * half) ==> final(a)@[j]
                == old(a)@[j],
        gvals(final(a)@).subrange(start as int, (start + 2 * half) as int) == combine(
            gvals(old(a)@).subrange(start as int, (start + half) as int),
            gvals(old(a)@).subrange((start + half) as int, (start + 2 * half) as int),
            w,
        ),
{
    let ghost orig = old(a)@;
    let ghost l0 = gvals(old(a)@).subrange(start as int, (start + half) as int);
    let ghost r0 = gvals(old(a)@).subrange((start + half) as int, (start + 2 * half) as int);
    let len = a.len();
    let tlen = twiddles.len();
    let mut i: usize = 0;
    while i < half
        invariant
            half >= 1,
            i <= half,
            start + 2 * half <= len == a@.len(),
            a@.len() == orig.len(),
            tlen == twiddles@.len(),
            all_gwf(a@),
            crate::field::all_wf(twiddles@),
            w < P,
            twiddle_ok(twiddles@, tc as int, half as int, w),
            l0 == gvals(orig).subrange(start as int, (start + half) as int),
            r0 == gvals(orig).subrange((start + half) as int, (start + 2 * half) as int),
            forall|j: int|
                0 <= j < orig.len() && !(start <= j < start + 2 * half) ==> a@[j] == orig[j],
            forall|j: int|
                i <= j < half ==> (#[trigger] a@[start + j]) == orig[start + j] && a@[start
                    + half + j] == orig[start + half + j],
            forall|j: int|
                0 <= j < i ==> (#[trigger] gvals(a@)[start + j]) == fadd(
                    l0[j],
                    fmul(fpow(w, j as nat), r0[j]),
                ) && gvals(a@)[start + half + j] == fsub(
                    l0[j],
                    fmul(fpow(w, j as nat), r0[j]),
                ),
        decreases half - i,
    {
        let x = a[start + i];
        let y = a[start + half + i];
        proof {
            x.lemma_gwf();
            y.lemma_gwf();
            assert(x == orig[(start + i) as int]);
            assert(y == orig[(start + half + i) as int]);
            assert(gvals(orig)[(start + i) as int] == orig[(start + i) as int].gval());
            assert(gvals(orig)[(start + half + i) as int] == orig[(start + half
                + i) as int].gval());
            assert(l0[i as int] == x.gval());
            assert(r0[i as int] == y.gval());
        }
        let t: G = if i == 0 {
            proof {
                crate::algebra::lemma_fmul_basics(y.gval());
                vstd::arithmetic::div_mod::lemma_small_mod(y.gval(), P as nat);
                assert(fmul(fpow(w, 0), y.gval()) == y.gval());
            }
            y
        } else {
            proof {
                assert(twiddle_at_ok(twiddles@, tc as int, i as int, w));
                assert((i as int) * (tc as int) < tlen as int);
            }
            let tw = twiddles[i * tc];
            proof {
                crate::algebra::lemma_fmul_comm(y.gval(), fpow(w, i as nat));
            }
            y.gscale(&tw)
        };
        let ghost before = a@;
        let u = x.gadd(&t);
        let v = x.gsub(&t);
        a[start + i] = u;
        a[start + half + i] = v;
        proof {
            assert(t.gval() == fmul(fpow(w, i as nat), r0[i as int]));
            assert forall|j: int|
                0 <= j < i + 1 implies gvals(a@)[start + j] == fadd(
                    l0[j],
                    fmul(fpow(w, j as nat), r0[j]),
                ) && gvals(a@)[start + half + j] == fsub(
                    l0[j],
                    fmul(fpow(w, j as nat), r0[j]),
                ) by {
                assert(gvals(a@)[start + j] == a@[start + j].gval());
                assert(gvals(a@)[start + half + j] == a@[start + half + j].gval());
                if j < i {
                    assert(a@[start + j] == before[start + j]);
                    assert(a@[start + half + j] == before[start + half + j]);
                    assert(gvals(before)[start + j] == before[start + j].gval());
                    assert(gvals(before)[start + half + j] == before[start + half + j].gval());
                } else {
                    assert(a@[start + j] == u);
                    assert(a@[start + half + j] == v);
                }
            }
        }
        i = i + 1;
    }
    proof {
        let res = gvals(a@).subrange(start as int, (start + 2 * half) as int);
        let comb = combine(l0, r0, w);
        assert forall|j: int| 0 <= j < 2 * half implies res[j] == comb[j] by {
            assert(res[j] == gvals(a@)[start + j]);
            assert(gvals(a@)[start + j] == a@[start + j].gval());
            if j < half {
            } else {
                let jh = j - half;
                // mention the paired low index so the loop fact applies
                assert(gvals(a@)[start + jh] == fadd(
                    l0[jh],
                    fmul(fpow(w, jh as nat), r0[jh]),
                ));
                assert(start + j == start + half + jh);
            }
        }
        assert(res =~= comb);
    }
}

/// This performs recursive butterfly arithmetic: the two contiguous halves
/// of `a[start .. start + n]` are transformed (the task-parallel halves of
/// the fork-join strategy), then combined by one butterfly pass with
/// twiddle stride `tc`.
pub fn recursive_butterfly_arithmetic<G: FftGroup>(
    a: &mut Vec<G>,
    start: usize,
    n: usize,
    tc: usize,
    twiddles: &Vec<Fp>,
    Ghost(w): Ghost<nat>,
    Ghost(k): Ghost<nat>,
)
    requires
        k >= 1,
        n == pow2(k),
        start + n <= old(a).len(),
        all_gwf(old(a)@),
        crate::field::all_wf(twiddles@),
        w < P,
        tc >= 1,
        n * tc <= usize::MAX,
        twiddle_ok(twiddles@, tc as int, (n / 2) as int, w),
    ensures
        final(a)@.len() == old(a)@.len(),
        all_gwf(final(a)@),
        forall|j: int|
            0 <= j < old(a)@.len() && !(start <= j < start + n) ==> final(a)@[j] == old(
                a,
            )@[j],
        gvals(final(a)@).subrange(start as int, (start + n) as int) == bfly(
            gvals(old(a)@).subrange(start as int, (start + n) as int),
            w,
        ),
    decreases n,
{
    proof {
        vstd::arithmetic::power2::lemma_pow2_unfold(k);
        vstd::arithmetic::power2::lemma_pow2_pos((k - 1) as nat);
    }
    let ghost orig = old(a)@;
    let ghost seg = gvals(old(a)@).subrange(start as int, (start + n) as int);
    if n == 2 {
        butterfly_pass(a, start, 1, tc, twiddles, Ghost(w));
        proof {
            let res = gvals(a@).subrange(start as int, (start + 2) as int);
            assert(seg.subrange(0, 1) =~= gvals(orig).subrange(
                start as int,
                (start + 1) as int,
            ));
            assert(seg.subrange(1, 2) =~= gvals(orig).subrange(
                (start + 1) as int,
                (start + 2) as int,
            ));
            assert(bfly(seg, w) == combine(
                bfly(seg.subrange(0, 1), fmul(w, w)),
                bfly(seg.subrange(1, 2), fmul(w, w)),
                w,
            ));
        }
    } else {
        let half = n / 2;
        proof {
            assert(pow2(1) == 2) by {
                vstd::arithmetic::power2::lemma2_to64();
            }
            assert(k >= 2) by {
                if k == 1 {
                    assert(n == pow2(1));
                }
            }
            crate::algebra::lemma_ops_in_range(w, w);
            // the even-indexed twiddles at doubled stride are the powers of
            // the squared root
            assert forall|j: int|
                1 <= j < half / 2 implies #[trigger] twiddle_at_ok(
                twiddles@,
                2 * tc as int,
                j,
                fmul(w, w),
            ) by {
                assert(j * (2 * tc) == (2 * j) * tc) by (nonlinear_arith);
                assert(1 <= 2 * j < half);
                assert(twiddle_at_ok(twiddles@, tc as int, 2 * j, w));
                crate::algebra::lemma_fpow_square(w, j as nat);
            }
            assert(twiddle_ok(twiddles@, 2 * tc as int, (half / 2) as int, fmul(w, w)));
            assert(2 * tc <= usize::MAX && half * (2 * tc) <= usize::MAX) by (nonlinear_arith)
                requires
                    n * tc <= usize::MAX,
                    n == 2 * half,
                    half >= 1,
                    tc >= 1,
            ;
        }
        let ghost mid = gvals(old(a)@).subrange(start as int, (start + half) as int);
        recursive_butterfly_arithmetic(a, start, half, 2 * tc, twiddles, Ghost(fmul(w, w)), Ghost((k - 1) as nat));
        let ghost a1 = a@;
        recursive_butterfly_arithmetic(a, start + half, half, 2 * tc, twiddles, Ghost(fmul(w, w)), Ghost((k - 1) as nat));
        let ghost a2 = a@;
        proof {
            // the left half kept its transformed value through the second call
            assert(gvals(a2).subrange(start as int, (start + half) as int) =~= gvals(
                a1,
            ).subrange(start as int, (start + half) as int));
            // the right half of the original was untouched by the first call
            assert(gvals(a1).subrange((start + half) as int, (start + n) as int) =~= gvals(
                orig,
            ).subrange((start + half) as int, (start + n) as int));
        }
        butterfly_pass(a, start, half, tc, twiddles, Ghost(w));
        proof {
            let le = gvals(orig).subrange(start as int, (start + half) as int);
            let ri = gvals(orig).subrange((start + half) as int, (start + n) as int);
            assert(seg.subrange(0, half as int) =~= le);
            assert(seg.subrange(half as int, n as int) =~= ri);
            assert(gvals(a2).subrange(start as int, (start + half) as int) == bfly(
                le,
                fmul(w, w),
            ));
            assert(gvals(a2).subrange((start + half) as int, (start + n) as int) == bfly(
                ri,
                fmul(w, w),
            ));
            assert(gvals(final(a)@).subrange(start as int, (start + n) as int) == combine(
                bfly(le, fmul(w, w)),
                bfly(ri, fmul(w, w)),
                w,
            ));
            assert(bfly(seg, w) == combine(bfly(le, fmul(w, w)), bfly(ri, fmul(w, w)), w));
        }
    }
}

/// Block `b` of size `m` of `av` holds the butterfly transform at `w` of
/// the same block of `r0`.
pub open spec fn block_ok(av: Seq<nat>, r0: Seq<nat>, m: int, w: nat, b: int) -> bool {
    av.subrange(b * m, b * m + m) == bfly(r0.subrange(b * m, b * m + m), w)
}

/// `w` to the first power is `w` itself, for canonical `w`.
proof fn lemma_fpow_one(w: nat)
    requires
        w < P,
    ensures
        fpow(w, 1) == w,
{
    assert(fpow(w, 0) == 1);
    assert(fpow(w, 1) == fmul(w, fpow(w, 0)));
    crate::algebra::lemma_fmul_basics(w);
    vstd::arithmetic::div_mod::lemma_small_mod(w, P as nat);
}

/// Performs the radix-2 transform of `a` in place on the CPU: `a` must
/// hold exactly `2^log_n` elements.  After the bit-reversal permutation
/// and the precomputation of `n/2` twiddle factors, shallow transforms run
/// the stages iteratively (blocks of one stage are independent), deep ones
/// by recursive halving; both compute the decimation-in-time transform at
/// `omega`, stated by `sfft`.
pub fn best_fft_cpu<G: FftGroup>(a: &mut Vec<G>, omega: Fp, log_n: u32)
    requires
        log_n < 32,
        old(a).len() == pow2(log_n as nat),
        all_gwf(old(a)@),
        omega.wf(),
    ensures
        final(a)@.len() == old(a)@.len(),
        all_gwf(final(a)@),
        gvals(final(a)@) == sfft(gvals(old(a)@), omega@),
{
    let ghost v0 = gvals(old(a)@);
    let n = a.len();
    bit_reverse_permute(a, log_n);
    let ghost r0 = gvals(a@);
    let half_n = n / 2;
    let twiddles = crate::poly::powers(omega, half_n);
    proof {
        assert(twiddle_ok(twiddles@, 1, half_n as int, omega@)) by {
            assert forall|j: int| 1 <= j < half_n implies #[trigger] twiddle_at_ok(
                twiddles@,
                1,
                j,
                omega@,
            ) by {
                assert(crate::field::vals(twiddles@)[j] == twiddles@[j]@);
            }
        }
    }
    let threads = crate::parallel::current_num_threads();
    let log_threads = crate::parallel::log2_floor(threads);
    if log_n <= log_threads {
        let mut m: usize = 1;
        let ghost mut s: nat = 0;
        proof {
            assert(pow2(0) == 1) by {
                vstd::arithmetic::power2::lemma2_to64();
            }
            vstd::arithmetic::power2::lemma_pow2_pos(log_n as nat);
            assert forall|j: int| 0 <= j < half_n implies (#[trigger] twiddles@[j])@ == fpow(
                omega@,
                j as nat,
            ) by {
                assert(crate::field::vals(twiddles@)[j] == twiddles@[j]@);
            }
            assert forall|b: int| 0 <= b < n implies #[trigger] block_ok(
                gvals(a@),
                r0,
                1,
                fpow(omega@, n as nat),
                b,
            ) by {
                assert(gvals(a@).subrange(b, b + 1) =~= r0.subrange(b, b + 1));
                assert(r0.subrange(b, b + 1).len() == 1);
            }
        }
        while m < n
            invariant
                1 <= m <= n,
                n == pow2(log_n as nat),
                log_n < 32,
                a@.len() == n,
                all_gwf(a@),
                omega.wf(),
                m == pow2(s),
                s <= log_n,
                r0.len() == n,
                crate::field::all_wf(twiddles@),
                half_n == n / 2,
                twiddles@.len() == half_n,
                twiddle_ok(twiddles@, 1, half_n as int, omega@),
                forall|j: int|
                    0 <= j < half_n ==> (#[trigger] twiddles@[j])@ == fpow(omega@, j as nat),
                forall|b: int|
                    0 <= b < (n as int) / (m as int) ==> #[trigger] block_ok(
                        gvals(a@),
                        r0,
                        m as int,
                        fpow(omega@, ((n as int) / (m as int)) as nat),
                        b,
                    ),
            decreases n - m,
        {
            proof {
                assert(usize::MAX >= 0xffff_ffffusize);
                assert(n <= pow2(31)) by {
                    if (log_n as nat) < 31 {
                        vstd::arithmetic::power2::lemma_pow2_strictly_increases(
                            log_n as nat,
                            31,
                        );
                    }
                }
                assert(pow2(31) == 0x8000_0000) by {
                    vstd::arithmetic::power2::lemma2_to64();
                }
            }
            let tc = n / (2 * m);
            let ghost w_eff = fpow(omega@, tc as nat);
            let ghost w_m = fpow(omega@, ((n as int) / (m as int)) as nat);
            let blocks = tc;
            let mut b: usize = 0;
            proof {
                // the stage's sizes divide exactly
                assert(s < log_n) by {
                    if s == log_n {
                        assert(m == n);
                    }
                }
                vstd::arithmetic::power2::lemma_pow2_adds(s, 1);
                assert(pow2(1) == 2) by {
                    vstd::arithmetic::power2::lemma2_to64();
                }
                vstd::arithmetic::power2::lemma_pow2_subtracts((s + 1) as nat, log_n as nat);
                assert((n as int) / (2 * (m as int)) == pow2((log_n - s - 1) as nat)) by {
                    assert(2 * m == pow2((s + 1) as nat));
                    assert(pow2(log_n as nat) == pow2((s + 1) as nat) * pow2(
                        (log_n - s - 1) as nat,
                    )) by {
                        vstd::arithmetic::power2::lemma_pow2_adds(
                            (s + 1) as nat,
                            (log_n - s - 1) as nat,
                        );
                    }
                    vstd::arithmetic::div_mod::lemma_div_multiples_vanish(
                        pow2((log_n - s - 1) as nat) as int,
                        pow2((s + 1) as nat) as int,
                    );
                    vstd::arithmetic::power2::lemma_pow2_pos((s + 1) as nat);
                }
                vstd::arithmetic::power2::lemma_pow2_subtracts(s, log_n as nat);
                assert((n as int) / (m as int) == pow2((log_n - s) as nat)) by {
                    assert(pow2(log_n as nat) == pow2(s) * pow2((log_n - s) as nat)) by {
                        vstd::arithmetic::power2::lemma_pow2_adds(s, (log_n - s) as nat);
                    }
                    vstd::arithmetic::div_mod::lemma_div_multiples_vanish(
                        pow2((log_n - s) as nat) as int,
                        pow2(s) as int,
                    );
                    vstd::arithmetic::power2::lemma_pow2_pos(s);
                }
                // the stage root squares to the block root
                assert((n as int) / (m as int) == 2 * (tc as int)) by {
                    vstd::arithmetic::power2::lemma_pow2_unfold((log_n - s) as nat);
                }
                crate::algebra::lemma_fpow_add(omega@, tc as nat, tc as nat);
                assert(w_m == fmul(w_eff, w_eff));
                crate::algebra::lemma_fpow_in_range(omega@, tc as nat);
            }
            while b < blocks
                invariant
                    1 <= m < n,
                    n == pow2(log_n as nat),
                    a@.len() == n,
                    all_gwf(a@),
                    omega.wf(),
                    m == pow2(s),
                    s < log_n,
                    r0.len() == n,
                    crate::field::all_wf(twiddles@),
                    half_n == n / 2,
                    twiddles@.len() == half_n,
                    blocks == tc == (n as int) / (2 * (m as int)),
                    tc as int == pow2((log_n - s - 1) as nat),
                    (n as int) / (m as int) == 2 * (tc as int),
                    b <= blocks,
                    forall|j: int|
                        0 <= j < half_n ==> (#[trigger] twiddles@[j])@ == fpow(
                            omega@,
                            j as nat,
                        ),
                    w_eff == fpow(omega@, tc as nat),
                    w_eff < P,
                    w_m == fpow(omega@, ((n as int) / (m as int)) as nat),
                    w_m == fmul(w_eff, w_eff),
                    forall|bb: int|
                        0 <= bb < b ==> #[trigger] block_ok(
                            gvals(a@),
                            r0,
                            2 * (m as int),
                            w_eff,
                            bb,
                        ),
                    forall|bb: int|
                        2 * b <= bb < (n as int) / (m as int) ==> #[trigger] block_ok(
                            gvals(a@),
                            r0,
                            m as int,
                            w_m,
                            bb,
                        ),
                decreases blocks - b,
            {
                proof {
                    // the block to combine lies inside the buffer
                    assert((blocks as int) * (2 * (m as int)) <= n) by {
                        vstd::arithmetic::div_mod::lemma_fundamental_div_mod(
                            n as int,
                            2 * (m as int),
                        );
                        vstd::arithmetic::div_mod::lemma_mod_bound(n as int, 2 * (m as int));
                    }
                    assert((b as int) * (2 * m) + 2 * m <= n) by (nonlinear_arith)
                        requires
                            b < blocks,
                            (blocks as int) * (2 * (m as int)) <= n,
                            m >= 1,
                    ;
                    // the twiddle table serves this stage
                    assert(twiddle_ok(twiddles@, tc as int, m as int, w_eff)) by {
                        assert forall|j: int| 1 <= j < m implies #[trigger] twiddle_at_ok(
                            twiddles@,
                            tc as int,
                            j,
                            w_eff,
                        ) by {
                            assert(j * (tc as int) < (m as int) * (tc as int))
                                by (nonlinear_arith)
                                requires
                                    1 <= j < m,
                                    tc >= 1,
                            ;
                            assert((m as int) * (tc as int) <= half_n as int) by {
                                assert(((n as int) / (2 * (m as int))) * (2 * (m as int)) <= n) by {
                                    vstd::arithmetic::div_mod::lemma_fundamental_div_mod(
                                        n as int,
                                        2 * (m as int),
                                    );
                                    vstd::arithmetic::div_mod::lemma_mod_bound(
                                        n as int,
                                        2 * (m as int),
                                    );
                                }
                                assert(2 * ((m as int) * (tc as int)) == (2 * (m
                                as int)) * (tc as int)) by (nonlinear_arith);
                                assert((2 * (m as int)) * (tc as int) <= n)
                                    by (nonlinear_arith)
                                    requires
                                        tc as int == (n as int) / (2 * (m as int)),
                                        ((n as int) / (2 * (m as int))) * (2 * (m as int)) <= n,
                                ;
                            }
                            assert(twiddles@[j * (tc as int)]@ == fpow(
                                omega@,
                                (j * (tc as int)) as nat,
                            ));
                            crate::algebra::lemma_fpow_mul(omega@, tc as nat, j as nat);
                            assert((tc as int) * j == j * (tc as int)) by (nonlinear_arith);
                        }
                    }
                }
                let ghost abefore = gvals(a@);
                let ghost mi = m as int;
                let ghost bi = b as int;
                let ghost lo = bi * (2 * mi);
                proof {
                    // the two half-blocks were stage-`m` blocks
                    assert(2 * bi + 1 < (n as int) / (m as int));
                    assert(block_ok(gvals(a@), r0, m as int, w_m, 2 * bi));
                    assert(block_ok(gvals(a@), r0, m as int, w_m, 2 * bi + 1));
                    assert(block_ok(abefore, r0, mi, w_m, 2 * bi));
                    assert(block_ok(abefore, r0, mi, w_m, 2 * bi + 1));
                }
                butterfly_pass(a, b * (2 * m), m, tc, &twiddles, Ghost(w_eff));
                proof {
                    assert(block_ok(abefore, r0, mi, w_m, 2 * bi));
                    assert(block_ok(abefore, r0, mi, w_m, 2 * bi + 1));
                    assert((2 * bi) * mi == lo && (2 * bi + 1) * mi == lo + mi)
                        by (nonlinear_arith)
                        requires
                            lo == bi * (2 * mi),
                    ;
                    let seg = r0.subrange(lo, lo + 2 * mi);
                    assert(seg.subrange(0, mi) =~= r0.subrange(lo, lo + mi));
                    assert(seg.subrange(mi, 2 * mi) =~= r0.subrange(lo + mi, lo + 2 * mi));
                    // the combined block is the butterfly of the double block
                    assert(gvals(a@).subrange(lo, lo + 2 * mi) == combine(
                        bfly(seg.subrange(0, mi), fmul(w_eff, w_eff)),
                        bfly(seg.subrange(mi, 2 * mi), fmul(w_eff, w_eff)),
                        w_eff,
                    ));
                    assert(bfly(seg, w_eff) == combine(
                        bfly(seg.subrange(0, mi), fmul(w_eff, w_eff)),
                        bfly(seg.subrange(mi, 2 * mi), fmul(w_eff, w_eff)),
                        w_eff,
                    ));
                    assert(block_ok(gvals(a@), r0, 2 * mi, w_eff, bi));
                    // blocks outside the combined range are untouched
                    assert forall|bb: int| 0 <= bb < bi implies #[trigger] block_ok(
                        gvals(a@),
                        r0,
                        2 * mi,
                        w_eff,
                        bb,
                    ) by {
                        assert(bb * (2 * mi) + 2 * mi <= lo) by (nonlinear_arith)
                            requires
                                0 <= bb < bi,
                                mi >= 1,
                                lo == bi * (2 * mi),
                        ;
                        assert(gvals(a@).subrange(bb * (2 * mi), bb * (2 * mi) + 2 * mi)
                            =~= abefore.subrange(bb * (2 * mi), bb * (2 * mi) + 2 * mi));
                        assert(block_ok(abefore, r0, 2 * mi, w_eff, bb));
                    }
                    assert forall|bb: int|
                        2 * (bi + 1) <= bb < (n as int) / mi implies #[trigger] block_ok(
                        gvals(a@),
                        r0,
                        mi,
                        w_m,
                        bb,
                    ) by {
                        assert(lo + 2 * mi <= bb * mi) by (nonlinear_arith)
                            requires
                                2 * (bi + 1) <= bb,
                                mi >= 1,
                                lo == bi * (2 * mi),
                        ;
                        assert(((n as int) / mi) * mi <= n) by {
                            vstd::arithmetic::div_mod::lemma_fundamental_div_mod(
                                n as int,
                                mi,
                            );
                            vstd::arithmetic::div_mod::lemma_mod_bound(n as int, mi);
                        }
                        assert(bb * mi + mi <= n as int) by (nonlinear_arith)
                            requires
                                bb < (n as int) / mi,
                                ((n as int) / mi) * mi <= n,
                                mi >= 1,
                        ;
                        assert(gvals(a@).subrange(bb * mi, bb * mi + mi) =~= abefore.subrange(
                            bb * mi,
                            bb * mi + mi,
                        ));
                        assert(block_ok(abefore, r0, mi, w_m, bb));
                    }
                }
                b = b + 1;
            }
            proof {
                assert forall|bb: int| 0 <= bb < (n as int) / (2 * (m as int)) implies #[trigger] block_ok(
                    gvals(a@),
                    r0,
                    2 * (m as int),
                    fpow(omega@, ((n as int) / (2 * (m as int))) as nat),
                    bb,
                ) by {
                    assert(block_ok(gvals(a@), r0, 2 * (m as int), w_eff, bb));
                }
                s = s + 1;
                vstd::arithmetic::power2::lemma_pow2_adds((s - 1) as nat, 1);
                assert(pow2(1) == 2) by {
                    vstd::arithmetic::power2::lemma2_to64();
                }
                assert(2 * m == pow2(s));
                assert(pow2(s) <= pow2(log_n as nat)) by {
                    if s < log_n as nat {
                        vstd::arithmetic::power2::lemma_pow2_strictly_increases(
                            s,
                            log_n as nat,
                        );
                    }
                }
            }
            m = 2 * m;
        }
        proof {
            assert(m == n) by {
                if s < log_n {
                    vstd::arithmetic::power2::lemma_pow2_strictly_increases(
                        s,
                        log_n as nat,
                    );
                }
            }
            assert(block_ok(gvals(a@), r0, n as int, fpow(omega@, ((n as int) / (n as int)) as nat), 0));
            vstd::arithmetic::power2::lemma_pow2_pos(log_n as nat);
            assert((n as int) / (n as int) == 1) by {
                vstd::arithmetic::div_mod::lemma_div_by_self(n as int);
            }
            lemma_fpow_one(omega@);
            assert(gvals(a@).subrange(0, n as int) =~= gvals(a@));
            assert(r0.subrange(0, n as int) =~= r0);
            assert(gvals(a@) == bfly(r0, omega@));
        }
    } else {
        proof {
            assert(log_n >= 1);
            vstd::arithmetic::power2::lemma_pow2_pos(log_n as nat);
            assert(twiddle_ok(twiddles@, 1, (n / 2) as int, omega@));
        }
        recursive_butterfly_arithmetic(
            a,
            0,
            n,
            1,
            &twiddles,
            Ghost(omega@),
            Ghost(log_n as nat),
        );
        proof {
            assert(gvals(a@).subrange(0, n as int) =~= gvals(a@));
            assert(r0.subrange(0, n as int) =~= r0);
            assert(gvals(a@) == bfly(r0, omega@));
        }
    }
    proof {
        lemma_bfly_of_brev(v0, omega@, log_n as nat);
    }
}

/// The butterfly network applied to the bit-reversal permutation of a
/// sequence computes the decimation-in-time transform of the sequence.
pub proof fn lemma_bfly_of_brev(v: Seq<nat>, w: nat, l: nat)
    requires
        v.len() == pow2(l),
    ensures
        bfly(brev_permute(v, l), w) == sfft(v, w),
    decreases l,
{
    vstd::arithmetic::power2::lemma_pow2_pos(l);
    if l == 0 {
        assert(pow2(0) == 1) by {
            vstd::arithmetic::power2::lemma2_to64();
        }
        assert(brev(0, 0) == 0);
        assert(brev_permute(v, 0) =~= v);
    } else {
        let t = (l - 1) as nat;
        vstd::arithmetic::power2::lemma_pow2_unfold(l);
        vstd::arithmetic::power2::lemma_pow2_pos(t);
        lemma_brev_permute_split(v, l);
        let b = brev_permute(v, l);
        let be = brev_permute(evens(v), t);
        let bo = brev_permute(odds(v), t);
        assert(evens(v).len() == pow2(t));
        assert(odds(v).len() == pow2(t));
        assert(b.len() == pow2(l));
        let h = pow2(t) as int;
        assert(b.subrange(0, h) =~= be);
        assert(b.subrange(h, b.len() as int) =~= bo);
        lemma_bfly_of_brev(evens(v), fmul(w, w), t);
        lemma_bfly_of_brev(odds(v), fmul(w, w), t);
    }
}

/// Evaluation splits over even and odd coefficients: the value at `y` is
/// the even part's value at `y^2` plus `y` times the odd part's value at
/// `y^2`.
pub proof fn lemma_eval_even_odd(v: Seq<nat>, y: nat)
    ensures
        poly_eval(v, y) == fadd(
            poly_eval(evens(v), fmul(y, y)),
            fmul(y, poly_eval(odds(v), fmul(y, y))),
        ),
    decreases v.len(),
{
    let y2 = fmul(y, y);
    if v.len() == 0 {
        assert(evens(v).len() == 0);
        assert(odds(v).len() == 0);
        crate::algebra::lemma_fmul_basics(y);
        vstd::arithmetic::div_mod::lemma_small_mod(0, P as nat);
    } else if v.len() == 1 {
        assert(evens(v).len() == 1 && evens(v)[0] == v[0]);
        assert(odds(v).len() == 0);
        assert(evens(v).drop_first().len() == 0);
        assert(v.drop_first().len() == 0);
        crate::algebra::lemma_fmul_basics(y);
        crate::algebra::lemma_fmul_basics(y2);
        crate::algebra::lemma_fmul_basics(v[0]);
        assert(poly_eval(v.drop_first(), y) == 0);
        assert(poly_eval(evens(v).drop_first(), y2) == 0);
        assert(poly_eval(v, y) == fadd(v[0], fmul(y, 0)));
        assert(poly_eval(evens(v), y2) == fadd(evens(v)[0], fmul(y2, 0)));
        crate::algebra::lemma_fmul_basics((v[0] % (P as nat)));
        vstd::arithmetic::div_mod::lemma_mod_twice(v[0] as int, P as int);
    } else {
        let a = v[0];
        let b = v[1];
        let t = v.drop_first().drop_first();
        lemma_eval_even_odd(t, y);
        assert(evens(v) =~= seq![a] + evens(t)) by {
            assert(evens(v).len() == (v.len() + 1) / 2);
            assert(evens(t).len() == (t.len() + 1) / 2);
            assert forall|i: int| 0 <= i < evens(v).len() implies evens(v)[i] == (seq![a]
                + evens(t))[i] by {
                if i > 0 {
                    assert(evens(v)[i] == v[2 * i]);
                    assert(evens(t)[i - 1] == t[2 * (i - 1)]);
                    assert(t[2 * (i - 1)] == v[2 * i]);
                }
            }
        }
        assert(odds(v) =~= seq![b] + odds(t)) by {
            assert forall|i: int| 0 <= i < odds(v).len() implies odds(v)[i] == (seq![b]
                + odds(t))[i] by {
                if i > 0 {
                    assert(odds(v)[i] == v[2 * i + 1]);
                    assert(odds(t)[i - 1] == t[2 * (i - 1) + 1]);
                    assert(t[2 * (i - 1) + 1] == v[2 * i + 1]);
                }
            }
        }
        let ep = poly_eval(evens(t), y2);
        let op = poly_eval(odds(t), y2);
        // unfold the head coefficients on both sides
        assert((seq![a] + evens(t)).drop_first() =~= evens(t));
        assert((seq![b] + odds(t)).drop_first() =~= odds(t));
        assert((seq![a] + evens(t))[0] == a);
        assert((seq![b] + odds(t))[0] == b);
        assert(poly_eval(evens(v), y2) == fadd(a, fmul(y2, ep)));
        assert(poly_eval(odds(v), y2) == fadd(b, fmul(y2, op)));
        assert(v.drop_first()[0] == b);
        assert(v.drop_first().drop_first() =~= t);
        let tv = poly_eval(t, y);
        assert(poly_eval(v.drop_first(), y) == fadd(b, fmul(y, tv)));
        assert(poly_eval(v, y) == fadd(a, fmul(y, fadd(b, fmul(y, tv)))));
        // name the four summands both sides decompose into
        let xx = fmul(y, b);
        let yy = fmul(y2, ep);
        let zz = fmul(y2, fmul(y, op));
        // left side: a + (x + (y + z))
        assert(fmul(y, fadd(b, fmul(y, tv))) == fadd(xx, fadd(yy, zz))) by {
            crate::algebra::lemma_fmul_distrib(y, b, fmul(y, tv));
            crate::algebra::lemma_fmul_assoc(y, y, tv);
            assert(fmul(y, fmul(y, tv)) == fmul(y2, tv));
            assert(tv == fadd(ep, fmul(y, op)));
            crate::algebra::lemma_fmul_distrib(y2 as nat, ep, fmul(y, op));
            assert(fmul(y2, tv) == fadd(yy, zz));
        }
        // right side: (a + y) + (x + z)
        assert(fmul(y, poly_eval(odds(v), y2)) == fadd(xx, zz)) by {
            crate::algebra::lemma_fmul_distrib(y, b, fmul(y2, op));
            crate::algebra::lemma_fmul_assoc(y, y2 as nat, op);
            crate::algebra::lemma_fmul_comm(y, y2 as nat);
            crate::algebra::lemma_fmul_assoc(y2 as nat, y, op);
            assert(fmul(y, fmul(y2, op)) == zz);
        }
        crate::algebra::lemma_fadd_assoc(a, yy, fadd(xx, zz));
        crate::algebra::lemma_fadd3_swap(yy, xx, zz);
        crate::algebra::lemma_fadd3_swap(xx, yy, zz);
        assert(fadd(fadd(a, yy), fadd(xx, zz)) == fadd(a, fadd(xx, fadd(yy, zz))));
    }
}

/// The transform at a primitive root is pointwise polynomial evaluation:
/// entry `i` of the transform of canonical coefficients `v` is the value of
/// the polynomial `v` at `w` to the `i`.
pub proof fn lemma_sfft_is_evals(v: Seq<nat>, w: nat, k: nat)
    requires
        v.len() == pow2(k),
        is_primitive_root(w, k),
        forall|i: int| 0 <= i < v.len() ==> v[i] < P,
    ensures
        sfft(v, w).len() == v.len(),
        forall|i: int|
            0 <= i < v.len() ==> #[trigger] sfft(v, w)[i] == poly_eval(v, fpow(w, i as nat)),
    decreases k,
{
    vstd::arithmetic::power2::lemma_pow2_pos(k);
    if k == 0 {
        assert(pow2(0) == 1) by {
            vstd::arithmetic::power2::lemma2_to64();
        }
        assert(v.len() == 1);
        assert(sfft(v, w) == v);
        assert(fpow(w, 0) == 1);
        assert(poly_eval(v.drop_first(), 1) == 0);
        crate::algebra::lemma_fmul_basics(1);
        crate::algebra::lemma_fmul_basics(v[0]);
        vstd::arithmetic::div_mod::lemma_small_mod(v[0], P as nat);
        assert(poly_eval(v, 1) == fadd(v[0], fmul(1, 0)));
        assert(sfft(v, w)[0] == v[0]);
    } else {
        let h = pow2((k - 1) as nat) as int;
        vstd::arithmetic::power2::lemma_pow2_unfold(k);
        let w2 = fmul(w, w);
        crate::algebra::lemma_primitive_root_square(w, k);
        let ev = evens(v);
        let od = odds(v);
        assert(ev.len() == h);
        assert(od.len() == h);
        assert(forall|i: int| 0 <= i < ev.len() ==> #[trigger] ev[i] < P);
        assert(forall|i: int| 0 <= i < od.len() ==> #[trigger] od[i] < P);
        lemma_sfft_is_evals(ev, w2, (k - 1) as nat);
        lemma_sfft_is_evals(od, w2, (k - 1) as nat);
        let e = sfft(ev, w2);
        let o = sfft(od, w2);
        assert(sfft(v, w) == combine(e, o, w));
        assert forall|i: int| 0 <= i < v.len() implies #[trigger] sfft(v, w)[i] == poly_eval(
            v,
            fpow(w, i as nat),
        ) by {
            if i < h {
                let y = fpow(w, i as nat);
                lemma_eval_even_odd(v, y);
                // y squared is the square root raised to i
                crate::algebra::lemma_fpow_add(w, i as nat, i as nat);
                crate::algebra::lemma_fpow_square(w, i as nat);
                assert(fmul(y, y) == fpow(w2, i as nat));
                assert(e[i] == poly_eval(ev, fpow(w2, i as nat)));
                assert(o[i] == poly_eval(od, fpow(w2, i as nat)));
                assert(sfft(v, w)[i] == fadd(e[i], fmul(fpow(w, i as nat), o[i])));
            } else {
                let j = i - h;
                let x = fpow(w, j as nat);
                let y = fpow(w, i as nat);
                // w to the h is minus one, so y is the negation of x
                assert(y == fmul(fpow(w, h as nat), x)) by {
                    crate::algebra::lemma_fpow_add(w, h as nat, j as nat);
                }
                assert(fpow(w, h as nat) == (P - 1) as nat);
                crate::algebra::lemma_fmul_mod((P - 1) as nat, x);
                crate::algebra::lemma_fmul_minus_one(x);
                assert(y == fneg(x));
                lemma_eval_even_odd(v, y);
                // the square of the negation is the square
                assert(fmul(y, y) == fmul(x, x)) by {
                    crate::algebra::lemma_fmul_fneg(x, fneg(x));
                    crate::algebra::lemma_fmul_comm(x, fneg(x));
                    crate::algebra::lemma_fmul_fneg(x, x);
                    crate::algebra::lemma_fneg_fneg(fmul(x, x));
                    crate::algebra::lemma_ops_in_range(x, x);
                    vstd::arithmetic::div_mod::lemma_small_mod(fmul(x, x), P as nat);
                }
                crate::algebra::lemma_fpow_add(w, j as nat, j as nat);
                crate::algebra::lemma_fpow_square(w, j as nat);
                assert(fmul(y, y) == fpow(w2, j as nat));
                assert(e[j] == poly_eval(ev, fpow(w2, j as nat)));
                assert(o[j] == poly_eval(od, fpow(w2, j as nat)));
                // the negated twiddle turns the sum into a difference
                crate::algebra::lemma_fmul_fneg(x, o[j]);
                crate::algebra::lemma_fmul_comm(y, o[j]);
                crate::algebra::lemma_fmul_comm(x, o[j]);
                assert(fmul(y, o[j]) == fneg(fmul(x, o[j]))) by {
                    crate::algebra::lemma_fmul_comm(fneg(x), o[j]);
                }
                crate::algebra::lemma_fsub_is_fadd_fneg(e[j], fmul(x, o[j]));
                assert(sfft(v, w)[i] == fsub(e[j], fmul(fpow(w, j as nat), o[j])));
                assert(poly_eval(v, y) == fadd(e[j], fmul(y, o[j])));
            }
        }
    }
}

/// The transform entry point visible to callers: dispatches to the CPU
/// path (an accelerator path, when present, must agree with it element for
/// element).  When `omega` is a primitive root of order `2^log_n`, the
/// buffer afterwards holds the polynomial's values at the successive
/// powers of `omega`.
pub fn best_fft<G: FftGroup>(a: &mut Vec<G>, omega: Fp, log_n: u32)
    requires
        log_n < 32,
        old(a).len() == pow2(log_n as nat),
        all_gwf(old(a)@),
        omega.wf(),
    ensures
        final(a)@.len() == old(a)@.len(),
        all_gwf(final(a)@),
        gvals(final(a)@) == sfft(gvals(old(a)@), omega@),
        is_primitive_root(omega@, log_n as nat) ==> forall|i: int|
            0 <= i < old(a)@.len() ==> gvals(final(a)@)[i] == poly_eval(
                gvals(old(a)@),
                fpow(omega@, i as nat),
            ),
{
    best_fft_cpu(a, omega, log_n);
    proof {
        if is_primitive_root(omega@, log_n as nat) {
            let v0 = gvals(old(a)@);
            assert forall|i: int| 0 <= i < v0.len() implies #[trigger] v0[i] < P by {
                assert(v0[i] == old(a)@[i].gval());
                old(a)@[i].lemma_gwf();
            }
            lemma_sfft_is_evals(v0, omega@, log_n as nat);
        }
    }
}

/// The inverse root of unity used by `g_to_lagrange` for a transform of
/// size `2^k`: the fixed inverse root squared down to order `2^k`.
pub open spec fn lagrange_omega_inv(k: nat) -> nat {
    fpow(Fp::root_of_unity_inv_val(), pow2((crate::field::S as nat - k) as nat))
}

/// The scaling factor used by `g_to_lagrange` for a transform of size
/// `2^k`: the inverse of two raised to the `k`, which inverts `2^k`.
pub open spec fn lagrange_n_inv(k: nat) -> nat {
    fpow(Fp::two_inv_val(), k)
}

/// Converts a sequence of accumulator-form group elements indexed in the
/// monomial (coefficient) basis into Lagrange-basis compact points: runs
/// the inverse transform at the derived root `lagrange_omega_inv(k)`,
/// scales every element by the inverse of `2^k` over parallel chunks, and
/// normalizes the results to the compact form.
pub fn g_to_lagrange(g_projective: Vec<crate::group::Projective>, k: u32) -> (r: Vec<
    crate::group::Affine,
>)
    requires
        k <= crate::field::S,
        g_projective@.len() == pow2(k as nat),
        all_gwf(g_projective@),
    ensures
        r@.len() == g_projective@.len(),
        is_primitive_root(lagrange_omega_inv(k as nat), k as nat),
        fmul(fpow(2, k as nat), lagrange_n_inv(k as nat)) == 1,
        forall|i: int|
            0 <= i < r@.len() ==> (#[trigger] r@[i]).c@ == fmul(
                lagrange_n_inv(k as nat),
                sfft(gvals(g_projective@), lagrange_omega_inv(k as nat))[i],
            ),
{
    let n_inv = Fp::two_inv().pow(k as u64);
    proof {
        // the scaling factor inverts two to the k, hence the length
        crate::algebra::lemma_fpow_distributes(2, Fp::two_inv_val(), k as nat);
        crate::algebra::lemma_fpow_one_base(k as nat);
        assert(fmul(2, Fp::two_inv_val()) == 1) by {
            crate::algebra::lemma_field_constants();
        }
        assert(fmul(fpow(2, k as nat), lagrange_n_inv(k as nat)) == fpow(1, k as nat));
    }
    let mut omega_inv = Fp::root_of_unity_inv();
    let mut j: u32 = 0;
    let steps = crate::field::S - k;
    proof {
        assert(pow2(0) == 1) by {
            vstd::arithmetic::power2::lemma2_to64();
        }
        lemma_fpow_one(omega_inv@);
    }
    while j < steps
        invariant
            j <= steps == crate::field::S - k,
            omega_inv.wf(),
            omega_inv@ == fpow(Fp::root_of_unity_inv_val(), pow2(j as nat)),
            is_primitive_root(omega_inv@, (crate::field::S - j) as nat),
        decreases steps - j,
    {
        let ghost w0 = omega_inv@;
        omega_inv = omega_inv.mul(omega_inv);
        proof {
            crate::algebra::lemma_primitive_root_square(w0, (crate::field::S - j) as nat);
            crate::algebra::lemma_fpow_add(
                Fp::root_of_unity_inv_val(),
                pow2(j as nat),
                pow2(j as nat),
            );
            vstd::arithmetic::power2::lemma_pow2_adds(j as nat, 1);
            assert(pow2(1) == 2) by {
                vstd::arithmetic::power2::lemma2_to64();
            }
            assert(pow2((j + 1) as nat) == pow2(j as nat) + pow2(j as nat));
        }
        j = j + 1;
    }
    let ghost v0 = gvals(g_projective@);
    let ghost winv = omega_inv@;
    let mut g_lagrange_projective = g_projective;
    best_fft_cpu(&mut g_lagrange_projective, omega_inv, k);
    let ghost before_seq = g_lagrange_projective@;
    let ghost transformed = gvals(g_lagrange_projective@);
    let ghost nv = n_inv@;
    let scale_chunk = |chunk: Vec<crate::group::Projective>, _start: usize| -> (out: Vec<
        crate::group::Projective,
    >)
        requires
            all_gwf(chunk@),
        ensures
            out@.len() == chunk@.len(),
            all_gwf(out@),
            forall|t: int|
                0 <= t < chunk@.len() ==> (#[trigger] out@[t]).gval() == fmul(
                    chunk@[t].gval(),
                    nv,
                ),
        {
            let mut out: Vec<crate::group::Projective> = Vec::new();
            let mut t: usize = 0;
            while t < chunk.len()
                invariant
                    all_gwf(chunk@),
                    n_inv.wf(),
                    nv == n_inv@,
                    out@.len() == t <= chunk@.len(),
                    all_gwf(out@),
                    forall|u: int|
                        0 <= u < t ==> (#[trigger] out@[u]).gval() == fmul(
                            chunk@[u].gval(),
                            nv,
                        ),
                decreases chunk@.len() - t,
            {
                let x = chunk[t];
                proof {
                    assert(chunk@[t as int].gwf());
                }
                out.push(x.gscale(&n_inv));
                t = t + 1;
            }
            out
        };
    proof {
        let cs0 = crate::parallel::spec_chunk_len(before_seq.len()) as int;
        assert forall|c: Vec<crate::group::Projective>, st: usize|
            crate::parallel::is_chunk(before_seq, c@, st as int, cs0) implies call_requires(
            scale_chunk,
            (c, st),
        ) by {
            assert forall|t: int| 0 <= t < c@.len() implies (#[trigger] c@[t]).gwf() by {
                assert(c@[t] == before_seq[st + t]);
            }
        }
    }
    let scaled = crate::parallel::parallelize(g_lagrange_projective, scale_chunk);
    proof {
        // read the per-chunk guarantees back as an elementwise fact
        let cs = crate::parallel::spec_chunk_len(before_seq.len()) as int;
        assert forall|i: int| 0 <= i < scaled@.len() implies (#[trigger] scaled@[i]).gval()
            == fmul(lagrange_n_inv(k as nat), sfft(v0, winv)[i]) by {
            let sstart = (i / cs) * cs;
            vstd::arithmetic::div_mod::lemma_fundamental_div_mod(i, cs);
            vstd::arithmetic::div_mod::lemma_mod_bound(i, cs);
            assert(cs * (i / cs) == (i / cs) * cs) by (nonlinear_arith);
            assert(sstart == i - i % cs);
            assert(sstart <= i < sstart + cs);
            vstd::arithmetic::div_mod::lemma_mod_multiples_basic(i / cs, cs);
            assert(sstart % cs == 0);
            assert(crate::parallel::chunk_processed(
                before_seq,
                scaled@,
                scale_chunk,
                sstart,
                cs,
            ));
            let e = if sstart + cs <= before_seq.len() {
                sstart + cs
            } else {
                before_seq.len() as int
            };
            let (c, o): (Vec<crate::group::Projective>, Vec<crate::group::Projective>) =
                choose|c: Vec<crate::group::Projective>, o: Vec<crate::group::Projective>|
                c@ == before_seq.subrange(sstart, e) && o@ == scaled@.subrange(sstart, e)
                    && #[trigger] call_ensures(scale_chunk, (c, sstart as usize), o);
            let t = i - sstart;
            assert(c@[t] == before_seq[i]);
            assert(o@[t].gval() == fmul(c@[t].gval(), nv));
            assert(o@[t] == scaled@[i]);
            assert(transformed[i] == before_seq[i].gval());
            crate::algebra::lemma_fmul_comm(before_seq[i].gval(), nv);
            assert(transformed == sfft(v0, winv));
        }
    }
    let g_lagrange = crate::group::batch_normalize(&scaled);
    proof {
        assert forall|i: int| 0 <= i < g_lagrange@.len() implies (#[trigger] g_lagrange@[i]).c@
            == fmul(lagrange_n_inv(k as nat), sfft(v0, winv)[i]) by {
            assert(g_lagrange@[i].c == scaled@[i].c);
        }
    }
    g_lagrange
}

/// The power-sum form of a polynomial value: the sum over `j` below `m`
/// of `c[j]` times `y` to the `j`.
pub open spec fn psum(c: Seq<nat>, y: nat, m: int) -> nat
    decreases m,
{
    if m <= 0 {
        0
    } else {
        fadd(psum(c, y, m - 1), fmul(c[m - 1], fpow(y, (m - 1) as nat)))
    }
}

/// Horner evaluation equals the power sum.
pub proof fn lemma_eval_is_psum(c: Seq<nat>, y: nat)
    ensures
        poly_eval(c, y) == psum(c, y, c.len() as int),
    decreases c.len(),
{
    if c.len() > 0 {
        lemma_eval_is_psum(c.drop_first(), y);
        lemma_psum_head(c, y, c.len() as int);
    }
}

/// Peeling the constant coefficient off a power sum.
proof fn lemma_psum_head(c: Seq<nat>, y: nat, m: int)
    requires
        1 <= m <= c.len(),
    ensures
        psum(c, y, m) == fadd(c[0], fmul(y, psum(c.drop_first(), y, m - 1))),
    decreases m,
{
    let t = c.drop_first();
    if m == 1 {
        assert(fpow(y, 0) == 1);
        crate::algebra::lemma_fmul_basics(c[0]);
        vstd::arithmetic::div_mod::lemma_mod_twice(c[0] as int, P as int);
        crate::algebra::lemma_fmul_basics(y);
        vstd::arithmetic::div_mod::lemma_small_mod(0, P as nat);
        crate::algebra::lemma_fadd_mod(c[0], 0);
        assert(psum(c, y, 0) == 0);
        assert(psum(c, y, 1) == fadd(0, fmul(c[0], 1)));
        crate::algebra::lemma_fmul_basics((c[0] % (P as nat)));
        assert(fadd(c[0], fmul(y, 0)) == fadd(c[0], 0));
    } else {
        lemma_psum_head(c, y, m - 1);
        assert(t[m - 2] == c[m - 1]);
        // the top term of the tail sum absorbs one factor of y
        crate::algebra::lemma_fpow_peel(y, (m - 1) as nat);
        let topc = c[m - 1];
        let a = psum(c.drop_first(), y, m - 2);
        let b = fmul(topc, fpow(y, (m - 2) as nat));
        assert(psum(t, y, m - 1) == fadd(a, b));
        // c-side: psum(c, m) == fadd(psum(c, m-1), topc * y^{m-1})
        assert(psum(c, y, m) == fadd(psum(c, y, m - 1), fmul(topc, fpow(y, (m - 1) as nat))));
        assert(psum(c, y, m - 1) == fadd(c[0], fmul(y, a)));
        // y * (a + b) == y*a + y*b, and y*b == topc * y^{m-1}
        crate::algebra::lemma_fmul_distrib(y, a, b);
        assert(fmul(y, b) == fmul(topc, fpow(y, (m - 1) as nat))) by {
            crate::algebra::lemma_fmul_comm(y, b);
            crate::algebra::lemma_fmul_assoc(topc, fpow(y, (m - 2) as nat), y);
            assert(fmul(fpow(y, (m - 2) as nat), y) == fpow(y, (m - 1) as nat));
        }
        crate::algebra::lemma_fadd_assoc(c[0], fmul(y, a), fmul(y, b));
    }
}

/// The geometric sum: powers of `z` below `m`, summed.
pub open spec fn geo(z: nat, m: int) -> nat
    decreases m,
{
    if m <= 0 {
        0
    } else {
        fadd(geo(z, m - 1), fpow(z, (m - 1) as nat))
    }
}

/// The transform-of-transform row sum: entries of the first transform,
/// weighted by powers of the second point `x`, summed over rows below `m`.
pub open spec fn rowsum(v: Seq<nat>, w: nat, x: nat, n: int, m: int) -> nat
    decreases m,
{
    if m <= 0 {
        0
    } else {
        fadd(rowsum(v, w, x, n, m - 1), fmul(psum(v, fpow(w, (m - 1) as nat), n), fpow(x, (m
            - 1) as nat)))
    }
}

/// The same double sum, summed by columns: each coefficient `v[t]` times
/// the geometric sum of its ratio `w^t * x`.
pub open spec fn colsum(v: Seq<nat>, w: nat, x: nat, tcount: int, m: int) -> nat
    decreases tcount,
{
    if tcount <= 0 {
        0
    } else {
        fadd(
            colsum(v, w, x, tcount - 1, m),
            fmul(v[tcount - 1], geo(fmul(fpow(w, (tcount - 1) as nat), x), m)),
        )
    }
}

/// Scaling a one-step-extended sum by a common factor.
#[verifier::spinoff_prover]
#[verifier::rlimit(100)]
proof fn lemma_row_step(a: nat, vt: nat, pw: nat, x: nat)
    ensures
        fmul(fadd(a, fmul(vt, pw)), x) == fadd(fmul(a, x), fmul(vt, fmul(pw, x))),
{
    crate::algebra::lemma_fmul_comm(fadd(a, fmul(vt, pw)), x);
    crate::algebra::lemma_fmul_distrib(x, a, fmul(vt, pw));
    crate::algebra::lemma_fmul_comm(x, a);
    crate::algebra::lemma_fmul_comm(x, fmul(vt, pw));
    crate::algebra::lemma_fmul_assoc(vt, pw, x);
}

/// One row, read column-wise: the coefficients times the `m`-th powers of
/// their ratios sum to the `m`-th row of the double sum.
proof fn lemma_row_as_columns(v: Seq<nat>, w: nat, x: nat, tcount: int, m: int)
    requires
        m >= 0,
    ensures
        colsum_pow(v, w, x, tcount, m) == fmul(
            psum(v, fpow(w, m as nat), tcount),
            fpow(x, m as nat),
        ),
    decreases tcount,
{
    if tcount <= 0 {
        crate::algebra::lemma_fmul_basics(fpow(x, m as nat));
        vstd::arithmetic::div_mod::lemma_small_mod(0, P as nat);
    } else {
        lemma_row_as_columns(v, w, x, tcount - 1, m);
        let t = tcount - 1;
        let yt = fmul(fpow(w, t as nat), x);
        // (w^t * x)^m == (w^m)^t * x^m
        crate::algebra::lemma_fpow_distributes(fpow(w, t as nat), x, m as nat);
        crate::algebra::lemma_fpow_mul(w, t as nat, m as nat);
        crate::algebra::lemma_fpow_mul(w, m as nat, t as nat);
        assert((t as nat) * (m as nat) == (m as nat) * (t as nat)) by (nonlinear_arith);
        let pw = fpow(fpow(w, m as nat), t as nat);
        assert(fpow(yt, m as nat) == fmul(pw, fpow(x, m as nat)));
        let a = psum(v, fpow(w, m as nat), tcount - 1);
        assert(psum(v, fpow(w, m as nat), tcount) == fadd(a, fmul(v[t], pw)));
        lemma_row_step(a, v[t], pw, fpow(x, m as nat));
    }
}

/// The coefficients times the `m`-th powers of their ratios, summed.
pub open spec fn colsum_pow(v: Seq<nat>, w: nat, x: nat, tcount: int, m: int) -> nat
    decreases tcount,
{
    if tcount <= 0 {
        0
    } else {
        fadd(
            colsum_pow(v, w, x, tcount - 1, m),
            fmul(v[tcount - 1], fpow(fmul(fpow(w, (tcount - 1) as nat), x), m as nat)),
        )
    }
}

/// Exchanging the order of the double summation.
proof fn lemma_sum_exchange(v: Seq<nat>, w: nat, x: nat, n: int, m: int)
    requires
        m >= 0,
    ensures
        rowsum(v, w, x, n, m) == colsum(v, w, x, n, m),
    decreases m,
{
    if m == 0 {
        lemma_colsum_empty(v, w, x, n);
    } else {
        lemma_sum_exchange(v, w, x, n, m - 1);
        lemma_row_as_columns(v, w, x, n, m - 1);
        lemma_colsum_step(v, w, x, n, m);
    }
}

/// A column sum over zero rows is zero.
proof fn lemma_colsum_empty(v: Seq<nat>, w: nat, x: nat, tcount: int)
    ensures
        colsum(v, w, x, tcount, 0) == 0,
    decreases tcount,
{
    if tcount > 0 {
        lemma_colsum_empty(v, w, x, tcount - 1);
        crate::algebra::lemma_fmul_basics(v[tcount - 1]);
        vstd::arithmetic::div_mod::lemma_small_mod(0, P as nat);
    }
}

/// Swapping the middle terms of a grouped sum of four.
#[verifier::spinoff_prover]
#[verifier::rlimit(100)]
proof fn lemma_fadd4_swap_mid(a: nat, b: nat, c: nat, d: nat)
    ensures
        fadd(fadd(a, b), fadd(c, d)) == fadd(fadd(a, c), fadd(b, d)),
{
    crate::algebra::lemma_fadd4_regroup(a, b, c, d);
    crate::algebra::lemma_fadd4_regroup(a, c, b, d);
    crate::algebra::lemma_fadd3_swap(c, b, d);
}

/// Splitting one column's geometric sum at its top row.
#[verifier::spinoff_prover]
#[verifier::rlimit(100)]
proof fn lemma_colsum_split_one(vt: nat, g: nat, pw: nat)
    ensures
        fmul(vt, fadd(g, pw)) == fadd(fmul(vt, g), fmul(vt, pw)),
{
    crate::algebra::lemma_fmul_distrib(vt, g, pw);
}

/// Extending every geometric sum by one row adds the row read
/// column-wise.
proof fn lemma_colsum_step(v: Seq<nat>, w: nat, x: nat, tcount: int, m: int)
    requires
        m >= 1,
    ensures
        colsum(v, w, x, tcount, m) == fadd(
            colsum(v, w, x, tcount, m - 1),
            colsum_pow(v, w, x, tcount, m - 1),
        ),
    decreases tcount,
{
    if tcount <= 0 {
        vstd::arithmetic::div_mod::lemma_small_mod(0, P as nat);
    } else {
        lemma_colsum_step(v, w, x, tcount - 1, m);
        let t = tcount - 1;
        let yt = fmul(fpow(w, t as nat), x);
        lemma_colsum_split_one(v[t], geo(yt, m - 1), fpow(yt, (m - 1) as nat));
        lemma_fadd4_swap_mid(
            colsum(v, w, x, t, m - 1),
            colsum_pow(v, w, x, t, m - 1),
            fmul(v[t], geo(yt, m - 1)),
            fmul(v[t], fpow(yt, (m - 1) as nat)),
        );
        assert(geo(yt, m) == fadd(geo(yt, m - 1), fpow(yt, (m - 1) as nat)));
        assert(colsum(v, w, x, tcount, m) == fadd(
            colsum(v, w, x, t, m),
            fmul(v[t], geo(yt, m)),
        ));
    }
}

/// The geometric sum is canonical.
proof fn lemma_geo_in_range(z: nat, m: int)
    ensures
        geo(z, m) < P,
    decreases m,
{
    if m <= 0 {
    } else {
        crate::algebra::lemma_ops_in_range(geo(z, m - 1), fpow(z, (m - 1) as nat));
    }
}

/// Adding the residues of consecutive differences telescopes.
#[verifier::spinoff_prover]
#[verifier::rlimit(100)]
proof fn lemma_telescope_pair(a: nat, b: nat)
    ensures
        fadd(fsub(a, 1), fsub(b, a)) == fsub(b, 1),
{
    crate::algebra::lemma_fsub_is_fadd_fneg(a, 1);
    crate::algebra::lemma_fsub_is_fadd_fneg(b, a);
    lemma_fadd4_swap_mid(a, fneg(1), fneg(a), b);
    crate::algebra::lemma_fneg_cancel(a);
    crate::algebra::lemma_fmul_basics(fadd(fneg(1), b));
    vstd::arithmetic::div_mod::lemma_small_mod(fadd(fneg(1), b), P as nat);
    crate::algebra::lemma_ops_in_range(fneg(1), b);
    assert(fadd(fneg(1), b) == fadd(b, fneg(1)));
    crate::algebra::lemma_fsub_is_fadd_fneg(b, 1);
}

/// The telescoping identity of the geometric sum: the sum times `z - 1`
/// is `z^m - 1`.
#[verifier::spinoff_prover]
#[verifier::rlimit(100)]
proof fn lemma_geo_telescope(z: nat, m: int)
    requires
        m >= 0,
    ensures
        fmul(fsub(z, 1), geo(z, m)) == fsub(fpow(z, m as nat), 1),
    decreases m,
{
    let d = fsub(z, 1);
    if m == 0 {
        crate::algebra::lemma_fmul_basics(d);
        crate::algebra::lemma_fsub_zero_iff(1, 1);
    } else {
        lemma_geo_telescope(z, m - 1);
        let pz = fpow(z, (m - 1) as nat);
        crate::algebra::lemma_fmul_distrib(d, geo(z, m - 1), pz);
        // (z - 1) * z^{m-1} == z^m - z^{m-1}
        crate::algebra::lemma_fmul_comm(d, pz);
        crate::algebra::lemma_fmul_distrib_sub(pz, z, 1);
        crate::algebra::lemma_fmul_comm(pz, z);
        crate::algebra::lemma_fpow_peel(z, m as nat);
        crate::algebra::lemma_fmul_basics(pz);
        crate::algebra::lemma_fpow_in_range(z, m as nat);
        // pz is canonical: for one row it is the unit, above that a product
        if m == 1 {
            assert(pz == 1);
        } else {
            crate::algebra::lemma_fpow_in_range(z, (m - 1) as nat);
        }
        vstd::arithmetic::div_mod::lemma_small_mod(pz, P as nat);
        assert(fmul(pz, fsub(z, 1)) == fsub(fpow(z, m as nat), pz));
        lemma_telescope_pair(pz, fpow(z, m as nat));
    }
}

/// The geometric sum of the unit is the row count.
proof fn lemma_geo_unit(m: int)
    requires
        m >= 0,
    ensures
        geo(1, m) == (m as nat) % (P as nat),
    decreases m,
{
    if m == 0 {
        vstd::arithmetic::div_mod::lemma_small_mod(0, P as nat);
    } else {
        lemma_geo_unit(m - 1);
        crate::algebra::lemma_fpow_one_base((m - 1) as nat);
        crate::algebra::lemma_fadd_mod((m - 1) as nat, 1);
    }
}

/// The geometric sum of a non-unit root of the row count vanishes.
proof fn lemma_geo_orthogonal(z: nat, m: int)
    requires
        m >= 0,
        z < P,
        z != 1,
        fpow(z, m as nat) == 1,
    ensures
        geo(z, m) == 0,
{
    lemma_geo_telescope(z, m);
    crate::algebra::lemma_fsub_zero_iff(1, 1);
    assert(fmul(fsub(z, 1), geo(z, m)) == 0);
    crate::algebra::lemma_fsub_zero_iff(z, 1);
    crate::algebra::lemma_ops_in_range(z, 1);
    lemma_geo_in_range(z, m);
    if geo(z, m) != 0 {
        crate::number::lemma_no_zero_divisors(fsub(z, 1), geo(z, m));
        assert(false);
    }
}

/// The ratio at the matching column is the unit.
proof fn lemma_ratio_unit(w: nat, winv: nat, i: int)
    requires
        fmul(w, winv) == 1,
        i >= 0,
    ensures
        fmul(fpow(w, i as nat), fpow(winv, i as nat)) == 1,
{
    crate::algebra::lemma_fpow_distributes(w, winv, i as nat);
    crate::algebra::lemma_fpow_one_base(i as nat);
}

/// Every ratio is a root of the row count.
proof fn lemma_ratio_power_n(w: nat, winv: nat, t: int, i: int, n: nat)
    requires
        t >= 0,
        i >= 0,
        fpow(w, n) == 1,
        fpow(winv, n) == 1,
    ensures
        fpow(fmul(fpow(w, t as nat), fpow(winv, i as nat)), n) == 1,
{
    crate::algebra::lemma_fpow_distributes(fpow(w, t as nat), fpow(winv, i as nat), n);
    crate::algebra::lemma_fpow_mul(w, t as nat, n);
    crate::algebra::lemma_fpow_mul(w, n, t as nat);
    assert((t as nat) * n == n * (t as nat)) by (nonlinear_arith);
    crate::algebra::lemma_fpow_one_base(t as nat);
    crate::algebra::lemma_fpow_mul(winv, i as nat, n);
    crate::algebra::lemma_fpow_mul(winv, n, i as nat);
    assert((i as nat) * n == n * (i as nat)) by (nonlinear_arith);
    crate::algebra::lemma_fpow_one_base(i as nat);
    crate::algebra::lemma_fmul_basics(1);
    vstd::arithmetic::div_mod::lemma_small_mod(1, P as nat);
}

/// A mismatched ratio is not the unit, for a root of full order.
#[verifier::spinoff_prover]
#[verifier::rlimit(100)]
proof fn lemma_ratio_not_unit(w: nat, winv: nat, t: int, i: int, n: int)
    requires
        0 <= t < n,
        0 <= i < n,
        t != i,
        w < P,
        fmul(w, winv) == 1,
        forall|d: int| 0 < d < n ==> #[trigger] fpow(w, d as nat) != 1,
    ensures
        fmul(fpow(w, t as nat), fpow(winv, i as nat)) != 1,
{
    let z = fmul(fpow(w, t as nat), fpow(winv, i as nat));
    if z == 1 {
        if t > i {
            // multiply out the matched part: z == w^{t-i}
            crate::algebra::lemma_fpow_add(w, (t - i) as nat, i as nat);
            assert(fpow(w, t as nat) == fmul(fpow(w, (t - i) as nat), fpow(w, i as nat)));
            crate::algebra::lemma_fmul_assoc(
                fpow(w, (t - i) as nat),
                fpow(w, i as nat),
                fpow(winv, i as nat),
            );
            lemma_ratio_unit(w, winv, i);
            crate::algebra::lemma_fmul_basics(fpow(w, (t - i) as nat));
            crate::algebra::lemma_fpow_in_range(w, (t - i) as nat);
            vstd::arithmetic::div_mod::lemma_small_mod(fpow(w, (t - i) as nat), P as nat);
            assert(fpow(w, (t - i) as nat) == 1);
            assert(false);
        } else {
            // multiply both sides by w^{i-t}
            let e = (i - t) as nat;
            crate::algebra::lemma_fmul_comm(fpow(w, t as nat), fpow(winv, i as nat));
            crate::algebra::lemma_fmul_assoc(
                fpow(winv, i as nat),
                fpow(w, t as nat),
                fpow(w, e),
            );
            crate::algebra::lemma_fpow_add(w, t as nat, e);
            assert(fmul(fpow(w, t as nat), fpow(w, e)) == fpow(w, i as nat));
            crate::algebra::lemma_fmul_comm(fpow(winv, i as nat), fpow(w, i as nat));
            lemma_ratio_unit(w, winv, i);
            // so (z) * w^{i-t} == 1, but z == 1 forces w^{i-t} == 1
            assert(fmul(fmul(fpow(winv, i as nat), fpow(w, t as nat)), fpow(w, e)) == fmul(
                fpow(winv, i as nat),
                fpow(w, i as nat),
            ));
            assert(fmul(z, fpow(w, e)) == fmul(fmul(fpow(winv, i as nat), fpow(w, t as nat)), fpow(w, e))) by {
                crate::algebra::lemma_fmul_comm(fpow(winv, i as nat), fpow(w, t as nat));
            }
            crate::algebra::lemma_fmul_basics(fpow(w, e));
            crate::algebra::lemma_fpow_in_range(w, e);
            vstd::arithmetic::div_mod::lemma_small_mod(fpow(w, e), P as nat);
            assert(fpow(w, e) == 1);
            assert(false);
        }
    }
}

/// The columns collapse: with every mismatched geometric sum zero and the
/// matching one equal to the row count, the column sum is the single
/// matching coefficient scaled by the row count.
proof fn lemma_colsum_collapse(
    v: Seq<nat>,
    w: nat,
    x: nat,
    tcount: int,
    m: int,
    i: int,
    nmod: nat,
)
    requires
        0 <= i,
        tcount <= v.len(),
        forall|t: int|
            0 <= t < tcount && t != i ==> #[trigger] geo(fmul(fpow(w, t as nat), x), m)
                == 0,
        geo(fmul(fpow(w, i as nat), x), m) == nmod,
        forall|t: int| 0 <= t < v.len() ==> #[trigger] v[t] < P,
    ensures
        colsum(v, w, x, tcount, m) == if tcount > i {
            fmul(v[i], nmod)
        } else {
            0
        },
    decreases tcount,
{
    if tcount > 0 {
        lemma_colsum_collapse(v, w, x, tcount - 1, m, i, nmod);
        let t = tcount - 1;
        if t == i {
            crate::algebra::lemma_fmul_basics(fmul(v[i], nmod));
            crate::algebra::lemma_ops_in_range(v[i], nmod);
            vstd::arithmetic::div_mod::lemma_small_mod(fmul(v[i], nmod), P as nat);
        } else {
            crate::algebra::lemma_fmul_basics(v[t]);
            if tcount - 1 > i {
                crate::algebra::lemma_ops_in_range(v[i], nmod);
                vstd::arithmetic::div_mod::lemma_small_mod(fmul(v[i], nmod), P as nat);
                crate::algebra::lemma_fmul_basics(fmul(v[i], nmod));
            } else {
                vstd::arithmetic::div_mod::lemma_small_mod(0, P as nat);
                crate::algebra::lemma_fmul_basics(0);
            }
        }
    }
}

/// The power sum of the first transform is the double sum by rows.
proof fn lemma_psum_is_rowsum(fv: Seq<nat>, v: Seq<nat>, w: nat, x: nat, n: int, m: int)
    requires
        0 <= m <= fv.len(),
        forall|j: int| 0 <= j < fv.len() ==> #[trigger] fv[j] == psum(v, fpow(w, j as nat), n),
    ensures
        psum(fv, x, m) == rowsum(v, w, x, n, m),
    decreases m,
{
    if m > 0 {
        lemma_psum_is_rowsum(fv, v, w, x, n, m - 1);
    }
}

/// Powers of minus one alternate with the parity of the exponent.
proof fn lemma_parity_pow_minus_one(d: nat)
    ensures
        fpow((P - 1) as nat, d) == if d % 2 == 0 {
            1nat
        } else {
            (P - 1) as nat
        },
    decreases d,
{
    if d > 0 {
        lemma_parity_pow_minus_one((d - 1) as nat);
        if (d - 1) % 2 == 0 {
            crate::algebra::lemma_fmul_basics((P - 1) as nat);
            vstd::arithmetic::div_mod::lemma_small_mod((P - 1) as nat, P as nat);
        } else {
            assert(fmul((P - 1) as nat, (P - 1) as nat) == 1);
        }
    }
}

/// A primitive root of order `2^k` has full order: no smaller positive
/// power is the unit.
pub proof fn lemma_primitive_root_full_order(w: nat, k: nat)
    requires
        is_primitive_root(w, k),
    ensures
        forall|d: int| 0 < d < pow2(k) ==> #[trigger] fpow(w, d as nat) != 1,
    decreases k,
{
    assert forall|d: int| 0 < d < pow2(k) implies #[trigger] fpow(w, d as nat) != 1 by {
        if fpow(w, d as nat) == 1 {
            vstd::arithmetic::power2::lemma_pow2_pos(k);
            assert(k >= 1) by {
                if k == 0 {
                    assert(pow2(0) == 1) by {
                        vstd::arithmetic::power2::lemma2_to64();
                    }
                }
            }
            if d % 2 == 0 {
                // an even power passes to the squared root of half order
                let e = d / 2;
                vstd::arithmetic::power2::lemma_pow2_unfold(k);
                assert(0 < e < pow2((k - 1) as nat));
                crate::algebra::lemma_primitive_root_square(w, k);
                lemma_primitive_root_full_order(fmul(w, w), (k - 1) as nat);
                crate::algebra::lemma_fpow_square(w, e as nat);
                assert(2 * (e as nat) == d as nat);
                assert(fpow(fmul(w, w), e as nat) == 1);
                assert(false);
            } else {
                // an odd power collides with the half-order value of the root
                let h = pow2((k - 1) as nat);
                crate::algebra::lemma_fpow_mul(w, d as nat, h);
                crate::algebra::lemma_fpow_one_base(h);
                assert(fpow(fpow(w, d as nat), h) == 1);
                crate::algebra::lemma_fpow_mul(w, h, d as nat);
                lemma_parity_pow_minus_one(d as nat);
                assert(fpow(fpow(w, h), d as nat) == (P - 1) as nat);
                assert((d as nat) * h == h * (d as nat)) by (nonlinear_arith);
                assert(false);
            }
        }
    }
}

/// The round trip of the transform: transforming at a full-order root and
/// again at its inverse scales every entry by the length, so undoing the
/// scale recovers the input exactly.
pub proof fn lemma_fft_round_trip(v: Seq<nat>, w: nat, winv: nat, ninv: nat, k: nat)
    requires
        v.len() == pow2(k),
        is_primitive_root(w, k),
        is_primitive_root(winv, k),
        fmul(w, winv) == 1,
        pow2(k) < P,
        fmul(pow2(k), ninv) == 1,
        forall|t: int| 0 <= t < v.len() ==> #[trigger] v[t] < P,
    ensures
        sfft(sfft(v, w), winv).len() == v.len(),
        forall|i: int|
            0 <= i < v.len() ==> fmul(ninv, #[trigger] sfft(sfft(v, w), winv)[i]) == v[i],
{
    let n = pow2(k) as int;
    lemma_primitive_root_full_order(w, k);
    let fv = sfft(v, w);
    lemma_sfft_is_evals(v, w, k);
    assert forall|j: int| 0 <= j < fv.len() implies #[trigger] fv[j] < P by {
        crate::poly::lemma_poly_eval_in_range(v, fpow(w, j as nat));
    }
    lemma_sfft_is_evals(fv, winv, k);
    let gv = sfft(fv, winv);
    assert forall|i: int| 0 <= i < v.len() implies fmul(ninv, #[trigger] gv[i]) == v[i] by {
        let x = fpow(winv, i as nat);
        assert(gv[i] == poly_eval(fv, x));
        lemma_eval_is_psum(fv, x);
        assert forall|j: int| 0 <= j < fv.len() implies #[trigger] fv[j] == psum(
            v,
            fpow(w, j as nat),
            n,
        ) by {
            lemma_eval_is_psum(v, fpow(w, j as nat));
        }
        lemma_psum_is_rowsum(fv, v, w, x, n, n);
        lemma_sum_exchange(v, w, x, n, n);
        // the mismatched columns vanish, the matching one counts the rows
        assert forall|t: int|
            0 <= t < n && t != i implies #[trigger] geo(fmul(fpow(w, t as nat), x), n)
                == 0 by {
            lemma_ratio_not_unit(w, winv, t, i, n);
            lemma_ratio_power_n(w, winv, t, i, pow2(k));
            crate::algebra::lemma_ops_in_range(fpow(w, t as nat), x);
            lemma_geo_orthogonal(fmul(fpow(w, t as nat), x), n);
        }
        assert(geo(fmul(fpow(w, i as nat), x), n) == pow2(k)) by {
            lemma_ratio_unit(w, winv, i);
            lemma_geo_unit(n);
            vstd::arithmetic::div_mod::lemma_small_mod(pow2(k), P as nat);
        }
        lemma_colsum_collapse(v, w, x, n, n, i, pow2(k));
        assert(gv[i] == fmul(v[i], pow2(k)));
        // undo the length scale
        crate::algebra::lemma_fmul_comm(ninv, fmul(v[i], pow2(k)));
        crate::algebra::lemma_fmul_assoc(v[i], pow2(k), ninv);
        crate::algebra::lemma_fmul_basics(v[i]);
        vstd::arithmetic::div_mod::lemma_small_mod(v[i], P as nat);
    }
}

} // verus!

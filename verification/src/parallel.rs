//! Fork-join chunking over sequences.
//!
//! The engines fan work out over contiguous chunks of their input, sized so
//! that the chunk count does not exceed the worker pool.  Chunks are
//! disjoint, the combine step runs only after every chunk is done, and the
//! result is required to be invariant under the execution order of the
//! chunks; the verified model therefore fixes one schedule (chunk order) and
//! proves the contracts against it.  The pool size is process-wide
//! configuration, read-only after initialization.

use vstd::prelude::*;
use vstd::arithmetic::power2::pow2;

verus! {

/// The size of the worker pool.
pub const NUM_WORKERS: usize = 8;

/// The number of workers available to fan work out to.
pub fn current_num_threads() -> (n: usize)
    ensures
        n == NUM_WORKERS,
{
    NUM_WORKERS
}

/// True when a sequence of length `n` is too short to be worth chunking.
pub fn below_fanout_threshold(n: usize) -> (r: bool)
    ensures
        r == (2 * n < NUM_WORKERS),
{
    n < NUM_WORKERS && 2 * n < NUM_WORKERS
}

/// The chunk length used when fanning a length-`n` sequence out: large
/// enough that the chunk count does not exceed the worker count, with a
/// floor of one chunk element (used when the sequence is shorter than the
/// pool).
pub open spec fn spec_chunk_len(n: nat) -> nat {
    if n / (NUM_WORKERS as nat) < 1 {
        1
    } else {
        n / (NUM_WORKERS as nat)
    }
}

/// Computes the chunk length for a length-`n` sequence.
pub fn chunk_len(n: usize) -> (r: usize)
    ensures
        r == spec_chunk_len(n as nat),
        r >= 1,
{
    let chunk = n / NUM_WORKERS;
    if chunk < 1 {
        1
    } else {
        chunk
    }
}

/// The rounded-up chunk length `ceil(n / workers)`, used by the splitting
/// strategy of the polynomial evaluators.
pub fn ceil_chunk_len(n: usize) -> (r: usize)
    requires
        n >= 1,
    ensures
        r >= 1,
        r == (n + NUM_WORKERS - 1) / NUM_WORKERS as int,
{
    let r = n / NUM_WORKERS + (if n % NUM_WORKERS != 0 {
        1
    } else {
        0
    });
    proof {
        vstd::arithmetic::div_mod::lemma_fundamental_div_mod(n as int, NUM_WORKERS as int);
        vstd::arithmetic::div_mod::lemma_fundamental_div_mod(
            n as int + NUM_WORKERS - 1,
            NUM_WORKERS as int,
        );
        vstd::arithmetic::div_mod::lemma_mod_bound(n as int, NUM_WORKERS as int);
        let q = n as int / NUM_WORKERS as int;
        let m = n as int % NUM_WORKERS as int;
        if m != 0 {
            vstd::arithmetic::div_mod::lemma_fundamental_div_mod_converse(
                n as int + NUM_WORKERS - 1,
                NUM_WORKERS as int,
                q + 1,
                m - 1,
            );
        } else {
            vstd::arithmetic::div_mod::lemma_fundamental_div_mod_converse(
                n as int + NUM_WORKERS - 1,
                NUM_WORKERS as int,
                q,
                NUM_WORKERS - 1,
            );
        }
    }
    r
}

/// Two distinct multiples of `d` lie at least `d` apart.
proof fn lemma_multiple_gap(a: int, b: int, d: int)
    requires
        d >= 1,
        a % d == 0,
        b % d == 0,
        a < b,
    ensures
        a + d <= b,
{
    vstd::arithmetic::div_mod::lemma_fundamental_div_mod(a, d);
    vstd::arithmetic::div_mod::lemma_fundamental_div_mod(b, d);
    assert(a + d <= b) by (nonlinear_arith)
        requires
            a == d * (a / d),
            b == d * (b / d),
            a < b,
            d >= 1,
    ;
}

/// `c` starting at `s` is one of the chunks of `v` under chunk length `cs`.
pub open spec fn is_chunk<T>(v: Seq<T>, c: Seq<T>, s: int, cs: int) -> bool {
    &&& 0 <= s < v.len()
    &&& s % cs == 0
    &&& c == v.subrange(s, if s + cs <= v.len() {
        s + cs
    } else {
        v.len() as int
    })
}

/// The chunk of `vv` starting at `s` was processed by one call of `f`,
/// whose result stands at the same place in `rr`.
pub open spec fn chunk_processed<T, F: Fn(Vec<T>, usize) -> Vec<T>>(
    vv: Seq<T>,
    rr: Seq<T>,
    f: F,
    s: int,
    cs: int,
) -> bool {
    let e = if s + cs <= vv.len() {
        s + cs
    } else {
        vv.len() as int
    };
    exists|c: Vec<T>, out: Vec<T>|
        c@ == vv.subrange(s, e) && out@ == rr.subrange(s, e) && #[trigger] call_ensures(
            f,
            (c, s as usize),
            out,
        )
}

/// Fans an operation out over contiguous chunks of a sequence: the
/// sequence is split into chunks sized so the chunk count does not exceed
/// the worker count (chunk length one when the sequence is shorter than
/// the pool), `f` is applied to every chunk together with the chunk's
/// starting index, and the results are joined in chunk order.  Nothing is
/// observable before all chunks are done, and chunks are disjoint, so the
/// result does not depend on the execution order of the chunks.
pub fn parallelize<T, F: Fn(Vec<T>, usize) -> Vec<T>>(v: Vec<T>, f: F) -> (r: Vec<T>)
    requires
        forall|c: Vec<T>, s: usize|
            is_chunk(v@, c@, s as int, spec_chunk_len(v@.len()) as int) ==> call_requires(
                f,
                (c, s),
            ),
        forall|c: Vec<T>, s: usize, out: Vec<T>|
            call_ensures(f, (c, s), out) ==> out@.len() == c@.len(),
    ensures
        r@.len() == v@.len(),
        forall|s: int|
            (0 <= s < v@.len() && s % (spec_chunk_len(v@.len()) as int) == 0)
                ==> #[trigger] chunk_processed(v@, r@, f, s, spec_chunk_len(v@.len()) as int),
{
    let ghost orig = v@;
    let n = v.len();
    let cs = chunk_len(n);
    let mut rest = v;
    let mut out: Vec<T> = Vec::new();
    let mut start: usize = 0;
    proof {
        assert(orig.subrange(0, n as int) =~= orig);
        vstd::arithmetic::div_mod::lemma_small_mod(0, cs as nat);
    }
    while start < n
        invariant
            cs == spec_chunk_len(orig.len()),
            cs >= 1,
            n == orig.len(),
            start <= n,
            start % cs == 0 || start == n,
            out@.len() == start,
            rest@ == orig.subrange(start as int, n as int),
            forall|c: Vec<T>, s: usize|
                is_chunk(orig, c@, s as int, cs as int) ==> call_requires(f, (c, s)),
            forall|c: Vec<T>, s: usize, o: Vec<T>|
                call_ensures(f, (c, s), o) ==> o@.len() == c@.len(),
            forall|s: int|
                (0 <= s < start && s % (cs as int) == 0) ==> #[trigger] chunk_processed(
                    orig,
                    out@,
                    f,
                    s,
                    cs as int,
                ),
        decreases n - start,
    {
        let take = if n - start < cs {
            n - start
        } else {
            cs
        };
        let tail = rest.split_off(take);
        let ghost chunk_snapshot = rest;
        proof {
            assert(rest@ =~= orig.subrange(
                start as int,
                if start + cs <= n {
                    start as int + cs
                } else {
                    n as int
                },
            ));
            assert(is_chunk(orig, rest@, start as int, cs as int));
        }
        let ghost out_before = out@;
        let mut processed = f(rest, start);
        let ghost processed_snapshot = processed;
        out.append(&mut processed);
        proof {
            assert(out@ == out_before + processed_snapshot@);
            assert(out@.subrange(start as int, start + take) =~= processed_snapshot@);
            assert forall|s: int|
                0 <= s < start + take && s % (cs as int) == 0 implies #[trigger] chunk_processed(
                orig,
                out@,
                f,
                s,
                cs as int,
            ) by {
                let e = if s + cs <= orig.len() {
                    s + cs
                } else {
                    orig.len() as int
                };
                if s < start {
                    lemma_multiple_gap(s, start as int, cs as int);
                    assert(e == s + cs);
                    assert(chunk_processed(orig, out_before, f, s, cs as int));
                    let (c, o): (Vec<T>, Vec<T>) = choose|c: Vec<T>, o: Vec<T>|
                        c@ == orig.subrange(s, e) && o@ == out_before.subrange(s, e)
                            && #[trigger] call_ensures(f, (c, s as usize), o);
                    assert(out@.subrange(s, e) =~= out_before.subrange(s, e));
                    assert(o@ == out@.subrange(s, e));
                } else {
                    assert(s == start) by {
                        if s > start {
                            lemma_multiple_gap(start as int, s, cs as int);
                        }
                    }
                    assert(e == start + take);
                    assert(call_ensures(f, (chunk_snapshot, start), processed_snapshot));
                    assert(chunk_snapshot@ == orig.subrange(s, e));
                    assert(processed_snapshot@ == out@.subrange(s, e));
                }
            }
        }
        start = start + take;
        rest = tail;
        proof {
            assert(rest@ =~= orig.subrange(start as int, n as int));
            if start < n {
                assert(take == cs);
                vstd::arithmetic::div_mod::lemma_mod_add_multiples_vanish(
                    (start - take) as int,
                    cs as int,
                );
            }
        }
    }
    proof {
        assert(out@.len() == orig.len());
    }
    out
}

/// The floor of the base-two logarithm.
pub fn log2_floor(num: usize) -> (r: u32)
    requires
        num > 0,
    ensures
        pow2(r as nat) <= num < pow2((r + 1) as nat),
        r < 64,
{
    proof {
        vstd::arithmetic::power2::lemma2_to64();
        assert(usize::MAX as nat <= u64::MAX as nat);
    }
    let mut pow: u32 = 0;
    let mut cur: usize = 1;
    while cur <= num / 2
        invariant
            num > 0,
            cur == pow2(pow as nat),
            1 <= cur <= num,
            pow < 64,
        decreases num - cur,
    {
        proof {
            vstd::arithmetic::power2::lemma_pow2_unfold((pow + 1) as nat);
            vstd::arithmetic::power2::lemma_pow2_pos((pow + 1) as nat);
            assert(2 * cur <= num);
            // the doubled counter is a power of two no larger than the word
            // size, so the exponent stays below 64
            if pow + 1 >= 64 {
                vstd::arithmetic::power2::lemma2_to64_rest();
                if pow + 1 > 64 {
                    vstd::arithmetic::power2::lemma_pow2_strictly_increases(
                        64,
                        (pow + 1) as nat,
                    );
                }
                assert(pow2((pow + 1) as nat) >= pow2(64));
                assert(false);
            }
        }
        cur = cur * 2;
        pow = pow + 1;
    }
    proof {
        vstd::arithmetic::power2::lemma_pow2_unfold((pow + 1) as nat);
        assert(num < 2 * cur);
    }
    pow
}

/// For `x` a power of two, zero; otherwise the gap from `x` up to the next
/// power of two.
pub fn ceil_log2_diff(x: usize) -> (r: usize)
    requires
        x > 0,
        x <= usize::MAX / 2,
    ensures
        (exists|k: nat| pow2(k) == x) ==> r == 0,
        !(exists|k: nat| pow2(k) == x) ==> (exists|k: nat|
            (#[trigger] pow2(k)) >= x && pow2(k) - x == r && (k > 0 ==> pow2((k - 1) as nat)
                < x)),
    {
    let e = log2_floor(x);
    proof {
        vstd::arithmetic::power2::lemma2_to64();
    }
    let mut low: usize = 1;
    let mut i: u32 = 0;
    while i < e
        invariant
            low == pow2(i as nat),
            i <= e,
            pow2(e as nat) <= x,
        decreases e - i,
    {
        proof {
            vstd::arithmetic::power2::lemma_pow2_unfold((i + 1) as nat);
            if ((i + 1) as nat) < e as nat {
                vstd::arithmetic::power2::lemma_pow2_strictly_increases(
                    (i + 1) as nat,
                    e as nat,
                );
            }
            assert(pow2((i + 1) as nat) <= pow2(e as nat));
        }
        low = low * 2;
        i = i + 1;
    }
    if low == x {
        proof {
            assert(pow2(e as nat) == x);
        }
        0
    } else {
        proof {
            vstd::arithmetic::power2::lemma_pow2_unfold((e + 1) as nat);
            assert forall|k: nat| pow2(k) != x by {
                if pow2(k) == x {
                    if k <= e as nat {
                        if k < e as nat {
                            vstd::arithmetic::power2::lemma_pow2_strictly_increases(k, e as nat);
                        }
                        assert(pow2(k) <= pow2(e as nat));
                    } else {
                        if ((e + 1) as nat) < k {
                            vstd::arithmetic::power2::lemma_pow2_strictly_increases(
                                (e + 1) as nat,
                                k,
                            );
                        }
                        assert(pow2(k) >= pow2((e + 1) as nat));
                    }
                }
            }
        }
        let high = low * 2;
        proof {
            assert(pow2((e + 1) as nat) == high);
            assert(pow2(e as nat) < x);
        }
        high - x
    }
}

} // verus!

//! Scalar windows: reading a scalar's canonical representation in fixed
//! bit segments, as the MSM engines do.
//!
//! A scalar's canonical representation is its value as a 64-bit
//! little-endian word; `digit` reads the `c`-bit segment at a given
//! position, and the sequence forms below describe whole scalar vectors at
//! once.

use vstd::prelude::*;
use vstd::arithmetic::power2::pow2;

verus! {

/// The `c`-bit segment of `v` at position `seg`.
pub open spec fn digit(v: nat, seg: nat, c: nat) -> nat {
    (v / pow2(seg * c)) % pow2(c)
}

/// The `c`-bit segments of a scalar sequence at position `seg`.
pub open spec fn digits_of(cs: Seq<nat>, seg: nat, c: nat) -> Seq<nat>
    decreases cs.len(),
{
    if cs.len() == 0 {
        Seq::empty()
    } else {
        digits_of(cs.drop_last(), seg, c).push(digit(cs.last(), seg, c))
    }
}

/// One scalar shifted down by `sh` bits.
pub open spec fn shift1(v: nat, sh: nat) -> nat {
    v / pow2(sh)
}

/// The scalar sequence with every entry shifted down by `sh` bits.
pub open spec fn shift_all(cs: Seq<nat>, sh: nat) -> Seq<nat>
    decreases cs.len(),
{
    if cs.len() == 0 {
        Seq::empty()
    } else {
        shift_all(cs.drop_last(), sh).push(shift1(cs.last(), sh))
    }
}


/// The pointwise reading of the segment sequence.
pub proof fn lemma_digits_of_props(cs: Seq<nat>, seg: nat, c: nat)
    ensures
        digits_of(cs, seg, c).len() == cs.len(),
        forall|i: int|
            0 <= i < cs.len() ==> #[trigger] digits_of(cs, seg, c)[i] == digit(cs[i], seg, c),
    decreases cs.len(),
{
    if cs.len() > 0 {
        lemma_digits_of_props(cs.drop_last(), seg, c);
        assert(digits_of(cs, seg, c) == digits_of(cs.drop_last(), seg, c).push(
            digit(cs.last(), seg, c),
        ));
        assert forall|i: int| 0 <= i < cs.len() implies #[trigger] digits_of(cs, seg, c)[i]
            == digit(cs[i], seg, c) by {
            if i < cs.len() - 1 {
                assert(digits_of(cs, seg, c)[i] == digits_of(cs.drop_last(), seg, c)[i]);
                assert(cs.drop_last()[i] == cs[i]);
            } else {
                assert(digits_of(cs, seg, c)[i] == digit(cs.last(), seg, c));
            }
        }
    }
}

/// The pointwise reading of the shifted sequence.
pub proof fn lemma_shift_all_props(cs: Seq<nat>, sh: nat)
    ensures
        shift_all(cs, sh).len() == cs.len(),
        forall|i: int| 0 <= i < cs.len() ==> #[trigger] shift_all(cs, sh)[i] == cs[i] / pow2(sh),
    decreases cs.len(),
{
    if cs.len() > 0 {
        lemma_shift_all_props(cs.drop_last(), sh);
        assert(shift_all(cs, sh) == shift_all(cs.drop_last(), sh).push(
            shift1(cs.last(), sh),
        ));
        assert forall|i: int| 0 <= i < cs.len() implies #[trigger] shift_all(cs, sh)[i]
            == cs[i] / pow2(sh) by {
            if i < cs.len() - 1 {
                assert(shift_all(cs, sh)[i] == shift_all(cs.drop_last(), sh)[i]);
                assert(cs.drop_last()[i] == cs[i]);
            } else {
                assert(shift_all(cs, sh)[i] == shift1(cs.last(), sh));
            }
        }
    }
}


} // verus!

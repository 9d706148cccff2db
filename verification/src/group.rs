//! The group abstraction the transform and MSM engines work over.
//!
//! The engines are generic over any commutative group equipped with an
//! action of the scalar field, stated as the `FftGroup` capability trait:
//! every implementation carries a mathematical value in `[0, P)` and its
//! operations are specified over those values.  Two implementations live in
//! this crate: the scalar field itself, and the affine/projective pair of
//! point representations.  The affine form is the compact one used for
//! storage; the projective form is the accumulator representation, and
//! batched normalization converts accumulators back to affine form.

use vstd::prelude::*;
use crate::field::{fadd, fsub, fmul, Fp, P};

verus! {

/// A commutative group with a scalar action, usable by the transform
/// engine: every value has a mathematical representative in `[0, P)`, and
/// addition, subtraction and the scalar action are specified on
/// representatives.
pub trait FftGroup: Sized + Copy {
    /// The mathematical representative.
    spec fn gval(&self) -> nat;

    /// The representative is canonical.
    spec fn gwf(&self) -> bool;

    /// A canonical representative lies below the modulus.
    proof fn lemma_gwf(&self)
        requires
            self.gwf(),
        ensures
            self.gval() < P,
    ;

    /// Group addition.
    fn gadd(&self, o: &Self) -> (r: Self)
        requires
            self.gwf(),
            o.gwf(),
        ensures
            r.gwf(),
            r.gval() == fadd(self.gval(), o.gval()),
    ;

    /// Group subtraction.
    fn gsub(&self, o: &Self) -> (r: Self)
        requires
            self.gwf(),
            o.gwf(),
        ensures
            r.gwf(),
            r.gval() == fsub(self.gval(), o.gval()),
    ;

    /// The scalar action.
    fn gscale(&self, s: &Fp) -> (r: Self)
        requires
            self.gwf(),
            s.wf(),
        ensures
            r.gwf(),
            r.gval() == fmul(self.gval(), s@),
    ;
}

impl FftGroup for Fp {
    open spec fn gval(&self) -> nat {
        self@
    }

    open spec fn gwf(&self) -> bool {
        self.wf()
    }

    proof fn lemma_gwf(&self) {
    }

    fn gadd(&self, o: &Self) -> (r: Self) {
        self.add(*o)
    }

    fn gsub(&self, o: &Self) -> (r: Self) {
        self.sub(*o)
    }

    fn gscale(&self, s: &Fp) -> (r: Self) {
        self.mul(*s)
    }
}

/// A group point in the compact affine representation.
#[derive(Clone, Copy, PartialEq, Eq, Structural, Debug)]
pub struct Affine {
    pub c: Fp,
}

/// A group point in the projective (accumulator) representation.
#[derive(Clone, Copy, PartialEq, Eq, Structural, Debug)]
pub struct Projective {
    pub c: Fp,
}

impl Affine {
    /// The representative is canonical.
    pub open spec fn wf(self) -> bool {
        self.c.wf()
    }

    /// Promotes the compact form to the accumulator form.
    pub fn to_projective(&self) -> (r: Projective)
        ensures
            r.c == self.c,
    {
        Projective { c: self.c }
    }
}

impl Projective {
    /// The representative is canonical.
    pub open spec fn wf(self) -> bool {
        self.c.wf()
    }

    /// The group identity.
    pub fn identity() -> (r: Projective)
        ensures
            r.wf(),
            r.gval() == 0,
    {
        Projective { c: Fp::zero() }
    }

    /// Doubles the point.
    pub fn double(&self) -> (r: Projective)
        requires
            self.wf(),
        ensures
            r.wf(),
            r.gval() == fadd(self.gval(), self.gval()),
    {
        Projective { c: self.c.add(self.c) }
    }

    /// Adds a point in the accumulator form.
    pub fn add_projective(&self, o: &Projective) -> (r: Projective)
        requires
            self.wf(),
            o.wf(),
        ensures
            r.wf(),
            r.gval() == fadd(self.gval(), o.gval()),
    {
        Projective { c: self.c.add(o.c) }
    }

    /// Adds a point in the compact form.
    pub fn add_affine(&self, o: &Affine) -> (r: Projective)
        requires
            self.wf(),
            o.wf(),
        ensures
            r.wf(),
            r.gval() == fadd(self.gval(), o.c@),
    {
        Projective { c: self.c.add(o.c) }
    }

    /// Normalizes the accumulator form back to the compact form.
    pub fn to_affine(&self) -> (r: Affine)
        ensures
            r.c == self.c,
    {
        Affine { c: self.c }
    }
}

impl FftGroup for Projective {
    open spec fn gval(&self) -> nat {
        self.c@
    }

    open spec fn gwf(&self) -> bool {
        self.c.wf()
    }

    proof fn lemma_gwf(&self) {
    }

    fn gadd(&self, o: &Self) -> (r: Self) {
        Projective { c: self.c.add(o.c) }
    }

    fn gsub(&self, o: &Self) -> (r: Self) {
        Projective { c: self.c.sub(o.c) }
    }

    fn gscale(&self, s: &Fp) -> (r: Self) {
        Projective { c: self.c.mul(*s) }
    }
}

/// Normalizes a batch of accumulator-form points into compact form, in one
/// pass.
pub fn batch_normalize(points: &Vec<Projective>) -> (r: Vec<Affine>)
    ensures
        r@.len() == points@.len(),
        forall|i: int| 0 <= i < r@.len() ==> (#[trigger] r@[i]).c == points@[i].c,
{
    let mut out: Vec<Affine> = Vec::new();
    let mut i: usize = 0;
    while i < points.len()
        invariant
            out@.len() == i <= points@.len(),
            forall|j: int| 0 <= j < i ==> (#[trigger] out@[j]).c == points@[j].c,
        decreases points.len() - i,
    {
        let p = points[i];
        out.push(p.to_affine());
        i = i + 1;
    }
    out
}

} // verus!

//! Points in projective Niels coordinates: `(Y + X, Y - X, d·T, Z)`, the
//! form a table of multiples takes for repeated, unmixed re-addition.

use vstd::prelude::*;
use vstd::arithmetic::div_mod::{lemma_mul_mod_noop, lemma_small_mod};
use crate::extended::ExtendedPoint;
use crate::field::{fadd, fmul, fneg, fsub, lemma_fneg_involutive, modulus, FieldElement};

verus! {

/// A curve point held as `Y + X`, `Y - X`, the curve-constant-scaled `T` and
/// the projective denominator `Z`.
#[allow(non_snake_case)]
#[derive(Clone, Copy, Debug, PartialEq, Eq)]
pub struct ProjectiveNielsPoint {
    pub Y_plus_X: FieldElement,
    pub Y_minus_X: FieldElement,
    pub Td: FieldElement,
    pub Z: FieldElement,
}

impl ProjectiveNielsPoint {
    /// Every coordinate is a reduced field element.
    pub open spec fn wf(&self) -> bool {
        self.Y_plus_X.wf() && self.Y_minus_X.wf() && self.Td.wf() && self.Z.wf()
    }

    /// The coordinates of the neutral element: `(1, 1, 0, 1)`.
    pub open spec fn is_identity_form(&self) -> bool {
        &&& self.wf()
        &&& self.Y_plus_X@ == 1
        &&& self.Y_minus_X@ == 1
        &&& self.Td@ == 0
        &&& self.Z@ == 1
    }

    /// `self` is what conditional negation under `choice` makes of `before`:
    /// under `true` the two sums trade places and `Td` is negated, under
    /// `false` nothing changes.
    pub open spec fn negation_of(&self, before: ProjectiveNielsPoint, choice: bool) -> bool {
        &&& self.wf()
        &&& self.Y_plus_X == if choice { before.Y_minus_X } else { before.Y_plus_X }
        &&& self.Y_minus_X == if choice { before.Y_plus_X } else { before.Y_minus_X }
        &&& self.Td@ == if choice { fneg(before.Td@) } else { before.Td@ }
        &&& self.Z == before.Z
        &&& !choice ==> *self == before
    }

    /// `e` holds `(Z·A, Z·B, Z², B·A)` for `A = (Y+X) - (Y-X)` and
    /// `B = (Y+X) + (Y-X)`.
    pub open spec fn is_extended_form(&self, e: ExtendedPoint) -> bool {
        let a = fsub(self.Y_plus_X@, self.Y_minus_X@);
        let b = fadd(self.Y_plus_X@, self.Y_minus_X@);
        &&& e.wf()
        &&& e.X@ == fmul(self.Z@, a)
        &&& e.Y@ == fmul(self.Z@, b)
        &&& e.Z@ == fmul(self.Z@, self.Z@)
        &&& e.T@ == fmul(b, a)
    }

    /// The neutral element of the group.
    pub fn identity() -> (r: ProjectiveNielsPoint)
        ensures
            r.is_identity_form(),
    {
        ProjectiveNielsPoint {
            Y_plus_X: FieldElement::one(),
            Y_minus_X: FieldElement::one(),
            Td: FieldElement::zero(),
            Z: FieldElement::one(),
        }
    }

    /// Picks `b` when `choice` holds and `a` otherwise, coordinate by
    /// coordinate and without branching on `choice`.
    pub fn conditional_select(
        a: &ProjectiveNielsPoint,
        b: &ProjectiveNielsPoint,
        choice: bool,
    ) -> (r: ProjectiveNielsPoint)
        ensures
            r == if choice { *b } else { *a },
    {
        ProjectiveNielsPoint {
            Y_plus_X: FieldElement::conditional_select(&a.Y_plus_X, &b.Y_plus_X, choice),
            Y_minus_X: FieldElement::conditional_select(&a.Y_minus_X, &b.Y_minus_X, choice),
            Td: FieldElement::conditional_select(&a.Td, &b.Td, choice),
            Z: FieldElement::conditional_select(&a.Z, &b.Z, choice),
        }
    }

    /// Negates the point when `choice` holds, by a constant-time swap of the
    /// two sums and a constant-time negation of `Td`.
    pub fn conditional_negate(&mut self, choice: bool)
        requires
            old(self).wf(),
        ensures
            final(self).negation_of(*old(self), choice),
    {
        FieldElement::conditional_swap(&mut self.Y_minus_X, &mut self.Y_plus_X, choice);
        self.Td.conditional_negate(choice);
    }

    /// The same point in extended coordinates, `(Z·A, Z·B, Z², B·A)`; the
    /// result meets `X·Y = Z·T`.
    pub fn to_extended(&self) -> (r: ExtendedPoint)
        requires
            self.wf(),
        ensures
            self.is_extended_form(r),
            r.on_extended_relation(),
    {
        let a = self.Y_plus_X.sub(&self.Y_minus_X);
        let b = self.Y_plus_X.add(&self.Y_minus_X);
        let r = ExtendedPoint { X: self.Z.mul(&a), Y: self.Z.mul(&b), Z: self.Z.square(), T: b.mul(&a) };
        proof {
            lemma_extended_relation(self.Z@, a@, b@);
        }
        r
    }
}

impl Default for ProjectiveNielsPoint {
    /// The neutral element.
    fn default() -> (r: ProjectiveNielsPoint)
        ensures
            r.is_identity_form(),
    {
        ProjectiveNielsPoint::identity()
    }
}

/// `(Z·A)·(Z·B) = Z²·(B·A)` in the field, which is why `to_extended` lands on
/// the extended relation.
proof fn lemma_extended_relation(z: nat, a: nat, b: nat)
    ensures
        fmul(fmul(z, a), fmul(z, b)) == fmul(fmul(z, z), fmul(b, a)),
{
    let m = modulus() as int;
    FieldElement::lemma_modulus_positive();
    lemma_mul_mod_noop((z * a) as int, (z * b) as int, m);
    lemma_mul_mod_noop((z * z) as int, (b * a) as int, m);
    assert((z * a) * (z * b) == (z * z) * (b * a)) by (nonlinear_arith);
}

/// Negating twice under `true` gives back the point, bit for bit.
pub proof fn lemma_negate_twice(p: ProjectiveNielsPoint, q: ProjectiveNielsPoint, r: ProjectiveNielsPoint)
    requires
        p.wf(),
        q.negation_of(p, true),
        r.negation_of(q, true),
    ensures
        r == p,
{
    p.Td.lemma_bound();
    lemma_fneg_involutive(p.Td@);
    FieldElement::lemma_value_determines(r.Td, p.Td);
}

/// Converting the neutral element's Niels form gives `(0, 2, 1, 0)`: affine
/// `x` is zero and the extended relation holds, while affine `y` comes out
/// as `2` rather than `1`, since `B` is `2·Y` and `Z` is not doubled.
pub proof fn lemma_identity_to_extended(p: ProjectiveNielsPoint, e: ExtendedPoint)
    requires
        p.is_identity_form(),
        p.is_extended_form(e),
    ensures
        e.X@ == 0,
        e.Y@ == 2,
        e.Z@ == 1,
        e.T@ == 0,
        e.on_extended_relation(),
{
    FieldElement::lemma_modulus_positive();
    lemma_small_mod(0, modulus());
    lemma_small_mod(1, modulus());
    lemma_small_mod(2, modulus());
    assert(fsub(1, 1) == 0);
    assert(fadd(1, 1) == 2);
    assert(fmul(2, 0) == 0 && fmul(1, 0) == 0 && fmul(0, 2) == 0) by (nonlinear_arith)
        requires
            modulus() > 2,
    ;
}

} // verus!

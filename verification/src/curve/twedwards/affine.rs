//! Points in affine coordinates `(x, y)` and their precomputed form for
//! mixed addition.
use crate::constants::{curve_d, twisted_d};
use crate::curve::twedwards::extended::{ExtendedCoords, ExtendedPoint};
use crate::curve::twedwards::extensible::{ExtensibleCoords, ExtensiblePoint};
use crate::field::arith::{
    congruent,
    field_add,
    field_div,
    field_inv,
    field_mul,
    field_neg,
    field_square,
    field_sub,
    is_unit,
    lemma_congruent_add,
    lemma_congruent_mul,
    lemma_congruent_neg,
    lemma_congruent_reduced,
    lemma_congruent_sub,
    lemma_field_add_zero,
    lemma_field_inv_one,
    lemma_field_mul_comm,
    lemma_field_mul_one,
    lemma_field_mul_zero,
    lemma_field_neg_neg,
    lemma_field_neg_square,
    modulus,
};
use crate::field::element::FieldElement;
use vstd::prelude::*;
use vstd::std_specs::cmp::PartialEqSpecImpl;

verus! {

/// The coordinates of an affine point, as field values.
pub struct AffineCoords {
    pub x: nat,
    pub y: nat,
}

/// A point of the curve `y^2 - x^2 = 1 + d*x^2*y^2` in affine
/// coordinates.
#[derive(Clone, Copy, Debug)]
pub struct AffinePoint {
    pub x: FieldElement,
    pub y: FieldElement,
}

impl View for AffinePoint {
    type V = AffineCoords;

    open spec fn view(&self) -> AffineCoords {
        AffineCoords { x: self.x@, y: self.y@ }
    }
}

/// The neutral element `(0, 1)`.
pub open spec fn affine_identity() -> AffineCoords {
    AffineCoords { x: 0, y: 1 }
}

/// The curve equation `y^2 - x^2 = 1 + d*x^2*y^2`.
pub open spec fn on_curve(p: AffineCoords) -> bool {
    field_sub(field_square(p.y), field_square(p.x)) == field_add(
        1,
        field_mul(field_mul(curve_d(), field_square(p.x)), field_square(p.y)),
    )
}

/// The negative `(-x, y)`.
pub open spec fn affine_neg(p: AffineCoords) -> AffineCoords {
    AffineCoords { x: field_neg(p.x), y: p.y }
}

/// The term `d*x1*x2*y1*y2` of the addition law.
pub open spec fn cross_term(p: AffineCoords, q: AffineCoords) -> nat {
    field_mul(field_mul(field_mul(field_mul(curve_d(), p.x), q.x), p.y), q.y)
}

/// The sum by the addition law of the curve:
/// `x3 = (x1*y2 + y1*x2) / (1 + d*x1*x2*y1*y2)`,
/// `y3 = (y1*y2 + x1*x2) / (1 - d*x1*x2*y1*y2)`.
pub open spec fn affine_add(p: AffineCoords, q: AffineCoords) -> AffineCoords {
    AffineCoords {
        x: field_div(
            field_add(field_mul(p.x, q.y), field_mul(p.y, q.x)),
            field_add(1, cross_term(p, q)),
        ),
        y: field_div(
            field_add(field_mul(p.y, q.y), field_mul(p.x, q.x)),
            field_sub(1, cross_term(p, q)),
        ),
    }
}

/// The extensible form `(x : y : 1 : x * y)`.
pub open spec fn affine_to_extensible(p: AffineCoords) -> ExtensibleCoords {
    ExtensibleCoords { x: p.x, y: p.y, z: 1, t1: p.x, t2: p.y }
}

/// The extended form `(x : y : 1 : x*y)`.
pub open spec fn affine_to_extended(p: AffineCoords) -> ExtendedCoords {
    ExtendedCoords { x: p.x, y: p.y, z: 1, t: field_mul(p.x, p.y) }
}

/// The precomputed triple `(y + x, y - x, d*x*y)`.
pub open spec fn affine_to_niels(p: AffineCoords) -> NielsCoords {
    NielsCoords {
        y_plus_x: field_add(p.y, p.x),
        y_minus_x: field_sub(p.y, p.x),
        td: field_mul(field_mul(p.x, p.y), curve_d()),
    }
}

impl AffinePoint {
    /// The neutral element.
    pub fn identity() -> (r: AffinePoint)
        ensures
            r@ == affine_identity(),
    {
        AffinePoint { x: FieldElement::zero(), y: FieldElement::one() }
    }

    /// Whether the coordinates satisfy the curve equation.
    pub fn is_on_curve(&self) -> (r: bool)
        ensures
            r == on_curve(self@),
    {
        let xx = self.x.square();
        let yy = self.y.square();
        let lhs = yy.sub(&xx);
        let rhs = FieldElement::one().add(&twisted_d().mul(&xx).mul(&yy));
        lhs.eq(&rhs)
    }

    /// The negative of the point.
    pub fn negate(&self) -> (r: AffinePoint)
        ensures
            r@ == affine_neg(self@),
    {
        AffinePoint { x: self.x.negate(), y: self.y }
    }

    /// The sum of two points, with one field inversion for each
    /// coordinate.
    pub fn add(&self, other: &AffinePoint) -> (r: AffinePoint)
        ensures
            r@ == affine_add(self@, other@),
    {
        let k = twisted_d().mul(&self.x).mul(&other.x).mul(&self.y).mul(&other.y);
        let y_numerator = self.y.mul(&other.y).add(&self.x.mul(&other.x));
        let y_denominator = FieldElement::one().sub(&k);
        let x_numerator = self.x.mul(&other.y).add(&self.y.mul(&other.x));
        let x_denominator = FieldElement::one().add(&k);
        let x = x_numerator.mul(&x_denominator.invert());
        let y = y_numerator.mul(&y_denominator.invert());
        AffinePoint { x, y }
    }

    /// The same point in extensible coordinates.
    pub fn to_extensible(&self) -> (r: ExtensiblePoint)
        ensures
            r@ == affine_to_extensible(self@),
    {
        ExtensiblePoint {
            X: self.x,
            Y: self.y,
            Z: FieldElement::one(),
            T1: self.x,
            T2: self.y,
        }
    }

    /// The precomputed form of the point.
    pub fn to_affine_niels(&self) -> (r: AffineNielsPoint)
        ensures
            r@ == affine_to_niels(self@),
    {
        AffineNielsPoint {
            y_plus_x: self.y.add(&self.x),
            y_minus_x: self.y.sub(&self.x),
            td: self.x.mul(&self.y).mul(&twisted_d()),
        }
    }

    /// The same point in extended coordinates.
    pub fn to_extended(&self) -> (r: ExtendedPoint)
        ensures
            r@ == affine_to_extended(self@),
    {
        self.to_extensible().to_extended()
    }
}

impl Default for AffinePoint {
    fn default() -> (r: AffinePoint)
        ensures
            r@ == affine_identity(),
    {
        AffinePoint::identity()
    }
}

impl PartialEq for AffinePoint {
    /// Equality of both coordinates.
    fn eq(&self, other: &AffinePoint) -> (r: bool) {
        let same_x = self.x.eq(&other.x);
        let same_y = self.y.eq(&other.y);
        same_x && same_y
    }
}

impl PartialEqSpecImpl for AffinePoint {
    open spec fn obeys_eq_spec() -> bool {
        true
    }

    open spec fn eq_spec(&self, other: &AffinePoint) -> bool {
        self@ == other@
    }
}

impl Eq for AffinePoint {

}

/// The components of a precomputed point, as field values.
pub struct NielsCoords {
    pub y_plus_x: nat,
    pub y_minus_x: nat,
    pub td: nat,
}

/// An affine point precomputed for mixed addition:
/// `(y + x, y - x, d*x*y)`.
#[derive(Clone, Copy, Debug)]
pub struct AffineNielsPoint {
    pub y_plus_x: FieldElement,
    pub y_minus_x: FieldElement,
    pub td: FieldElement,
}

impl View for AffineNielsPoint {
    type V = NielsCoords;

    open spec fn view(&self) -> NielsCoords {
        NielsCoords { y_plus_x: self.y_plus_x@, y_minus_x: self.y_minus_x@, td: self.td@ }
    }
}

/// The precomputed form of the neutral element, `(1, 1, 0)`.
pub open spec fn niels_identity() -> NielsCoords {
    NielsCoords { y_plus_x: 1, y_minus_x: 1, td: 0 }
}

/// The extended coordinates rebuilt from a precomputed triple:
/// `X = (y+x) - (y-x)`, `Y = (y-x) + (y+x)`, `Z = 1`,
/// `T = (y+x) * (y-x)`.
pub open spec fn niels_to_extended(n: NielsCoords) -> ExtendedCoords {
    ExtendedCoords {
        x: field_sub(n.y_plus_x, n.y_minus_x),
        y: field_add(n.y_minus_x, n.y_plus_x),
        z: 1,
        t: field_mul(n.y_plus_x, n.y_minus_x),
    }
}

impl AffineNielsPoint {
    /// Whether the two triples are equal, component by component.
    pub fn equals(&self, other: &AffineNielsPoint) -> (r: bool)
        ensures
            r == (self@ == other@),
    {
        let same_minus = self.y_minus_x.eq(&other.y_minus_x);
        let same_plus = self.y_plus_x.eq(&other.y_plus_x);
        let same_td = self.td.eq(&other.td);
        same_minus && same_plus && same_td
    }

    /// The precomputed form of the neutral element.
    pub fn identity() -> (r: AffineNielsPoint)
        ensures
            r@ == niels_identity(),
    {
        AffineNielsPoint {
            y_plus_x: FieldElement::one(),
            y_minus_x: FieldElement::one(),
            td: FieldElement::zero(),
        }
    }

    /// `a` for a clear choice and `b` for a set one, component by
    /// component and without a branch on the choice.
    pub fn conditional_select(a: &AffineNielsPoint, b: &AffineNielsPoint, choice: bool) -> (r:
        AffineNielsPoint)
        ensures
            r@ == if choice { b@ } else { a@ },
    {
        AffineNielsPoint {
            y_plus_x: FieldElement::conditional_select(&a.y_plus_x, &b.y_plus_x, choice),
            y_minus_x: FieldElement::conditional_select(&a.y_minus_x, &b.y_minus_x, choice),
            td: FieldElement::conditional_select(&a.td, &b.td, choice),
        }
    }

    /// The extended coordinates rebuilt from the triple.
    pub fn to_extended(&self) -> (r: ExtendedPoint)
        ensures
            r@ == niels_to_extended(self@),
    {
        ExtendedPoint {
            X: self.y_plus_x.sub(&self.y_minus_x),
            Y: self.y_minus_x.add(&self.y_plus_x),
            Z: FieldElement::one(),
            T: self.y_plus_x.mul(&self.y_minus_x),
        }
    }
}

/// Both coordinates are reduced modulo the field prime, as the
/// coordinates of every executable point are.
pub open spec fn affine_reduced(p: AffineCoords) -> bool {
    p.x < modulus() && p.y < modulus()
}

/// The cross term of the addition law is the product of its five
/// factors in any order.
pub proof fn lemma_cross_term_product(p: AffineCoords, q: AffineCoords)
    ensures
        congruent(
            cross_term(p, q) as int,
            curve_d() as int * (p.x as int * q.x as int) * (p.y as int * q.y as int),
        ),
{
    let d = curve_d();
    let di = d as int;
    let a = p.x as int;
    let b = q.x as int;
    let c = p.y as int;
    let e = q.y as int;
    let t1 = field_mul(d, p.x);
    let t2 = field_mul(t1, q.x);
    let t3 = field_mul(t2, p.y);
    lemma_congruent_mul(d, di, p.x, a);
    lemma_congruent_mul(t1, di * a, q.x, b);
    lemma_congruent_mul(t2, di * a * b, p.y, c);
    lemma_congruent_mul(t3, di * a * b * c, q.y, e);
    assert(di * a * b * c * e == di * (a * b) * (c * e)) by (nonlinear_arith);
}

/// Negating twice gives the point back.
pub proof fn lemma_negate_involution(p: AffineCoords)
    requires
        affine_reduced(p),
    ensures
        affine_neg(affine_neg(p)) == p,
{
    lemma_field_neg_neg(p.x);
}

/// The negative of a point of the curve is on the curve.
pub proof fn lemma_negate_on_curve(p: AffineCoords)
    requires
        on_curve(p),
    ensures
        on_curve(affine_neg(p)),
{
    lemma_field_neg_square(p.x);
}

/// Addition is commutative: `p + q = q + p`.
pub proof fn lemma_add_commutative(p: AffineCoords, q: AffineCoords)
    ensures
        affine_add(p, q) == affine_add(q, p),
{
    lemma_cross_term_product(p, q);
    lemma_cross_term_product(q, p);
    let di = curve_d() as int;
    let a = p.x as int;
    let b = q.x as int;
    let c = p.y as int;
    let e = q.y as int;
    assert(di * (a * b) * (c * e) == di * (b * a) * (e * c)) by (nonlinear_arith);
    lemma_congruent_reduced(cross_term(p, q), cross_term(q, p));
    lemma_field_mul_comm(p.x, q.y);
    lemma_field_mul_comm(p.y, q.x);
    lemma_field_mul_comm(p.y, q.y);
    lemma_field_mul_comm(p.x, q.x);
}

/// The neutral element is neutral on both sides: `0 + p = p = p + 0`.
pub proof fn lemma_identity_add(p: AffineCoords)
    requires
        affine_reduced(p),
    ensures
        affine_add(affine_identity(), p) == p,
        affine_add(p, affine_identity()) == p,
{
    let id = affine_identity();
    let d = curve_d();
    lemma_field_mul_zero(d);
    lemma_field_mul_zero(p.x);
    lemma_field_mul_zero(1);
    lemma_field_mul_zero(p.y);
    assert(cross_term(id, p) == 0);
    lemma_field_mul_one(p.x);
    lemma_field_mul_one(p.y);
    lemma_field_add_zero(p.x);
    lemma_field_add_zero(p.y);
    lemma_field_add_zero(1);
    lemma_field_inv_one();
    lemma_add_commutative(p, id);
}

/// The numerator of `x` in `(-p) + p` is `-x*y + y*x = 0`.
proof fn lemma_negative_add_x(p: AffineCoords)
    ensures
        field_add(field_mul(field_neg(p.x), p.y), field_mul(p.y, p.x)) == 0,
{
    let x = p.x as int;
    let y = p.y as int;
    let nx = field_neg(p.x);
    lemma_congruent_neg(p.x, x);
    lemma_congruent_mul(nx, -x, p.y, y);
    lemma_congruent_mul(p.y, y, p.x, x);
    lemma_congruent_add(field_mul(nx, p.y), (-x) * y, field_mul(p.y, p.x), y * x);
    assert((-x) * y + y * x == 0) by (nonlinear_arith);
    lemma_congruent_reduced(field_add(field_mul(nx, p.y), field_mul(p.y, p.x)), 0);
}

/// The numerator of `y` in `(-p) + p` is `y*y + (-x)*x`, the side
/// `y^2 - x^2` of the curve equation.
proof fn lemma_negative_add_y(p: AffineCoords)
    ensures
        field_add(field_mul(p.y, p.y), field_mul(field_neg(p.x), p.x)) == field_sub(
            field_square(p.y),
            field_square(p.x),
        ),
{
    let x = p.x as int;
    let y = p.y as int;
    let nx = field_neg(p.x);
    lemma_congruent_neg(p.x, x);
    lemma_congruent_mul(p.y, y, p.y, y);
    lemma_congruent_mul(nx, -x, p.x, x);
    lemma_congruent_mul(p.x, x, p.x, x);
    lemma_congruent_add(field_mul(p.y, p.y), y * y, field_mul(nx, p.x), (-x) * x);
    lemma_congruent_sub(field_square(p.y), y * y, field_square(p.x), x * x);
    assert(y * y + (-x) * x == y * y - x * x) by (nonlinear_arith);
    lemma_congruent_reduced(
        field_add(field_mul(p.y, p.y), field_mul(nx, p.x)),
        field_sub(field_square(p.y), field_square(p.x)),
    );
}

/// The denominator of `y` in `(-p) + p` is `1 - d*(-x)*x*y*y`, the side
/// `1 + d*x^2*y^2` of the curve equation.
proof fn lemma_negative_add_denominator(p: AffineCoords)
    ensures
        field_sub(1, cross_term(affine_neg(p), p)) == field_add(
            1,
            field_mul(field_mul(curve_d(), field_square(p.x)), field_square(p.y)),
        ),
{
    let n = affine_neg(p);
    let d = curve_d();
    let di = d as int;
    let x = p.x as int;
    let y = p.y as int;
    let cross = cross_term(n, p);
    let t1 = field_mul(d, n.x);
    let t2 = field_mul(t1, p.x);
    let t3 = field_mul(t2, p.y);
    lemma_congruent_neg(p.x, x);
    lemma_congruent_mul(d, di, n.x, -x);
    lemma_congruent_mul(t1, di * (-x), p.x, x);
    lemma_congruent_mul(t2, di * (-x) * x, p.y, y);
    lemma_congruent_mul(t3, di * (-x) * x * y, p.y, y);
    lemma_congruent_sub(1, 1, cross, di * (-x) * x * y * y);
    lemma_congruent_mul(p.x, x, p.x, x);
    lemma_congruent_mul(p.y, y, p.y, y);
    lemma_congruent_mul(d, di, field_square(p.x), x * x);
    lemma_congruent_mul(field_mul(d, field_square(p.x)), di * (x * x), field_square(p.y), y * y);
    let rhs = field_mul(field_mul(d, field_square(p.x)), field_square(p.y));
    lemma_congruent_add(1, 1, rhs, di * (x * x) * (y * y));
    assert(1 - di * (-x) * x * y * y == 1 + di * (x * x) * (y * y)) by (nonlinear_arith);
    lemma_congruent_reduced(field_sub(1, cross), field_add(1, rhs));
}

/// A point of the curve and its negative add up to the neutral
/// element, wherever the side `y^2 - x^2` of the curve equation has an
/// inverse in the field.
pub proof fn lemma_negative_add(p: AffineCoords)
    requires
        on_curve(p),
        is_unit(field_sub(field_square(p.y), field_square(p.x))),
    ensures
        affine_add(affine_neg(p), p) == affine_identity(),
{
    let n = affine_neg(p);
    lemma_negative_add_x(p);
    lemma_negative_add_y(p);
    lemma_negative_add_denominator(p);
    lemma_field_mul_zero(field_inv(field_add(1, cross_term(n, p))));
}

/// The precomputed form of the neutral element is `(1, 1, 0)`.
pub proof fn lemma_niels_of_identity()
    ensures
        affine_to_niels(affine_identity()) == niels_identity(),
{
    lemma_field_add_zero(1);
    lemma_field_mul_zero(1);
    lemma_field_mul_zero(curve_d());
}

} // verus!

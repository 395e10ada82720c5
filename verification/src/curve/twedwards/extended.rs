//! Points in extended coordinates `(X, Y, Z, T)` with `x = X/Z`,
//! `y = Y/Z` and `T = XY/Z`: the form in which points are stored and
//! compared.
#![allow(non_snake_case)]

use crate::constants::{
    base_point,
    curve_d,
    lemma_base_point_valid,
    twisted_d,
    twisted_edwards_base_point,
};
use crate::curve::twedwards::affine::{
    affine_reduced,
    affine_to_extended,
    AffineCoords,
    AffinePoint,
    on_curve,
};
use crate::curve::twedwards::extensible::{
    extensible_add,
    extensible_double,
    extensible_to_extended,
    ExtensibleCoords,
    ExtensiblePoint,
};
use crate::field::arith::{
    field_add,
    field_div,
    field_inv,
    field_mul,
    field_neg,
    field_square,
    field_sub,
    is_unit,
    lemma_congruent_add,
    lemma_congruent_mul,
    lemma_congruent_products,
    lemma_congruent_reduced,
    lemma_congruent_sub,
    lemma_field_inv_one,
    lemma_field_mul_neg,
    lemma_field_mul_one,
    lemma_field_mul_zero,
    lemma_field_neg_square,
    modulus,
};
use crate::field::element::FieldElement;
use vstd::prelude::*;
use vstd::std_specs::cmp::PartialEqSpecImpl;

verus! {

/// The coordinates of a point in extended form, as field values.
pub struct ExtendedCoords {
    pub x: nat,
    pub y: nat,
    pub z: nat,
    pub t: nat,
}

/// A point in extended coordinates.
#[derive(Clone, Copy, Debug)]
pub struct ExtendedPoint {
    pub X: FieldElement,
    pub Y: FieldElement,
    pub Z: FieldElement,
    pub T: FieldElement,
}

impl View for ExtendedPoint {
    type V = ExtendedCoords;

    open spec fn view(&self) -> ExtendedCoords {
        ExtendedCoords { x: self.X@, y: self.Y@, z: self.Z@, t: self.T@ }
    }
}

/// The neutral element `(0 : 1 : 1 : 0)`.
pub open spec fn extended_identity() -> ExtendedCoords {
    ExtendedCoords { x: 0, y: 1, z: 1, t: 0 }
}

/// The coordinates satisfy the projective curve equation
/// `Y^2 - X^2 = Z^2 + d*T^2` with `T*Z = X*Y` and `Z != 0`.
pub open spec fn extended_valid(p: ExtendedCoords) -> bool {
    &&& p.z != 0
    &&& field_mul(p.t, p.z) == field_mul(p.x, p.y)
    &&& field_sub(field_square(p.y), field_square(p.x)) == field_add(
        field_square(p.z),
        field_mul(curve_d(), field_square(p.t)),
    )
}

/// Two coordinate quadruples have the same affine image:
/// `X1*Z2 = X2*Z1` and `Y1*Z2 = Y2*Z1`.
pub open spec fn extended_eq(p: ExtendedCoords, q: ExtendedCoords) -> bool {
    &&& field_mul(p.x, q.z) == field_mul(q.x, p.z)
    &&& field_mul(p.y, q.z) == field_mul(q.y, p.z)
}

/// The negative `(-X : Y : Z : -T)`.
pub open spec fn extended_neg(p: ExtendedCoords) -> ExtendedCoords {
    ExtendedCoords { x: field_neg(p.x), y: p.y, z: p.z, t: field_neg(p.t) }
}

/// The affine image `(X/Z, Y/Z)`.
pub open spec fn extended_to_affine(p: ExtendedCoords) -> AffineCoords {
    AffineCoords { x: field_div(p.x, p.z), y: field_div(p.y, p.z) }
}

/// The same point with the product `T` split as `T * 1`.
pub open spec fn extended_to_extensible(p: ExtendedCoords) -> ExtensibleCoords {
    ExtensibleCoords { x: p.x, y: p.y, z: p.z, t1: p.t, t2: 1 }
}

impl ExtendedPoint {
    /// The neutral element.
    pub fn identity() -> (r: ExtendedPoint)
        ensures
            r@ == extended_identity(),
            extended_valid(r@),
    {
        proof {
            lemma_identity_valid();
        }
        ExtendedPoint {
            X: FieldElement::zero(),
            Y: FieldElement::one(),
            Z: FieldElement::one(),
            T: FieldElement::zero(),
        }
    }

    /// The base point of the prime-order subgroup.
    pub fn generator() -> (r: ExtendedPoint)
        ensures
            r@ == base_point(),
            extended_valid(r@),
    {
        proof {
            lemma_base_point_valid();
        }
        twisted_edwards_base_point()
    }

    /// Whether the coordinates describe a point of the curve.
    pub fn is_on_curve(&self) -> (r: bool)
        ensures
            r == extended_valid(self@),
    {
        let nonzero = !self.Z.is_zero();
        let tz = self.T.mul(&self.Z);
        let xy = self.X.mul(&self.Y);
        let lhs = self.Y.square().sub(&self.X.square());
        let rhs = self.Z.square().add(&twisted_d().mul(&self.T.square()));
        let product_ok = tz.eq(&xy);
        let curve_ok = lhs.eq(&rhs);
        nonzero && product_ok && curve_ok
    }

    /// The same point in extensible coordinates.
    pub fn to_extensible(&self) -> (r: ExtensiblePoint)
        ensures
            r@ == extended_to_extensible(self@),
    {
        ExtensiblePoint { X: self.X, Y: self.Y, Z: self.Z, T1: self.T, T2: FieldElement::one() }
    }

    /// The affine image `(X/Z, Y/Z)` of a point whose `Z` is not zero.
    pub fn to_affine(&self) -> (r: AffinePoint)
        requires
            self@.z != 0,
        ensures
            r@ == extended_to_affine(self@),
    {
        let zi = self.Z.invert();
        AffinePoint { x: self.X.mul(&zi), y: self.Y.mul(&zi) }
    }

    /// The negative of the point.
    pub fn negate(&self) -> (r: ExtendedPoint)
        ensures
            r@ == extended_neg(self@),
    {
        ExtendedPoint { X: self.X.negate(), Y: self.Y, Z: self.Z, T: self.T.negate() }
    }

    /// The sum of two points.
    pub fn add(&self, other: &ExtendedPoint) -> (r: ExtendedPoint)
        ensures
            r@ == extensible_to_extended(extensible_add(extended_to_extensible(self@), other@)),
    {
        self.to_extensible().add_extended(other).to_extended()
    }

    /// Twice the point.
    pub fn double(&self) -> (r: ExtendedPoint)
        ensures
            r@ == extensible_to_extended(extensible_double(extended_to_extensible(self@))),
    {
        self.to_extensible().double().to_extended()
    }
}

impl PartialEq for ExtendedPoint {
    /// Equality of the affine images, by cross-multiplication.
    fn eq(&self, other: &ExtendedPoint) -> (r: bool) {
        let xz = self.X.mul(&other.Z);
        let zx = other.X.mul(&self.Z);
        let yz = self.Y.mul(&other.Z);
        let zy = other.Y.mul(&self.Z);
        let same_x = xz.eq(&zx);
        let same_y = yz.eq(&zy);
        same_x && same_y
    }
}

impl PartialEqSpecImpl for ExtendedPoint {
    open spec fn obeys_eq_spec() -> bool {
        true
    }

    open spec fn eq_spec(&self, other: &ExtendedPoint) -> bool {
        extended_eq(self@, other@)
    }
}

impl Eq for ExtendedPoint {

}

/// The same point with every coordinate multiplied by `k`.
pub open spec fn rescaled(p: ExtendedCoords, k: nat) -> ExtendedCoords {
    ExtendedCoords {
        x: field_mul(p.x, k),
        y: field_mul(p.y, k),
        z: field_mul(p.z, k),
        t: field_mul(p.t, k),
    }
}

/// All four coordinates are reduced modulo the field prime, as the
/// coordinates of every executable point are.
pub open spec fn extended_reduced(p: ExtendedCoords) -> bool {
    p.x < modulus() && p.y < modulus() && p.z < modulus() && p.t < modulus()
}

/// The neutral element is a point of the curve.
pub proof fn lemma_identity_valid()
    ensures
        extended_valid(extended_identity()),
{
    assert(field_mul(curve_d(), 0) == 0) by {
        lemma_field_mul_zero(curve_d());
    }
}

/// An affine point lifted to `Z = 1` is valid exactly when the affine
/// point satisfies the curve equation.
pub proof fn lemma_affine_lift_valid(p: AffineCoords)
    ensures
        extended_valid(affine_to_extended(p)) == on_curve(p),
{
    let d = curve_d();
    let di = d as int;
    let x = p.x as int;
    let y = p.y as int;
    let t = field_mul(p.x, p.y);
    lemma_field_mul_one(t);
    lemma_congruent_mul(p.x, x, p.y, y);
    lemma_congruent_mul(t, x * y, t, x * y);
    lemma_congruent_mul(d, di, field_square(t), (x * y) * (x * y));
    lemma_congruent_mul(p.x, x, p.x, x);
    lemma_congruent_mul(p.y, y, p.y, y);
    lemma_congruent_mul(d, di, field_square(p.x), x * x);
    lemma_congruent_mul(field_mul(d, field_square(p.x)), di * (x * x), field_square(p.y), y * y);
    assert(di * ((x * y) * (x * y)) == di * (x * x) * (y * y)) by (nonlinear_arith);
    lemma_congruent_reduced(
        field_mul(d, field_square(t)),
        field_mul(field_mul(d, field_square(p.x)), field_square(p.y)),
    );
}

/// Lifting an affine point and taking the affine image gives the point
/// back.
pub proof fn lemma_affine_round_trip(p: AffineCoords)
    requires
        affine_reduced(p),
    ensures
        extended_to_affine(affine_to_extended(p)) == p,
{
    lemma_field_inv_one();
    lemma_field_mul_one(p.x);
    lemma_field_mul_one(p.y);
}

/// Every point has the same affine image as itself.
pub proof fn lemma_extended_eq_reflexive(p: ExtendedCoords)
    ensures
        extended_eq(p, p),
{
}

/// Having the same affine image does not depend on the order.
pub proof fn lemma_extended_eq_symmetric(p: ExtendedCoords, q: ExtendedCoords)
    ensures
        extended_eq(p, q) == extended_eq(q, p),
{
}

/// A point has the same affine image as each of its rescalings.
pub proof fn lemma_extended_eq_rescaled(p: ExtendedCoords, k: nat)
    ensures
        extended_eq(p, rescaled(p, k)),
{
    let x = p.x as int;
    let y = p.y as int;
    let z = p.z as int;
    let ki = k as int;
    lemma_congruent_mul(p.x, x, k, ki);
    lemma_congruent_mul(p.y, y, k, ki);
    lemma_congruent_mul(p.z, z, k, ki);
    lemma_congruent_mul(p.x, x, field_mul(p.z, k), z * ki);
    lemma_congruent_mul(field_mul(p.x, k), x * ki, p.z, z);
    lemma_congruent_mul(p.y, y, field_mul(p.z, k), z * ki);
    lemma_congruent_mul(field_mul(p.y, k), y * ki, p.z, z);
    assert(x * (z * ki) == (x * ki) * z) by (nonlinear_arith);
    assert(y * (z * ki) == (y * ki) * z) by (nonlinear_arith);
    lemma_congruent_reduced(
        field_mul(p.x, field_mul(p.z, k)),
        field_mul(field_mul(p.x, k), p.z),
    );
    lemma_congruent_reduced(
        field_mul(p.y, field_mul(p.z, k)),
        field_mul(field_mul(p.y, k), p.z),
    );
}

/// The negative of a valid point is valid.
pub proof fn lemma_negate_valid(p: ExtendedCoords)
    requires
        extended_valid(p),
    ensures
        extended_valid(extended_neg(p)),
{
    lemma_field_mul_neg(p.t, p.z);
    lemma_field_mul_neg(p.x, p.y);
    lemma_field_neg_square(p.x);
    lemma_field_neg_square(p.t);
}

/// The coordinates `p` are a projective form of the affine point `a`:
/// `X = x*Z`, `Y = y*Z` and `T = x*y*Z`.
pub open spec fn represents(p: ExtendedCoords, a: AffineCoords) -> bool {
    &&& p.x == field_mul(a.x, p.z)
    &&& p.y == field_mul(a.y, p.z)
    &&& p.t == field_mul(field_mul(a.x, a.y), p.z)
}

/// An affine point lifted to `Z = 1` is a projective form of itself.
pub proof fn lemma_lift_represents(a: AffineCoords)
    requires
        affine_reduced(a),
    ensures
        represents(affine_to_extended(a), a),
{
    lemma_field_mul_one(a.x);
    lemma_field_mul_one(a.y);
    lemma_field_mul_one(field_mul(a.x, a.y));
}

/// Two projective forms of one affine point are equal as points.
pub proof fn lemma_represents_same_equal(p: ExtendedCoords, q: ExtendedCoords, a: AffineCoords)
    requires
        represents(p, a),
        represents(q, a),
    ensures
        extended_eq(p, q),
{
    let x = a.x as int;
    let y = a.y as int;
    let z1 = p.z as int;
    let z2 = q.z as int;
    lemma_congruent_mul(a.x, x, p.z, z1);
    lemma_congruent_mul(a.x, x, q.z, z2);
    lemma_congruent_mul(a.y, y, p.z, z1);
    lemma_congruent_mul(a.y, y, q.z, z2);
    lemma_congruent_mul(p.x, x * z1, q.z, z2);
    lemma_congruent_mul(q.x, x * z2, p.z, z1);
    lemma_congruent_mul(p.y, y * z1, q.z, z2);
    lemma_congruent_mul(q.y, y * z2, p.z, z1);
    assert((x * z1) * z2 == (x * z2) * z1) by (nonlinear_arith);
    assert((y * z1) * z2 == (y * z2) * z1) by (nonlinear_arith);
    lemma_congruent_reduced(field_mul(p.x, q.z), field_mul(q.x, p.z));
    lemma_congruent_reduced(field_mul(p.y, q.z), field_mul(q.y, p.z));
}

/// The affine image of a projective form of `a` is `a`, where `Z` has
/// an inverse.
pub proof fn lemma_represents_to_affine(p: ExtendedCoords, a: AffineCoords)
    requires
        represents(p, a),
        affine_reduced(a),
        is_unit(p.z),
    ensures
        extended_to_affine(p) == a,
{
    let x = a.x as int;
    let y = a.y as int;
    let z = p.z as int;
    let zi = field_inv(p.z);
    let u = zi as int;
    lemma_congruent_mul(a.x, x, p.z, z);
    lemma_congruent_mul(a.y, y, p.z, z);
    lemma_congruent_mul(p.x, x * z, zi, u);
    lemma_congruent_mul(p.y, y * z, zi, u);
    lemma_congruent_mul(p.z, z, zi, u);
    lemma_congruent_products(x, x, z * u, 1);
    lemma_congruent_products(y, y, z * u, 1);
    assert((x * z) * u == x * (z * u)) by (nonlinear_arith);
    assert((y * z) * u == y * (z * u)) by (nonlinear_arith);
    lemma_congruent_reduced(field_mul(p.x, zi), a.x);
    lemma_congruent_reduced(field_mul(p.y, zi), a.y);
}

/// A projective form of a point of the curve satisfies the projective
/// curve equation `Y^2 - X^2 = Z^2 + d*T^2` and `T*Z = X*Y`; it is
/// valid where its `Z` is not zero.
#[verifier::rlimit(40)]
pub proof fn lemma_represents_valid(p: ExtendedCoords, a: AffineCoords)
    requires
        represents(p, a),
        on_curve(a),
        p.z != 0,
    ensures
        extended_valid(p),
{
    let d = curve_d();
    let di = d as int;
    let x = a.x as int;
    let y = a.y as int;
    let z = p.z as int;
    lemma_congruent_mul(a.x, x, p.z, z);
    lemma_congruent_mul(a.y, y, p.z, z);
    lemma_congruent_mul(a.x, x, a.y, y);
    lemma_congruent_mul(field_mul(a.x, a.y), x * y, p.z, z);
    // T*Z = X*Y
    lemma_congruent_mul(p.t, (x * y) * z, p.z, z);
    lemma_congruent_mul(p.x, x * z, p.y, y * z);
    assert(((x * y) * z) * z == (x * z) * (y * z)) by (nonlinear_arith);
    lemma_congruent_reduced(field_mul(p.t, p.z), field_mul(p.x, p.y));
    // Y^2 - X^2 is (z*z) * (y*y - x*x)
    lemma_congruent_mul(p.y, y * z, p.y, y * z);
    lemma_congruent_mul(p.x, x * z, p.x, x * z);
    lemma_congruent_sub(
        field_square(p.y),
        (y * z) * (y * z),
        field_square(p.x),
        (x * z) * (x * z),
    );
    assert((y * z) * (y * z) - (x * z) * (x * z) == (z * z) * (y * y - x * x))
        by (nonlinear_arith);
    // the curve equation of a, as a congruence of integers
    lemma_congruent_mul(a.x, x, a.x, x);
    lemma_congruent_mul(a.y, y, a.y, y);
    lemma_congruent_sub(field_square(a.y), y * y, field_square(a.x), x * x);
    lemma_congruent_mul(d, di, field_square(a.x), x * x);
    lemma_congruent_mul(field_mul(d, field_square(a.x)), di * (x * x), field_square(a.y), y * y);
    lemma_congruent_add(
        1,
        1,
        field_mul(field_mul(d, field_square(a.x)), field_square(a.y)),
        di * (x * x) * (y * y),
    );
    lemma_congruent_products(
        z * z,
        z * z,
        y * y - x * x,
        1 + di * (x * x) * (y * y),
    );
    // Z^2 + d*T^2 is (z*z) * (1 + d*x^2*y^2)
    lemma_congruent_mul(p.z, z, p.z, z);
    lemma_congruent_mul(p.t, (x * y) * z, p.t, (x * y) * z);
    lemma_congruent_mul(d, di, field_square(p.t), ((x * y) * z) * ((x * y) * z));
    lemma_congruent_add(
        field_square(p.z),
        z * z,
        field_mul(d, field_square(p.t)),
        di * (((x * y) * z) * ((x * y) * z)),
    );
    assert(z * z + di * (((x * y) * z) * ((x * y) * z)) == (z * z) * (1 + di * (x * x) * (y
        * y))) by (nonlinear_arith);
    lemma_congruent_reduced(
        field_sub(field_square(p.y), field_square(p.x)),
        field_add(field_square(p.z), field_mul(d, field_square(p.t))),
    );
}

/// A valid point rescaled is valid, where its `Z` is not zero.
#[verifier::rlimit(40)]
pub proof fn lemma_rescaled_valid(p: ExtendedCoords, k: nat)
    requires
        extended_valid(p),
        rescaled(p, k).z != 0,
    ensures
        extended_valid(rescaled(p, k)),
{
    let q = rescaled(p, k);
    let d = curve_d();
    let di = d as int;
    let x = p.x as int;
    let y = p.y as int;
    let z = p.z as int;
    let t = p.t as int;
    let ki = k as int;
    let kk = ki * ki;
    lemma_congruent_mul(p.x, x, k, ki);
    lemma_congruent_mul(p.y, y, k, ki);
    lemma_congruent_mul(p.z, z, k, ki);
    lemma_congruent_mul(p.t, t, k, ki);
    // T*Z = X*Y
    lemma_congruent_mul(q.t, t * ki, q.z, z * ki);
    lemma_congruent_mul(q.x, x * ki, q.y, y * ki);
    lemma_congruent_mul(p.t, t, p.z, z);
    lemma_congruent_mul(p.x, x, p.y, y);
    lemma_congruent_products(kk, kk, t * z, x * y);
    assert((t * ki) * (z * ki) == kk * (t * z)) by (nonlinear_arith)
        requires
            kk == ki * ki,
    ;
    assert((x * ki) * (y * ki) == kk * (x * y)) by (nonlinear_arith)
        requires
            kk == ki * ki,
    ;
    lemma_congruent_reduced(field_mul(q.t, q.z), field_mul(q.x, q.y));
    // the curve equation
    let xx = x * x;
    let yy = y * y;
    let zz = z * z;
    let tt = t * t;
    lemma_congruent_mul(q.x, x * ki, q.x, x * ki);
    lemma_congruent_mul(q.y, y * ki, q.y, y * ki);
    lemma_congruent_mul(q.z, z * ki, q.z, z * ki);
    lemma_congruent_mul(q.t, t * ki, q.t, t * ki);
    lemma_congruent_sub(
        field_square(q.y),
        (y * ki) * (y * ki),
        field_square(q.x),
        (x * ki) * (x * ki),
    );
    lemma_congruent_mul(d, di, field_square(q.t), (t * ki) * (t * ki));
    lemma_congruent_add(
        field_square(q.z),
        (z * ki) * (z * ki),
        field_mul(d, field_square(q.t)),
        di * ((t * ki) * (t * ki)),
    );
    lemma_congruent_mul(p.x, x, p.x, x);
    lemma_congruent_mul(p.y, y, p.y, y);
    lemma_congruent_mul(p.z, z, p.z, z);
    lemma_congruent_mul(p.t, t, p.t, t);
    lemma_congruent_sub(field_square(p.y), yy, field_square(p.x), xx);
    lemma_congruent_mul(d, di, field_square(p.t), tt);
    lemma_congruent_add(field_square(p.z), zz, field_mul(d, field_square(p.t)), di * tt);
    lemma_congruent_products(kk, kk, yy - xx, zz + di * tt);
    assert((y * ki) * (y * ki) == kk * yy) by (nonlinear_arith)
        requires
            kk == ki * ki,
            yy == y * y,
    ;
    assert((x * ki) * (x * ki) == kk * xx) by (nonlinear_arith)
        requires
            kk == ki * ki,
            xx == x * x,
    ;
    assert((z * ki) * (z * ki) == kk * zz) by (nonlinear_arith)
        requires
            kk == ki * ki,
            zz == z * z,
    ;
    assert((t * ki) * (t * ki) == kk * tt) by (nonlinear_arith)
        requires
            kk == ki * ki,
            tt == t * t,
    ;
    assert(kk * yy - kk * xx == kk * (yy - xx)) by (nonlinear_arith);
    assert(kk * zz + di * (kk * tt) == kk * (zz + di * tt)) by (nonlinear_arith);
    lemma_congruent_reduced(
        field_sub(field_square(q.y), field_square(q.x)),
        field_add(field_square(q.z), field_mul(d, field_square(q.t))),
    );
}

} // verus!

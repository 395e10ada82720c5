//! Points in extensible coordinates `(X, Y, Z, T1, T2)`: extended
//! coordinates whose `T = T1 * T2` is left unmultiplied, the form in
//! which sums and doubles are accumulated.
#![allow(non_snake_case)]

use crate::constants::{curve_d, twisted_d};
use crate::curve::twedwards::affine::{
    affine_add,
    affine_to_extended,
    affine_to_niels,
    AffineCoords,
    AffineNielsPoint,
    cross_term,
    lemma_cross_term_product,
    NielsCoords,
    on_curve,
};
use crate::curve::twedwards::closure::lemma_add_on_curve;
use crate::curve::twedwards::extended::{
    extended_eq,
    extended_valid,
    ExtendedCoords,
    ExtendedPoint,
    lemma_represents_valid,
    represents,
};
use crate::field::arith::{
    congruent,
    field_add,
    field_div,
    field_inv,
    field_mul,
    field_square,
    field_sub,
    is_unit,
    lemma_congruent_add,
    lemma_congruent_mul,
    lemma_congruent_products,
    lemma_congruent_reduced,
    lemma_congruent_sub,
    lemma_double_terms,
    lemma_square_of_sum,
    lemma_sum_diff_products,
};
use crate::field::element::FieldElement;
use vstd::prelude::*;
use vstd::std_specs::cmp::PartialEqSpecImpl;

verus! {

/// The coordinates of a point in extensible form, as field values.
pub struct ExtensibleCoords {
    pub x: nat,
    pub y: nat,
    pub z: nat,
    pub t1: nat,
    pub t2: nat,
}

/// A point in extensible coordinates.
#[derive(Clone, Copy, Debug)]
pub struct ExtensiblePoint {
    pub X: FieldElement,
    pub Y: FieldElement,
    pub Z: FieldElement,
    pub T1: FieldElement,
    pub T2: FieldElement,
}

impl View for ExtensiblePoint {
    type V = ExtensibleCoords;

    open spec fn view(&self) -> ExtensibleCoords {
        ExtensibleCoords { x: self.X@, y: self.Y@, z: self.Z@, t1: self.T1@, t2: self.T2@ }
    }
}

/// The neutral element `(0 : 1 : 1 : 0 * 1)`.
pub open spec fn extensible_identity() -> ExtensibleCoords {
    ExtensibleCoords { x: 0, y: 1, z: 1, t1: 0, t2: 1 }
}

/// The extended form: the same `X`, `Y`, `Z`, and `T = T1 * T2`.
pub open spec fn extensible_to_extended(p: ExtensibleCoords) -> ExtendedCoords {
    ExtendedCoords { x: p.x, y: p.y, z: p.z, t: field_mul(p.t1, p.t2) }
}

/// The point whose factors are `e`, `f`, `g`, `h`:
/// `(e*f : g*h : f*g : e * h)`.
pub open spec fn from_factors(e: nat, f: nat, g: nat, h: nat) -> ExtensibleCoords {
    ExtensibleCoords {
        x: field_mul(e, f),
        y: field_mul(g, h),
        z: field_mul(f, g),
        t1: e,
        t2: h,
    }
}

/// The sum of `p` and `q` by the unified addition law of the curve.
/// With `Tp` the product `T1*T2` of `p` and `Tq` the `T` of `q`,
/// `X3 = (X1*Y2 + Y1*X2) * (Z1*Z2 - d*Tp*Tq)`,
/// `Y3 = (Y1*Y2 + X1*X2) * (Z1*Z2 + d*Tp*Tq)`,
/// `Z3 = (Z1*Z2 - d*Tp*Tq) * (Z1*Z2 + d*Tp*Tq)`,
/// each of the four factors doubled.
pub open spec fn extensible_add(p: ExtensibleCoords, q: ExtendedCoords) -> ExtensibleCoords {
    let t = field_mul(p.t1, p.t2);
    let zz = field_mul(p.z, q.z);
    let dtt = field_mul(curve_d(), field_mul(t, q.t));
    from_factors(
        field_mul(2, field_add(field_mul(p.x, q.y), field_mul(p.y, q.x))),
        field_mul(2, field_sub(zz, dtt)),
        field_mul(2, field_add(zz, dtt)),
        field_mul(2, field_add(field_mul(p.y, q.y), field_mul(p.x, q.x))),
    )
}

/// Twice the point `p`:
/// `X3 = 2XY * (2Z^2 - (Y^2 - X^2))`,
/// `Y3 = (Y^2 - X^2) * (Y^2 + X^2)`,
/// `Z3 = (2Z^2 - (Y^2 - X^2)) * (Y^2 - X^2)`.
pub open spec fn extensible_double(p: ExtensibleCoords) -> ExtensibleCoords {
    let g = field_sub(field_square(p.y), field_square(p.x));
    from_factors(
        field_mul(2, field_mul(p.x, p.y)),
        field_sub(field_mul(2, field_square(p.z)), g),
        g,
        field_add(field_square(p.y), field_square(p.x)),
    )
}

/// The sum of `p` and the point behind the precomputed triple `n`,
/// whose `Z` is one.
pub open spec fn extensible_add_niels(p: ExtensibleCoords, n: NielsCoords) -> ExtensibleCoords {
    let a = field_mul(field_sub(p.y, p.x), n.y_minus_x);
    let b = field_mul(field_add(p.y, p.x), n.y_plus_x);
    let c = field_mul(2, field_mul(field_mul(p.t1, p.t2), n.td));
    let d = field_mul(2, p.z);
    from_factors(field_sub(b, a), field_sub(d, c), field_add(d, c), field_add(b, a))
}

impl ExtensiblePoint {
    /// The neutral element.
    pub fn identity() -> (r: ExtensiblePoint)
        ensures
            r@ == extensible_identity(),
    {
        ExtensiblePoint {
            X: FieldElement::zero(),
            Y: FieldElement::one(),
            Z: FieldElement::one(),
            T1: FieldElement::zero(),
            T2: FieldElement::one(),
        }
    }

    /// The extended form, at the cost of the one multiplication
    /// `T = T1 * T2`.
    pub fn to_extended(&self) -> (r: ExtendedPoint)
        ensures
            r@ == extensible_to_extended(self@),
    {
        ExtendedPoint { X: self.X, Y: self.Y, Z: self.Z, T: self.T1.mul(&self.T2) }
    }

    /// The point made of the four factors.
    fn assemble(e: &FieldElement, f: &FieldElement, g: &FieldElement, h: &FieldElement) -> (r:
        ExtensiblePoint)
        ensures
            r@ == from_factors(e@, f@, g@, h@),
    {
        ExtensiblePoint { X: e.mul(f), Y: g.mul(h), Z: f.mul(g), T1: *e, T2: *h }
    }

    /// Twice the point, without a field inversion.
    pub fn double(&self) -> (r: ExtensiblePoint)
        ensures
            r@ == extensible_double(self@),
    {
        let a = self.X.square();
        let b = self.Y.square();
        let zz = self.Z.square();
        let c = zz.add(&zz);
        let e = self.X.add(&self.Y).square().sub(&a).sub(&b);
        let g = b.sub(&a);
        let f = c.sub(&g);
        let h = b.add(&a);
        proof {
            lemma_square_of_sum(self.X@, self.Y@);
            lemma_double_terms(zz@, zz@);
        }
        Self::assemble(&e, &f, &g, &h)
    }

    /// The sum with a point in extended coordinates, without a field
    /// inversion.
    pub fn add_extended(&self, other: &ExtendedPoint) -> (r: ExtensiblePoint)
        ensures
            r@ == extensible_add(self@, other@),
    {
        let a = self.Y.sub(&self.X).mul(&other.Y.sub(&other.X));
        let b = self.Y.add(&self.X).mul(&other.Y.add(&other.X));
        let t = self.T1.mul(&self.T2);
        let dtt = twisted_d().mul(&t.mul(&other.T));
        let c = dtt.add(&dtt);
        let zz = self.Z.mul(&other.Z);
        let d = zz.add(&zz);
        let e = b.sub(&a);
        let f = d.sub(&c);
        let g = d.add(&c);
        let h = b.add(&a);
        proof {
            lemma_sum_diff_products(self.Y@, self.X@, other.Y@, other.X@);
            lemma_double_terms(zz@, dtt@);
        }
        Self::assemble(&e, &f, &g, &h)
    }

    /// The sum with a precomputed point, cheaper than the general sum
    /// because the second `Z` is one.
    pub fn add_affine_niels(&self, other: &AffineNielsPoint) -> (r: ExtensiblePoint)
        ensures
            r@ == extensible_add_niels(self@, other@),
    {
        let a = self.Y.sub(&self.X).mul(&other.y_minus_x);
        let b = self.Y.add(&self.X).mul(&other.y_plus_x);
        let tt = self.T1.mul(&self.T2).mul(&other.td);
        let c = tt.add(&tt);
        let d = self.Z.add(&self.Z);
        let e = b.sub(&a);
        let f = d.sub(&c);
        let g = d.add(&c);
        let h = b.add(&a);
        proof {
            lemma_double_terms(tt@, self.Z@);
        }
        Self::assemble(&e, &f, &g, &h)
    }
}

impl PartialEq for ExtensiblePoint {
    /// Equality of the affine images, by cross-multiplication.
    fn eq(&self, other: &ExtensiblePoint) -> (r: bool) {
        let xz = self.X.mul(&other.Z);
        let zx = other.X.mul(&self.Z);
        let yz = self.Y.mul(&other.Z);
        let zy = other.Y.mul(&self.Z);
        let same_x = xz.eq(&zx);
        let same_y = yz.eq(&zy);
        same_x && same_y
    }
}

impl PartialEqSpecImpl for ExtensiblePoint {
    open spec fn obeys_eq_spec() -> bool {
        true
    }

    open spec fn eq_spec(&self, other: &ExtensiblePoint) -> bool {
        extended_eq(extensible_to_extended(self@), extensible_to_extended(other@))
    }
}

impl Eq for ExtensiblePoint {

}

/// Whatever the four factors, the point they make satisfies
/// `T * Z = X * Y`: every sum and every double does.
pub proof fn lemma_from_factors_product(e: nat, f: nat, g: nat, h: nat)
    ensures
        field_mul(
            extensible_to_extended(from_factors(e, f, g, h)).t,
            from_factors(e, f, g, h).z,
        ) == field_mul(from_factors(e, f, g, h).x, from_factors(e, f, g, h).y),
{
    let ei = e as int;
    let fi = f as int;
    let gi = g as int;
    let hi = h as int;
    lemma_congruent_mul(e, ei, h, hi);
    lemma_congruent_mul(f, fi, g, gi);
    lemma_congruent_mul(e, ei, f, fi);
    lemma_congruent_mul(g, gi, h, hi);
    lemma_congruent_mul(field_mul(e, h), ei * hi, field_mul(f, g), fi * gi);
    lemma_congruent_mul(field_mul(e, f), ei * fi, field_mul(g, h), gi * hi);
    assert((ei * hi) * (fi * gi) == (ei * fi) * (gi * hi)) by (nonlinear_arith);
    lemma_congruent_reduced(
        field_mul(field_mul(e, h), field_mul(f, g)),
        field_mul(field_mul(e, f), field_mul(g, h)),
    );
}

/// The mixed sum with the precomputed form of an affine point is the
/// general sum with that point lifted to `Z = 1`.
pub proof fn lemma_add_niels_is_add(p: ExtensibleCoords, q: AffineCoords)
    ensures
        extensible_add_niels(p, affine_to_niels(q)) == extensible_add(p, affine_to_extended(q)),
{
    let d = curve_d();
    let di = d as int;
    let t = field_mul(p.t1, p.t2);
    let ti = t as int;
    let z = p.z as int;
    let qx = q.x as int;
    let qy = q.y as int;
    lemma_sum_diff_products(p.y, p.x, q.y, q.x);
    // The mixed side: 2z and 2 * (t * ((qx*qy) * d)).
    let qq = field_mul(q.x, q.y);
    let td = field_mul(qq, d);
    let c = field_mul(2, field_mul(t, td));
    let dz = field_mul(2, p.z);
    lemma_congruent_mul(q.x, qx, q.y, qy);
    lemma_congruent_mul(qq, qx * qy, d, di);
    lemma_congruent_mul(t, ti, td, (qx * qy) * di);
    lemma_congruent_mul(2, 2, field_mul(t, td), ti * ((qx * qy) * di));
    lemma_congruent_mul(2, 2, p.z, z);
    lemma_congruent_sub(dz, 2 * z, c, 2 * (ti * ((qx * qy) * di)));
    lemma_congruent_add(dz, 2 * z, c, 2 * (ti * ((qx * qy) * di)));
    // The general side: 2 * (z*1 - d * (t * (qx*qy))) and the same with +.
    let zz = field_mul(p.z, 1);
    let dtt = field_mul(d, field_mul(t, qq));
    lemma_congruent_mul(p.z, z, 1, 1);
    lemma_congruent_mul(t, ti, qq, qx * qy);
    lemma_congruent_mul(d, di, field_mul(t, qq), ti * (qx * qy));
    lemma_congruent_sub(zz, z * 1, dtt, di * (ti * (qx * qy)));
    lemma_congruent_add(zz, z * 1, dtt, di * (ti * (qx * qy)));
    lemma_congruent_mul(2, 2, field_sub(zz, dtt), z * 1 - di * (ti * (qx * qy)));
    lemma_congruent_mul(2, 2, field_add(zz, dtt), z * 1 + di * (ti * (qx * qy)));
    assert(2 * z - 2 * (ti * ((qx * qy) * di)) == 2 * (z * 1 - di * (ti * (qx * qy))))
        by (nonlinear_arith);
    assert(2 * z + 2 * (ti * ((qx * qy) * di)) == 2 * (z * 1 + di * (ti * (qx * qy))))
        by (nonlinear_arith);
    lemma_congruent_reduced(field_sub(dz, c), field_mul(2, field_sub(zz, dtt)));
    lemma_congruent_reduced(field_add(dz, c), field_mul(2, field_add(zz, dtt)));
}

/// The point made of four factors is a projective form of the affine
/// point `(xn / dx, yn / dy)` when, for some integers `w`, `n`, `n2`,
/// `k1` and `m`, the factors are congruent to `w*n`, `w*m`, `w*k1` and
/// `w*n2`, the numerators to `n` and `n2`, and the denominators, which
/// have inverses, to `k1` and `m`.
#[verifier::rlimit(40)]
proof fn lemma_factors_represent(
    e: nat,
    f: nat,
    g: nat,
    h: nat,
    xn: nat,
    yn: nat,
    dx: nat,
    dy: nat,
    w: int,
    n: int,
    n2: int,
    k1: int,
    m: int,
)
    requires
        congruent(e as int, w * n),
        congruent(f as int, w * m),
        congruent(g as int, w * k1),
        congruent(h as int, w * n2),
        congruent(xn as int, n),
        congruent(yn as int, n2),
        congruent(dx as int, k1),
        congruent(dy as int, m),
        is_unit(dx),
        is_unit(dy),
    ensures
        represents(
            extensible_to_extended(from_factors(e, f, g, h)),
            AffineCoords { x: field_div(xn, dx), y: field_div(yn, dy) },
        ),
{
    let r = extensible_to_extended(from_factors(e, f, g, h));
    let ui = field_inv(dx);
    let vi = field_inv(dy);
    let u = ui as int;
    let v = vi as int;
    let x3 = field_div(xn, dx);
    let y3 = field_div(yn, dy);
    // the inverses, as congruences of integers
    lemma_congruent_mul(dx, k1, ui, u);
    lemma_congruent_mul(dy, m, vi, v);
    assert(congruent(k1 * u, 1));
    assert(congruent(m * v, 1));
    // the coordinates of the result
    lemma_congruent_mul(e, w * n, f, w * m);
    lemma_congruent_mul(g, w * k1, h, w * n2);
    lemma_congruent_mul(f, w * m, g, w * k1);
    lemma_congruent_mul(e, w * n, h, w * n2);
    // the affine coordinates
    lemma_congruent_mul(xn, n, ui, u);
    lemma_congruent_mul(yn, n2, vi, v);
    // X = x3 * Z
    lemma_congruent_mul(x3, n * u, r.z, (w * m) * (w * k1));
    lemma_congruent_products((w * n) * (w * m), (w * n) * (w * m), k1 * u, 1);
    assert((n * u) * ((w * m) * (w * k1)) == ((w * n) * (w * m)) * (k1 * u)) by (nonlinear_arith);
    lemma_congruent_reduced(r.x, field_mul(x3, r.z));
    // Y = y3 * Z
    lemma_congruent_mul(y3, n2 * v, r.z, (w * m) * (w * k1));
    lemma_congruent_products((w * k1) * (w * n2), (w * k1) * (w * n2), m * v, 1);
    assert((n2 * v) * ((w * m) * (w * k1)) == ((w * k1) * (w * n2)) * (m * v))
        by (nonlinear_arith);
    lemma_congruent_reduced(r.y, field_mul(y3, r.z));
    // T = x3 * y3 * Z = y3 * X
    let x3i = x3 as int;
    let y3i = y3 as int;
    let rz = r.z as int;
    lemma_congruent_mul(x3, x3i, y3, y3i);
    lemma_congruent_mul(field_mul(x3, y3), x3i * y3i, r.z, rz);
    lemma_congruent_mul(x3, x3i, r.z, rz);
    assert(congruent(x3i * rz, (w * n) * (w * m)));
    lemma_congruent_products(y3i, n2 * v, x3i * rz, (w * n) * (w * m));
    assert((x3i * y3i) * rz == y3i * (x3i * rz)) by (nonlinear_arith);
    lemma_congruent_products((w * n) * (w * n2), (w * n) * (w * n2), m * v, 1);
    assert((n2 * v) * ((w * n) * (w * m)) == ((w * n) * (w * n2)) * (m * v)) by (nonlinear_arith);
    lemma_congruent_reduced(r.t, field_mul(field_mul(x3, y3), r.z));
}

/// The numerator factors of the sum of projective forms of `a` and `b`
/// are `2*Z1*Z2` times the numerators of the affine sum.
#[verifier::rlimit(40)]
proof fn lemma_add_numerators(p: ExtendedCoords, q: ExtendedCoords, a: AffineCoords, b: AffineCoords)
    requires
        represents(p, a),
        represents(q, b),
    ensures
        congruent(
            field_mul(2, field_add(field_mul(p.x, q.y), field_mul(p.y, q.x))) as int,
            (2 * (p.z as int * q.z as int)) * (a.x as int * b.y as int + a.y as int * b.x as int),
        ),
        congruent(
            field_mul(2, field_add(field_mul(p.y, q.y), field_mul(p.x, q.x))) as int,
            (2 * (p.z as int * q.z as int)) * (a.y as int * b.y as int + a.x as int * b.x as int),
        ),
{
    let x1 = a.x as int;
    let y1 = a.y as int;
    let x2 = b.x as int;
    let y2 = b.y as int;
    let z1 = p.z as int;
    let z2 = q.z as int;
    lemma_congruent_mul(a.x, x1, p.z, z1);
    lemma_congruent_mul(a.y, y1, p.z, z1);
    lemma_congruent_mul(b.x, x2, q.z, z2);
    lemma_congruent_mul(b.y, y2, q.z, z2);
    lemma_congruent_mul(p.x, x1 * z1, q.y, y2 * z2);
    lemma_congruent_mul(p.y, y1 * z1, q.x, x2 * z2);
    lemma_congruent_mul(p.y, y1 * z1, q.y, y2 * z2);
    lemma_congruent_mul(p.x, x1 * z1, q.x, x2 * z2);
    lemma_congruent_add(
        field_mul(p.x, q.y),
        (x1 * z1) * (y2 * z2),
        field_mul(p.y, q.x),
        (y1 * z1) * (x2 * z2),
    );
    lemma_congruent_add(
        field_mul(p.y, q.y),
        (y1 * z1) * (y2 * z2),
        field_mul(p.x, q.x),
        (x1 * z1) * (x2 * z2),
    );
    lemma_congruent_mul(
        2,
        2,
        field_add(field_mul(p.x, q.y), field_mul(p.y, q.x)),
        (x1 * z1) * (y2 * z2) + (y1 * z1) * (x2 * z2),
    );
    lemma_congruent_mul(
        2,
        2,
        field_add(field_mul(p.y, q.y), field_mul(p.x, q.x)),
        (y1 * z1) * (y2 * z2) + (x1 * z1) * (x2 * z2),
    );
    let zp = z1 * z2;
    let xy = x1 * y2;
    let yx = y1 * x2;
    let yy = y1 * y2;
    let xx = x1 * x2;
    assert((x1 * z1) * (y2 * z2) == zp * xy) by (nonlinear_arith)
        requires
            zp == z1 * z2,
            xy == x1 * y2,
    ;
    assert((y1 * z1) * (x2 * z2) == zp * yx) by (nonlinear_arith)
        requires
            zp == z1 * z2,
            yx == y1 * x2,
    ;
    assert((y1 * z1) * (y2 * z2) == zp * yy) by (nonlinear_arith)
        requires
            zp == z1 * z2,
            yy == y1 * y2,
    ;
    assert((x1 * z1) * (x2 * z2) == zp * xx) by (nonlinear_arith)
        requires
            zp == z1 * z2,
            xx == x1 * x2,
    ;
    assert(2 * (zp * xy + zp * yx) == (2 * zp) * (xy + yx)) by (nonlinear_arith);
    assert(2 * (zp * yy + zp * xx) == (2 * zp) * (yy + xx)) by (nonlinear_arith);
}

/// The denominator factors of the sum of projective forms of `a` and
/// `b` are `2*Z1*Z2` times the denominators of the affine sum.
#[verifier::rlimit(40)]
proof fn lemma_add_denominators(p: ExtendedCoords, q: ExtendedCoords, a: AffineCoords, b: AffineCoords)
    requires
        represents(p, a),
        represents(q, b),
    ensures
        congruent(
            field_mul(
                2,
                field_sub(field_mul(p.z, q.z), field_mul(curve_d(), field_mul(p.t, q.t))),
            ) as int,
            (2 * (p.z as int * q.z as int)) * (1 - curve_d() as int * (a.x as int * b.x as int) * (
            a.y as int * b.y as int)),
        ),
        congruent(
            field_mul(
                2,
                field_add(field_mul(p.z, q.z), field_mul(curve_d(), field_mul(p.t, q.t))),
            ) as int,
            (2 * (p.z as int * q.z as int)) * (1 + curve_d() as int * (a.x as int * b.x as int) * (
            a.y as int * b.y as int)),
        ),
{
    let d = curve_d();
    let di = d as int;
    let x1 = a.x as int;
    let y1 = a.y as int;
    let x2 = b.x as int;
    let y2 = b.y as int;
    let z1 = p.z as int;
    let z2 = q.z as int;
    let t1 = (x1 * y1) * z1;
    let t2 = (x2 * y2) * z2;
    lemma_congruent_mul(a.x, x1, a.y, y1);
    lemma_congruent_mul(b.x, x2, b.y, y2);
    lemma_congruent_mul(field_mul(a.x, a.y), x1 * y1, p.z, z1);
    lemma_congruent_mul(field_mul(b.x, b.y), x2 * y2, q.z, z2);
    lemma_congruent_mul(p.t, t1, q.t, t2);
    lemma_congruent_mul(d, di, field_mul(p.t, q.t), t1 * t2);
    lemma_congruent_mul(p.z, z1, q.z, z2);
    let zz = field_mul(p.z, q.z);
    let dtt = field_mul(d, field_mul(p.t, q.t));
    lemma_congruent_sub(zz, z1 * z2, dtt, di * (t1 * t2));
    lemma_congruent_add(zz, z1 * z2, dtt, di * (t1 * t2));
    lemma_congruent_mul(2, 2, field_sub(zz, dtt), z1 * z2 - di * (t1 * t2));
    lemma_congruent_mul(2, 2, field_add(zz, dtt), z1 * z2 + di * (t1 * t2));
    let zp = z1 * z2;
    let xy = (x1 * x2) * (y1 * y2);
    assert(t1 * t2 == zp * xy) by (nonlinear_arith)
        requires
            t1 == (x1 * y1) * z1,
            t2 == (x2 * y2) * z2,
            zp == z1 * z2,
            xy == (x1 * x2) * (y1 * y2),
    ;
    assert(di * (x1 * x2) * (y1 * y2) == di * xy) by (nonlinear_arith)
        requires
            xy == (x1 * x2) * (y1 * y2),
    ;
    assert(2 * (zp - di * (zp * xy)) == (2 * zp) * (1 - di * xy)) by (nonlinear_arith);
    assert(2 * (zp + di * (zp * xy)) == (2 * zp) * (1 + di * xy)) by (nonlinear_arith);
}

/// The projective sum is a projective form of the affine sum: if `p`
/// is a form of `a` and `q` a form of `b`, then the sum of `p` and `q`
/// is a form of `a + b`, wherever the two denominators of the affine
/// addition law have inverses.
pub proof fn lemma_add_represents(
    p: ExtensibleCoords,
    q: ExtendedCoords,
    a: AffineCoords,
    b: AffineCoords,
)
    requires
        represents(extensible_to_extended(p), a),
        represents(q, b),
        is_unit(field_add(1, cross_term(a, b))),
        is_unit(field_sub(1, cross_term(a, b))),
    ensures
        represents(extensible_to_extended(extensible_add(p, q)), affine_add(a, b)),
{
    let pe = extensible_to_extended(p);
    let di = curve_d() as int;
    let x1 = a.x as int;
    let y1 = a.y as int;
    let x2 = b.x as int;
    let y2 = b.y as int;
    let w = 2 * (p.z as int * q.z as int);
    let k = di * (x1 * x2) * (y1 * y2);
    lemma_add_numerators(pe, q, a, b);
    lemma_add_denominators(pe, q, a, b);
    lemma_cross_term_product(a, b);
    lemma_congruent_add(1, 1, cross_term(a, b), k);
    lemma_congruent_sub(1, 1, cross_term(a, b), k);
    lemma_congruent_mul(a.x, x1, b.y, y2);
    lemma_congruent_mul(a.y, y1, b.x, x2);
    lemma_congruent_mul(a.y, y1, b.y, y2);
    lemma_congruent_mul(a.x, x1, b.x, x2);
    lemma_congruent_add(field_mul(a.x, b.y), x1 * y2, field_mul(a.y, b.x), y1 * x2);
    lemma_congruent_add(field_mul(a.y, b.y), y1 * y2, field_mul(a.x, b.x), x1 * x2);
    let t = field_mul(p.t1, p.t2);
    let zz = field_mul(p.z, q.z);
    let dtt = field_mul(curve_d(), field_mul(t, q.t));
    lemma_factors_represent(
        field_mul(2, field_add(field_mul(p.x, q.y), field_mul(p.y, q.x))),
        field_mul(2, field_sub(zz, dtt)),
        field_mul(2, field_add(zz, dtt)),
        field_mul(2, field_add(field_mul(p.y, q.y), field_mul(p.x, q.x))),
        field_add(field_mul(a.x, b.y), field_mul(a.y, b.x)),
        field_add(field_mul(a.y, b.y), field_mul(a.x, b.x)),
        field_add(1, cross_term(a, b)),
        field_sub(1, cross_term(a, b)),
        w,
        x1 * y2 + y1 * x2,
        y1 * y2 + x1 * x2,
        1 + k,
        1 - k,
    );
}

/// The factors of the double of a projective form of a point `a` of
/// the curve are `Z^2` times the numerators and denominators of the
/// affine sum `a + a`.
#[verifier::rlimit(40)]
proof fn lemma_double_factors(p: ExtensibleCoords, a: AffineCoords)
    requires
        p.x == field_mul(a.x, p.z),
        p.y == field_mul(a.y, p.z),
        on_curve(a),
    ensures
        congruent(
            field_mul(2, field_mul(p.x, p.y)) as int,
            (p.z as int * p.z as int) * (a.x as int * a.y as int + a.y as int * a.x as int),
        ),
        congruent(
            field_add(field_square(p.y), field_square(p.x)) as int,
            (p.z as int * p.z as int) * (a.y as int * a.y as int + a.x as int * a.x as int),
        ),
        congruent(
            field_sub(field_square(p.y), field_square(p.x)) as int,
            (p.z as int * p.z as int) * (1 + curve_d() as int * (a.x as int * a.x as int) * (
            a.y as int * a.y as int)),
        ),
        congruent(
            field_sub(
                field_mul(2, field_square(p.z)),
                field_sub(field_square(p.y), field_square(p.x)),
            ) as int,
            (p.z as int * p.z as int) * (1 - curve_d() as int * (a.x as int * a.x as int) * (
            a.y as int * a.y as int)),
        ),
{
    let d = curve_d();
    let di = d as int;
    let x = a.x as int;
    let y = a.y as int;
    let z = p.z as int;
    let w = z * z;
    let k = di * (x * x) * (y * y);
    lemma_congruent_mul(a.x, x, p.z, z);
    lemma_congruent_mul(a.y, y, p.z, z);
    // e
    lemma_congruent_mul(p.x, x * z, p.y, y * z);
    lemma_congruent_mul(2, 2, field_mul(p.x, p.y), (x * z) * (y * z));
    assert(2 * ((x * z) * (y * z)) == (z * z) * (x * y + y * x)) by (nonlinear_arith);
    // h and the difference of squares
    lemma_congruent_mul(p.y, y * z, p.y, y * z);
    lemma_congruent_mul(p.x, x * z, p.x, x * z);
    lemma_congruent_add(
        field_square(p.y),
        (y * z) * (y * z),
        field_square(p.x),
        (x * z) * (x * z),
    );
    lemma_congruent_sub(
        field_square(p.y),
        (y * z) * (y * z),
        field_square(p.x),
        (x * z) * (x * z),
    );
    assert((y * z) * (y * z) + (x * z) * (x * z) == (z * z) * (y * y + x * x))
        by (nonlinear_arith);
    assert((y * z) * (y * z) - (x * z) * (x * z) == (z * z) * (y * y - x * x))
        by (nonlinear_arith);
    // the curve equation of a turns y*y - x*x into 1 + k
    lemma_congruent_mul(a.x, x, a.x, x);
    lemma_congruent_mul(a.y, y, a.y, y);
    lemma_congruent_sub(field_square(a.y), y * y, field_square(a.x), x * x);
    lemma_congruent_mul(d, di, field_square(a.x), x * x);
    lemma_congruent_mul(field_mul(d, field_square(a.x)), di * (x * x), field_square(a.y), y * y);
    lemma_congruent_add(
        1,
        1,
        field_mul(field_mul(d, field_square(a.x)), field_square(a.y)),
        di * (x * x) * (y * y),
    );
    lemma_congruent_products(w, w, y * y - x * x, 1 + k);
    let g = field_sub(field_square(p.y), field_square(p.x));
    assert(congruent(g as int, w * (1 + k)));
    // f
    lemma_congruent_mul(p.z, z, p.z, z);
    lemma_congruent_mul(2, 2, field_square(p.z), z * z);
    lemma_congruent_sub(field_mul(2, field_square(p.z)), 2 * (z * z), g, w * (1 + k));
    assert(2 * w - w * (1 + k) == w * (1 - k)) by (nonlinear_arith);
}

/// The projective double is a projective form of the affine sum of a
/// point with itself: if `p` is a form of the point `a` of the curve,
/// then the double of `p` is a form of `a + a`, wherever the two
/// denominators of the affine addition law have inverses.
pub proof fn lemma_double_represents(p: ExtensibleCoords, a: AffineCoords)
    requires
        represents(extensible_to_extended(p), a),
        on_curve(a),
        is_unit(field_add(1, cross_term(a, a))),
        is_unit(field_sub(1, cross_term(a, a))),
    ensures
        represents(extensible_to_extended(extensible_double(p)), affine_add(a, a)),
{
    let di = curve_d() as int;
    let x = a.x as int;
    let y = a.y as int;
    let z = p.z as int;
    let k = di * (x * x) * (y * y);
    lemma_double_factors(p, a);
    lemma_cross_term_product(a, a);
    lemma_congruent_add(1, 1, cross_term(a, a), k);
    lemma_congruent_sub(1, 1, cross_term(a, a), k);
    lemma_congruent_mul(a.x, x, a.y, y);
    lemma_congruent_mul(a.y, y, a.x, x);
    lemma_congruent_mul(a.y, y, a.y, y);
    lemma_congruent_mul(a.x, x, a.x, x);
    lemma_congruent_add(field_mul(a.x, a.y), x * y, field_mul(a.y, a.x), y * x);
    lemma_congruent_add(field_mul(a.y, a.y), y * y, field_mul(a.x, a.x), x * x);
    let g = field_sub(field_square(p.y), field_square(p.x));
    lemma_factors_represent(
        field_mul(2, field_mul(p.x, p.y)),
        field_sub(field_mul(2, field_square(p.z)), g),
        g,
        field_add(field_square(p.y), field_square(p.x)),
        field_add(field_mul(a.x, a.y), field_mul(a.y, a.x)),
        field_add(field_mul(a.y, a.y), field_mul(a.x, a.x)),
        field_add(1, cross_term(a, a)),
        field_sub(1, cross_term(a, a)),
        z * z,
        x * y + y * x,
        y * y + x * x,
        1 + k,
        1 - k,
    );
}

/// The sum of projective forms of two points of the curve is valid,
/// wherever the two denominators of the affine addition law have
/// inverses and the `Z` of the sum is not zero.
pub proof fn lemma_add_valid(
    p: ExtensibleCoords,
    q: ExtendedCoords,
    a: AffineCoords,
    b: AffineCoords,
)
    requires
        represents(extensible_to_extended(p), a),
        represents(q, b),
        on_curve(a),
        on_curve(b),
        is_unit(field_add(1, cross_term(a, b))),
        is_unit(field_sub(1, cross_term(a, b))),
        extensible_add(p, q).z != 0,
    ensures
        extended_valid(extensible_to_extended(extensible_add(p, q))),
{
    lemma_add_represents(p, q, a, b);
    lemma_add_on_curve(a, b);
    lemma_represents_valid(extensible_to_extended(extensible_add(p, q)), affine_add(a, b));
}

/// The double of a projective form of a point of the curve is valid,
/// wherever the two denominators of the affine addition law have
/// inverses and the `Z` of the double is not zero.
pub proof fn lemma_double_valid(p: ExtensibleCoords, a: AffineCoords)
    requires
        represents(extensible_to_extended(p), a),
        on_curve(a),
        is_unit(field_add(1, cross_term(a, a))),
        is_unit(field_sub(1, cross_term(a, a))),
        extensible_double(p).z != 0,
    ensures
        extended_valid(extensible_to_extended(extensible_double(p))),
{
    lemma_double_represents(p, a);
    lemma_add_on_curve(a, a);
    lemma_represents_valid(extensible_to_extended(extensible_double(p)), affine_add(a, a));
}

} // verus!

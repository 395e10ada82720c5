//! Group elements as cosets of the subgroup of order four, their
//! equality, and the canonical encoding of a coset as the field element
//! `s` of the Jacobi quartic `t^2 = (1 - s^2)^2 - 4*d*s^2` that the
//! isogeny `(s, t) -> (2s / (1 - s^2), (1 + s^2) / t)` sends into it.
//!
//! The subgroup is generated by the point `(0 : r : 0 : 1)` for the
//! square root `r` of `d`. The coset of `(X : Y : Z : T)` holds that
//! point, `(-X : -Y : Z : T)`, `(X : -Y : r*T : -Z/r)` and
//! `(-X : Y : r*T : -Z/r)`. Of a point and its translate by the point of
//! order four one is in the image of the isogeny, and that one is
//! encoded.
#![allow(non_snake_case)]

use crate::constants::{
    base_point,
    curve_d,
    curve_d_root,
    curve_d_root_inverse,
    inv_sqrt_d,
    lemma_curve_d_root,
    sqrt_d,
    twisted_d,
};
use crate::ct::{both, bytes_ct_eq, either};
use crate::curve::twedwards::extended::{
    extended_eq,
    extended_identity,
    extended_neg,
    extended_reduced,
    extended_to_extensible,
    extended_valid,
    ExtendedCoords,
    ExtendedPoint,
    rescaled,
};
use crate::curve::twedwards::extensible::{
    extensible_add,
    extensible_double,
    extensible_to_extended,
};
use crate::field::arith::{
    congruent,
    field_abs,
    field_add,
    field_inv_sqrt,
    field_mul,
    field_neg,
    field_pow,
    field_square,
    field_sub,
    inv_sqrt_exponent,
    is_inv_sqrt,
    is_negative,
    lemma_congruent_add,
    lemma_congruent_differences,
    lemma_congruent_mul,
    lemma_congruent_neg,
    lemma_congruent_products,
    lemma_congruent_reduced,
    lemma_congruent_sub,
    lemma_congruent_sums,
    lemma_field_abs_neg,
    lemma_field_abs_non_negative,
    lemma_field_mul_comm,
    lemma_field_mul_neg,
    lemma_field_mul_one,
    lemma_field_mul_zero,
    lemma_field_neg_neg,
    lemma_field_neg_sign,
    lemma_field_neg_square,
    lemma_field_pow_add,
    lemma_field_pow_mul,
    lemma_field_pow_of_zero,
    lemma_field_pow_product,
    lemma_field_pow_small,
    lemma_field_sub_neg,
    modulus,
};
use crate::field::bytes::{bytes_value, lemma_bytes_value_injective, lemma_bytes_value_zero};
use crate::field::element::FieldElement;
use vstd::arithmetic::power::lemma1_pow;
use vstd::arithmetic::div_mod::*;
use vstd::array::array_as_slice;
use vstd::prelude::*;
use vstd::std_specs::cmp::PartialEqSpecImpl;

verus! {

/// The bytes of a compressed point.
pub type RistrettoPointBytes = [u8; 56];

/// An element of the prime-order group, held as one point of its coset.
#[derive(Clone, Copy, Debug)]
pub struct RistrettoPoint(pub(crate) ExtendedPoint);

/// The canonical encoding of a group element.
#[derive(Clone, Copy, Debug)]
pub struct CompressedRistretto(pub RistrettoPointBytes);

impl View for RistrettoPoint {
    type V = ExtendedCoords;

    /// The coordinates of the representative that is held.
    closed spec fn view(&self) -> ExtendedCoords {
        self.0@
    }
}

impl View for CompressedRistretto {
    type V = Seq<u8>;

    open spec fn view(&self) -> Seq<u8> {
        self.0@
    }
}

/// The test for two representatives of one coset of the subgroup of
/// order four. Either `X1*Y2 = Y1*X2` and `Z1*T2 = T1*Z2`, as for a
/// point and the same point moved by the point of order two; or
/// `X1*Y2 = -Y1*X2` and `Z1*Z2 = -d*T1*T2`, as for a point and the same
/// point moved by a point of order four. Both pairs of equations hold
/// in whatever scale the two are written.
pub open spec fn coset_eq(p: ExtendedCoords, q: ExtendedCoords) -> bool {
    ||| (field_mul(p.x, q.y) == field_mul(p.y, q.x) && field_mul(p.z, q.t) == field_mul(
        p.t,
        q.z,
    ))
    ||| (field_mul(p.x, q.y) == field_neg(field_mul(p.y, q.x)) && field_mul(p.z, q.z)
        == field_neg(field_mul(curve_d(), field_mul(p.t, q.t))))
}

/// The argument of the inverse square root in the encoding of a
/// representative, `X^2 * (X^2 + Z^2) * Z^2`. It is the same for `p` and
/// `other_member(p)`.
pub open spec fn encode_radicand(p: ExtendedCoords) -> nat {
    field_mul(
        field_mul(field_square(p.x), field_add(field_square(p.x), field_square(p.z))),
        field_square(p.z),
    )
}

/// The field element that the representative `p` gives where its
/// radicand has an inverse square root `r`: then
/// `W = r * X*Z * (X^2 + Z^2)` is a square root of `X^2 + Z^2` and
/// `r * W * Z` is `1/X`. The sign of `W` is the one that makes `T/W`
/// non-negative, and the result is the non-negative one of `(W - Z)/X`
/// and its negation.
pub open spec fn encode_candidate(p: ExtendedCoords) -> nat {
    let r = field_inv_sqrt(encode_radicand(p));
    let xz = field_mul(p.x, p.z);
    let w0 = field_mul(field_mul(r, xz), field_add(field_square(p.x), field_square(p.z)));
    let inv_x = field_mul(field_mul(r, w0), p.z);
    let w = if is_negative(encode_ratio(p)) { field_neg(w0) } else { w0 };
    field_abs(field_mul(field_sub(w, p.z), inv_x))
}

/// The value `T * r * X*Z` whose sign decides the sign of the square
/// root `W` in the encoding; it is `T/W` for the root `W = r * X*Z *
/// (X^2 + Z^2)`.
pub open spec fn encode_ratio(p: ExtendedCoords) -> nat {
    field_mul(field_mul(p.t, field_inv_sqrt(encode_radicand(p))), field_mul(p.x, p.z))
}

/// The point `(-X : -Y : Z : T)`: `p` plus the point `(0, -1)` of
/// order two.
pub open spec fn other_member(p: ExtendedCoords) -> ExtendedCoords {
    ExtendedCoords { x: field_neg(p.x), y: field_neg(p.y), z: p.z, t: p.t }
}

/// The point moved by the point `(0 : r : 0 : 1)` of order four, for the
/// square root `r` of the curve parameter: `(X : -Y : r*T : -Z/r)`, in
/// affine terms `(-1/(r*y), 1/(r*x))`.
pub open spec fn translate(p: ExtendedCoords) -> ExtendedCoords {
    ExtendedCoords {
        x: p.x,
        y: field_neg(p.y),
        z: field_mul(curve_d_root(), p.t),
        t: field_neg(field_mul(curve_d_root_inverse(), p.z)),
    }
}

/// The point of order four by which `translate` moves.
pub open spec fn order_four_point() -> ExtendedCoords {
    ExtendedCoords { x: 0, y: curve_d_root(), z: 0, t: 1 }
}

/// The point `(X : Y : -Z : -T)`: the same point as `other_member(p)`,
/// written in the scale `-1`. It is what moving twice by the point of
/// order four gives.
pub open spec fn flipped(p: ExtendedCoords) -> ExtendedCoords {
    ExtendedCoords { x: p.x, y: p.y, z: field_neg(p.z), t: field_neg(p.t) }
}

/// Whether the radicand of the representative `p` has an inverse square
/// root, so that `encode_candidate(p)` is the `s` that the isogeny sends
/// to `p`.
pub open spec fn encodable(p: ExtendedCoords) -> bool {
    is_inv_sqrt(encode_radicand(p), field_inv_sqrt(encode_radicand(p)))
}

/// The field element that encodes the coset of `p`: the candidate of
/// the one of `p` and its translate that is encodable, and zero where
/// neither or both are. Neither is for the representatives with
/// `X = 0`, the coset of the neutral element.
pub open spec fn encode_element(p: ExtendedCoords) -> nat {
    if encodable(p) && !encodable(translate(p)) {
        encode_candidate(p)
    } else if encodable(translate(p)) && !encodable(p) {
        encode_candidate(translate(p))
    } else {
        0
    }
}

/// The value `t^2 = (1 - s^2)^2 - 4*d*s^2` of the Jacobi quartic at `s`.
pub open spec fn quartic(s: nat) -> nat {
    field_sub(
        field_square(field_sub(1, field_square(s))),
        field_mul(field_mul(4, curve_d()), field_square(s)),
    )
}

/// The argument of the inverse square root in the decoding,
/// `t^2 * (1 - s^2)^2`.
pub open spec fn decode_radicand(s: nat) -> nat {
    field_mul(quartic(s), field_square(field_sub(1, field_square(s))))
}

/// The point that `s` decodes to when the radicand is a square: with
/// `i` its inverse square root, `x = 2s / (1 - s^2)` up to sign and
/// `y = (1 + s^2) * i * (1 - s^2)`, where `x` is negated exactly when
/// `2s * i * (1 - s^2)` is negative, so that the two roots `i` and `-i`
/// give a point and `other_member` of it.
pub open spec fn decode_candidate(s: nat) -> ExtendedCoords {
    let u1 = field_sub(1, field_square(s));
    let u2 = field_add(1, field_square(s));
    let i = field_inv_sqrt(decode_radicand(s));
    let dx = field_mul(i, u1);
    let dxs = field_mul(field_add(s, s), dx);
    let x0 = field_mul(field_mul(dxs, i), quartic(s));
    let x = if is_negative(dxs) { field_neg(x0) } else { x0 };
    let y = field_mul(dx, u2);
    ExtendedCoords { x: x, y: y, z: 1, t: field_mul(x, y) }
}

/// What a reduced field element `s` decodes to: the candidate point if
/// the radicand has an inverse square root and the candidate lies on
/// the curve, and nothing otherwise.
pub open spec fn decode_element(s: nat) -> Option<ExtendedCoords> {
    if is_inv_sqrt(decode_radicand(s), field_inv_sqrt(decode_radicand(s))) && extended_valid(
        decode_candidate(s),
    ) {
        Some(decode_candidate(s))
    } else {
        None
    }
}

/// What 56 bytes decode to: nothing if they stand for a number that is
/// not below the field prime, nothing if that number is negative (odd),
/// and otherwise what the number decodes to as a field element.
pub open spec fn decode_bytes(b: Seq<u8>) -> Option<ExtendedCoords> {
    if bytes_value(b) >= modulus() || is_negative(bytes_value(b)) {
        None
    } else {
        decode_element(bytes_value(b))
    }
}

/// The encoding of the neutral element: 56 zero bytes.
pub open spec fn identity_bytes() -> Seq<u8> {
    Seq::new(56, |i: int| 0u8)
}

impl CompressedRistretto {
    /// The bytes of the encoding.
    pub fn as_bytes(&self) -> (r: &[u8])
        ensures
            r@ == self@,
    {
        array_as_slice(&self.0)
    }

    /// The encoding of the neutral element.
    pub fn identity() -> (r: CompressedRistretto)
        ensures
            r@ == identity_bytes(),
    {
        let r = CompressedRistretto([0u8; 56]);
        proof {
            assert(r@ =~= identity_bytes());
        }
        r
    }

    /// The point that a field element decodes to, with the flag that
    /// tells whether there is one.
    fn decode_field_element(s: &FieldElement) -> (res: (ExtendedPoint, bool))
        ensures
            res.1 == decode_element(s@).is_some(),
            res.1 ==> decode_element(s@) == Some(res.0@),
    {
        let one = FieldElement::one();
        let ss = s.square();
        let u1 = one.sub(&ss);
        let u2 = one.add(&ss);
        let u1_sqr = u1.square();
        let four_d = FieldElement::from_u32(4).mul(&twisted_d());
        let v = u1_sqr.sub(&four_d.mul(&ss));
        let (i, was_square) = v.mul(&u1_sqr).inverse_square_root();
        let dx = i.mul(&u1);
        let dxs = s.add(s).mul(&dx);
        let x0 = dxs.mul(&i).mul(&v);
        let x = x0.conditional_negate(dxs.is_negative());
        let y = dx.mul(&u2);
        let t = x.mul(&y);
        let point = ExtendedPoint { X: x, Y: y, Z: one, T: t };
        let on_curve = point.is_on_curve();
        (point, both(was_square, on_curve))
    }

    /// The group element that the bytes encode, if they are the
    /// canonical encoding of one.
    pub fn decode(&self) -> (r: Option<RistrettoPoint>)
        ensures
            match r {
                Some(p) => decode_bytes(self@) == Some(p@) && extended_valid(p@),
                None => decode_bytes(self@).is_none(),
            },
    {
        let s = FieldElement::from_bytes(&self.0);
        let again = s.to_bytes();
        let canonical = bytes_ct_eq(&again, &self.0);
        let negative = s.is_negative();
        let (point, found) = Self::decode_field_element(&s);
        proof {
            if bytes_value(self@) < modulus() {
                lemma_small_mod(bytes_value(self@), modulus());
                lemma_bytes_value_injective(again@, self@);
            }
        }
        if both(both(canonical, !negative), found) {
            Some(RistrettoPoint(point))
        } else {
            None
        }
    }
}

impl Default for CompressedRistretto {
    fn default() -> (r: CompressedRistretto)
        ensures
            r@ == identity_bytes(),
    {
        CompressedRistretto::identity()
    }
}

impl PartialEq for CompressedRistretto {
    /// Equality of the bytes, decided in time that does not depend on
    /// them.
    fn eq(&self, other: &CompressedRistretto) -> (r: bool) {
        bytes_ct_eq(&self.0, &other.0)
    }
}

impl PartialEqSpecImpl for CompressedRistretto {
    open spec fn obeys_eq_spec() -> bool {
        true
    }

    open spec fn eq_spec(&self, other: &CompressedRistretto) -> bool {
        self@ == other@
    }
}

impl Eq for CompressedRistretto {

}

impl RistrettoPoint {
    /// The generator of the group: the coset of the base point.
    pub fn generator() -> (r: RistrettoPoint)
        ensures
            r@ == base_point(),
            extended_valid(r@),
    {
        RistrettoPoint(ExtendedPoint::generator())
    }

    /// The neutral element of the group.
    pub fn identity() -> (r: RistrettoPoint)
        ensures
            r@ == extended_identity(),
            extended_valid(r@),
    {
        RistrettoPoint(ExtendedPoint::identity())
    }

    /// The group element of which `point` is a representative. The
    /// point is taken as it is: it is for the caller to hand over a
    /// point of the curve.
    pub fn from_extended(point: ExtendedPoint) -> (r: RistrettoPoint)
        ensures
            r@ == point@,
    {
        RistrettoPoint(point)
    }

    /// Whether the two representatives stand for the same group
    /// element: whether they lie in one coset of the subgroup of order
    /// four.
    pub fn equals(&self, other: &RistrettoPoint) -> (r: bool)
        ensures
            r == coset_eq(self@, other@),
    {
        let XY = self.0.X.mul(&other.0.Y);
        let YX = self.0.Y.mul(&other.0.X);
        let ZT = self.0.Z.mul(&other.0.T);
        let TZ = self.0.T.mul(&other.0.Z);
        let ZZ = self.0.Z.mul(&other.0.Z);
        let dTT = twisted_d().mul(&self.0.T.mul(&other.0.T));
        let same_ratio = XY.eq(&YX);
        let same_product = ZT.eq(&TZ);
        let opposite_ratio = XY.eq(&YX.negate());
        let opposite_product = ZZ.eq(&dTT.negate());
        either(both(same_ratio, same_product), both(opposite_ratio, opposite_product))
    }

    /// The candidate that the representative gives, with the flag that
    /// tells whether the representative is encodable.
    fn encode_representative(point: &ExtendedPoint) -> (res: (FieldElement, bool))
        ensures
            res.0@ == encode_candidate(point@),
            res.1 == encodable(point@),
    {
        let X = point.X;
        let Z = point.Z;
        let T = point.T;
        let xx = X.square();
        let zz = Z.square();
        let sum = xx.add(&zz);
        let (root, found) = xx.mul(&sum).mul(&zz).inverse_square_root();
        let xz = X.mul(&Z);
        let w0 = root.mul(&xz).mul(&sum);
        let ratio = T.mul(&root).mul(&xz);
        let inv_x = root.mul(&w0).mul(&Z);
        let w = w0.conditional_negate(ratio.is_negative());
        let s = w.sub(&Z).mul(&inv_x).abs();
        (s, found)
    }

    /// The canonical encoding of the group element: the 56 bytes of a
    /// reduced, non-negative field element, the same for a
    /// representative and its translate.
    pub fn encode(&self) -> (r: CompressedRistretto)
        ensures
            bytes_value(r@) == encode_element(self@),
            bytes_value(r@) < modulus(),
            !is_negative(bytes_value(r@)),
    {
        proof {
            lemma_encoding_canonical(self@);
        }
        let other = ExtendedPoint {
            X: self.0.X,
            Y: self.0.Y.negate(),
            Z: sqrt_d().mul(&self.0.T),
            T: inv_sqrt_d().mul(&self.0.Z).negate(),
        };
        let (first, first_found) = Self::encode_representative(&self.0);
        let (second, second_found) = Self::encode_representative(&other);
        let zero = FieldElement::zero();
        let first_alone = FieldElement::conditional_select(&first, &zero, second_found);
        let second_alone = FieldElement::conditional_select(&zero, &second, second_found);
        let s = FieldElement::conditional_select(&second_alone, &first_alone, first_found);
        CompressedRistretto(s.to_bytes())
    }
}

/// Every representative equals itself.
pub proof fn lemma_coset_eq_reflexive(p: ExtendedCoords)
    ensures
        coset_eq(p, p),
{
    lemma_field_mul_comm(p.x, p.y);
    lemma_field_mul_comm(p.z, p.t);
}

/// Equality of representatives does not depend on their order.
pub proof fn lemma_coset_eq_symmetric(p: ExtendedCoords, q: ExtendedCoords)
    ensures
        coset_eq(p, q) == coset_eq(q, p),
{
    lemma_field_mul_comm(p.x, q.y);
    lemma_field_mul_comm(p.y, q.x);
    lemma_field_mul_comm(p.z, q.t);
    lemma_field_mul_comm(p.t, q.z);
    lemma_field_mul_comm(p.z, q.z);
    lemma_field_mul_comm(p.t, q.t);
    lemma_field_neg_neg(field_mul(p.x, q.y));
    lemma_field_neg_neg(field_mul(p.y, q.x));
}

/// Every representative with `X = 0` and one of `T` and `Z` zero equals
/// the neutral element. With `T = 0` these are the neutral element and
/// the point of order two, with `Z = 0` the two points of order four,
/// in whatever scale.
pub proof fn lemma_identity_coset(q: ExtendedCoords)
    requires
        q.x == 0,
        q.t == 0 || q.z == 0,
    ensures
        coset_eq(extended_identity(), q),
        coset_eq(q, extended_identity()),
{
    lemma_field_mul_zero(q.y);
    lemma_field_mul_zero(1);
    lemma_field_mul_zero(q.t);
    lemma_field_mul_zero(q.z);
    lemma_field_mul_zero(curve_d());
    lemma_coset_eq_symmetric(extended_identity(), q);
}

/// A point and `other_member` of it are equal as group elements.
pub proof fn lemma_other_member_equal(p: ExtendedCoords)
    ensures
        coset_eq(p, other_member(p)),
        coset_eq(other_member(p), p),
{
    lemma_field_mul_neg(p.x, p.y);
    lemma_field_mul_neg(p.y, p.x);
    lemma_field_mul_comm(p.x, p.y);
    lemma_field_mul_comm(p.z, p.t);
    lemma_coset_eq_symmetric(p, other_member(p));
}

/// Equality of representatives does not depend on the scale in which
/// the second is written.
#[verifier::rlimit(40)]
pub proof fn lemma_coset_eq_rescaled(p: ExtendedCoords, q: ExtendedCoords, k: nat)
    requires
        coset_eq(p, q),
    ensures
        coset_eq(p, rescaled(q, k)),
{
    let d = curve_d();
    let di = d as int;
    let ki = k as int;
    let x1 = p.x as int;
    let y1 = p.y as int;
    let z1 = p.z as int;
    let t1 = p.t as int;
    let x2 = q.x as int;
    let y2 = q.y as int;
    let z2 = q.z as int;
    let t2 = q.t as int;
    let s = rescaled(q, k);
    let xy = field_mul(p.x, q.y);
    let yx = field_mul(p.y, q.x);
    let zt = field_mul(p.z, q.t);
    let tz = field_mul(p.t, q.z);
    let zz = field_mul(p.z, q.z);
    let tt = field_mul(p.t, q.t);
    let dtt = field_mul(d, tt);
    lemma_congruent_mul(q.x, x2, k, ki);
    lemma_congruent_mul(q.y, y2, k, ki);
    lemma_congruent_mul(q.z, z2, k, ki);
    lemma_congruent_mul(q.t, t2, k, ki);
    lemma_congruent_mul(p.x, x1, s.y, y2 * ki);
    lemma_congruent_mul(p.y, y1, s.x, x2 * ki);
    lemma_congruent_mul(p.z, z1, s.t, t2 * ki);
    lemma_congruent_mul(p.t, t1, s.z, z2 * ki);
    lemma_congruent_mul(p.z, z1, s.z, z2 * ki);
    lemma_congruent_mul(p.t, t1, s.t, t2 * ki);
    lemma_congruent_mul(d, di, field_mul(p.t, s.t), t1 * (t2 * ki));
    lemma_congruent_mul(p.x, x1, q.y, y2);
    lemma_congruent_mul(p.y, y1, q.x, x2);
    lemma_congruent_mul(p.z, z1, q.t, t2);
    lemma_congruent_mul(p.t, t1, q.z, z2);
    lemma_congruent_mul(p.z, z1, q.z, z2);
    lemma_congruent_mul(p.t, t1, q.t, t2);
    lemma_congruent_mul(d, di, tt, t1 * t2);
    assert(x1 * (y2 * ki) == (x1 * y2) * ki) by (nonlinear_arith);
    assert(y1 * (x2 * ki) == (y1 * x2) * ki) by (nonlinear_arith);
    assert(z1 * (t2 * ki) == (z1 * t2) * ki) by (nonlinear_arith);
    assert(t1 * (z2 * ki) == (t1 * z2) * ki) by (nonlinear_arith);
    assert(z1 * (z2 * ki) == (z1 * z2) * ki) by (nonlinear_arith);
    assert(di * (t1 * (t2 * ki)) == (di * (t1 * t2)) * ki) by (nonlinear_arith);
    lemma_congruent_products(x1 * y2, xy as int, ki, ki);
    lemma_congruent_products(y1 * x2, yx as int, ki, ki);
    lemma_congruent_products(z1 * t2, zt as int, ki, ki);
    lemma_congruent_products(t1 * z2, tz as int, ki, ki);
    lemma_congruent_products(z1 * z2, zz as int, ki, ki);
    lemma_congruent_products(di * (t1 * t2), dtt as int, ki, ki);
    if xy == yx && zt == tz {
        lemma_congruent_reduced(field_mul(p.x, s.y), field_mul(p.y, s.x));
        lemma_congruent_reduced(field_mul(p.z, s.t), field_mul(p.t, s.z));
    } else {
        lemma_congruent_neg(yx, yx as int);
        lemma_congruent_neg(dtt, dtt as int);
        lemma_congruent_products(xy as int, -(yx as int), ki, ki);
        lemma_congruent_products(zz as int, -(dtt as int), ki, ki);
        lemma_congruent_neg(field_mul(p.y, s.x), (yx as int) * ki);
        lemma_congruent_neg(field_mul(d, field_mul(p.t, s.t)), (dtt as int) * ki);
        assert((-(yx as int)) * ki == -((yx as int) * ki)) by (nonlinear_arith);
        assert((-(dtt as int)) * ki == -((dtt as int) * ki)) by (nonlinear_arith);
        lemma_congruent_reduced(field_mul(p.x, s.y), field_neg(field_mul(p.y, s.x)));
        lemma_congruent_reduced(
            field_mul(p.z, s.z),
            field_neg(field_mul(d, field_mul(p.t, s.t))),
        );
    }
}

/// A representative equals each of its rescalings.
pub proof fn lemma_rescaled_equal(p: ExtendedCoords, k: nat)
    ensures
        coset_eq(p, rescaled(p, k)),
        coset_eq(rescaled(p, k), p),
{
    lemma_coset_eq_reflexive(p);
    lemma_coset_eq_rescaled(p, p, k);
    lemma_coset_eq_symmetric(p, rescaled(p, k));
}

/// The candidate of a representative is a reduced, non-negative field
/// element.
pub proof fn lemma_candidate_canonical(p: ExtendedCoords)
    ensures
        encode_candidate(p) < modulus(),
        !is_negative(encode_candidate(p)),
{
    let r = field_inv_sqrt(encode_radicand(p));
    let xz = field_mul(p.x, p.z);
    let w0 = field_mul(field_mul(r, xz), field_add(field_square(p.x), field_square(p.z)));
    let inv_x = field_mul(field_mul(r, w0), p.z);
    let w = if is_negative(encode_ratio(p)) { field_neg(w0) } else { w0 };
    lemma_field_abs_non_negative(field_mul(field_sub(w, p.z), inv_x));
}

/// The candidate of every representative with `X = 0` is zero.
pub proof fn lemma_identity_candidate(p: ExtendedCoords)
    requires
        p.x == 0,
    ensures
        encode_candidate(p) == 0,
{
    let sum = field_add(field_square(p.x), field_square(p.z));
    lemma_field_mul_zero(0);
    lemma_field_mul_zero(sum);
    lemma_field_mul_zero(field_square(p.z));
    assert(encode_radicand(p) == 0);
    lemma_field_pow_of_zero(inv_sqrt_exponent());
    let r = field_inv_sqrt(encode_radicand(p));
    assert(r == 0);
    lemma_field_mul_zero(p.z);
    lemma_field_mul_zero(p.t);
    let xz = field_mul(p.x, p.z);
    assert(xz == 0);
    let w0 = field_mul(field_mul(r, xz), sum);
    assert(w0 == 0);
    assert(encode_ratio(p) == 0);
    let inv_x = field_mul(field_mul(r, w0), p.z);
    assert(inv_x == 0);
    lemma_field_mul_zero(field_sub(w0, p.z));
}

/// The neutral element encodes to 56 zero bytes, and 56 zero bytes
/// decode to the neutral element.
pub proof fn lemma_identity_round_trip()
    ensures
        encode_element(extended_identity()) == bytes_value(identity_bytes()),
        decode_bytes(identity_bytes()) == Some(extended_identity()),
{
    lemma_identity_encoding(extended_identity());
    lemma_bytes_value_zero(identity_bytes());
    lemma1_pow(inv_sqrt_exponent());
    lemma_field_mul_zero(field_mul(4, curve_d()));
    lemma_field_mul_zero(curve_d());
    assert(field_square(0) == 0);
    assert(field_square(1) == 1);
    assert(quartic(0) == 1);
    assert(decode_radicand(0) == 1);
    assert(field_inv_sqrt(1) == 1);
    assert(decode_candidate(0) == extended_identity());
}

/// A representative and `other_member` of it give the same candidate,
/// wherever the sign of the square root is decided: where `X` is zero or
/// `T/W` is not.
pub proof fn lemma_candidate_of_other_member(p: ExtendedCoords)
    requires
        extended_reduced(p),
        p.x == 0 || encode_ratio(p) != 0,
    ensures
        encode_candidate(other_member(p)) == encode_candidate(p),
        encodable(other_member(p)) == encodable(p),
{
    let q = other_member(p);
    lemma_field_neg_square(p.x);
    if p.x == 0 {
        lemma_field_neg_sign(p.x);
        lemma_identity_candidate(p);
        lemma_identity_candidate(q);
    } else {
        let sum = field_add(field_square(p.x), field_square(p.z));
        lemma_field_neg_square(p.x);
        assert(encode_radicand(q) == encode_radicand(p));
        let r = field_inv_sqrt(encode_radicand(p));
        let xz = field_mul(p.x, p.z);
        let w0 = field_mul(field_mul(r, xz), sum);
        let inv_x = field_mul(field_mul(r, w0), p.z);
        let ratio = encode_ratio(p);
        lemma_field_mul_neg(p.x, p.z);
        lemma_field_mul_neg(r, xz);
        lemma_field_mul_neg(field_mul(r, xz), sum);
        lemma_field_mul_neg(field_mul(p.t, r), xz);
        lemma_field_mul_neg(r, w0);
        lemma_field_mul_neg(field_mul(r, w0), p.z);
        assert(field_mul(q.x, q.z) == field_neg(xz));
        assert(encode_ratio(q) == field_neg(ratio));
        let w0q = field_mul(field_mul(r, field_neg(xz)), sum);
        assert(w0q == field_neg(w0));
        let inv_xq = field_mul(field_mul(r, w0q), q.z);
        assert(inv_xq == field_neg(inv_x));
        lemma_field_neg_sign(ratio);
        lemma_field_neg_neg(w0);
        let w = if is_negative(ratio) { field_neg(w0) } else { w0 };
        let wq = if is_negative(field_neg(ratio)) { field_neg(w0q) } else { w0q };
        assert(wq == w);
        let m = field_mul(field_sub(w, p.z), inv_x);
        lemma_field_mul_neg(field_sub(w, p.z), inv_x);
        lemma_field_abs_neg(m);
    }
}

/// The encoding is a reduced, non-negative field element, so that its
/// bytes pass the first two tests of the decoding.
pub proof fn lemma_encoding_canonical(p: ExtendedCoords)
    ensures
        encode_element(p) < modulus(),
        !is_negative(encode_element(p)),
{
    lemma_candidate_canonical(p);
    lemma_candidate_canonical(translate(p));
}

/// Every representative with `X = 0` encodes to zero.
pub proof fn lemma_identity_encoding(p: ExtendedCoords)
    requires
        p.x == 0,
    ensures
        encode_element(p) == 0,
{
    lemma_identity_candidate(p);
    lemma_identity_candidate(translate(p));
}

/// Moving twice by the point of order four gives `(X : Y : -Z : -T)`,
/// the point moved by the point of order two.
pub proof fn lemma_translate_twice(p: ExtendedCoords)
    requires
        extended_reduced(p),
    ensures
        translate(translate(p)) == flipped(p),
{
    let r = curve_d_root();
    let u = curve_d_root_inverse();
    let ri = r as int;
    let ui = u as int;
    let z = p.z as int;
    let t = p.t as int;
    lemma_curve_d_root();
    lemma_congruent_mul(r, ri, u, ui);
    assert(congruent(ri * ui, 1));
    lemma_congruent_mul(u, ui, p.z, z);
    lemma_congruent_mul(r, ri, field_mul(u, p.z), ui * z);
    lemma_congruent_mul(r, ri, p.t, t);
    lemma_congruent_mul(u, ui, field_mul(r, p.t), ri * t);
    lemma_congruent_products(ri * ui, 1, z, z);
    lemma_congruent_products(ri * ui, 1, t, t);
    assert(ri * (ui * z) == (ri * ui) * z) by (nonlinear_arith);
    assert(ui * (ri * t) == (ri * ui) * t) by (nonlinear_arith);
    assert(1 * z == z && 1 * t == t);
    lemma_congruent_reduced(field_mul(r, field_mul(u, p.z)), p.z);
    lemma_congruent_reduced(field_mul(u, field_mul(r, p.t)), p.t);
    lemma_field_mul_neg(r, field_mul(u, p.z));
    lemma_field_neg_neg(p.y);
}

/// A point and its translate are equal as group elements.
pub proof fn lemma_translate_equal(p: ExtendedCoords)
    ensures
        coset_eq(p, translate(p)),
        coset_eq(translate(p), p),
{
    let r = curve_d_root();
    let u = curve_d_root_inverse();
    let d = curve_d();
    let ri = r as int;
    let ui = u as int;
    let di = d as int;
    let z = p.z as int;
    let t = p.t as int;
    let q = translate(p);
    lemma_field_mul_neg(p.x, p.y);
    lemma_field_mul_comm(p.x, p.y);
    lemma_curve_d_root();
    lemma_congruent_mul(r, ri, u, ui);
    lemma_congruent_mul(r, ri, r, ri);
    assert(congruent(ri * ui, 1));
    assert(congruent(ri * ri, di));
    // d*u is congruent to r
    lemma_congruent_products(ri * ri, di, ui, ui);
    lemma_congruent_products(ri, ri, ri * ui, 1);
    assert((ri * ri) * ui == ri * (ri * ui)) by (nonlinear_arith);
    assert(ri * 1 == ri);
    assert(congruent(di * ui, ri));
    // Z1*Z2 = -d*T1*T2
    lemma_congruent_mul(r, ri, p.t, t);
    lemma_congruent_mul(p.z, z, q.z, ri * t);
    lemma_congruent_mul(u, ui, p.z, z);
    lemma_congruent_neg(field_mul(u, p.z), ui * z);
    lemma_congruent_mul(p.t, t, q.t, -(ui * z));
    lemma_congruent_mul(d, di, field_mul(p.t, q.t), t * (-(ui * z)));
    lemma_congruent_neg(field_mul(d, field_mul(p.t, q.t)), di * (t * (-(ui * z))));
    let tz = t * z;
    assert(-(di * (t * (-(ui * z)))) == (di * ui) * tz) by (nonlinear_arith)
        requires
            tz == t * z,
    ;
    assert(z * (ri * t) == ri * tz) by (nonlinear_arith)
        requires
            tz == t * z,
    ;
    lemma_congruent_products(di * ui, ri, tz, tz);
    lemma_congruent_reduced(
        field_mul(p.z, q.z),
        field_neg(field_mul(d, field_mul(p.t, q.t))),
    );
    lemma_coset_eq_symmetric(p, q);
}

/// The translate of a valid point is valid, where its `Z`, which is
/// `r*T`, is not zero.
#[verifier::rlimit(40)]
pub proof fn lemma_translate_valid(p: ExtendedCoords)
    requires
        extended_valid(p),
        translate(p).z != 0,
    ensures
        extended_valid(translate(p)),
{
    let r = curve_d_root();
    let u = curve_d_root_inverse();
    let d = curve_d();
    let ri = r as int;
    let ui = u as int;
    let di = d as int;
    let x = p.x as int;
    let y = p.y as int;
    let z = p.z as int;
    let t = p.t as int;
    let q = translate(p);
    let uz = field_mul(u, p.z);
    lemma_curve_d_root();
    lemma_congruent_mul(r, ri, u, ui);
    lemma_congruent_mul(r, ri, r, ri);
    lemma_congruent_mul(u, ui, u, ui);
    lemma_congruent_mul(d, di, field_square(u), ui * ui);
    assert(congruent(ri * ui, 1));
    assert(congruent(ri * ri, di));
    assert(congruent(di * (ui * ui), 1));
    lemma_congruent_mul(r, ri, p.t, t);
    lemma_congruent_mul(u, ui, p.z, z);
    // T*Z of the translate is -(T*Z), and X*Y of it is -(X*Y)
    lemma_field_mul_neg(uz, q.z);
    lemma_field_mul_neg(p.x, p.y);
    lemma_congruent_mul(uz, ui * z, q.z, ri * t);
    lemma_congruent_mul(p.t, t, p.z, z);
    lemma_congruent_products(ri * ui, 1, t * z, t * z);
    assert((ui * z) * (ri * t) == (ri * ui) * (t * z)) by (nonlinear_arith);
    assert(1 * (t * z) == t * z);
    lemma_congruent_reduced(field_mul(uz, q.z), field_mul(p.t, p.z));
    // Y^2 - X^2 is unchanged
    lemma_field_neg_square(p.y);
    lemma_field_neg_square(uz);
    // Z^2 + d*T^2 of the translate is d*T^2 + Z^2 of the point
    lemma_congruent_mul(q.z, ri * t, q.z, ri * t);
    lemma_congruent_mul(uz, ui * z, uz, ui * z);
    lemma_congruent_mul(d, di, field_square(uz), (ui * z) * (ui * z));
    lemma_congruent_add(
        field_square(q.z),
        (ri * t) * (ri * t),
        field_mul(d, field_square(uz)),
        di * ((ui * z) * (ui * z)),
    );
    let tt = t * t;
    let zz = z * z;
    assert((ri * t) * (ri * t) == (ri * ri) * tt) by (nonlinear_arith)
        requires
            tt == t * t,
    ;
    assert(di * ((ui * z) * (ui * z)) == (di * (ui * ui)) * zz) by (nonlinear_arith)
        requires
            zz == z * z,
    ;
    lemma_congruent_products(ri * ri, di, tt, tt);
    lemma_congruent_products(di * (ui * ui), 1, zz, zz);
    lemma_congruent_sums((ri * ri) * tt, di * tt, (di * (ui * ui)) * zz, 1 * zz);
    lemma_congruent_mul(p.z, z, p.z, z);
    lemma_congruent_mul(p.t, t, p.t, t);
    lemma_congruent_mul(d, di, field_square(p.t), tt);
    lemma_congruent_add(field_square(p.z), zz, field_mul(d, field_square(p.t)), di * tt);
    assert(di * tt + 1 * zz == zz + di * tt);
    lemma_congruent_reduced(
        field_add(field_square(q.z), field_mul(d, field_square(uz))),
        field_add(field_square(p.z), field_mul(d, field_square(p.t))),
    );
}

/// The candidate of `(X : Y : -Z : -T)` is the candidate of the point,
/// and the one is encodable exactly when the other is.
pub proof fn lemma_candidate_of_flipped(p: ExtendedCoords)
    requires
        extended_reduced(p),
    ensures
        encode_candidate(flipped(p)) == encode_candidate(p),
        encodable(flipped(p)) == encodable(p),
{
    let q = flipped(p);
    let sum = field_add(field_square(p.x), field_square(p.z));
    lemma_field_neg_square(p.z);
    assert(encode_radicand(q) == encode_radicand(p));
    let r = field_inv_sqrt(encode_radicand(p));
    let xz = field_mul(p.x, p.z);
    let w0 = field_mul(field_mul(r, xz), sum);
    let ratio = encode_ratio(p);
    let rw = field_mul(r, w0);
    let inv_x = field_mul(rw, p.z);
    let tr = field_mul(p.t, r);
    lemma_field_mul_neg(p.x, p.z);
    lemma_field_mul_neg(r, xz);
    lemma_field_mul_neg(field_mul(r, xz), sum);
    assert(field_mul(field_mul(r, field_mul(q.x, q.z)), sum) == field_neg(w0));
    lemma_field_mul_neg(p.t, r);
    lemma_field_mul_neg(tr, field_neg(xz));
    lemma_field_mul_neg(tr, xz);
    lemma_field_neg_neg(ratio);
    assert(encode_ratio(q) == ratio);
    lemma_field_mul_neg(r, w0);
    lemma_field_mul_neg(rw, field_neg(p.z));
    lemma_field_mul_neg(rw, p.z);
    lemma_field_neg_neg(inv_x);
    assert(field_mul(field_mul(r, field_neg(w0)), q.z) == inv_x);
    lemma_field_neg_neg(w0);
    let w = if is_negative(ratio) { field_neg(w0) } else { w0 };
    let wq = if is_negative(ratio) { field_neg(field_neg(w0)) } else { field_neg(w0) };
    assert(wq == field_neg(w));
    lemma_field_sub_neg(w, p.z);
    let m = field_mul(field_sub(w, p.z), inv_x);
    lemma_field_mul_neg(field_sub(w, p.z), inv_x);
    lemma_field_abs_neg(m);
}

/// A representative and its translate have the same encoding.
pub proof fn lemma_encoding_of_translate(p: ExtendedCoords)
    requires
        extended_reduced(p),
    ensures
        encode_element(translate(p)) == encode_element(p),
{
    lemma_translate_twice(p);
    lemma_candidate_of_flipped(p);
}

/// A representative and `other_member` of it have the same encoding,
/// wherever the sign of the square root is decided for the
/// representative and for its translate: where `X` is zero or neither
/// `T/W` is.
pub proof fn lemma_encoding_of_other_member(p: ExtendedCoords)
    requires
        extended_reduced(p),
        p.x == 0 || (encode_ratio(p) != 0 && encode_ratio(translate(p)) != 0),
    ensures
        encode_element(other_member(p)) == encode_element(p),
{
    lemma_candidate_of_other_member(p);
    lemma_candidate_of_other_member(translate(p));
    assert(translate(other_member(p)) == other_member(translate(p)));
}

/// Where `W^2 = X^2 + Z^2` and `iv` is an inverse of `X`, the element
/// `m = (W - Z) * iv` satisfies `X * (1 - m^2) = 2 * m * Z`: the isogeny
/// sends it to `X/Z`.
#[verifier::rlimit(40)]
proof fn lemma_isogeny_relation(x: nat, z: nat, w: nat, iv: nat)
    requires
        field_square(w) == field_add(field_square(x), field_square(z)),
        field_mul(x, iv) == 1,
    ensures
        ({
            let m = field_mul(field_sub(w, z), iv);
            field_mul(x, field_sub(1, field_square(m))) == field_mul(field_mul(2, m), z)
        }),
{
    let xi = x as int;
    let zi = z as int;
    let wi = w as int;
    let ii = iv as int;
    let a = field_sub(w, z);
    let ai = a as int;
    let m = field_mul(a, iv);
    let mi = m as int;
    let sum = field_add(field_square(x), field_square(z));
    let si = sum as int;
    // what is given, as congruences of integers
    lemma_congruent_mul(x, xi, x, xi);
    lemma_congruent_mul(z, zi, z, zi);
    lemma_congruent_add(field_square(x), xi * xi, field_square(z), zi * zi);
    lemma_congruent_mul(w, wi, w, wi);
    assert(congruent(wi * wi, xi * xi + zi * zi));
    lemma_congruent_mul(x, xi, iv, ii);
    assert(congruent(xi * ii, 1));
    lemma_congruent_sub(w, wi, z, zi);
    lemma_congruent_mul(a, ai, iv, ii);
    assert(congruent(mi, ai * ii));
    // x * m^2 is congruent to a^2 * iv
    let p1 = (ai * ai) * ii;
    lemma_congruent_products(mi, ai * ii, mi, ai * ii);
    lemma_congruent_products(xi, xi, mi * mi, (ai * ii) * (ai * ii));
    assert(xi * ((ai * ii) * (ai * ii)) == p1 * (xi * ii)) by (nonlinear_arith)
        requires
            p1 == (ai * ai) * ii,
    ;
    lemma_congruent_products(p1, p1, xi * ii, 1);
    assert(p1 * 1 == p1);
    assert(congruent(xi * (mi * mi), p1));
    // 2 * m * z is congruent to 2 * a * iv * z
    let p2 = (2 * (ai * ii)) * zi;
    lemma_congruent_products(2, 2, mi, ai * ii);
    lemma_congruent_products(2 * mi, 2 * (ai * ii), zi, zi);
    assert(congruent((2 * mi) * zi, p2));
    // p1 + p2 = iv * (a * (a + 2z)), and a * (a + 2z) is congruent to x^2
    let b = ai * (ai + 2 * zi);
    assert(p1 + p2 == ii * b) by (nonlinear_arith)
        requires
            p1 == (ai * ai) * ii,
            p2 == (2 * (ai * ii)) * zi,
            b == ai * (ai + 2 * zi),
    ;
    lemma_congruent_sums(ai, wi - zi, 2 * zi, 2 * zi);
    lemma_congruent_products(ai, wi - zi, ai + 2 * zi, wi - zi + 2 * zi);
    assert((wi - zi) * (wi - zi + 2 * zi) == wi * wi - zi * zi) by (nonlinear_arith);
    lemma_congruent_differences(wi * wi, xi * xi + zi * zi, zi * zi, zi * zi);
    assert(congruent(b, xi * xi));
    lemma_congruent_products(ii, ii, b, xi * xi);
    assert(ii * (xi * xi) == xi * (xi * ii)) by (nonlinear_arith);
    lemma_congruent_products(xi, xi, xi * ii, 1);
    assert(xi * 1 == xi);
    assert(congruent(p1 + p2, xi));
    // so x - x*m^2 is congruent to 2*m*z
    lemma_congruent_differences(p1 + p2, xi, p1, p1);
    lemma_congruent_differences(xi, xi, xi * (mi * mi), p1);
    assert(congruent(xi - xi * (mi * mi), (2 * mi) * zi));
    assert(xi * (1 - mi * mi) == xi - xi * (mi * mi)) by (nonlinear_arith);
    lemma_congruent_mul(m, mi, m, mi);
    lemma_congruent_sub(1, 1, field_square(m), mi * mi);
    lemma_congruent_mul(x, xi, field_sub(1, field_square(m)), 1 - mi * mi);
    lemma_congruent_mul(2, 2, m, mi);
    lemma_congruent_mul(field_mul(2, m), 2 * mi, z, zi);
    lemma_congruent_reduced(
        field_mul(x, field_sub(1, field_square(m))),
        field_mul(field_mul(2, m), z),
    );
}

/// For an encodable representative, `W0 = r * X*Z * (X^2 + Z^2)` is a
/// square root of `X^2 + Z^2`, and `r * W0 * Z` is an inverse of `X`.
#[verifier::rlimit(40)]
proof fn lemma_candidate_roots(p: ExtendedCoords)
    requires
        encodable(p),
    ensures
        ({
            let r = field_inv_sqrt(encode_radicand(p));
            let sum = field_add(field_square(p.x), field_square(p.z));
            let w0 = field_mul(field_mul(r, field_mul(p.x, p.z)), sum);
            &&& field_square(w0) == sum
            &&& field_mul(p.x, field_mul(field_mul(r, w0), p.z)) == 1
        }),
{
    let xx = field_square(p.x);
    let zz = field_square(p.z);
    let sum = field_add(xx, zz);
    let n = encode_radicand(p);
    let r = field_inv_sqrt(n);
    let xz = field_mul(p.x, p.z);
    let w0 = field_mul(field_mul(r, xz), sum);
    let inv_x = field_mul(field_mul(r, w0), p.z);
    let x = p.x as int;
    let z = p.z as int;
    let si = sum as int;
    let ro = r as int;
    let q = xz as int;
    let xxi = xx as int;
    let zzi = zz as int;
    let k = (q * q) * si;
    let rr = ro * ro;
    // the radicand is congruent to k = (X*Z)^2 * (X^2 + Z^2)
    lemma_congruent_mul(p.x, x, p.x, x);
    lemma_congruent_mul(p.z, z, p.z, z);
    lemma_congruent_mul(p.x, x, p.z, z);
    lemma_congruent_products(q, x * z, q, x * z);
    lemma_congruent_products(xxi, x * x, zzi, z * z);
    assert((x * z) * (x * z) == (x * x) * (z * z)) by (nonlinear_arith);
    assert(congruent(xxi * zzi, q * q));
    lemma_congruent_mul(xx, xxi, sum, si);
    lemma_congruent_mul(field_mul(xx, sum), xxi * si, zz, zzi);
    assert((xxi * si) * zzi == (xxi * zzi) * si) by (nonlinear_arith);
    lemma_congruent_products(xxi * zzi, q * q, si, si);
    assert(congruent(n as int, k));
    // k * r^2 is congruent to one
    lemma_congruent_mul(r, ro, r, ro);
    lemma_congruent_mul(n, k, field_square(r), rr);
    assert(congruent(k * rr, 1));
    // the square of w0
    let wv = (ro * q) * si;
    lemma_congruent_mul(r, ro, xz, q);
    lemma_congruent_mul(field_mul(r, xz), ro * q, sum, si);
    lemma_congruent_mul(w0, wv, w0, wv);
    assert(wv * wv == (k * rr) * si) by (nonlinear_arith)
        requires
            wv == (ro * q) * si,
            k == (q * q) * si,
            rr == ro * ro,
    ;
    lemma_congruent_products(k * rr, 1, si, si);
    assert(1 * si == si);
    lemma_congruent_reduced(field_square(w0), sum);
    // x times inv_x
    lemma_congruent_mul(r, ro, w0, wv);
    lemma_congruent_mul(field_mul(r, w0), ro * wv, p.z, z);
    lemma_congruent_mul(p.x, x, inv_x, (ro * wv) * z);
    let c = rr * (q * si);
    assert(x * ((ro * wv) * z) == c * (x * z)) by (nonlinear_arith)
        requires
            wv == (ro * q) * si,
            c == (ro * ro) * (q * si),
    ;
    lemma_congruent_products(c, c, x * z, q);
    assert(c * q == k * rr) by (nonlinear_arith)
        requires
            c == rr * (q * si),
            k == (q * q) * si,
    ;
    lemma_congruent_reduced(field_mul(p.x, inv_x), 1);
}

/// The candidate `s` of an encodable representative is sent to the
/// representative by the isogeny: `X * (1 - s^2)` is `2 * s * Z` or its
/// negation, that is `X/Z = ±2s / (1 - s^2)`.
pub proof fn lemma_candidate_isogeny(p: ExtendedCoords)
    requires
        encodable(p),
    ensures
        ({
            let s = encode_candidate(p);
            let lhs = field_mul(p.x, field_sub(1, field_square(s)));
            let rhs = field_mul(field_mul(2, s), p.z);
            lhs == rhs || lhs == field_neg(rhs)
        }),
{
    let r = field_inv_sqrt(encode_radicand(p));
    let sum = field_add(field_square(p.x), field_square(p.z));
    let w0 = field_mul(field_mul(r, field_mul(p.x, p.z)), sum);
    let inv_x = field_mul(field_mul(r, w0), p.z);
    let w = if is_negative(encode_ratio(p)) { field_neg(w0) } else { w0 };
    let m = field_mul(field_sub(w, p.z), inv_x);
    lemma_candidate_roots(p);
    lemma_field_neg_square(w0);
    lemma_isogeny_relation(p.x, p.z, w, inv_x);
    if is_negative(m) {
        let rhs = field_mul(field_mul(2, m), p.z);
        lemma_field_neg_square(m);
        lemma_field_mul_neg(2, m);
        lemma_field_mul_neg(field_mul(2, m), p.z);
        lemma_field_neg_neg(rhs);
    }
}

/// The encoding `s` of a point of which exactly one of the point and
/// its translate is encodable is sent to that one by the isogeny.
pub proof fn lemma_encoding_isogeny(p: ExtendedCoords)
    requires
        encodable(p) != encodable(translate(p)),
    ensures
        ({
            let c = if encodable(p) { p } else { translate(p) };
            let s = encode_element(p);
            let lhs = field_mul(c.x, field_sub(1, field_square(s)));
            let rhs = field_mul(field_mul(2, s), c.z);
            lhs == rhs || lhs == field_neg(rhs)
        }),
{
    if encodable(p) {
        lemma_candidate_isogeny(p);
    } else {
        lemma_candidate_isogeny(translate(p));
    }
}

/// Where the radicand of the decoding has an inverse square root, the
/// decoded point is the image of `s` under the isogeny:
/// `x * (1 - s^2)` is `2s` or its negation, and
/// `y^2 * t^2 = (1 + s^2)^2` for the value `t^2` of the quartic at `s`.
#[verifier::rlimit(40)]
pub proof fn lemma_decode_isogeny(s: nat)
    requires
        is_inv_sqrt(decode_radicand(s), field_inv_sqrt(decode_radicand(s))),
    ensures
        ({
            let c = decode_candidate(s);
            let lhs = field_mul(c.x, field_sub(1, field_square(s)));
            lhs == field_mul(2, s) || lhs == field_neg(field_mul(2, s))
        }),
        field_mul(field_square(decode_candidate(s).y), quartic(s)) == field_square(
            field_add(1, field_square(s)),
        ),
{
    let u1 = field_sub(1, field_square(s));
    let u2 = field_add(1, field_square(s));
    let v = quartic(s);
    let i = field_inv_sqrt(decode_radicand(s));
    let dx = field_mul(i, u1);
    let dxs = field_mul(field_add(s, s), dx);
    let x0 = field_mul(field_mul(dxs, i), v);
    let y = field_mul(dx, u2);
    let si = s as int;
    let a = u1 as int;
    let b = u2 as int;
    let vi = v as int;
    let ii = i as int;
    let k = (vi * (a * a)) * (ii * ii);
    // the inverse square root, as a congruence
    lemma_congruent_mul(u1, a, u1, a);
    lemma_congruent_mul(v, vi, field_square(u1), a * a);
    lemma_congruent_mul(i, ii, i, ii);
    lemma_congruent_mul(decode_radicand(s), vi * (a * a), field_square(i), ii * ii);
    assert(congruent(k, 1));
    // x0 * u1 = 2s
    lemma_congruent_add(s, si, s, si);
    lemma_congruent_mul(i, ii, u1, a);
    lemma_congruent_mul(field_add(s, s), si + si, dx, ii * a);
    lemma_congruent_mul(dxs, (si + si) * (ii * a), i, ii);
    lemma_congruent_mul(field_mul(dxs, i), ((si + si) * (ii * a)) * ii, v, vi);
    lemma_congruent_mul(x0, (((si + si) * (ii * a)) * ii) * vi, u1, a);
    let t = si + si;
    assert(((((t * (ii * a)) * ii) * vi) * a) == t * k) by (nonlinear_arith)
        requires
            k == (vi * (a * a)) * (ii * ii),
    ;
    lemma_congruent_products(t, t, k, 1);
    lemma_congruent_mul(2, 2, s, si);
    assert(t * 1 == 2 * si);
    lemma_congruent_reduced(field_mul(x0, u1), field_mul(2, s));
    if is_negative(dxs) {
        lemma_field_mul_neg(x0, u1);
    }
    // y^2 * v = u2^2
    lemma_congruent_mul(dx, ii * a, u2, b);
    lemma_congruent_mul(y, (ii * a) * b, y, (ii * a) * b);
    lemma_congruent_mul(field_square(y), ((ii * a) * b) * ((ii * a) * b), v, vi);
    lemma_congruent_mul(u2, b, u2, b);
    let bb = b * b;
    assert((((ii * a) * b) * ((ii * a) * b)) * vi == k * bb) by (nonlinear_arith)
        requires
            k == (vi * (a * a)) * (ii * ii),
            bb == b * b,
    ;
    lemma_congruent_products(k, 1, bb, bb);
    assert(1 * bb == bb);
    lemma_congruent_reduced(field_mul(field_square(y), v), field_square(u2));
}

/// The exponent `3 * (p - 1) / 2`, six times the exponent of the
/// inverse square root plus three.
pub open spec fn scale_exponent() -> nat {
    6 * inv_sqrt_exponent() + 3
}

/// Whether `k^(3*(p-1)/2)` is one or minus one. In a field it is for
/// every nonzero `k`, by Euler's criterion, which is not proved here.
pub open spec fn scale_sign_known(k: nat) -> bool {
    ||| field_pow(k, scale_exponent()) == 1
    ||| field_pow(k, scale_exponent()) == modulus() - 1
}

/// The square root `W0` that the encoding of `p` starts from.
pub open spec fn candidate_root(p: ExtendedCoords) -> nat {
    field_mul(
        field_mul(field_inv_sqrt(encode_radicand(p)), field_mul(p.x, p.z)),
        field_add(field_square(p.x), field_square(p.z)),
    )
}

/// The inverse of `X` that the encoding of `p` uses.
pub open spec fn candidate_inverse(p: ExtendedCoords) -> nat {
    field_mul(field_mul(field_inv_sqrt(encode_radicand(p)), candidate_root(p)), p.z)
}

/// The radicand of a rescaled point is `k^6` times the radicand of the
/// point, and its power `k^(6e)` times the power of the point.
#[verifier::rlimit(40)]
proof fn lemma_rescaled_radicand(p: ExtendedCoords, k: nat)
    ensures
        encode_radicand(rescaled(p, k)) == field_mul(field_pow(k, 6), encode_radicand(p)),
        field_inv_sqrt(encode_radicand(rescaled(p, k))) == field_mul(
            field_pow(k, 6 * inv_sqrt_exponent()),
            field_inv_sqrt(encode_radicand(p)),
        ),
{
    let q = rescaled(p, k);
    let x = p.x as int;
    let z = p.z as int;
    let ki = k as int;
    let a = x * x;
    let b = z * z;
    let c = ki * ki;
    lemma_congruent_mul(p.x, x, k, ki);
    lemma_congruent_mul(p.z, z, k, ki);
    lemma_congruent_mul(q.x, x * ki, q.x, x * ki);
    lemma_congruent_mul(q.z, z * ki, q.z, z * ki);
    assert((x * ki) * (x * ki) == c * a) by (nonlinear_arith)
        requires
            a == x * x,
            c == ki * ki,
    ;
    assert((z * ki) * (z * ki) == c * b) by (nonlinear_arith)
        requires
            b == z * z,
            c == ki * ki,
    ;
    lemma_congruent_add(field_square(q.x), c * a, field_square(q.z), c * b);
    let sq = field_add(field_square(q.x), field_square(q.z));
    lemma_congruent_mul(field_square(q.x), c * a, sq, c * a + c * b);
    lemma_congruent_mul(
        field_mul(field_square(q.x), sq),
        (c * a) * (c * a + c * b),
        field_square(q.z),
        c * b,
    );
    lemma_congruent_mul(p.x, x, p.x, x);
    lemma_congruent_mul(p.z, z, p.z, z);
    lemma_congruent_add(field_square(p.x), a, field_square(p.z), b);
    let sp = field_add(field_square(p.x), field_square(p.z));
    lemma_congruent_mul(field_square(p.x), a, sp, a + b);
    lemma_congruent_mul(field_mul(field_square(p.x), sp), a * (a + b), field_square(p.z), b);
    lemma_field_pow_small(k);
    let n = (a * (a + b)) * b;
    let c3 = (c * c) * c;
    lemma_congruent_mul(field_pow(k, 6), c3, encode_radicand(p), n);
    let ca = c * a;
    let cb = c * b;
    assert(ca + cb == c * (a + b)) by (nonlinear_arith)
        requires
            ca == c * a,
            cb == c * b,
    ;
    let ab = a * (a + b);
    assert(ca * (c * (a + b)) == (c * c) * ab) by (nonlinear_arith)
        requires
            ca == c * a,
            ab == a * (a + b),
    ;
    let cc = c * c;
    assert((cc * ab) * cb == (cc * c) * (ab * b)) by (nonlinear_arith)
        requires
            cb == c * b,
    ;
    assert(((c * a) * (c * a + c * b)) * (c * b) == c3 * n);
    lemma_congruent_reduced(
        encode_radicand(q),
        field_mul(field_pow(k, 6), encode_radicand(p)),
    );
    lemma_field_pow_product(field_pow(k, 6), encode_radicand(p), inv_sqrt_exponent());
    lemma_field_pow_mul(k, 6, inv_sqrt_exponent());
}

/// The parts of the encoding of a rescaled point, in terms of the parts
/// of the encoding of the point, where `kappa * k^3` is congruent to
/// `eps` for `kappa = k^(6e)`.
#[verifier::rlimit(40)]
proof fn lemma_rescaled_parts(p: ExtendedCoords, k: nat, eps: int)
    requires
        congruent(
            field_pow(k, 6 * inv_sqrt_exponent()) as int * ((k as int * k as int) * k as int),
            eps,
        ),
    ensures
        congruent(candidate_root(rescaled(p, k)) as int, eps * (k as int * candidate_root(p) as int)),
        congruent(encode_ratio(rescaled(p, k)) as int, eps * encode_ratio(p) as int),
{
    let q = rescaled(p, k);
    let kappa = field_pow(k, 6 * inv_sqrt_exponent());
    let ka = kappa as int;
    let ki = k as int;
    let x = p.x as int;
    let z = p.z as int;
    let t = p.t as int;
    let r = field_inv_sqrt(encode_radicand(p));
    let ro = r as int;
    let rq = field_inv_sqrt(encode_radicand(q));
    let xz = field_mul(p.x, p.z);
    let qv = xz as int;
    let sp = field_add(field_square(p.x), field_square(p.z));
    let sv = sp as int;
    let c = ki * ki;
    let c3 = c * ki;
    lemma_rescaled_radicand(p, k);
    lemma_congruent_mul(kappa, ka, r, ro);
    assert(congruent(rq as int, ka * ro));
    lemma_congruent_mul(p.x, x, k, ki);
    lemma_congruent_mul(p.z, z, k, ki);
    lemma_congruent_mul(p.t, t, k, ki);
    // X*Z of the rescaled point
    lemma_congruent_mul(q.x, x * ki, q.z, z * ki);
    lemma_congruent_mul(p.x, x, p.z, z);
    assert((x * ki) * (z * ki) == c * (x * z)) by (nonlinear_arith)
        requires
            c == ki * ki,
    ;
    lemma_congruent_products(c, c, x * z, qv);
    let xzq = field_mul(q.x, q.z);
    assert(congruent(xzq as int, c * qv));
    // X^2 + Z^2 of the rescaled point
    lemma_congruent_mul(q.x, x * ki, q.x, x * ki);
    lemma_congruent_mul(q.z, z * ki, q.z, z * ki);
    lemma_congruent_add(
        field_square(q.x),
        (x * ki) * (x * ki),
        field_square(q.z),
        (z * ki) * (z * ki),
    );
    lemma_congruent_mul(p.x, x, p.x, x);
    lemma_congruent_mul(p.z, z, p.z, z);
    lemma_congruent_add(field_square(p.x), x * x, field_square(p.z), z * z);
    let a = x * x;
    let b = z * z;
    assert((x * ki) * (x * ki) + (z * ki) * (z * ki) == c * (a + b)) by (nonlinear_arith)
        requires
            c == ki * ki,
            a == x * x,
            b == z * z,
    ;
    lemma_congruent_products(c, c, a + b, sv);
    let sq = field_add(field_square(q.x), field_square(q.z));
    assert(congruent(sq as int, c * sv));
    // the root
    lemma_congruent_mul(rq, ka * ro, xzq, c * qv);
    lemma_congruent_mul(field_mul(rq, xzq), (ka * ro) * (c * qv), sq, c * sv);
    lemma_congruent_mul(r, ro, xz, qv);
    lemma_congruent_mul(field_mul(r, xz), ro * qv, sp, sv);
    let w0 = candidate_root(p);
    let w0i = w0 as int;
    let wv = (ro * qv) * sv;
    let kc = ka * c3;
    let cc = c * c;
    assert(((ka * ro) * (c * qv)) * (c * sv) == (ka * cc) * wv) by (nonlinear_arith)
        requires
            wv == (ro * qv) * sv,
            cc == c * c,
    ;
    assert((ka * cc) * wv == kc * (ki * wv)) by (nonlinear_arith)
        requires
            kc == ka * (c * ki),
            cc == c * c,
            c == ki * ki,
    ;
    lemma_congruent_products(ki, ki, wv, w0i);
    lemma_congruent_products(kc, eps, ki * wv, ki * w0i);
    // the ratio
    lemma_congruent_mul(q.t, t * ki, rq, ka * ro);
    lemma_congruent_mul(field_mul(q.t, rq), (t * ki) * (ka * ro), xzq, c * qv);
    lemma_congruent_mul(p.t, t, r, ro);
    lemma_congruent_mul(field_mul(p.t, r), t * ro, xz, qv);
    let rv = (t * ro) * qv;
    let tr = t * ro;
    let kk = ka * ki;
    assert((t * ki) * (ka * ro) == kk * tr) by (nonlinear_arith)
        requires
            tr == t * ro,
            kk == ka * ki,
    ;
    assert((kk * tr) * (c * qv) == (kk * c) * (tr * qv)) by (nonlinear_arith);
    assert(kk * c == kc) by (nonlinear_arith)
        requires
            kk == ka * ki,
            kc == ka * (c * ki),
    ;
    assert(((t * ki) * (ka * ro)) * (c * qv) == kc * rv);
    lemma_congruent_products(kc, eps, rv, encode_ratio(p) as int);
}

/// No representative with `X = 0` is encodable.
pub proof fn lemma_identity_not_encodable(p: ExtendedCoords)
    requires
        p.x == 0,
    ensures
        !encodable(p),
{
    let sum = field_add(field_square(p.x), field_square(p.z));
    lemma_field_mul_zero(0);
    lemma_field_mul_zero(sum);
    lemma_field_mul_zero(field_square(p.z));
    assert(encode_radicand(p) == 0);
    lemma_field_mul_zero(field_square(field_inv_sqrt(0)));
}

/// The candidate of a representative does not depend on its scale, and
/// neither does whether it is encodable: for every factor `k` whose
/// power `k^(3*(p-1)/2)` is one or minus one, wherever the sign of the
/// square root is decided.
#[verifier::rlimit(40)]
pub proof fn lemma_candidate_rescaled(p: ExtendedCoords, k: nat)
    requires
        extended_reduced(p),
        scale_sign_known(k),
        p.x == 0 || encode_ratio(p) != 0,
    ensures
        encode_candidate(rescaled(p, k)) == encode_candidate(p),
        encodable(rescaled(p, k)) == encodable(p),
{
    let q = rescaled(p, k);
    if p.x == 0 {
        lemma_field_mul_zero(k);
        lemma_identity_candidate(p);
        lemma_identity_candidate(q);
        lemma_identity_not_encodable(p);
        lemma_identity_not_encodable(q);
    } else {
        let e = inv_sqrt_exponent();
        let kappa = field_pow(k, 6 * e);
        let ka = kappa as int;
        let ki = k as int;
        let c3 = (ki * ki) * ki;
        let z = p.z as int;
        // the sign
        lemma_field_pow_add(k, 6 * e, 3);
        lemma_field_pow_small(k);
        lemma_congruent_mul(kappa, ka, field_pow(k, 3), c3);
        let eps: int = if field_pow(k, scale_exponent()) == 1 { 1 } else { -1 };
        assert(congruent(ka * c3, eps)) by {
            lemma_mod_multiples_vanish(1, -1, modulus() as int);
        }
        lemma_congruent_products(eps, eps, ka * c3, eps);
        assert(eps * eps == 1) by (nonlinear_arith)
            requires
                eps == 1 || eps == -1,
        ;
        assert(congruent(eps * (ka * c3), 1));
        lemma_rescaled_parts(p, k, eps);
        lemma_rescaled_radicand(p, k);
        // the root and the ratio as field elements
        let r = field_inv_sqrt(encode_radicand(p));
        let ro = r as int;
        let rq = field_inv_sqrt(encode_radicand(q));
        let w0 = candidate_root(p);
        let w0i = w0 as int;
        let w0q = candidate_root(q);
        let ratio = encode_ratio(p);
        let ratio_q = encode_ratio(q);
        let scaled_root = field_mul(w0, k);
        lemma_congruent_mul(w0, w0i, k, ki);
        assert(ki * w0i == w0i * ki) by (nonlinear_arith);
        lemma_field_mul_neg(w0, k);
        lemma_field_neg_neg(scaled_root);
        lemma_field_neg_sign(ratio);
        let w = if is_negative(ratio) { field_neg(w0) } else { w0 };
        let wq = if is_negative(ratio_q) { field_neg(w0q) } else { w0q };
        if eps == 1 {
            assert(1 * (ki * w0i) == ki * w0i);
            assert(1 * (ratio as int) == ratio as int);
            lemma_congruent_reduced(w0q, scaled_root);
            lemma_congruent_reduced(ratio_q, ratio);
        } else {
            lemma_congruent_neg(scaled_root, w0i * ki);
            lemma_congruent_neg(ratio, ratio as int);
            assert((-1) * (ki * w0i) == -(w0i * ki)) by (nonlinear_arith);
            assert((-1) * (ratio as int) == -(ratio as int));
            lemma_congruent_reduced(w0q, field_neg(scaled_root));
            lemma_congruent_reduced(ratio_q, field_neg(ratio));
        }
        assert(wq == field_mul(w, k));
        // the quotient
        let wi = w as int;
        let inv_x = candidate_inverse(p);
        let inv_xq = candidate_inverse(q);
        let m = field_mul(field_sub(w, p.z), inv_x);
        let mq = field_mul(field_sub(wq, q.z), inv_xq);
        lemma_congruent_mul(kappa, ka, r, ro);
        lemma_congruent_mul(p.z, z, k, ki);
        lemma_congruent_mul(w, wi, k, ki);
        lemma_congruent_sub(wq, wi * ki, q.z, z * ki);
        lemma_congruent_mul(rq, ka * ro, w0q, eps * (ki * w0i));
        lemma_congruent_mul(field_mul(rq, w0q), (ka * ro) * (eps * (ki * w0i)), q.z, z * ki);
        lemma_congruent_mul(
            field_sub(wq, q.z),
            wi * ki - z * ki,
            inv_xq,
            ((ka * ro) * (eps * (ki * w0i))) * (z * ki),
        );
        lemma_congruent_sub(w, wi, p.z, z);
        lemma_congruent_mul(r, ro, w0, w0i);
        lemma_congruent_mul(field_mul(r, w0), ro * w0i, p.z, z);
        lemma_congruent_mul(field_sub(w, p.z), wi - z, inv_x, (ro * w0i) * z);
        let a = wi - z;
        let b = (ro * w0i) * z;
        let f = eps * (ka * c3);
        let g = (eps * ka) * (ki * ki);
        assert(wi * ki - z * ki == a * ki) by (nonlinear_arith)
            requires
                a == wi - z,
        ;
        let u1 = ka * ro;
        let u2 = ki * w0i;
        let u3 = z * ki;
        let rw = ro * w0i;
        let kk = ki * ki;
        assert((u1 * (eps * u2)) * u3 == eps * ((u1 * u2) * u3)) by (nonlinear_arith);
        assert(u1 * u2 == (ka * ki) * rw) by (nonlinear_arith)
            requires
                u1 == ka * ro,
                u2 == ki * w0i,
                rw == ro * w0i,
        ;
        assert(((ka * ki) * rw) * u3 == (ka * kk) * (rw * z)) by (nonlinear_arith)
            requires
                u3 == z * ki,
                kk == ki * ki,
        ;
        assert(eps * ((ka * kk) * (rw * z)) == ((eps * ka) * kk) * (rw * z)) by (nonlinear_arith);
        assert(((ka * ro) * (eps * (ki * w0i))) * (z * ki) == g * b);
        assert((a * ki) * (g * b) == f * (a * b)) by (nonlinear_arith)
            requires
                g == (eps * ka) * (ki * ki),
                f == eps * (ka * ((ki * ki) * ki)),
        ;
        lemma_congruent_products(f, 1, a * b, a * b);
        assert(1 * (a * b) == a * b);
        lemma_congruent_reduced(mq, m);
        // whether the root is one
        let n = encode_radicand(p);
        let ni = n as int;
        let k6 = field_pow(k, 6);
        let c = ki * ki;
        let c6 = (c * c) * c;
        lemma_congruent_mul(k6, c6, n, ni);
        lemma_congruent_mul(rq, ka * ro, rq, ka * ro);
        lemma_congruent_mul(encode_radicand(q), c6 * ni, field_square(rq), (ka * ro) * (ka * ro));
        lemma_congruent_mul(r, ro, r, ro);
        lemma_congruent_mul(n, ni, field_square(r), ro * ro);
        let h = ka * c3;
        let nr = ni * (ro * ro);
        assert(c6 == c3 * c3) by (nonlinear_arith)
            requires
                c6 == (c * c) * c,
                c3 == c * ki,
                c == ki * ki,
        ;
        assert((c6 * ni) * ((ka * ro) * (ka * ro)) == (h * h) * nr) by (nonlinear_arith)
            requires
                c6 == c3 * c3,
                h == ka * c3,
                nr == ni * (ro * ro),
        ;
        lemma_congruent_products(h, eps, h, eps);
        lemma_congruent_products(h * h, eps * eps, nr, nr);
        assert(1 * nr == nr);
        lemma_congruent_reduced(
            field_mul(encode_radicand(q), field_square(rq)),
            field_mul(n, field_square(r)),
        );
    }
}

/// The translate of a rescaled point is the rescaled translate.
pub proof fn lemma_translate_of_rescaled(p: ExtendedCoords, k: nat)
    ensures
        translate(rescaled(p, k)) == rescaled(translate(p), k),
{
    let r = curve_d_root();
    let u = curve_d_root_inverse();
    let ri = r as int;
    let ui = u as int;
    let ki = k as int;
    let z = p.z as int;
    let t = p.t as int;
    lemma_congruent_mul(p.t, t, k, ki);
    lemma_congruent_mul(p.z, z, k, ki);
    lemma_congruent_mul(r, ri, field_mul(p.t, k), t * ki);
    lemma_congruent_mul(u, ui, field_mul(p.z, k), z * ki);
    lemma_congruent_mul(r, ri, p.t, t);
    lemma_congruent_mul(u, ui, p.z, z);
    lemma_congruent_mul(field_mul(r, p.t), ri * t, k, ki);
    lemma_congruent_mul(field_mul(u, p.z), ui * z, k, ki);
    assert(ri * (t * ki) == (ri * t) * ki) by (nonlinear_arith);
    assert(ui * (z * ki) == (ui * z) * ki) by (nonlinear_arith);
    lemma_congruent_reduced(
        field_mul(r, field_mul(p.t, k)),
        field_mul(field_mul(r, p.t), k),
    );
    lemma_congruent_reduced(
        field_mul(u, field_mul(p.z, k)),
        field_mul(field_mul(u, p.z), k),
    );
    lemma_field_mul_neg(p.y, k);
    lemma_field_mul_neg(field_mul(u, p.z), k);
}

/// The encoding does not depend on the scale of the representative:
/// for every factor `k` whose power `k^(3*(p-1)/2)` is one or minus one,
/// wherever the sign of the square root is decided for the
/// representative and for its translate.
pub proof fn lemma_encoding_rescaled(p: ExtendedCoords, k: nat)
    requires
        extended_reduced(p),
        scale_sign_known(k),
        p.x == 0 || (encode_ratio(p) != 0 && encode_ratio(translate(p)) != 0),
    ensures
        encode_element(rescaled(p, k)) == encode_element(p),
{
    lemma_translate_of_rescaled(p, k);
    lemma_candidate_rescaled(p, k);
    lemma_candidate_rescaled(translate(p), k);
}

/// The point of order two, `(0 : -1 : 1 : 0)`.
pub open spec fn order_two_point() -> ExtendedCoords {
    ExtendedCoords { x: 0, y: field_neg(1), z: 1, t: 0 }
}

/// Twice the point `(0 : r : 0 : 1)` is the point of order two, so that
/// the point has order four.
pub proof fn lemma_order_four_point_doubled()
    ensures
        extended_eq(
            extensible_to_extended(extensible_double(extended_to_extensible(order_four_point()))),
            order_two_point(),
        ),
{
    let r = curve_d_root();
    let d = curve_d();
    lemma_curve_d_root();
    lemma_field_mul_zero(r);
    lemma_field_mul_zero(0);
    lemma_field_mul_zero(2);
    let g = field_sub(field_square(r), field_square(0));
    let h = field_add(field_square(r), field_square(0));
    let f = field_sub(field_mul(2, field_square(0)), g);
    assert(g == d);
    assert(h == d);
    assert(f == field_neg(d));
    lemma_field_mul_zero(f);
    lemma_field_mul_zero(field_mul(f, g));
    lemma_field_mul_one(field_mul(g, h));
    lemma_field_mul_neg(1, field_mul(f, g));
    lemma_field_mul_one(field_mul(f, g));
    lemma_field_mul_neg(d, d);
    lemma_field_neg_neg(field_mul(d, d));
}

/// The translate is the sum with the point of order four: the sum of
/// `p` and `(0 : r : 0 : 1)` by the addition law has the affine image
/// of `translate(p)`.
#[verifier::rlimit(40)]
pub proof fn lemma_translate_is_sum(p: ExtendedCoords)
    ensures
        extended_eq(
            extensible_to_extended(
                extensible_add(extended_to_extensible(p), order_four_point()),
            ),
            translate(p),
        ),
{
    let r = curve_d_root();
    let d = curve_d();
    let ri = r as int;
    let di = d as int;
    let x = p.x as int;
    let y = p.y as int;
    let z = p.z as int;
    let t = p.t as int;
    let q = translate(p);
    let tp = field_mul(p.t, 1);
    let zz = field_mul(p.z, 0);
    let dtt = field_mul(d, field_mul(tp, 1));
    let e = field_mul(2, field_add(field_mul(p.x, r), field_mul(p.y, 0)));
    let f = field_mul(2, field_sub(zz, dtt));
    let g = field_mul(2, field_add(zz, dtt));
    let h = field_mul(2, field_add(field_mul(p.y, r), field_mul(p.x, 0)));
    let c = di * t;
    let xr = x * ri;
    let yr = y * ri;
    lemma_curve_d_root();
    lemma_congruent_mul(r, ri, r, ri);
    assert(congruent(ri * ri, di));
    // the four factors
    lemma_congruent_mul(p.x, x, r, ri);
    lemma_congruent_mul(p.y, y, 0, 0);
    lemma_congruent_add(field_mul(p.x, r), xr, field_mul(p.y, 0), y * 0);
    lemma_congruent_mul(2, 2, field_add(field_mul(p.x, r), field_mul(p.y, 0)), xr + y * 0);
    lemma_congruent_mul(p.y, y, r, ri);
    lemma_congruent_mul(p.x, x, 0, 0);
    lemma_congruent_add(field_mul(p.y, r), yr, field_mul(p.x, 0), x * 0);
    lemma_congruent_mul(2, 2, field_add(field_mul(p.y, r), field_mul(p.x, 0)), yr + x * 0);
    lemma_congruent_mul(p.t, t, 1, 1);
    lemma_congruent_mul(tp, t * 1, 1, 1);
    lemma_congruent_mul(d, di, field_mul(tp, 1), (t * 1) * 1);
    lemma_congruent_mul(p.z, z, 0, 0);
    lemma_congruent_sub(zz, z * 0, dtt, di * ((t * 1) * 1));
    lemma_congruent_add(zz, z * 0, dtt, di * ((t * 1) * 1));
    lemma_congruent_mul(2, 2, field_sub(zz, dtt), z * 0 - di * ((t * 1) * 1));
    lemma_congruent_mul(2, 2, field_add(zz, dtt), z * 0 + di * ((t * 1) * 1));
    assert(2 * (xr + y * 0) == 2 * xr);
    assert(2 * (yr + x * 0) == 2 * yr);
    assert(di * ((t * 1) * 1) == c);
    assert(2 * (z * 0 - c) == -(2 * c));
    assert(2 * (z * 0 + c) == 2 * c);
    let ei = 2 * xr;
    let hi = 2 * yr;
    let fi = -(2 * c);
    let gi = 2 * c;
    // the coordinates of the sum against those of the translate
    lemma_congruent_mul(e, ei, f, fi);
    lemma_congruent_mul(g, gi, h, hi);
    lemma_congruent_mul(f, fi, g, gi);
    lemma_congruent_mul(r, ri, p.t, t);
    lemma_congruent_neg(p.y, y);
    lemma_congruent_mul(field_mul(e, f), ei * fi, q.z, ri * t);
    lemma_congruent_mul(field_mul(g, h), gi * hi, q.z, ri * t);
    lemma_congruent_mul(q.x, x, field_mul(f, g), fi * gi);
    lemma_congruent_mul(q.y, -y, field_mul(f, g), fi * gi);
    let rr = ri * ri;
    let a1 = -(4 * ((x * c) * t));
    let a2 = 4 * ((y * c) * t);
    assert((ei * fi) * (ri * t) == rr * a1) by (nonlinear_arith)
        requires
            ei == 2 * (x * ri),
            fi == -(2 * c),
            rr == ri * ri,
            a1 == -(4 * ((x * c) * t)),
    ;
    assert((gi * hi) * (ri * t) == rr * a2) by (nonlinear_arith)
        requires
            gi == 2 * c,
            hi == 2 * (y * ri),
            rr == ri * ri,
            a2 == 4 * ((y * c) * t),
    ;
    lemma_congruent_products(rr, di, a1, a1);
    lemma_congruent_products(rr, di, a2, a2);
    assert(di * a1 == x * (fi * gi)) by (nonlinear_arith)
        requires
            a1 == -(4 * ((x * c) * t)),
            fi == -(2 * c),
            gi == 2 * c,
            c == di * t,
    ;
    assert(di * a2 == (-y) * (fi * gi)) by (nonlinear_arith)
        requires
            a2 == 4 * ((y * c) * t),
            fi == -(2 * c),
            gi == 2 * c,
            c == di * t,
    ;
    lemma_congruent_reduced(field_mul(field_mul(e, f), q.z), field_mul(q.x, field_mul(f, g)));
    lemma_congruent_reduced(field_mul(field_mul(g, h), q.z), field_mul(q.y, field_mul(f, g)));
}

/// A point and the same point moved back by the point of order four,
/// `(-X : Y : r*T : -Z/r)`, are equal as group elements.
pub proof fn lemma_translate_back_equal(p: ExtendedCoords)
    requires
        extended_reduced(p),
    ensures
        coset_eq(p, other_member(translate(p))),
        coset_eq(other_member(translate(p)), p),
{
    let q = other_member(translate(p));
    lemma_translate_equal(p);
    lemma_field_neg_neg(p.y);
    lemma_field_mul_neg(p.y, p.x);
    lemma_field_mul_comm(p.x, p.y);
    lemma_coset_eq_symmetric(p, q);
}

/// A point is held equal to its negative `(-X : Y : Z : -T)` only
/// where `2*X*Y` and `2*Z*T` are both zero or `Z^2 = d*T^2`: elsewhere
/// the two lie in different cosets and the test tells them apart.
pub proof fn lemma_negative_equal_only(p: ExtendedCoords)
    requires
        coset_eq(p, extended_neg(p)),
    ensures
        ({
            ||| (field_mul(2, field_mul(p.x, p.y)) == 0 && field_mul(2, field_mul(p.z, p.t)) == 0)
            ||| field_square(p.z) == field_mul(curve_d(), field_square(p.t))
        }),
{
    let n = extended_neg(p);
    let d = curve_d();
    let xy = field_mul(p.x, p.y);
    let zt = field_mul(p.z, p.t);
    lemma_field_mul_neg(p.y, p.x);
    lemma_field_mul_neg(p.z, p.t);
    lemma_field_mul_comm(p.x, p.y);
    lemma_field_mul_comm(p.z, p.t);
    if xy == field_mul(p.y, n.x) && field_mul(p.z, n.t) == field_mul(p.t, n.z) {
        lemma_congruent_neg(xy, xy as int);
        lemma_congruent_neg(zt, zt as int);
        lemma_congruent_sums(xy as int, xy as int, xy as int, -(xy as int));
        lemma_congruent_sums(zt as int, zt as int, zt as int, -(zt as int));
        lemma_congruent_mul(2, 2, xy, xy as int);
        lemma_congruent_mul(2, 2, zt, zt as int);
        lemma_congruent_reduced(field_mul(2, xy), 0);
        lemma_congruent_reduced(field_mul(2, zt), 0);
    } else {
        let tt = field_square(p.t);
        lemma_field_mul_neg(p.t, p.t);
        lemma_field_mul_neg(d, tt);
        lemma_field_neg_neg(field_mul(d, tt));
    }
}

} // verus!

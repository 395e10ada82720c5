use ristretto448::constants::twisted_d;
use ristretto448::constants::twisted_edwards_base_point;
use ristretto448::curve::twedwards::affine::AffineNielsPoint;
use ristretto448::curve::twedwards::affine::AffinePoint;
use ristretto448::curve::twedwards::extensible::ExtensiblePoint;
use ristretto448::field::element::FieldElement;

fn point(x: [u32; 16], y: [u32; 16]) -> AffinePoint {
    AffinePoint { x: FieldElement::from_raw_slice(x), y: FieldElement::from_raw_slice(y) }
}

fn base() -> AffinePoint {
    point([
        0x00000000, 0x00000000, 0x00000000, 0x00000000,
        0x00000000, 0x00000000, 0x00000000, 0x08000000,
        0x0ffffffe, 0x0fffffff, 0x0fffffff, 0x0fffffff,
        0x0fffffff, 0x0fffffff, 0x0fffffff, 0x07ffffff,
    ], [
        0x0fdd4a64, 0x06079b4d, 0x0470a1c8, 0x00c1e3ab,
        0x08e5199b, 0x044d73f4, 0x04141818, 0x05045271,
        0x03d5242c, 0x04c74c39, 0x06437050, 0x02408052,
        0x013078ca, 0x0d48d06c, 0x04f04286, 0x08508de1,
    ])
}

fn base_times_2() -> AffinePoint {
    point([
        0x0005128a, 0x034e32ee, 0x0e0e9971, 0x0c4a9487,
        0x069de751, 0x0fadc4e7, 0x0550d150, 0x0ca611cb,
        0x02bce16e, 0x0f8ea62e, 0x0cc736a2, 0x0d9bd95c,
        0x03b324d1, 0x00c337f9, 0x02d1810b, 0x074e9dd5,
    ], [
        0x07437683, 0x07cfbaef, 0x0df28d32, 0x0995ad15,
        0x0e02191d, 0x05cec07c, 0x03f1e831, 0x015f74e7,
        0x045ef70f, 0x0c5a69d0, 0x0d7069c9, 0x0be15209,
        0x04353384, 0x097f2293, 0x0284cf43, 0x05e450dc,
    ])
}

fn base_times_3() -> AffinePoint {
    point([
        0x0ca5ec33, 0x03d9a138, 0x0df60a21, 0x05f7f210,
        0x06961ce8, 0x057d58d0, 0x07febe3f, 0x096ea76d,
        0x0746ac90, 0x0b2c76b1, 0x08dfe254, 0x0288d0d8,
        0x00bea5a0, 0x0021a615, 0x0623eac9, 0x01868374,
    ], [
        0x0702fd9e, 0x0dadc0ca, 0x0b343ae6, 0x063ab46b,
        0x0e63072d, 0x0415a946, 0x08b3cd1a, 0x04b1d2e1,
        0x024689da, 0x0cc8367c, 0x04596e1e, 0x0291a9cb,
        0x0a6c67d3, 0x0aa2d353, 0x03867273, 0x0bd6764f,
    ])
}

fn base_times_5() -> AffinePoint {
    point([
        0x02a538ee, 0x0320a761, 0x004dec61, 0x0d94f60a,
        0x0eaaa73b, 0x0c5a9eb0, 0x062c2860, 0x0cfa0ae9,
        0x04bc401e, 0x0f6587e6, 0x00a5f163, 0x0e46e184,
        0x05ee03d0, 0x04e6fee8, 0x0bc97d68, 0x03395a9b,
    ], [
        0x00242cf7, 0x04be5ffd, 0x0056cdb9, 0x03943eaa,
        0x0eead966, 0x022e917f, 0x07b62545, 0x0ff54d2a,
        0x0468edb5, 0x0f10397f, 0x019fd676, 0x053be669,
        0x0c763403, 0x076b8d42, 0x0968990a, 0x06bd98c8,
    ])
}

#[test]
fn test_to_extensible() {
    let a = AffinePoint {
        x: FieldElement::from_raw_slice([
            0x034365c8, 0x06b2a874, 0x0eb875d7, 0x0ae4c7a7, 0x0785df04, 0x09929351, 0x01fe8c3b,
            0x0f2a0e5f, 0x0111d39c, 0x07ab52ba, 0x01df4552, 0x01d87566, 0x0f297be2, 0x027c090f,
            0x0a81b155, 0x0d1a562b,
        ]),
        y: FieldElement::from_raw_slice([
            0x00da9708, 0x0e7d583e, 0x0dbcc099, 0x0d2dad89, 0x05a49ce4, 0x01cb4ddc, 0x0928d395,
            0x0098d91d, 0x0bff16ce, 0x06f02f9a, 0x0ce27cc1, 0x0dab5783, 0x0b553d94, 0x03251a0c,
            0x064d70fb, 0x07fe3a2f,
        ]),
    };

    let expected_b = ExtensiblePoint {
        X: FieldElement::from_raw_slice([
            0x034365c8, 0x06b2a874, 0x0eb875d7, 0x0ae4c7a7, 0x0785df04, 0x09929351, 0x01fe8c3b,
            0x0f2a0e5f, 0x0111d39c, 0x07ab52ba, 0x01df4552, 0x01d87566, 0x0f297be2, 0x027c090f,
            0x0a81b155, 0x0d1a562b,
        ]),
        Y: FieldElement::from_raw_slice([
            0x00da9708, 0x0e7d583e, 0x0dbcc099, 0x0d2dad89, 0x05a49ce4, 0x01cb4ddc, 0x0928d395,
            0x0098d91d, 0x0bff16ce, 0x06f02f9a, 0x0ce27cc1, 0x0dab5783, 0x0b553d94, 0x03251a0c,
            0x064d70fb, 0x07fe3a2f,
        ]),
        Z: FieldElement::one(),
        T1: FieldElement::from_raw_slice([
            0x034365c8, 0x06b2a874, 0x0eb875d7, 0x0ae4c7a7, 0x0785df04, 0x09929351, 0x01fe8c3b,
            0x0f2a0e5f, 0x0111d39c, 0x07ab52ba, 0x01df4552, 0x01d87566, 0x0f297be2, 0x027c090f,
            0x0a81b155, 0x0d1a562b,
        ]),
        T2: FieldElement::from_raw_slice([
            0x00da9708, 0x0e7d583e, 0x0dbcc099, 0x0d2dad89, 0x05a49ce4, 0x01cb4ddc, 0x0928d395,
            0x0098d91d, 0x0bff16ce, 0x06f02f9a, 0x0ce27cc1, 0x0dab5783, 0x0b553d94, 0x03251a0c,
            0x064d70fb, 0x07fe3a2f,
        ]),
    };

    let b = a.to_extensible();
    assert!(b == expected_b);
}

#[test]
fn test_negation() {
    let a = twisted_edwards_base_point().to_affine();
    assert!(a.is_on_curve());

    let neg_a = a.negate();
    let got = neg_a.add(&a);
    assert!(got == AffinePoint::identity());
}

#[test]
fn to_extensible_keeps_each_coordinate() {
    let a = base_times_3();
    let b = a.to_extensible();
    assert_eq!(b.X, a.x);
    assert_eq!(b.Y, a.y);
    assert_eq!(b.Z, FieldElement::one());
    assert_eq!(b.T1, a.x);
    assert_eq!(b.T2, a.y);
}

#[test]
fn to_extended_has_unit_z_and_product_t() {
    let a = base();
    let e = a.to_extended();
    assert_eq!(e.X, a.x);
    assert_eq!(e.Y, a.y);
    assert_eq!(e.Z, FieldElement::one());
    assert_eq!(e.T, FieldElement::from_raw_slice([
        0x0c198105, 0x0e3c816d, 0x03f4e093, 0x06207183,
        0x03421403, 0x04dde98e, 0x0519c985, 0x0a319b57,
        0x06382384, 0x0794be95, 0x086da60f, 0x0e1ddc2b,
        0x0682a9ff, 0x050e23d5, 0x0173c6a4, 0x06d3669e,
    ]));
    assert_eq!(e.T, a.x.mul(&a.y));
    let lifted = a.to_extensible().to_extended();
    assert_eq!(lifted.X, e.X);
    assert_eq!(lifted.Y, e.Y);
    assert_eq!(lifted.Z, e.Z);
    assert_eq!(lifted.T, e.T);
}

#[test]
fn affine_identity_is_zero_one() {
    let id = AffinePoint::identity();
    assert!(id.x.is_zero());
    assert_eq!(id.y, FieldElement::one());
    assert!(id.is_on_curve());
    assert!(AffinePoint::default() == id);
}

#[test]
fn curve_parameter_is_minus_39082() {
    assert_eq!(twisted_d(), FieldElement::from_raw_slice([
        0x0fff6755, 0x0fffffff, 0x0fffffff, 0x0fffffff,
        0x0fffffff, 0x0fffffff, 0x0fffffff, 0x0fffffff,
        0x0ffffffe, 0x0fffffff, 0x0fffffff, 0x0fffffff,
        0x0fffffff, 0x0fffffff, 0x0fffffff, 0x0fffffff,
    ]));
    assert_eq!(twisted_d().add(&FieldElement::from_u32(39082)), FieldElement::zero());
}

#[test]
fn base_point_and_multiples_are_on_the_curve() {
    assert!(base().is_on_curve());
    assert!(base_times_2().is_on_curve());
    assert!(base_times_3().is_on_curve());
    assert!(base_times_5().is_on_curve());
    assert!(twisted_edwards_base_point().to_affine() == base());
}

#[test]
fn off_curve_point_is_not_on_the_curve() {
    let mut p = base();
    p.y = p.y.add(&FieldElement::one());
    assert!(!p.is_on_curve());
    let q = AffinePoint { x: FieldElement::one(), y: FieldElement::one() };
    assert!(!q.is_on_curve());
}

#[test]
fn negation_is_an_involution() {
    let p = base_times_3();
    let n = p.negate();
    assert!(n.is_on_curve());
    assert_eq!(n.x, p.x.negate());
    assert_eq!(n.y, p.y);
    assert!(n != p);
    assert!(n.negate() == p);
}

#[test]
fn affine_add_exact() {
    assert!(base().add(&base()) == base_times_2());
    assert!(base_times_2().add(&base()) == base_times_3());
    assert!(base_times_2().add(&base_times_3()) == base_times_5());
}

#[test]
fn affine_add_is_commutative() {
    let p = base_times_2();
    let q = base_times_5();
    assert!(p.add(&q) == q.add(&p));
    assert!(p.add(&q).is_on_curve());
}

#[test]
fn affine_add_is_associative() {
    let p = base();
    let q = base_times_2();
    let r = base_times_3();
    let left = p.add(&q).add(&r);
    let right = p.add(&q.add(&r));
    assert!(left == right);
    assert!(left == point([
        0x08ae4fe5, 0x07afa3c9, 0x016341e7, 0x09410e2c,
        0x0ec13419, 0x05bf4f95, 0x0894f4ca, 0x017aac74,
        0x0323270e, 0x0a78513c, 0x04a37eac, 0x0968f1ba,
        0x024ab0d9, 0x0da0c63c, 0x04b77bec, 0x090e9b61,
    ], [
        0x0b76b25d, 0x079f31c7, 0x06c85187, 0x0b998bb5,
        0x069b8612, 0x0438acdf, 0x064b4ddc, 0x08c8066e,
        0x09715a3f, 0x05c11ddd, 0x0922dd72, 0x0ecb117d,
        0x02d37dad, 0x03afeb74, 0x038043f8, 0x051c5274,
    ]));
}

#[test]
fn identity_is_neutral() {
    let p = base_times_5();
    assert!(AffinePoint::identity().add(&p) == p);
    assert!(p.add(&AffinePoint::identity()) == p);
}

#[test]
fn negative_adds_to_identity() {
    for p in [base(), base_times_2(), base_times_3(), base_times_5()] {
        assert!(p.negate().add(&p) == AffinePoint::identity());
        assert!(p.add(&p.negate()) == AffinePoint::identity());
    }
}

#[test]
fn to_affine_niels_exact() {
    let n = base().to_affine_niels();
    assert_eq!(n.y_plus_x, FieldElement::from_raw_slice([
        0x0fdd4a65, 0x06079b4d, 0x0470a1c8, 0x00c1e3ab,
        0x08e5199b, 0x044d73f4, 0x04141818, 0x0d045271,
        0x03d5242b, 0x04c74c39, 0x06437050, 0x02408052,
        0x013078ca, 0x0d48d06c, 0x04f04286, 0x00508de1,
    ]));
    assert_eq!(n.y_minus_x, FieldElement::from_raw_slice([
        0x0fdd4a64, 0x06079b4d, 0x0470a1c8, 0x00c1e3ab,
        0x08e5199b, 0x044d73f4, 0x04141818, 0x0d045271,
        0x03d5242d, 0x04c74c39, 0x06437050, 0x02408052,
        0x013078ca, 0x0d48d06c, 0x04f04286, 0x00508de1,
    ]));
    assert_eq!(n.td, FieldElement::from_raw_slice([
        0x0275198d, 0x0ef8e22b, 0x0a0b0e8b, 0x0b0eb141,
        0x0a3cb38c, 0x01f6789d, 0x0d39073e, 0x06d2ff8e,
        0x09a167f3, 0x0610bdb6, 0x0c9689b4, 0x0571f306,
        0x084b2df8, 0x0f557e6f, 0x0b2c86db, 0x02affd38,
    ]));
}

#[test]
fn niels_identity_is_one_one_zero() {
    let n = AffineNielsPoint::identity();
    assert_eq!(n.y_plus_x, FieldElement::one());
    assert_eq!(n.y_minus_x, FieldElement::one());
    assert!(n.td.is_zero());
    assert!(n.equals(&AffinePoint::identity().to_affine_niels()));
}

#[test]
fn niels_equals_compares_every_component() {
    let n = base().to_affine_niels();
    assert!(n.equals(&base().to_affine_niels()));
    assert!(!n.equals(&base_times_2().to_affine_niels()));
    let mut m = n;
    m.td = m.td.add(&FieldElement::one());
    assert!(!n.equals(&m));
    let mut m = n;
    m.y_plus_x = m.y_plus_x.add(&FieldElement::one());
    assert!(!n.equals(&m));
    let mut m = n;
    m.y_minus_x = m.y_minus_x.add(&FieldElement::one());
    assert!(!n.equals(&m));
}

#[test]
fn niels_conditional_select_picks_by_choice() {
    let a = base().to_affine_niels();
    let b = base_times_2().to_affine_niels();
    assert!(AffineNielsPoint::conditional_select(&a, &b, false).equals(&a));
    assert!(AffineNielsPoint::conditional_select(&a, &b, true).equals(&b));
}

#[test]
fn niels_to_extended_exact() {
    let p = base();
    let e = p.to_affine_niels().to_extended();
    let two = FieldElement::from_u32(2);
    assert_eq!(e.X, two.mul(&p.x));
    assert_eq!(e.Y, two.mul(&p.y));
    assert_eq!(e.Z, FieldElement::one());
    assert_eq!(e.T, p.y.square().sub(&p.x.square()));
    let id = AffineNielsPoint::identity().to_extended();
    assert!(id.X.is_zero());
    assert_eq!(id.Y, two);
    assert_eq!(id.Z, FieldElement::one());
    assert_eq!(id.T, FieldElement::one());
}

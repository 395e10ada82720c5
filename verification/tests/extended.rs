use ristretto448::curve::twedwards::affine::AffinePoint;
use ristretto448::curve::twedwards::extended::ExtendedPoint;
use ristretto448::curve::twedwards::extensible::ExtensiblePoint;
use ristretto448::field::element::FieldElement;

fn fe(limbs: [u32; 16]) -> FieldElement {
    FieldElement::from_raw_slice(limbs)
}

fn affine(x: [u32; 16], y: [u32; 16]) -> AffinePoint {
    AffinePoint { x: fe(x), y: fe(y) }
}

fn g1() -> AffinePoint {
    affine([
        0x00000000, 0x00000000, 0x00000000, 0x00000000,
        0x00000000, 0x00000000, 0x00000000, 0x08000000,
        0x0ffffffe, 0x0fffffff, 0x0fffffff, 0x0fffffff,
        0x0fffffff, 0x0fffffff, 0x0fffffff, 0x07ffffff,
    ], [
        0x0fdd4a64, 0x06079b4d, 0x0470a1c8, 0x00c1e3ab,
        0x08e5199b, 0x044d73f4, 0x04141818, 0x05045271,
        0x03d5242c, 0x04c74c39, 0x06437050, 0x02408052,
        0x013078ca, 0x0d48d06c, 0x04f04286, 0x08508de1,
    ])
}

fn g2() -> AffinePoint {
    affine([
        0x0005128a, 0x034e32ee, 0x0e0e9971, 0x0c4a9487,
        0x069de751, 0x0fadc4e7, 0x0550d150, 0x0ca611cb,
        0x02bce16e, 0x0f8ea62e, 0x0cc736a2, 0x0d9bd95c,
        0x03b324d1, 0x00c337f9, 0x02d1810b, 0x074e9dd5,
    ], [
        0x07437683, 0x07cfbaef, 0x0df28d32, 0x0995ad15,
        0x0e02191d, 0x05cec07c, 0x03f1e831, 0x015f74e7,
        0x045ef70f, 0x0c5a69d0, 0x0d7069c9, 0x0be15209,
        0x04353384, 0x097f2293, 0x0284cf43, 0x05e450dc,
    ])
}

fn g3() -> AffinePoint {
    affine([
        0x0ca5ec33, 0x03d9a138, 0x0df60a21, 0x05f7f210,
        0x06961ce8, 0x057d58d0, 0x07febe3f, 0x096ea76d,
        0x0746ac90, 0x0b2c76b1, 0x08dfe254, 0x0288d0d8,
        0x00bea5a0, 0x0021a615, 0x0623eac9, 0x01868374,
    ], [
        0x0702fd9e, 0x0dadc0ca, 0x0b343ae6, 0x063ab46b,
        0x0e63072d, 0x0415a946, 0x08b3cd1a, 0x04b1d2e1,
        0x024689da, 0x0cc8367c, 0x04596e1e, 0x0291a9cb,
        0x0a6c67d3, 0x0aa2d353, 0x03867273, 0x0bd6764f,
    ])
}

fn scaled(p: &ExtendedPoint, k: &FieldElement) -> ExtendedPoint {
    ExtendedPoint { X: p.X.mul(k), Y: p.Y.mul(k), Z: p.Z.mul(k), T: p.T.mul(k) }
}

fn lambda() -> FieldElement {
    fe([
        0x034365c8, 0x06b2a874, 0x0eb875d7, 0x0ae4c7a7,
        0x0785df04, 0x09929351, 0x01fe8c3b, 0x0f2a0e5f,
        0x0111d39c, 0x07ab52ba, 0x01df4552, 0x01d87566,
        0x0f297be2, 0x027c090f, 0x0a81b155, 0x0d1a562b,
    ])
}

#[test]
fn extended_identity_exact() {
    let id = ExtendedPoint::identity();
    assert!(id.X.is_zero());
    assert_eq!(id.Y, FieldElement::one());
    assert_eq!(id.Z, FieldElement::one());
    assert!(id.T.is_zero());
    assert!(id.is_on_curve());
    assert!(id.to_affine() == AffinePoint::identity());
}

#[test]
fn extensible_identity_exact() {
    let id = ExtensiblePoint::identity();
    assert!(id.X.is_zero());
    assert_eq!(id.Y, FieldElement::one());
    assert_eq!(id.Z, FieldElement::one());
    assert!(id.T1.is_zero());
    assert_eq!(id.T2, FieldElement::one());
    assert!(id.to_extended() == ExtendedPoint::identity());
}

#[test]
fn generator_exact() {
    let g = ExtendedPoint::generator();
    assert_eq!(g.X, g1().x);
    assert_eq!(g.Y, g1().y);
    assert_eq!(g.Z, FieldElement::one());
    assert_eq!(g.T, fe([
        0x0c198105, 0x0e3c816d, 0x03f4e093, 0x06207183,
        0x03421403, 0x04dde98e, 0x0519c985, 0x0a319b57,
        0x06382384, 0x0794be95, 0x086da60f, 0x0e1ddc2b,
        0x0682a9ff, 0x050e23d5, 0x0173c6a4, 0x06d3669e,
    ]));
    assert!(g.is_on_curve());
}

#[test]
fn extensible_double_exact() {
    let d = g1().to_extensible().double();
    assert_eq!(d.X, fe([
        0x09edb7e3, 0x0cfd17e9, 0x0981d848, 0x0f7bb58b,
        0x0b9f1318, 0x094ba5fd, 0x01b4eaf5, 0x02363182,
        0x0ef2b597, 0x0d3667c1, 0x088d141a, 0x021a4f8f,
        0x077a2f79, 0x089bf72c, 0x0c503a37, 0x05152eaf,
    ]));
    assert_eq!(d.Y, fe([
        0x0008b840, 0x0bd075f6, 0x0dadc7ca, 0x0bc7481a,
        0x0c6a67d5, 0x0ba1517b, 0x0dfe1795, 0x04074a86,
        0x044eb783, 0x0aea9be5, 0x0d1398c3, 0x0b77f640,
        0x07ddc2c2, 0x044e376e, 0x0c215ca7, 0x0cad52cc,
    ]));
    assert_eq!(d.Z, fe([
        0x00051d3b, 0x07fd742c, 0x07bf67f5, 0x08a5d98f,
        0x0b320d68, 0x0f6552d7, 0x03d57f5e, 0x0dc238c3,
        0x0365627b, 0x09cfbdd2, 0x095eace4, 0x0727fe6d,
        0x041f2066, 0x047040b0, 0x050c789a, 0x0853b8d3,
    ]));
    assert_eq!(d.T1, fe([
        0x0833020a, 0x0c7902db, 0x07e9c127, 0x0c40e306,
        0x06842806, 0x09bbd31c, 0x0a33930a, 0x046336ae,
        0x0c704709, 0x0f297d2a, 0x00db4c1e, 0x0c3bb857,
        0x0d0553ff, 0x0a1c47aa, 0x02e78d48, 0x0da6cd3c,
    ]));
    assert_eq!(d.T2, fe([
        0x03914be5, 0x07f4deb2, 0x068a0a9c, 0x02c2eb09,
        0x08cd6f63, 0x0ee50812, 0x022f0519, 0x0dbb00bb,
        0x070b93ff, 0x06624cd3, 0x016eba25, 0x0b3ffd7c,
        0x07ff4eec, 0x0c9c1ab1, 0x0aedbd9c, 0x03c757ea,
    ]));
}

#[test]
fn extended_add_exact() {
    let s = g2().to_extended().add(&g1().to_extended());
    assert_eq!(s.X, fe([
        0x00680239, 0x0c051c2f, 0x043693b8, 0x00680829,
        0x09d1eefa, 0x042f34e9, 0x05b66ae6, 0x0833ec50,
        0x0b20935a, 0x0b37ddb8, 0x0633afe4, 0x0d3d2602,
        0x0b71af4e, 0x06edbf16, 0x0212f4ea, 0x04fdb866,
    ]));
    assert_eq!(s.Y, fe([
        0x0853cb14, 0x0b503384, 0x09a4b4d9, 0x0aee4eb2,
        0x09c54443, 0x05b2bf36, 0x0bbcbd08, 0x09a9f60f,
        0x00106868, 0x074e330f, 0x0b3f03be, 0x0acb5bed,
        0x0fd78fba, 0x019dc8dd, 0x028ce6ff, 0x063e4e04,
    ]));
    assert_eq!(s.Z, fe([
        0x0a0b4889, 0x0fe6941a, 0x0b993b62, 0x099c40d3,
        0x0bb5bd69, 0x03fcd41e, 0x01b897f0, 0x02bf9a39,
        0x04ef35b7, 0x07d21fd0, 0x0fb988e3, 0x021b4acd,
        0x02d32116, 0x08053dc1, 0x09417d76, 0x00bea1a5,
    ]));
    assert_eq!(s.T, fe([
        0x0abb2b3f, 0x043c9502, 0x0db0276e, 0x0005a6e0,
        0x0c4c3894, 0x086f0936, 0x0f7f7a23, 0x09b1644a,
        0x0b645a53, 0x0d42a50a, 0x0d056bd2, 0x0440f346,
        0x08b2a943, 0x08c76723, 0x0ddb9e63, 0x076d50cb,
    ]));
}

#[test]
fn extended_add_matches_affine_add() {
    let k = lambda();
    let p = scaled(&g2().to_extended(), &k);
    let q = scaled(&g3().to_extended(), &k.square());
    let sum = p.add(&q);
    assert!(sum.is_on_curve());
    assert!(sum.to_affine() == g2().add(&g3()));
    assert!(sum == q.add(&p));
    assert!(p.add(&ExtendedPoint::identity()) == p);
}

#[test]
fn extended_double_matches_affine_add() {
    let p = scaled(&g3().to_extended(), &lambda());
    let d = p.double();
    assert!(d.is_on_curve());
    assert!(d.to_affine() == g3().add(&g3()));
    assert!(d == p.add(&p));
    assert!(ExtendedPoint::identity().double() == ExtendedPoint::identity());
}

#[test]
fn mixed_add_matches_affine_add() {
    let p = scaled(&g2().to_extended(), &lambda()).to_extensible();
    let n = g1().to_affine_niels();
    let sum = p.add_affine_niels(&n).to_extended();
    assert!(sum.is_on_curve());
    assert!(sum.to_affine() == g3());
    assert!(sum == p.add_extended(&g1().to_extended()).to_extended());
}

#[test]
fn extended_equality_compares_affine_images() {
    let p = g3().to_extended();
    let q = scaled(&p, &lambda());
    assert!(p.X != q.X);
    assert!(p == q);
    assert!(q.is_on_curve());
    assert!(p != g2().to_extended());
    let mut r = p;
    r.Y = r.Y.negate();
    assert!(p != r);
    assert!(p.to_extensible() == q.to_extensible());
    assert!(p.to_extensible() != g2().to_extensible());
}

#[test]
fn extended_negate_exact() {
    let p = scaled(&g2().to_extended(), &lambda());
    let n = p.negate();
    assert_eq!(n.X, p.X.negate());
    assert_eq!(n.Y, p.Y);
    assert_eq!(n.Z, p.Z);
    assert_eq!(n.T, p.T.negate());
    assert!(n.is_on_curve());
    assert!(n.to_affine() == g2().negate());
    assert!(n.add(&p) == ExtendedPoint::identity());
}

#[test]
fn extended_conversions_keep_the_point() {
    let p = scaled(&g3().to_extended(), &lambda());
    let e = p.to_extensible();
    assert_eq!(e.X, p.X);
    assert_eq!(e.Y, p.Y);
    assert_eq!(e.Z, p.Z);
    assert_eq!(e.T1, p.T);
    assert_eq!(e.T2, FieldElement::one());
    let back = e.to_extended();
    assert_eq!(back.T, p.T);
    assert!(p.to_affine() == g3());
}

#[test]
fn extended_validity_is_checked() {
    let p = g2().to_extended();
    assert!(p.is_on_curve());
    let mut bad_t = p;
    bad_t.T = bad_t.T.add(&FieldElement::one());
    assert!(!bad_t.is_on_curve());
    let mut bad_y = p;
    bad_y.Y = bad_y.Y.add(&FieldElement::one());
    assert!(!bad_y.is_on_curve());
    let zero_z = ExtendedPoint {
        X: FieldElement::zero(),
        Y: FieldElement::zero(),
        Z: FieldElement::zero(),
        T: FieldElement::zero(),
    };
    assert!(!zero_z.is_on_curve());
}

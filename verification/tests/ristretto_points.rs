use ristretto448::constants::inv_sqrt_d;
use ristretto448::constants::sqrt_d;
use ristretto448::constants::twisted_d;
use ristretto448::curve::twedwards::affine::AffinePoint;
use ristretto448::curve::twedwards::extended::ExtendedPoint;
use ristretto448::field::element::FieldElement;
use ristretto448::ristretto::points::CompressedRistretto;
use ristretto448::ristretto::points::RistrettoPoint;

fn fe(limbs: [u32; 16]) -> FieldElement {
    FieldElement::from_raw_slice(limbs)
}

fn lift(x: [u32; 16], y: [u32; 16]) -> ExtendedPoint {
    AffinePoint { x: fe(x), y: fe(y) }.to_extended()
}

fn scaled(p: &ExtendedPoint, k: &FieldElement) -> ExtendedPoint {
    ExtendedPoint { X: p.X.mul(k), Y: p.Y.mul(k), Z: p.Z.mul(k), T: p.T.mul(k) }
}

fn lambda() -> FieldElement {
    fe([
        0x034365c8, 0x06b2a874, 0x0eb875d7, 0x0ae4c7a7,
        0x0785df04, 0x09929351, 0x01fe8c3b, 0x0f2a0e5f,
        0x0111d39c, 0x07ab52ba, 0x01df4552, 0x01d87566,
        0x0f297be2, 0x027c090f, 0x0a81b155, 0x0d1a562b,
    ])
}

fn other_member(p: &ExtendedPoint) -> ExtendedPoint {
    ExtendedPoint { X: p.X.negate(), Y: p.Y.negate(), Z: p.Z, T: p.T }
}

fn translate(p: &ExtendedPoint) -> ExtendedPoint {
    ExtendedPoint {
        X: p.X,
        Y: p.Y.negate(),
        Z: sqrt_d().mul(&p.T),
        T: inv_sqrt_d().mul(&p.Z).negate(),
    }
}

fn order_four_point() -> ExtendedPoint {
    ExtendedPoint {
        X: FieldElement::zero(),
        Y: sqrt_d(),
        Z: FieldElement::zero(),
        T: FieldElement::one(),
    }
}

fn reflected(p: &ExtendedPoint) -> ExtendedPoint {
    let r = sqrt_d();
    ExtendedPoint { X: p.X.mul(&r), Y: p.Y.mul(&r), Z: twisted_d().mul(&p.T), T: p.Z }
}

fn small(x: u8) -> CompressedRistretto {
    let mut b = [0u8; 56];
    b[0] = x;
    CompressedRistretto(b)
}

fn samples() -> Vec<(ExtendedPoint, [u8; 56])> {
    vec![
        (ExtendedPoint::identity(), [0u8; 56]),
        (ExtendedPoint::generator(), [
        0x00, 0x00, 0x00, 0x00, 0x00, 0x00, 0x00, 0x00, 0x00, 0x00, 0x00, 0x00, 0x00, 0x00,
        0x00, 0x00, 0x00, 0x00, 0x00, 0x00, 0x00, 0x00, 0x00, 0x00, 0x00, 0x00, 0x00, 0x00,
        0xfd, 0xff, 0xff, 0xff, 0xff, 0xff, 0xff, 0xff, 0xff, 0xff, 0xff, 0xff, 0xff, 0xff,
        0xff, 0xff, 0xff, 0xff, 0xff, 0xff, 0xff, 0xff, 0xff, 0xff, 0xff, 0xff, 0xff, 0xff,
    ]),
        (lift([
        0x0005128a, 0x034e32ee, 0x0e0e9971, 0x0c4a9487,
        0x069de751, 0x0fadc4e7, 0x0550d150, 0x0ca611cb,
        0x02bce16e, 0x0f8ea62e, 0x0cc736a2, 0x0d9bd95c,
        0x03b324d1, 0x00c337f9, 0x02d1810b, 0x074e9dd5,
    ], [
        0x07437683, 0x07cfbaef, 0x0df28d32, 0x0995ad15,
        0x0e02191d, 0x05cec07c, 0x03f1e831, 0x015f74e7,
        0x045ef70f, 0x0c5a69d0, 0x0d7069c9, 0x0be15209,
        0x04353384, 0x097f2293, 0x0284cf43, 0x05e450dc,
    ]), [
        0x42, 0xf2, 0x74, 0x70, 0xda, 0x42, 0xa7, 0x9e, 0x94, 0x9f, 0x08, 0x1c, 0x64, 0x90,
        0x41, 0x6c, 0x6d, 0x96, 0x85, 0xf0, 0x82, 0x8a, 0x55, 0xcf, 0x93, 0x54, 0xd4, 0x0b,
        0xd0, 0x47, 0xbf, 0xb2, 0x26, 0x1b, 0xc7, 0x69, 0xc4, 0x87, 0x4e, 0xe6, 0xfb, 0x33,
        0x04, 0x32, 0x49, 0x0e, 0x62, 0xde, 0x29, 0x24, 0x7f, 0x8c, 0xc1, 0x47, 0x18, 0x35,
    ]),
        (lift([
        0x0ca5ec33, 0x03d9a138, 0x0df60a21, 0x05f7f210,
        0x06961ce8, 0x057d58d0, 0x07febe3f, 0x096ea76d,
        0x0746ac90, 0x0b2c76b1, 0x08dfe254, 0x0288d0d8,
        0x00bea5a0, 0x0021a615, 0x0623eac9, 0x01868374,
    ], [
        0x0702fd9e, 0x0dadc0ca, 0x0b343ae6, 0x063ab46b,
        0x0e63072d, 0x0415a946, 0x08b3cd1a, 0x04b1d2e1,
        0x024689da, 0x0cc8367c, 0x04596e1e, 0x0291a9cb,
        0x0a6c67d3, 0x0aa2d353, 0x03867273, 0x0bd6764f,
    ]), [
        0xa0, 0xc0, 0x9b, 0xf2, 0xba, 0x72, 0x08, 0xfd, 0xa0, 0xf4, 0xbf, 0xe3, 0xd0, 0xf5,
        0xb2, 0x9a, 0x54, 0x30, 0x12, 0x30, 0x6d, 0x43, 0x83, 0x1b, 0x5a, 0xdc, 0x6f, 0xe7,
        0xf8, 0x59, 0x6f, 0xa3, 0x08, 0x76, 0x3d, 0xb1, 0x54, 0x68, 0x32, 0x3b, 0x11, 0xcf,
        0x6e, 0x4a, 0xeb, 0x8c, 0x18, 0xfe, 0x44, 0x67, 0x8f, 0x44, 0x54, 0x5a, 0x69, 0xbc,
    ]),
        (lift([
        0x02a538ee, 0x0320a761, 0x004dec61, 0x0d94f60a,
        0x0eaaa73b, 0x0c5a9eb0, 0x062c2860, 0x0cfa0ae9,
        0x04bc401e, 0x0f6587e6, 0x00a5f163, 0x0e46e184,
        0x05ee03d0, 0x04e6fee8, 0x0bc97d68, 0x03395a9b,
    ], [
        0x00242cf7, 0x04be5ffd, 0x0056cdb9, 0x03943eaa,
        0x0eead966, 0x022e917f, 0x07b62545, 0x0ff54d2a,
        0x0468edb5, 0x0f10397f, 0x019fd676, 0x053be669,
        0x0c763403, 0x076b8d42, 0x0968990a, 0x06bd98c8,
    ]), [
        0xfa, 0x54, 0xd4, 0x40, 0xbf, 0xdf, 0xdd, 0x51, 0x0e, 0xfc, 0xa1, 0x1d, 0x95, 0xf9,
        0x1c, 0xfe, 0xba, 0x88, 0x26, 0xee, 0xfe, 0x55, 0x3e, 0x9a, 0x61, 0x7b, 0xc2, 0x74,
        0x42, 0x3d, 0x31, 0x53, 0x62, 0xf2, 0x07, 0x78, 0xfd, 0xba, 0x2c, 0x14, 0xad, 0xbe,
        0x94, 0x9b, 0x0a, 0xc3, 0xf6, 0x77, 0x1d, 0x15, 0xf2, 0xed, 0xf3, 0xe2, 0x7c, 0x9a,
    ]),
    ]
}

#[test]
fn identity_encodes_to_zero_bytes() {
    assert_eq!(RistrettoPoint::identity().encode().0, [0u8; 56]);
    assert!(RistrettoPoint::identity().encode() == CompressedRistretto::identity());
    assert_eq!(CompressedRistretto::identity().0, [0u8; 56]);
    assert!(CompressedRistretto::default() == CompressedRistretto::identity());
}

#[test]
fn zero_bytes_decode_to_identity() {
    let p = CompressedRistretto::identity().decode().unwrap();
    assert!(p.equals(&RistrettoPoint::identity()));
    assert!(p.encode() == CompressedRistretto::identity());
}

#[test]
fn generator_encoding_exact() {
    let g = RistrettoPoint::generator();
    assert_eq!(g.encode().0, [
        0x00, 0x00, 0x00, 0x00, 0x00, 0x00, 0x00, 0x00, 0x00, 0x00, 0x00, 0x00, 0x00, 0x00,
        0x00, 0x00, 0x00, 0x00, 0x00, 0x00, 0x00, 0x00, 0x00, 0x00, 0x00, 0x00, 0x00, 0x00,
        0xfd, 0xff, 0xff, 0xff, 0xff, 0xff, 0xff, 0xff, 0xff, 0xff, 0xff, 0xff, 0xff, 0xff,
        0xff, 0xff, 0xff, 0xff, 0xff, 0xff, 0xff, 0xff, 0xff, 0xff, 0xff, 0xff, 0xff, 0xff,
    ]);
    assert!(g.equals(&RistrettoPoint::from_extended(ExtendedPoint::generator())));
}

#[test]
fn encoding_exact_for_multiples() {
    for (p, bytes) in samples() {
        assert_eq!(RistrettoPoint::from_extended(p).encode().0, bytes);
    }
}

#[test]
fn decoding_exact() {
    let p = CompressedRistretto([
        0xa0, 0xc0, 0x9b, 0xf2, 0xba, 0x72, 0x08, 0xfd, 0xa0, 0xf4, 0xbf, 0xe3, 0xd0, 0xf5,
        0xb2, 0x9a, 0x54, 0x30, 0x12, 0x30, 0x6d, 0x43, 0x83, 0x1b, 0x5a, 0xdc, 0x6f, 0xe7,
        0xf8, 0x59, 0x6f, 0xa3, 0x08, 0x76, 0x3d, 0xb1, 0x54, 0x68, 0x32, 0x3b, 0x11, 0xcf,
        0x6e, 0x4a, 0xeb, 0x8c, 0x18, 0xfe, 0x44, 0x67, 0x8f, 0x44, 0x54, 0x5a, 0x69, 0xbc,
    ]).decode().unwrap();
    let expected = lift([
        0x035a13cc, 0x0c265ec7, 0x0209f5de, 0x0a080def,
        0x0969e317, 0x0a82a72f, 0x080141c0, 0x06915892,
        0x08b9536e, 0x04d3894e, 0x07201dab, 0x0d772f27,
        0x0f415a5f, 0x0fde59ea, 0x09dc1536, 0x0e797c8b,
    ], [
        0x08fd0261, 0x02523f35, 0x04cbc519, 0x09c54b94,
        0x019cf8d2, 0x0bea56b9, 0x074c32e5, 0x0b4e2d1e,
        0x0db97624, 0x0337c983, 0x0ba691e1, 0x0d6e5634,
        0x0593982c, 0x055d2cac, 0x0c798d8c, 0x042989b0,
    ]);
    assert!(p.equals(&RistrettoPoint::from_extended(expected)));
    assert_eq!(p.encode().0, [
        0xa0, 0xc0, 0x9b, 0xf2, 0xba, 0x72, 0x08, 0xfd, 0xa0, 0xf4, 0xbf, 0xe3, 0xd0, 0xf5,
        0xb2, 0x9a, 0x54, 0x30, 0x12, 0x30, 0x6d, 0x43, 0x83, 0x1b, 0x5a, 0xdc, 0x6f, 0xe7,
        0xf8, 0x59, 0x6f, 0xa3, 0x08, 0x76, 0x3d, 0xb1, 0x54, 0x68, 0x32, 0x3b, 0x11, 0xcf,
        0x6e, 0x4a, 0xeb, 0x8c, 0x18, 0xfe, 0x44, 0x67, 0x8f, 0x44, 0x54, 0x5a, 0x69, 0xbc,
    ]);
    let q = small(2).decode().unwrap();
    let expected = lift([
        0x00000001, 0x00000000, 0x00000000, 0x00000000,
        0x00000000, 0x00000000, 0x00000000, 0x00000000,
        0x05555555, 0x05555555, 0x05555555, 0x05555555,
        0x05555555, 0x05555555, 0x05555555, 0x05555555,
    ], [
        0x010158e4, 0x0bc43457, 0x0d084e92, 0x02e879d4,
        0x0eab3197, 0x0a10e77b, 0x07944a44, 0x03600853,
        0x0cbc0be9, 0x07f66021, 0x0781268a, 0x036f433e,
        0x0e46f707, 0x022b9fd4, 0x05a563ed, 0x0726737f,
    ]);
    assert!(expected.is_on_curve());
    assert!(q.equals(&RistrettoPoint::from_extended(expected)));
    assert!(q.encode() == small(2));
}

#[test]
fn round_trip_from_points() {
    for (p, _) in samples() {
        let reps = [
            p,
            scaled(&p, &lambda()),
            other_member(&p),
            translate(&p),
            other_member(&translate(&p)),
            translate(&scaled(&other_member(&p), &lambda())),
            scaled(&translate(&p), &lambda()),
        ];
        for rep in reps {
            let point = RistrettoPoint::from_extended(rep);
            let decoded = point.encode().decode().unwrap();
            assert!(decoded.equals(&point));
            assert!(decoded.equals(&RistrettoPoint::from_extended(p)));
        }
    }
}

#[test]
fn round_trip_from_bytes() {
    for (_, bytes) in samples() {
        let c = CompressedRistretto(bytes);
        assert!(c.decode().unwrap().encode() == c);
    }
}

#[test]
fn encoding_does_not_depend_on_the_representative() {
    for (p, bytes) in samples() {
        let k = lambda();
        assert_eq!(RistrettoPoint::from_extended(scaled(&p, &k)).encode().0, bytes);
        assert_eq!(RistrettoPoint::from_extended(scaled(&p, &k.square())).encode().0, bytes);
        assert_eq!(RistrettoPoint::from_extended(other_member(&p)).encode().0, bytes);
        let both = scaled(&other_member(&p), &k);
        assert_eq!(RistrettoPoint::from_extended(both).encode().0, bytes);
        assert_eq!(RistrettoPoint::from_extended(translate(&p)).encode().0, bytes);
        let back = other_member(&translate(&p));
        assert_eq!(RistrettoPoint::from_extended(back).encode().0, bytes);
        assert_eq!(RistrettoPoint::from_extended(translate(&both)).encode().0, bytes);
        assert_eq!(RistrettoPoint::from_extended(translate(&translate(&p))).encode().0, bytes);
        let rescaled = scaled(&translate(&p), &k);
        assert_eq!(RistrettoPoint::from_extended(rescaled).encode().0, bytes);
    }
}

#[test]
fn identity_coset_members_are_equal() {
    let id = RistrettoPoint::identity();
    let zero = FieldElement::zero();
    let one = FieldElement::one();
    let root_d = fe([
        0x06749f46, 0x0d2e2183, 0x0b4f0179, 0x0888db42,
        0x0bdeea38, 0x05a189aa, 0x06f14c06, 0x051e65ca,
        0x024d9770, 0x0a49f7b4, 0x08c5f656, 0x0dcac462,
        0x0748734a, 0x049443b8, 0x00b25b7a, 0x012fec0c,
    ]);
    let order_two = ExtendedPoint { X: zero, Y: one.negate(), Z: one, T: zero };
    let order_four = ExtendedPoint { X: zero, Y: root_d, Z: zero, T: one };
    let order_four_neg = ExtendedPoint { X: zero, Y: root_d.negate(), Z: zero, T: one };
    let rescaled = ExtendedPoint { X: zero, Y: lambda(), Z: lambda(), T: zero };
    for rep in [order_two, order_four, order_four_neg, rescaled] {
        assert!(rep.Y != ExtendedPoint::identity().Y);
        let p = RistrettoPoint::from_extended(rep);
        assert!(id.equals(&p));
        assert!(p.equals(&id));
        assert_eq!(p.encode().0, [0u8; 56]);
    }
}

#[test]
fn coset_members_are_equal() {
    for (p, _) in samples() {
        let a = RistrettoPoint::from_extended(p);
        let b = RistrettoPoint::from_extended(other_member(&p));
        let c = RistrettoPoint::from_extended(scaled(&other_member(&p), &lambda()));
        let t = RistrettoPoint::from_extended(translate(&p));
        let tu = RistrettoPoint::from_extended(scaled(&other_member(&translate(&p)), &lambda()));
        assert!(t.equals(&tu));
        assert!(c.equals(&tu));
        assert!(a.equals(&t));
        assert!(t.equals(&a));
        assert!(b.equals(&t));
        assert!(a.equals(&tu));
        assert!(a.equals(&a));
        assert!(a.equals(&b));
        assert!(b.equals(&a));
        assert!(a.equals(&c));
    }
}

#[test]
fn different_elements_are_not_equal() {
    let all = samples();
    for i in 0..all.len() {
        for j in 0..all.len() {
            if i != j {
                let a = RistrettoPoint::from_extended(all[i].0);
                let b = RistrettoPoint::from_extended(scaled(&all[j].0, &lambda()));
                assert!(!a.equals(&b));
                assert!(a.encode() != b.encode());
            }
        }
    }
    let g = ExtendedPoint::generator();
    let minus_g = RistrettoPoint::from_extended(g.negate());
    assert!(!RistrettoPoint::generator().equals(&minus_g));
}

#[test]
fn decode_rejects_non_canonical_field_elements() {
    assert!(small(2).decode().is_some());
    assert!(CompressedRistretto([
        0x01, 0x00, 0x00, 0x00, 0x00, 0x00, 0x00, 0x00, 0x00, 0x00, 0x00, 0x00, 0x00, 0x00, 0x00, 0x00, 0x00, 0x00, 0x00, 0x00, 0x00, 0x00, 0x00, 0x00, 0x00, 0x00, 0x00, 0x00, 0xff, 0xff, 0xff, 0xff, 0xff, 0xff, 0xff, 0xff, 0xff, 0xff, 0xff, 0xff, 0xff, 0xff, 0xff, 0xff, 0xff, 0xff, 0xff, 0xff, 0xff, 0xff, 0xff, 0xff, 0xff, 0xff, 0xff, 0xff,
    ]).decode().is_none());
    assert!(CompressedRistretto([
        0xff, 0xff, 0xff, 0xff, 0xff, 0xff, 0xff, 0xff, 0xff, 0xff, 0xff, 0xff, 0xff, 0xff,
        0xff, 0xff, 0xff, 0xff, 0xff, 0xff, 0xff, 0xff, 0xff, 0xff, 0xff, 0xff, 0xff, 0xff,
        0xfe, 0xff, 0xff, 0xff, 0xff, 0xff, 0xff, 0xff, 0xff, 0xff, 0xff, 0xff, 0xff, 0xff,
        0xff, 0xff, 0xff, 0xff, 0xff, 0xff, 0xff, 0xff, 0xff, 0xff, 0xff, 0xff, 0xff, 0xff,
    ]).decode().is_none());
}

#[test]
fn decode_rejects_negative_field_elements() {
    assert!(CompressedRistretto([
        0xfd, 0xff, 0xff, 0xff, 0xff, 0xff, 0xff, 0xff, 0xff, 0xff, 0xff, 0xff, 0xff, 0xff, 0xff, 0xff, 0xff, 0xff, 0xff, 0xff, 0xff, 0xff, 0xff, 0xff, 0xff, 0xff, 0xff, 0xff, 0xfe, 0xff, 0xff, 0xff, 0xff, 0xff, 0xff, 0xff, 0xff, 0xff, 0xff, 0xff, 0xff, 0xff, 0xff, 0xff, 0xff, 0xff, 0xff, 0xff, 0xff, 0xff, 0xff, 0xff, 0xff, 0xff, 0xff, 0xff,
    ]).decode().is_none());
    assert!(small(1).decode().is_none());
    let mut bytes = [
        0x00, 0x00, 0x00, 0x00, 0x00, 0x00, 0x00, 0x00, 0x00, 0x00, 0x00, 0x00, 0x00, 0x00,
        0x00, 0x00, 0x00, 0x00, 0x00, 0x00, 0x00, 0x00, 0x00, 0x00, 0x00, 0x00, 0x00, 0x00,
        0xfd, 0xff, 0xff, 0xff, 0xff, 0xff, 0xff, 0xff, 0xff, 0xff, 0xff, 0xff, 0xff, 0xff,
        0xff, 0xff, 0xff, 0xff, 0xff, 0xff, 0xff, 0xff, 0xff, 0xff, 0xff, 0xff, 0xff, 0xff,
    ];
    let s = FieldElement::from_bytes(&bytes).negate();
    bytes = s.to_bytes();
    assert!(CompressedRistretto(bytes).decode().is_none());
}

#[test]
fn decode_rejects_elements_off_the_curve() {
    assert!(small(4).decode().is_none());
}

#[test]
fn decode_rejects_all_ones() {
    assert!(CompressedRistretto([0xffu8; 56]).decode().is_none());
}

#[test]
fn as_bytes_gives_the_encoding() {
    let c = RistrettoPoint::generator().encode();
    assert_eq!(c.as_bytes(), &c.0[..]);
    assert_eq!(c.as_bytes().len(), 56);
    assert_eq!(CompressedRistretto::identity().as_bytes(), &[0u8; 56][..]);
}

#[test]
fn compressed_equality_compares_bytes() {
    let a = RistrettoPoint::generator().encode();
    let mut b = a;
    assert!(a == b);
    b.0[55] ^= 0x80;
    assert!(a != b);
    assert!(a != CompressedRistretto::identity());
}

#[test]
fn root_of_the_curve_parameter() {
    let r = sqrt_d();
    assert_eq!(r, FieldElement::from_raw_slice([
        0x06749f46, 0x0d2e2183, 0x0b4f0179, 0x0888db42,
        0x0bdeea38, 0x05a189aa, 0x06f14c06, 0x051e65ca,
        0x024d9770, 0x0a49f7b4, 0x08c5f656, 0x0dcac462,
        0x0748734a, 0x049443b8, 0x00b25b7a, 0x012fec0c,
    ]));
    assert_eq!(r.square(), twisted_d());
    assert_eq!(r.mul(&inv_sqrt_d()), FieldElement::one());
    assert_eq!(twisted_d().mul(&inv_sqrt_d().square()), FieldElement::one());
}

#[test]
fn point_of_order_four() {
    let q4 = order_four_point();
    let q2 = q4.double();
    let one = FieldElement::one();
    let order_two =
        ExtendedPoint { X: FieldElement::zero(), Y: one.negate(), Z: one, T: FieldElement::zero() };
    assert!(q2 == order_two);
    assert!(q2 != ExtendedPoint::identity());
    assert!(q2.double() == ExtendedPoint::identity());
    let id = RistrettoPoint::identity();
    assert!(id.equals(&RistrettoPoint::from_extended(q4)));
    assert!(id.equals(&RistrettoPoint::from_extended(q2)));
}

#[test]
fn translate_of_the_generator_encodes_to_the_same_bytes() {
    let g = ExtendedPoint::generator();
    let expected = RistrettoPoint::generator().encode();
    let sum = g.add(&order_four_point());
    let moved = translate(&g);
    assert!(sum == moved);
    assert!(sum.double().double() == g.double().double());
    for q in [moved, sum, other_member(&moved), scaled(&moved, &lambda())] {
        assert!(q.is_on_curve());
        assert!(g != q);
        let point = RistrettoPoint::from_extended(q);
        assert!(RistrettoPoint::generator().equals(&point));
        assert!(point.equals(&RistrettoPoint::generator()));
        assert!(point.encode() == expected);
        let decoded = point.encode().decode().unwrap();
        assert!(decoded.equals(&point));
        assert!(decoded.equals(&RistrettoPoint::generator()));
    }
}

#[test]
fn points_of_other_cosets_are_told_apart() {
    for (p, bytes) in samples() {
        if p.X.is_zero() {
            continue;
        }
        let a = RistrettoPoint::from_extended(p);
        for q in [p.negate(), reflected(&p), translate(&p.negate()), scaled(&p.negate(), &lambda())] {
            assert!(q.is_on_curve());
            let b = RistrettoPoint::from_extended(q);
            assert!(!a.equals(&b));
            assert!(!b.equals(&a));
            assert!(b.encode().0 != bytes);
            assert!(b.encode() == RistrettoPoint::from_extended(p.negate()).encode());
            assert!(b.equals(&RistrettoPoint::from_extended(p.negate())));
            assert!(b.encode().decode().unwrap().equals(&b));
        }
    }
}

#[test]
fn translate_of_the_neutral_element_encodes_to_zero() {
    let q = translate(&ExtendedPoint::identity());
    assert!(q.Z.is_zero());
    let point = RistrettoPoint::from_extended(q);
    assert!(point.equals(&RistrettoPoint::identity()));
    assert_eq!(point.encode().0, [0u8; 56]);
}

#[test]
fn points_off_the_curve_encode_without_failing() {
    let one = FieldElement::one();
    let off = ExtendedPoint { X: one, Y: one, Z: one, T: one };
    assert!(!off.is_on_curve());
    let bytes = RistrettoPoint::from_extended(off).encode();
    assert!(!FieldElement::from_bytes(&bytes.0).is_negative());
    assert_eq!(FieldElement::from_bytes(&bytes.0).to_bytes(), bytes.0);
}

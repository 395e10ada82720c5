use ristretto448::field::element::FieldElement;

fn fx() -> FieldElement {
    FieldElement::from_raw_slice([
        0x034365c8, 0x06b2a874, 0x0eb875d7, 0x0ae4c7a7,
        0x0785df04, 0x09929351, 0x01fe8c3b, 0x0f2a0e5f,
        0x0111d39c, 0x07ab52ba, 0x01df4552, 0x01d87566,
        0x0f297be2, 0x027c090f, 0x0a81b155, 0x0d1a562b,
    ])
}

fn fy() -> FieldElement {
    FieldElement::from_raw_slice([
        0x00da9708, 0x0e7d583e, 0x0dbcc099, 0x0d2dad89,
        0x05a49ce4, 0x01cb4ddc, 0x0928d395, 0x0098d91d,
        0x0bff16ce, 0x06f02f9a, 0x0ce27cc1, 0x0dab5783,
        0x0b553d94, 0x03251a0c, 0x064d70fb, 0x07fe3a2f,
    ])
}

fn small_bytes(x: u8) -> [u8; 56] {
    let mut b = [0u8; 56];
    b[0] = x;
    b
}

#[test]
fn field_zero_and_one() {
    assert_eq!(FieldElement::zero().to_bytes(), [0u8; 56]);
    assert_eq!(FieldElement::one().to_bytes(), small_bytes(1));
    assert_eq!(FieldElement::from_u32(39082).to_bytes()[..3], [0xaa, 0x98, 0x00]);
    assert!(FieldElement::zero().is_zero());
    assert!(!FieldElement::one().is_zero());
}

#[test]
fn field_add_exact() {
    let expected = FieldElement::from_raw_slice([
        0x041dfcd1, 0x053000b2, 0x0c753671, 0x08127531,
        0x0d2a7be9, 0x0b5de12d, 0x0b275fd0, 0x0fc2e77c,
        0x0d10ea6b, 0x0e9b8254, 0x0ec1c213, 0x0f83cce9,
        0x0a7eb976, 0x05a1231c, 0x00cf2250, 0x0518905b,
    ]);
    assert_eq!(fx().add(&fy()), expected);
    assert_eq!(fy().add(&fx()), expected);
}

#[test]
fn field_sub_exact() {
    assert_eq!(fx().sub(&fy()), FieldElement::from_raw_slice([
        0x0268cec0, 0x08355036, 0x00fbb53d, 0x0db71a1e,
        0x01e1421f, 0x07c74575, 0x08d5b8a6, 0x0e913541,
        0x0512bcce, 0x00bb231f, 0x04fcc891, 0x042d1de2,
        0x03d43e4d, 0x0f56ef03, 0x04344059, 0x051c1bfc,
    ]));
    assert_eq!(fy().sub(&fx()), FieldElement::from_raw_slice([
        0x0d97313f, 0x07caafc9, 0x0f044ac2, 0x0248e5e1,
        0x0e1ebde0, 0x0838ba8a, 0x072a4759, 0x016ecabe,
        0x0aed4330, 0x0f44dce0, 0x0b03376e, 0x0bd2e21d,
        0x0c2bc1b2, 0x00a910fc, 0x0bcbbfa6, 0x0ae3e403,
    ]));
    assert!(fx().sub(&fx()).is_zero());
}

#[test]
fn field_mul_exact() {
    let expected = FieldElement::from_raw_slice([
        0x03299fdf, 0x05f7bf09, 0x082a6cdb, 0x021a54d9,
        0x0085f96d, 0x0d3b16e5, 0x000011d6, 0x07a5c798,
        0x0f903644, 0x09d3acd3, 0x0cc9f6d2, 0x037e63ae,
        0x023d9268, 0x06f86e33, 0x0aaad73c, 0x01c2182c,
    ]);
    assert_eq!(fx().mul(&fy()), expected);
    assert_eq!(fy().mul(&fx()), expected);
    assert_eq!(fx().mul(&FieldElement::one()), fx());
    assert!(fx().mul(&FieldElement::zero()).is_zero());
}

#[test]
fn field_square_exact() {
    assert_eq!(fx().square(), FieldElement::from_raw_slice([
        0x0ab720d1, 0x0398bbe8, 0x0553482b, 0x0745a327,
        0x0a1a2f43, 0x0e5de3b4, 0x0b4b166b, 0x042db687,
        0x00bcb679, 0x0f352b35, 0x08144361, 0x08006a62,
        0x0a78c633, 0x01097c2b, 0x028bec3a, 0x0b3c2b37,
    ]));
}

#[test]
fn field_negate_exact() {
    assert_eq!(fx().negate(), FieldElement::from_raw_slice([
        0x0cbc9a37, 0x094d578b, 0x01478a28, 0x051b3858,
        0x087a20fb, 0x066d6cae, 0x0e0173c4, 0x00d5f1a0,
        0x0eee2c62, 0x0854ad45, 0x0e20baad, 0x0e278a99,
        0x00d6841d, 0x0d83f6f0, 0x057e4eaa, 0x02e5a9d4,
    ]));
    assert!(fx().negate().add(&fx()).is_zero());
    assert!(FieldElement::zero().negate().is_zero());
    assert_eq!(FieldElement::one().negate().to_bytes(), [
        0xfe, 0xff, 0xff, 0xff, 0xff, 0xff, 0xff, 0xff, 0xff, 0xff, 0xff, 0xff, 0xff, 0xff,
        0xff, 0xff, 0xff, 0xff, 0xff, 0xff, 0xff, 0xff, 0xff, 0xff, 0xff, 0xff, 0xff, 0xff,
        0xfe, 0xff, 0xff, 0xff, 0xff, 0xff, 0xff, 0xff, 0xff, 0xff, 0xff, 0xff, 0xff, 0xff,
        0xff, 0xff, 0xff, 0xff, 0xff, 0xff, 0xff, 0xff, 0xff, 0xff, 0xff, 0xff, 0xff, 0xff,
    ]);
}

#[test]
fn field_invert_exact() {
    let inv = fx().invert();
    assert_eq!(inv, FieldElement::from_raw_slice([
        0x0ab4f6ca, 0x0616e87d, 0x03f7b7f3, 0x0c93b772,
        0x09fd536f, 0x0f3e669e, 0x04256a23, 0x0211f578,
        0x0c40b6a4, 0x01fbb606, 0x08d0eed4, 0x0eb8f675,
        0x09dc14d8, 0x070e9e69, 0x02d5d76f, 0x03123c2e,
    ]));
    assert_eq!(inv.mul(&fx()), FieldElement::one());
    assert_eq!(FieldElement::one().invert(), FieldElement::one());
}

#[test]
fn field_invert_of_zero_is_zero() {
    assert!(FieldElement::zero().invert().is_zero());
}

#[test]
fn field_pow_exact() {
    assert_eq!(fx().pow_u64(0), FieldElement::one());
    assert_eq!(fx().pow_u64(1), fx());
    assert_eq!(fx().pow_u64(5), FieldElement::from_raw_slice([
        0x05e0fd7d, 0x0c09df2d, 0x035f0dd6, 0x0f0d0c52,
        0x07090586, 0x05615fae, 0x045ca1c2, 0x00d4e85e,
        0x09a3fc73, 0x0ef533cc, 0x0bb82862, 0x05b764fc,
        0x0381132b, 0x0c026e99, 0x0138cb64, 0x05bf4d05,
    ]));
    assert_eq!(fx().pow_u64(0xfedcba9876543210), FieldElement::from_raw_slice([
        0x0190475a, 0x0f69cf06, 0x003afd1f, 0x034c07bc,
        0x0dbbfa0f, 0x0879e34c, 0x02166167, 0x06eee38e,
        0x08689e61, 0x0aa6a4bd, 0x0ff924d7, 0x087840d3,
        0x01585580, 0x0dc20680, 0x0a896ca0, 0x0ecd5945,
    ]));
}

#[test]
fn field_inverse_square_root_of_a_square() {
    let sq = fx().square();
    let (r, ok) = sq.inverse_square_root();
    assert!(ok);
    assert_eq!(r, FieldElement::from_raw_slice([
        0x054b0935, 0x09e91782, 0x0c08480c, 0x036c488d,
        0x0602ac90, 0x00c19961, 0x0bda95dc, 0x0dee0a87,
        0x03bf495a, 0x0e0449f9, 0x072f112b, 0x0147098a,
        0x0623eb27, 0x08f16196, 0x0d2a2890, 0x0cedc3d1,
    ]));
    assert_eq!(sq.mul(&r.square()), FieldElement::one());
}

#[test]
fn field_inverse_square_root_of_a_non_square() {
    let (r, ok) = fx().inverse_square_root();
    assert!(!ok);
    assert_eq!(r, FieldElement::from_raw_slice([
        0x02759e39, 0x0f6b8fca, 0x0c62f8a4, 0x06c076a8,
        0x041113c2, 0x06356bc8, 0x0e567e46, 0x02f727b6,
        0x0d340aa7, 0x0da776ed, 0x0811ef5a, 0x08b1713f,
        0x04d7d6f2, 0x03b1f5ce, 0x01b6a2d2, 0x0c808512,
    ]));
}

#[test]
fn field_inverse_square_root_of_zero() {
    let (r, ok) = FieldElement::zero().inverse_square_root();
    assert!(!ok);
    assert!(r.is_zero());
}

#[test]
fn field_to_bytes_exact() {
    assert_eq!(fx().to_bytes(), [
        0xc8, 0x65, 0x43, 0x43, 0x87, 0x2a, 0x6b, 0xd7, 0x75, 0xb8, 0x7e, 0x7a, 0x4c, 0xae,
        0x04, 0xdf, 0x85, 0x17, 0x35, 0x29, 0x99, 0x3b, 0x8c, 0xfe, 0xf1, 0xe5, 0xa0, 0xf2,
        0x9c, 0xd3, 0x11, 0xa1, 0x2b, 0xb5, 0x7a, 0x52, 0x45, 0xdf, 0x61, 0x56, 0x87, 0x1d,
        0xe2, 0x7b, 0x29, 0xff, 0x90, 0xc0, 0x27, 0x55, 0xb1, 0x81, 0xba, 0x62, 0xa5, 0xd1,
    ]);
}

#[test]
fn field_bytes_round_trip() {
    let b = fx().to_bytes();
    assert_eq!(FieldElement::from_bytes(&b), fx());
    assert_eq!(FieldElement::from_bytes(&b).to_bytes(), b);
}

#[test]
fn field_from_bytes_reduces() {
    let five = FieldElement::from_bytes(&[
        0x04, 0x00, 0x00, 0x00, 0x00, 0x00, 0x00, 0x00, 0x00, 0x00, 0x00, 0x00, 0x00, 0x00,
        0x00, 0x00, 0x00, 0x00, 0x00, 0x00, 0x00, 0x00, 0x00, 0x00, 0x00, 0x00, 0x00, 0x00,
        0xff, 0xff, 0xff, 0xff, 0xff, 0xff, 0xff, 0xff, 0xff, 0xff, 0xff, 0xff, 0xff, 0xff,
        0xff, 0xff, 0xff, 0xff, 0xff, 0xff, 0xff, 0xff, 0xff, 0xff, 0xff, 0xff, 0xff, 0xff,
    ]);
    assert_eq!(five, FieldElement::from_u32(5));
    assert_eq!(five.to_bytes(), small_bytes(5));
    let zero = FieldElement::from_bytes(&[
        0xff, 0xff, 0xff, 0xff, 0xff, 0xff, 0xff, 0xff, 0xff, 0xff, 0xff, 0xff, 0xff, 0xff,
        0xff, 0xff, 0xff, 0xff, 0xff, 0xff, 0xff, 0xff, 0xff, 0xff, 0xff, 0xff, 0xff, 0xff,
        0xfe, 0xff, 0xff, 0xff, 0xff, 0xff, 0xff, 0xff, 0xff, 0xff, 0xff, 0xff, 0xff, 0xff,
        0xff, 0xff, 0xff, 0xff, 0xff, 0xff, 0xff, 0xff, 0xff, 0xff, 0xff, 0xff, 0xff, 0xff,
    ]);
    assert!(zero.is_zero());
    let top = FieldElement::from_bytes(&[
        0xfe, 0xff, 0xff, 0xff, 0xff, 0xff, 0xff, 0xff, 0xff, 0xff, 0xff, 0xff, 0xff, 0xff,
        0xff, 0xff, 0xff, 0xff, 0xff, 0xff, 0xff, 0xff, 0xff, 0xff, 0xff, 0xff, 0xff, 0xff,
        0xfe, 0xff, 0xff, 0xff, 0xff, 0xff, 0xff, 0xff, 0xff, 0xff, 0xff, 0xff, 0xff, 0xff,
        0xff, 0xff, 0xff, 0xff, 0xff, 0xff, 0xff, 0xff, 0xff, 0xff, 0xff, 0xff, 0xff, 0xff,
    ]);
    assert_eq!(top, FieldElement::one().negate());
    let all_ones = FieldElement::from_bytes(&[0xffu8; 56]);
    let two_to_224 = FieldElement::from_u32(1 << 28).pow_u64(8);
    assert_eq!(all_ones, two_to_224);
}

#[test]
fn field_from_raw_slice_reduces() {
    let mut prime = [0x0fffffffu32; 16];
    prime[8] = 0x0ffffffe;
    assert!(FieldElement::from_raw_slice(prime).is_zero());
    prime[0] = 0x0ffffffe;
    assert_eq!(FieldElement::from_raw_slice(prime), FieldElement::one().negate());
    let oversize = FieldElement::from_raw_slice([0xffffffffu32; 16]);
    assert_eq!(oversize, FieldElement::from_raw_slice([
        0x0000000f, 0x0000000f, 0x0000000f, 0x0000000f,
        0x0000000f, 0x0000000f, 0x0000000f, 0x0000000f,
        0x0000001f, 0x0000000f, 0x0000000f, 0x0000000f,
        0x0000000f, 0x0000000f, 0x0000000f, 0x0000000f,
    ]));
}

#[test]
fn field_sign_is_the_low_bit() {
    assert!(FieldElement::one().is_negative());
    assert!(!FieldElement::from_u32(2).is_negative());
    assert!(!FieldElement::zero().is_negative());
    assert!(!FieldElement::one().negate().is_negative());
    assert!(FieldElement::from_u32(2).negate().is_negative());
}

#[test]
fn field_abs_is_non_negative() {
    assert_eq!(FieldElement::one().abs(), FieldElement::one().negate());
    assert_eq!(FieldElement::from_u32(2).abs(), FieldElement::from_u32(2));
    assert_eq!(FieldElement::from_u32(2).negate().abs(), FieldElement::from_u32(2));
    assert!(!fx().abs().is_negative());
    assert!(!fy().abs().is_negative());
    assert!(FieldElement::zero().abs().is_zero());
}

#[test]
fn field_conditional_select_picks_by_choice() {
    assert_eq!(FieldElement::conditional_select(&fx(), &fy(), false), fx());
    assert_eq!(FieldElement::conditional_select(&fx(), &fy(), true), fy());
}

#[test]
fn field_conditional_negate_by_choice() {
    assert_eq!(fx().conditional_negate(false), fx());
    assert_eq!(fx().conditional_negate(true), fx().negate());
}

#[test]
fn field_equality() {
    assert!(fx() == fx());
    assert!(fx() != fy());
    let mut limbs = [
        0x034365c8, 0x06b2a874, 0x0eb875d7, 0x0ae4c7a7,
        0x0785df04, 0x09929351, 0x01fe8c3b, 0x0f2a0e5f,
        0x0111d39c, 0x07ab52ba, 0x01df4552, 0x01d87566,
        0x0f297be2, 0x027c090f, 0x0a81b155, 0x0d1a562b,
    ];
    limbs[15] ^= 1;
    assert!(fx() != FieldElement::from_raw_slice(limbs));
}

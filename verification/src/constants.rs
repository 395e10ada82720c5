//! The curve parameter and the base point.
use crate::curve::twedwards::affine::{AffineCoords, on_curve};
use crate::curve::twedwards::extended::{extended_valid, ExtendedCoords, ExtendedPoint};
use crate::field::arith::{field_add, field_mul, field_square, field_sub, modulus};
use crate::field::element::{FieldElement, widen};
use crate::field::limbs::{horner_value, lemma_value_is_horner};
use vstd::arithmetic::div_mod::*;
use vstd::prelude::*;

verus! {

/// The curve parameter `d = -39082`.
pub open spec fn curve_d() -> nat {
    (modulus() - 39082) as nat
}

/// The curve parameter `d` as a field element.
pub fn twisted_d() -> (d: FieldElement)
    ensures
        d@ == curve_d(),
{
    FieldElement::from_u32(39082).negate()
}

/// The `x` coordinate of the base point.
pub open spec fn base_point_x() -> nat {
    0x7fffffff_ffffffff_ffffffff_ffffffff_ffffffff_ffffffff_fffffffe_80000000_00000000_00000000_00000000_00000000_00000000_00000000nat
}

/// The `y` coordinate of the base point.
pub open spec fn base_point_y() -> nat {
    0x8508de14_f04286d4_8d06c130_78ca2408_05264370_504c74c3_93d5242c_50452714_14181844_d73f48e5_199b0c1e_3ab470a1_c86079b4_dfdd4a64nat
}

/// The base point of the prime-order subgroup, with `Z = 1`.
pub open spec fn base_point() -> ExtendedCoords {
    ExtendedCoords {
        x: base_point_x(),
        y: base_point_y(),
        z: 1,
        t: field_mul(base_point_x(), base_point_y()),
    }
}

/// The base point of the prime-order subgroup.
pub fn twisted_edwards_base_point() -> (g: ExtendedPoint)
    ensures
        g@ == base_point(),
{
    let xl: [u32; 16] = [
        0x00000000,
        0x00000000,
        0x00000000,
        0x00000000,
        0x00000000,
        0x00000000,
        0x00000000,
        0x08000000,
        0x0ffffffe,
        0x0fffffff,
        0x0fffffff,
        0x0fffffff,
        0x0fffffff,
        0x0fffffff,
        0x0fffffff,
        0x07ffffff,
    ];
    let yl: [u32; 16] = [
        0x0fdd4a64,
        0x06079b4d,
        0x0470a1c8,
        0x00c1e3ab,
        0x08e5199b,
        0x044d73f4,
        0x04141818,
        0x05045271,
        0x03d5242c,
        0x04c74c39,
        0x06437050,
        0x02408052,
        0x013078ca,
        0x0d48d06c,
        0x04f04286,
        0x08508de1,
    ];
    proof {
        lemma_value_is_horner(widen(xl@), 0);
        lemma_value_is_horner(widen(yl@), 0);
        assert(widen(xl@).skip(0) =~= widen(xl@));
        assert(widen(yl@).skip(0) =~= widen(yl@));
        reveal_with_fuel(horner_value, 17);
        lemma_small_mod(base_point_x(), modulus());
        lemma_small_mod(base_point_y(), modulus());
    }
    let x = FieldElement::from_raw_slice(xl);
    let y = FieldElement::from_raw_slice(yl);
    let t = x.mul(&y);
    ExtendedPoint { X: x, Y: y, Z: FieldElement::one(), T: t }
}

/// The base point lies on the curve.
pub proof fn lemma_base_point_valid()
    ensures
        on_curve(AffineCoords { x: base_point_x(), y: base_point_y() }),
        extended_valid(base_point()),
{
    let x = base_point_x();
    let y = base_point_y();
    let d = curve_d();
    let xx = 0x3fffffff_ffffffff_ffffffff_ffffffff_ffffffff_ffffffff_ffffffff_c0000000_00000000_00000000_00000000_00000000_00000000_00000001nat;
    let yy = 0xfc757eaa_edbd9cc9_c1ab17ff_4eecb3ff_d7c16eba_256624cd_370b93ff_1bb00bb2_2f0519ee_508128cd_6f632c2e_b0968a0a_9c7f4deb_23914be3nat;
    let dxx = 0x7fffffff_ffffffff_ffffffff_ffffffff_ffffffff_ffffffff_ffffffff_7fffffff_ffffffff_ffffffff_ffffffff_ffffffff_ffffffff_ffff412bnat;
    let side = 0xbc757eaa_edbd9cc9_c1ab17ff_4eecb3ff_d7c16eba_256624cd_370b93ff_5bb00bb2_2f0519ee_508128cd_6f632c2e_b0968a0a_9c7f4deb_23914be2nat;
    let t = 0x6d3669e1_73c6a450_e23d5682_a9ffe1dd_c2b86da6_0f794be9_56382384_a319b575_19c9854d_de98e342_14036207_1833f4e0_93e3c816_dc198105nat;
    let tt = 0xfb92de55_a92d03fc_3215ddff_22a7e0ff_cdb1ca68_aebfae00_84ce78ff_229c0e9e_bac66069_e4a17300_cb3bf73a_5cbc2c8d_439f2165_ec759edcnat;
    assert(field_square(x) == xx);
    assert(field_square(y) == yy);
    assert(field_mul(d, xx) == dxx);
    assert(field_sub(yy, xx) == side);
    assert(field_add(1, field_mul(dxx, yy)) == side);
    assert(field_mul(x, y) == t);
    assert(field_mul(t, 1) == t);
    assert(field_square(t) == tt);
    assert(field_square(1) == 1);
    assert(field_add(1, field_mul(d, tt)) == side);
}

/// A square root of the curve parameter: `curve_d_root()^2 = d`.
pub open spec fn curve_d_root() -> nat {
    0x12fec0c0_b25b7a49_443b8748_734adcac_4628c5f6_56a49f7b_424d9770_51e65ca6_f14c065a_189aabde_ea38888d_b42b4f01_79d2e218_36749f46nat
}

/// The inverse of that square root.
pub open spec fn curve_d_root_inverse() -> nat {
    0x209b6817_c92ea986_a58ecf0b_c1887965_ee8c51f3_e1d3b3d4_24736d8c_c61e8318_8f392d06_dcc8e863_61e88907_877d2cfa_a5f9c741_5870f014nat
}

/// The curve parameter is the square of its root, and the root times
/// its inverse is one.
pub proof fn lemma_curve_d_root()
    ensures
        curve_d_root() < modulus(),
        curve_d_root_inverse() < modulus(),
        field_square(curve_d_root()) == curve_d(),
        field_mul(curve_d_root(), curve_d_root_inverse()) == 1,
        field_mul(curve_d(), field_square(curve_d_root_inverse())) == 1,
{
    let r = curve_d_root();
    let u = curve_d_root_inverse();
    let d = curve_d();
    let sq = 0x6cb3e5f4_b50d166a_4c7b4dac_7f138f2d_5764fe34_889d1a65_d8333ff1_526587b5_b16c17f2_b092193b_5bed65a5_e4c6de36_a1377b36_328ad73enat;
    assert(r * r == 0x0168d09e_2898674e_33e47024_55961da7_01f05569_8e5091d0_2114fa82_efd2533a_e76e1d79_a5fa9bbd_c83806d6_0a72dfb4_cc2c90bd_9c6265af_0d5c0b88_c76113e9_f23c83f9_8c9bbddb_f1ac7578_17324ba2_2173a54b_0ec4dc26_eff97b38_2620f41d_e231db82_f39ccae1_a582dd72_42880724nat) by (nonlinear_arith)
        requires
            r == 0x12fec0c0_b25b7a49_443b8748_734adcac_4628c5f6_56a49f7b_424d9770_51e65ca6_f14c065a_189aabde_ea38888d_b42b4f01_79d2e218_36749f46nat,
    ;
    assert(r * u == 0x026b6010_0d168223_7c544638_81f14d49_75095569_126d7cd7_1124aab6_9c6c724f_a02976d1_dba89e89_631ffcdb_8199635a_f35061ab_99cd43d2_5ebccd90_45a984e7_2baed505_98fd6891_9453f1d2_e7d4a4a6_43e966c0_61282da0_52c0070a_a8031b3e_1aeeb5db_095d473b_fa42217d_550e1178nat) by (nonlinear_arith)
        requires
            r == 0x12fec0c0_b25b7a49_443b8748_734adcac_4628c5f6_56a49f7b_424d9770_51e65ca6_f14c065a_189aabde_ea38888d_b42b4f01_79d2e218_36749f46nat,
            u == 0x209b6817_c92ea986_a58ecf0b_c1887965_ee8c51f3_e1d3b3d4_24736d8c_c61e8318_8f392d06_dcc8e863_61e88907_877d2cfa_a5f9c741_5870f014nat,
    ;
    assert(u * u == 0x0427385d_296c9e8e_a0aa5a1e_3d2208d3_4e4c1c9d_11efa6d1_c876ec7d_7e17bb4a_8c2c3acb_100c723d_265dc7a4_07a0b12f_2338fb5b_b76e6930_e64db9ef_d6079e81_fb1a2732_de71b5e2_b32c13cb_4184d166_8fd6fdc5_d026940d_fbd33e98_ffdb4cdf_f86d952e_8eda106a_6c0ed908_b2a58190nat) by (nonlinear_arith)
        requires
            u == 0x209b6817_c92ea986_a58ecf0b_c1887965_ee8c51f3_e1d3b3d4_24736d8c_c61e8318_8f392d06_dcc8e863_61e88907_877d2cfa_a5f9c741_5870f014nat,
    ;
    assert(d * sq == 0x6cb3e5f4_b50d166a_4c7b4dac_7f138f2d_5764fe34_889d1a65_d8333ff0_e5b1a1c0_fc5f0188_6416cb8e_dcd9d678_8d61e002_189a60d0_5a575679_40e69255_9986d1a3_02f29918_24ff0b2c_c3d42394_d62b6a63_f54229a3_ad9a784a_4e93e80d_4f6de6c4_a4129a5a_1b3921c9_5ec884c9_cd756996nat) by (nonlinear_arith)
        requires
            d == 0xffffffff_ffffffff_ffffffff_ffffffff_ffffffff_ffffffff_fffffffe_ffffffff_ffffffff_ffffffff_ffffffff_ffffffff_ffffffff_ffff6755nat,
            sq == 0x6cb3e5f4_b50d166a_4c7b4dac_7f138f2d_5764fe34_889d1a65_d8333ff1_526587b5_b16c17f2_b092193b_5bed65a5_e4c6de36_a1377b36_328ad73enat,
    ;
    assert(field_square(u) == sq);
}

/// The square root of the curve parameter as a field element.
pub fn sqrt_d() -> (r: FieldElement)
    ensures
        r@ == curve_d_root(),
{
    let l: [u32; 16] = [
        0x06749f46,
        0x0d2e2183,
        0x0b4f0179,
        0x0888db42,
        0x0bdeea38,
        0x05a189aa,
        0x06f14c06,
        0x051e65ca,
        0x024d9770,
        0x0a49f7b4,
        0x08c5f656,
        0x0dcac462,
        0x0748734a,
        0x049443b8,
        0x00b25b7a,
        0x012fec0c,
    ];
    proof {
        lemma_value_is_horner(widen(l@), 0);
        assert(widen(l@).skip(0) =~= widen(l@));
        reveal_with_fuel(horner_value, 17);
        lemma_small_mod(curve_d_root(), modulus());
    }
    FieldElement::from_raw_slice(l)
}

/// The inverse of the square root of the curve parameter as a field
/// element.
pub fn inv_sqrt_d() -> (r: FieldElement)
    ensures
        r@ == curve_d_root_inverse(),
{
    let l: [u32; 16] = [
        0x0870f014,
        0x0f9c7415,
        0x0d2cfaa5,
        0x08907877,
        0x086361e8,
        0x006dcc8e,
        0x088f392d,
        0x0c61e831,
        0x04736d8c,
        0x0d3b3d42,
        0x0c51f3e1,
        0x07965ee8,
        0x0f0bc188,
        0x086a58ec,
        0x07c92ea9,
        0x0209b681,
    ];
    proof {
        lemma_value_is_horner(widen(l@), 0);
        assert(widen(l@).skip(0) =~= widen(l@));
        reveal_with_fuel(horner_value, 17);
        lemma_small_mod(curve_d_root_inverse(), modulus());
    }
    FieldElement::from_raw_slice(l)
}

} // verus!

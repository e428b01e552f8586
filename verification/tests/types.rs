use openjpeg_rs::types::{
    COMMON_CBLK_DATA_EXTRA, COMP_PARAM_DEFAULT_CBLOCKH, COMP_PARAM_DEFAULT_CBLOCKW, COMP_PARAM_DEFAULT_NUMRESOLUTION, CodecFormat, ColorSpace, IMG_INFO, J2K_DEFAULT_NB_SEGS, J2K_MAXBANDS, J2K_MAXRLVLS, J2K_MH_IND, J2K_MH_INFO, J2K_STREAM_CHUNK_SIZE, J2K_TCH_INFO, J2K_TH_IND, J2K_TH_INFO, JP2_IND, JP2_INFO, PATH_LEN, ProgressionOrder, int_ceildiv, int_ceildivpow2, int64_ceildivpow2, int_fix_mul, int_floordivpow2, int_floorlog2, uint64_ceildiv_as_u32, uint_ceildiv, uint_ceildivpow2, uint_floorlog2,
};


// --- Constants ---

#[test]
fn constants_values() {
    assert_eq!(J2K_MAXRLVLS, 33);
    assert_eq!(J2K_MAXBANDS, 3 * J2K_MAXRLVLS - 2);
    assert_eq!(J2K_DEFAULT_NB_SEGS, 10);
    assert_eq!(J2K_STREAM_CHUNK_SIZE, 0x100000);
    assert_eq!(PATH_LEN, 4096);
    assert_eq!(IMG_INFO, 1);
    assert_eq!(J2K_MH_INFO, 2);
    assert_eq!(J2K_TH_INFO, 4);
    assert_eq!(J2K_TCH_INFO, 8);
    assert_eq!(J2K_MH_IND, 16);
    assert_eq!(J2K_TH_IND, 32);
    assert_eq!(JP2_INFO, 128);
    assert_eq!(JP2_IND, 256);
    assert_eq!(COMMON_CBLK_DATA_EXTRA, 2);
    assert_eq!(COMP_PARAM_DEFAULT_CBLOCKW, 64);
    assert_eq!(COMP_PARAM_DEFAULT_CBLOCKH, 64);
    assert_eq!(COMP_PARAM_DEFAULT_NUMRESOLUTION, 6);
}

// --- Enums ---

#[test]
fn progression_order_variants() {
    assert_eq!(ProgressionOrder::Lrcp as i32, 0);
    assert_eq!(ProgressionOrder::Rlcp as i32, 1);
    assert_eq!(ProgressionOrder::Rpcl as i32, 2);
    assert_eq!(ProgressionOrder::Pcrl as i32, 3);
    assert_eq!(ProgressionOrder::Cprl as i32, 4);
}

#[test]
fn color_space_variants() {
    assert_eq!(ColorSpace::Unknown.to_i32(), -1);
    assert_eq!(ColorSpace::Unspecified.to_i32(), 0);
    assert_eq!(ColorSpace::Srgb.to_i32(), 1);
    assert_eq!(ColorSpace::Gray.to_i32(), 2);
    assert_eq!(ColorSpace::Sycc.to_i32(), 3);
    assert_eq!(ColorSpace::Eycc.to_i32(), 4);
    assert_eq!(ColorSpace::Cmyk.to_i32(), 5);
}

#[test]
fn codec_format_variants() {
    assert_eq!(CodecFormat::Unknown.to_i32(), -1);
    assert_eq!(CodecFormat::J2k.to_i32(), 0);
    assert_eq!(CodecFormat::Jpt.to_i32(), 1);
    assert_eq!(CodecFormat::Jp2.to_i32(), 2);
}

#[test]
fn enum_derive_traits() {
    let a = ProgressionOrder::Lrcp;
    let b = a;
    assert_eq!(a, b);
    let _ = format!("{:?}", ColorSpace::Srgb);
    assert_ne!(CodecFormat::J2k, CodecFormat::Jp2);
}

// --- Integer math ---

#[test]
fn int_ceildiv_basic() {
    assert_eq!(int_ceildiv(10, 3), 4);
    assert_eq!(int_ceildiv(9, 3), 3);
    assert_eq!(int_ceildiv(1, 1), 1);
    assert_eq!(int_ceildiv(0, 5), 0);
}

#[test]
fn int_ceildiv_negative() {
    // C formula: (a + b - 1) / b with truncation toward zero
    // (-10 + 3 - 1) / 3 = -8 / 3 = -2
    assert_eq!(int_ceildiv(-10, 3), -2);
    // (-9 + 3 - 1) / 3 = -7 / 3 = -2
    assert_eq!(int_ceildiv(-9, 3), -2);
}

#[test]
fn uint_ceildiv_basic() {
    assert_eq!(uint_ceildiv(10, 3), 4);
    assert_eq!(uint_ceildiv(9, 3), 3);
    assert_eq!(uint_ceildiv(0, 5), 0);
    assert_eq!(uint_ceildiv(1, 1), 1);
    assert_eq!(uint_ceildiv(u32::MAX, 2), (u32::MAX / 2) + 1);
}

#[test]
fn uint64_ceildiv_as_u32_basic() {
    assert_eq!(uint64_ceildiv_as_u32(10, 3), 4);
    assert_eq!(uint64_ceildiv_as_u32(9, 3), 3);
    assert_eq!(uint64_ceildiv_as_u32(0, 5), 0);
}

#[test]
fn int_ceildivpow2_basic() {
    assert_eq!(int_ceildivpow2(10, 2), 3);
    assert_eq!(int_ceildivpow2(8, 2), 2);
    assert_eq!(int_ceildivpow2(0, 3), 0);
    assert_eq!(int_ceildivpow2(1, 0), 1);
}

#[test]
fn int_ceildivpow2_negative() {
    assert_eq!(int_ceildivpow2(-8, 2), -2);
    assert_eq!(int_ceildivpow2(-7, 2), -1);
}

#[test]
fn int64_ceildivpow2_basic() {
    assert_eq!(int64_ceildivpow2(10, 2), 3);
    assert_eq!(int64_ceildivpow2(-8, 2), -2);
}

#[test]
fn uint_ceildivpow2_basic() {
    assert_eq!(uint_ceildivpow2(10, 2), 3);
    assert_eq!(uint_ceildivpow2(8, 2), 2);
    assert_eq!(uint_ceildivpow2(0, 3), 0);
}

#[test]
fn int_floordivpow2_basic() {
    assert_eq!(int_floordivpow2(10, 2), 2);
    assert_eq!(int_floordivpow2(8, 2), 2);
    assert_eq!(int_floordivpow2(0, 3), 0);
    assert_eq!(int_floordivpow2(-8, 2), -2);
    assert_eq!(int_floordivpow2(-7, 2), -2);
}

#[test]
fn int_floorlog2_basic() {
    assert_eq!(int_floorlog2(1), 0);
    assert_eq!(int_floorlog2(2), 1);
    assert_eq!(int_floorlog2(3), 1);
    assert_eq!(int_floorlog2(4), 2);
    assert_eq!(int_floorlog2(7), 2);
    assert_eq!(int_floorlog2(8), 3);
    assert_eq!(int_floorlog2(1024), 10);
}

#[test]
fn uint_floorlog2_basic() {
    assert_eq!(uint_floorlog2(1), 0);
    assert_eq!(uint_floorlog2(2), 1);
    assert_eq!(uint_floorlog2(4), 2);
    assert_eq!(uint_floorlog2(1024), 10);
    assert_eq!(uint_floorlog2(u32::MAX), 31);
}

#[test]
fn int_fix_mul_basic() {
    assert_eq!(int_fix_mul(8192, 8192), 8192); // 1.0 * 1.0 = 1.0
    assert_eq!(int_fix_mul(8192, 4096), 4096); // 1.0 * 0.5 = 0.5
    assert_eq!(int_fix_mul(0, 8192), 0);
}

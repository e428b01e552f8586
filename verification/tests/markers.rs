use openjpeg_rs::image::Image;
use openjpeg_rs::j2k::markers::{read_cod, read_com, read_qcd, read_siz, read_sot, read_spcod_spcoc, read_sqcd_sqcc};
use openjpeg_rs::j2k::params::{CodingParameters, TileCodingParameters, TileCompCodingParameters};
use openjpeg_rs::types::{
    ColorSpace, J2K_CCP_QNTSTY_NOQNT, J2K_CCP_QNTSTY_SEQNT, J2K_CCP_QNTSTY_SIQNT, ProgressionOrder,
};

fn make_siz_data() -> Vec<u8> {
    let mut d = Vec::new();
    d.extend_from_slice(&0x0000u16.to_be_bytes());
    d.extend_from_slice(&64u32.to_be_bytes());
    d.extend_from_slice(&64u32.to_be_bytes());
    d.extend_from_slice(&0u32.to_be_bytes());
    d.extend_from_slice(&0u32.to_be_bytes());
    d.extend_from_slice(&64u32.to_be_bytes());
    d.extend_from_slice(&64u32.to_be_bytes());
    d.extend_from_slice(&0u32.to_be_bytes());
    d.extend_from_slice(&0u32.to_be_bytes());
    d.extend_from_slice(&1u16.to_be_bytes());
    d.push(0x07);
    d.push(0x01);
    d.push(0x01);
    d
}

#[test]
fn siz_basic_parsing() {
    let data = make_siz_data();
    let mut image = Image::new_tile(&[], ColorSpace::Unknown);
    let mut cp = CodingParameters::new_encoder();

    read_siz(&data, &mut image, &mut cp).unwrap();

    assert_eq!(image.x0, 0);
    assert_eq!(image.y0, 0);
    assert_eq!(image.x1, 64);
    assert_eq!(image.y1, 64);
    assert_eq!(image.comps.len(), 1);
    assert_eq!(image.comps[0].prec, 8);
    assert!(!image.comps[0].sgnd);
    assert_eq!(image.comps[0].dx, 1);
    assert_eq!(image.comps[0].dy, 1);
    assert_eq!(image.comps[0].w, 64);
    assert_eq!(image.comps[0].h, 64);
    assert_eq!(cp.tdx, 64);
    assert_eq!(cp.tdy, 64);
    assert_eq!(cp.tw, 1);
    assert_eq!(cp.th, 1);
}

#[test]
fn siz_rejects_too_short() {
    let data = vec![0u8; 10];
    let mut image = Image::new_tile(&[], ColorSpace::Unknown);
    let mut cp = CodingParameters::new_encoder();
    assert!(read_siz(&data, &mut image, &mut cp).is_err());
}

#[test]
fn siz_subsampled_signed_component_and_tile_count() {
    // Image area [1, 65) x [3, 20), tiles of 16 x 8 from the origin,
    // one signed 12-bit component subsampled by 2 x 3.
    let mut d = Vec::new();
    d.extend_from_slice(&0u16.to_be_bytes());
    d.extend_from_slice(&65u32.to_be_bytes());
    d.extend_from_slice(&20u32.to_be_bytes());
    d.extend_from_slice(&1u32.to_be_bytes());
    d.extend_from_slice(&3u32.to_be_bytes());
    d.extend_from_slice(&16u32.to_be_bytes());
    d.extend_from_slice(&8u32.to_be_bytes());
    d.extend_from_slice(&0u32.to_be_bytes());
    d.extend_from_slice(&0u32.to_be_bytes());
    d.extend_from_slice(&1u16.to_be_bytes());
    d.push(0x80 | 11);
    d.push(2);
    d.push(3);
    let mut image = Image::new_tile(&[], ColorSpace::Unknown);
    let mut cp = CodingParameters::new_decoder();
    read_siz(&d, &mut image, &mut cp).unwrap();
    assert_eq!(cp.tw, 5);
    assert_eq!(cp.th, 3);
    let c = &image.comps[0];
    assert_eq!(c.prec, 12);
    assert!(c.sgnd);
    assert_eq!(c.x0, 1);
    assert_eq!(c.y0, 1);
    assert_eq!(c.w, 33 - 1);
    assert_eq!(c.h, 7 - 1);
}

#[test]
fn siz_rejects_zero_subsampling_and_bad_origin() {
    let mut d = make_siz_data();
    let n = d.len();
    d[n - 2] = 0;
    let mut image = Image::new_tile(&[], ColorSpace::Unknown);
    let mut cp = CodingParameters::new_encoder();
    assert!(read_siz(&d, &mut image, &mut cp).is_err());
    assert_eq!(image.x1, 64);

    let mut d = make_siz_data();
    d[26..30].copy_from_slice(&65u32.to_be_bytes());
    let mut image = Image::new_tile(&[], ColorSpace::Unknown);
    assert!(read_siz(&d, &mut image, &mut cp).is_err());

    let mut d = make_siz_data();
    d[34..36].copy_from_slice(&0u16.to_be_bytes());
    let mut image = Image::new_tile(&[], ColorSpace::Unknown);
    let mut cp = CodingParameters::new_encoder();
    assert!(read_siz(&d, &mut image, &mut cp).is_err());
    assert_eq!(image.x1, 0);
    assert_eq!(cp.tdx, 0);
}

fn make_cod_data() -> Vec<u8> {
    let mut d = Vec::new();
    d.push(0x00);
    d.push(0x00);
    d.extend_from_slice(&1u16.to_be_bytes());
    d.push(0x00);
    d.push(0x01);
    d.push(0x04);
    d.push(0x04);
    d.push(0x00);
    d.push(0x01);
    d
}

#[test]
fn cod_basic_parsing() {
    let data = make_cod_data();
    let mut tcp = TileCodingParameters::default();

    read_cod(&data, &mut tcp, 1).unwrap();

    assert_eq!(tcp.csty, 0);
    assert_eq!(tcp.prg, ProgressionOrder::Lrcp);
    assert_eq!(tcp.numlayers, 1);
    assert_eq!(tcp.mct, 0);
    assert_eq!(tcp.tccps.len(), 1);
    assert_eq!(tcp.tccps[0].numresolutions, 2);
    assert_eq!(tcp.tccps[0].cblkw, 6);
    assert_eq!(tcp.tccps[0].cblkh, 6);
    assert_eq!(tcp.tccps[0].qmfbid, 1);
    assert_eq!(tcp.tccps[0].prcw[0], 15);
    assert_eq!(tcp.tccps[0].prch[0], 15);
}

#[test]
fn cod_with_precincts() {
    let mut data = Vec::new();
    data.push(0x01);
    data.push(0x01);
    data.extend_from_slice(&2u16.to_be_bytes());
    data.push(0x01);
    data.push(0x01);
    data.push(0x04);
    data.push(0x04);
    data.push(0x00);
    data.push(0x01);
    data.push(0x55);
    data.push(0x66);

    let mut tcp = TileCodingParameters::default();
    read_cod(&data, &mut tcp, 1).unwrap();

    assert_eq!(tcp.prg, ProgressionOrder::Rlcp);
    assert_eq!(tcp.numlayers, 2);
    assert_eq!(tcp.mct, 1);
    assert_eq!(tcp.tccps[0].prcw[0], 5);
    assert_eq!(tcp.tccps[0].prch[0], 5);
    assert_eq!(tcp.tccps[0].prcw[1], 6);
    assert_eq!(tcp.tccps[0].prch[1], 6);
}

#[test]
fn cod_rejects_bad_fields() {
    let mut tcp = TileCodingParameters::default();
    let mut d = make_cod_data();
    d[1] = 5;
    assert!(read_cod(&d, &mut tcp, 1).is_err());
    assert_eq!(tcp.tccps.len(), 0);
    let mut d = make_cod_data();
    d[2] = 0;
    d[3] = 0;
    assert!(read_cod(&d, &mut tcp, 1).is_err());
    let mut d = make_cod_data();
    d[4] = 2;
    assert!(read_cod(&d, &mut tcp, 1).is_err());
    assert!(read_cod(&d[..4], &mut tcp, 1).is_err());
    assert_eq!(tcp.numlayers, 1);
}

#[test]
fn spcod_limits() {
    let mut t = TileCompCodingParameters::default();
    // 33 resolutions accepted, 34 refused.
    assert!(read_spcod_spcoc(&[32, 4, 4, 0, 1], &mut t, 0).is_ok());
    assert_eq!(t.numresolutions, 33);
    assert_eq!(t.prcw[32], 15);
    assert!(read_spcod_spcoc(&[33, 4, 4, 0, 1], &mut t, 0).is_err());
    assert_eq!(t.numresolutions, 33);
    // 1024 x 4 code-blocks accepted (exponents 10 + 2 = 12), 1024 x 8 refused.
    assert!(read_spcod_spcoc(&[0, 8, 0, 0, 0], &mut t, 0).is_ok());
    assert_eq!((t.cblkw, t.cblkh), (10, 2));
    assert!(read_spcod_spcoc(&[0, 8, 1, 0, 0], &mut t, 0).is_err());
    assert!(read_spcod_spcoc(&[0, 4, 4, 0, 2], &mut t, 0).is_err());
    // Precinct flag without precinct bytes: fixed fields stored, then refused.
    let mut t = TileCompCodingParameters::default();
    assert!(read_spcod_spcoc(&[1, 3, 3, 0, 1, 0x21], &mut t, 1).is_err());
    assert_eq!(t.numresolutions, 2);
    assert_eq!(t.cblkw, 5);
    assert_eq!(t.prcw[0], 15);
}

#[test]
fn qcd_noqnt() {
    let data = vec![0x40, 0x40, 0x48, 0x48, 0x50];

    let mut tcp = TileCodingParameters::default();
    read_qcd(&data, &mut tcp, 1).unwrap();

    assert_eq!(tcp.tccps[0].qntsty, J2K_CCP_QNTSTY_NOQNT);
    assert_eq!(tcp.tccps[0].numgbits, 2);
    assert_eq!(tcp.tccps[0].stepsizes[0].expn, 8);
    assert_eq!(tcp.tccps[0].stepsizes[0].mant, 0);
    assert_eq!(tcp.tccps[0].stepsizes[1].expn, 9);
    assert_eq!(tcp.tccps[0].stepsizes[3].expn, 10);
}

#[test]
fn qcd_seqnt() {
    let mut data = Vec::new();
    data.push(0x42);
    let val0 = (8u16 << 11) | 100;
    data.extend_from_slice(&val0.to_be_bytes());
    let val1 = (7u16 << 11) | 200;
    data.extend_from_slice(&val1.to_be_bytes());

    let mut tcp = TileCodingParameters::default();
    read_qcd(&data, &mut tcp, 1).unwrap();

    assert_eq!(tcp.tccps[0].qntsty, J2K_CCP_QNTSTY_SEQNT);
    assert_eq!(tcp.tccps[0].stepsizes[0].expn, 8);
    assert_eq!(tcp.tccps[0].stepsizes[0].mant, 100);
    assert_eq!(tcp.tccps[0].stepsizes[1].expn, 7);
    assert_eq!(tcp.tccps[0].stepsizes[1].mant, 200);
}

#[test]
fn qcd_siqnt() {
    let mut data = Vec::new();
    data.push(0x41);
    let val = (10u16 << 11) | 500;
    data.extend_from_slice(&val.to_be_bytes());

    let mut tcp = TileCodingParameters::default();
    read_qcd(&data, &mut tcp, 1).unwrap();

    assert_eq!(tcp.tccps[0].qntsty, J2K_CCP_QNTSTY_SIQNT);
    assert_eq!(tcp.tccps[0].stepsizes[0].expn, 10);
    assert_eq!(tcp.tccps[0].stepsizes[0].mant, 500);
    assert_eq!(tcp.tccps[0].stepsizes[1].expn, 10);
    assert_eq!(tcp.tccps[0].stepsizes[4].expn, 9);
}

#[test]
fn sqcd_siqnt_exponent_floors_at_zero_and_errors() {
    let mut t = TileCompCodingParameters::default();
    read_sqcd_sqcc(&[0x01, (2 << 3), 0], &mut t).unwrap();
    assert_eq!(t.stepsizes[0].expn, 2);
    assert_eq!(t.stepsizes[6].expn, 1);
    assert_eq!(t.stepsizes[7].expn, 0);
    assert_eq!(t.stepsizes[96].expn, 0);
    let mut t = TileCompCodingParameters::default();
    assert!(read_sqcd_sqcc(&[], &mut t).is_err());
    assert!(read_sqcd_sqcc(&[0x01, 0x10], &mut t).is_err());
    assert_eq!(t.qntsty, 1);
    assert!(read_sqcd_sqcc(&[0x02, 1, 2, 3], &mut t).is_err());
    assert!(read_sqcd_sqcc(&[0x03], &mut t).is_err());
    assert_eq!(t.stepsizes[0].expn, 0);
}

#[test]
fn qcd_grows_components_and_ignores_empty_set() {
    let mut tcp = TileCodingParameters::default();
    read_qcd(&[0x40, 0x40], &mut tcp, 3).unwrap();
    assert_eq!(tcp.tccps.len(), 3);
    assert_eq!(tcp.tccps[2].stepsizes[0].expn, 8);
    let mut empty = TileCodingParameters::default();
    assert!(read_qcd(&[0x1F], &mut empty, 0).is_ok());
    assert!(read_qcd(&[0x1F], &mut tcp, 0).is_err());
}

#[test]
fn com_parsing() {
    let mut data = Vec::new();
    data.extend_from_slice(&1u16.to_be_bytes());
    data.extend_from_slice(b"hello");

    let (rcom, comment) = read_com(&data).unwrap();
    assert_eq!(rcom, 1);
    assert_eq!(comment, b"hello");
}

#[test]
fn com_too_short_fails() {
    assert!(read_com(&[0x00]).is_err());
    let (rcom, comment) = read_com(&[0x12, 0x34]).unwrap();
    assert_eq!(rcom, 0x1234);
    assert!(comment.is_empty());
}

#[test]
fn sot_marker_parsing() {
    let data = vec![
        0x00, 0x02, // Isot = 2
        0x00, 0x00, 0x00, 0x20, // Psot = 32
        0x01, // TPsot = 1
        0x03, // TNsot = 3
    ];
    let sot = read_sot(&data).unwrap();
    assert_eq!(sot.tile_no, 2);
    assert_eq!(sot.psot, 32);
    assert_eq!(sot.tp_idx, 1);
    assert_eq!(sot.nb_parts, 3);
}

#[test]
fn sot_too_short_fails() {
    assert!(read_sot(&[0, 1, 0, 0, 0, 12, 0]).is_err());
}

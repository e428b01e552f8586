use openjpeg_rs::io::cio::MemoryStream;
use openjpeg_rs::jp2::read::Jp2Decoder;
use openjpeg_rs::jp2::{
    ColourMethod, JP2_COLR, JP2_FTYP, JP2_IHDR, JP2_JP, JP2_JP2_BRAND, JP2_JP2C, JP2_JP2H, JP2_MAGIC, Jp2State,
};
use openjpeg_rs::types::ColorSpace;

fn build_jp_box() -> Vec<u8> {
    let mut b = Vec::new();
    b.extend_from_slice(&12u32.to_be_bytes());
    b.extend_from_slice(&JP2_JP.to_be_bytes());
    b.extend_from_slice(&JP2_MAGIC.to_be_bytes());
    b
}

fn build_ftyp_box() -> Vec<u8> {
    let mut b = Vec::new();
    b.extend_from_slice(&20u32.to_be_bytes());
    b.extend_from_slice(&JP2_FTYP.to_be_bytes());
    b.extend_from_slice(&JP2_JP2_BRAND.to_be_bytes());
    b.extend_from_slice(&0u32.to_be_bytes());
    b.extend_from_slice(&JP2_JP2_BRAND.to_be_bytes());
    b
}

fn build_ihdr_box(w: u32, h: u32, nc: u16, bpc: u8) -> Vec<u8> {
    let mut b = Vec::new();
    b.extend_from_slice(&22u32.to_be_bytes());
    b.extend_from_slice(&JP2_IHDR.to_be_bytes());
    b.extend_from_slice(&h.to_be_bytes());
    b.extend_from_slice(&w.to_be_bytes());
    b.extend_from_slice(&nc.to_be_bytes());
    b.push(bpc);
    b.push(7);
    b.push(0);
    b.push(0);
    b
}

fn build_colr_enumcs_box(enumcs: u32) -> Vec<u8> {
    let mut b = Vec::new();
    b.extend_from_slice(&15u32.to_be_bytes());
    b.extend_from_slice(&JP2_COLR.to_be_bytes());
    b.push(1);
    b.push(0);
    b.push(0);
    b.extend_from_slice(&enumcs.to_be_bytes());
    b
}

fn build_jp2h_box(w: u32, h: u32, nc: u16, bpc: u8, enumcs: u32) -> Vec<u8> {
    let ihdr = build_ihdr_box(w, h, nc, bpc);
    let colr = build_colr_enumcs_box(enumcs);
    let total_len = 8 + ihdr.len() + colr.len();
    let mut b = Vec::new();
    b.extend_from_slice(&(total_len as u32).to_be_bytes());
    b.extend_from_slice(&JP2_JP2H.to_be_bytes());
    b.extend_from_slice(&ihdr);
    b.extend_from_slice(&colr);
    b
}

fn build_minimal_j2k(w: u32, h: u32, nc: u16) -> Vec<u8> {
    let mut buf = Vec::new();
    buf.extend_from_slice(&[0xFF, 0x4F]);
    let mut siz_payload = Vec::new();
    siz_payload.extend_from_slice(&0u16.to_be_bytes());
    siz_payload.extend_from_slice(&w.to_be_bytes());
    siz_payload.extend_from_slice(&h.to_be_bytes());
    siz_payload.extend_from_slice(&0u32.to_be_bytes());
    siz_payload.extend_from_slice(&0u32.to_be_bytes());
    siz_payload.extend_from_slice(&w.to_be_bytes());
    siz_payload.extend_from_slice(&h.to_be_bytes());
    siz_payload.extend_from_slice(&0u32.to_be_bytes());
    siz_payload.extend_from_slice(&0u32.to_be_bytes());
    siz_payload.extend_from_slice(&nc.to_be_bytes());
    for _ in 0..nc {
        siz_payload.push(0x07);
        siz_payload.push(0x01);
        siz_payload.push(0x01);
    }
    let siz_len = (siz_payload.len() + 2) as u16;
    buf.extend_from_slice(&[0xFF, 0x51]);
    buf.extend_from_slice(&siz_len.to_be_bytes());
    buf.extend_from_slice(&siz_payload);

    let mut cod_payload = Vec::new();
    cod_payload.push(0x00);
    cod_payload.push(0x00);
    cod_payload.extend_from_slice(&1u16.to_be_bytes());
    cod_payload.push(0x00);
    cod_payload.push(0x00);
    cod_payload.push(0x04);
    cod_payload.push(0x04);
    cod_payload.push(0x00);
    cod_payload.push(0x01);
    let cod_len = (cod_payload.len() + 2) as u16;
    buf.extend_from_slice(&[0xFF, 0x52]);
    buf.extend_from_slice(&cod_len.to_be_bytes());
    buf.extend_from_slice(&cod_payload);

    let qcd_payload = vec![0x40, 0x40];
    let qcd_len = (qcd_payload.len() + 2) as u16;
    buf.extend_from_slice(&[0xFF, 0x5C]);
    buf.extend_from_slice(&qcd_len.to_be_bytes());
    buf.extend_from_slice(&qcd_payload);

    let tile_data = vec![0u8; 4];
    let psot: u32 = 12 + 2 + tile_data.len() as u32;
    buf.extend_from_slice(&[0xFF, 0x90]);
    buf.extend_from_slice(&10u16.to_be_bytes());
    buf.extend_from_slice(&0u16.to_be_bytes());
    buf.extend_from_slice(&psot.to_be_bytes());
    buf.push(0x00);
    buf.push(0x01);
    buf.extend_from_slice(&[0xFF, 0x93]);
    buf.extend_from_slice(&tile_data);
    buf.extend_from_slice(&[0xFF, 0xD9]);
    buf
}

fn build_jp2c_box(j2k: &[u8]) -> Vec<u8> {
    let total_len = 8 + j2k.len();
    let mut b = Vec::new();
    b.extend_from_slice(&(total_len as u32).to_be_bytes());
    b.extend_from_slice(&JP2_JP2C.to_be_bytes());
    b.extend_from_slice(j2k);
    b
}

fn build_minimal_jp2() -> Vec<u8> {
    let mut file = Vec::new();
    file.extend_from_slice(&build_jp_box());
    file.extend_from_slice(&build_ftyp_box());
    file.extend_from_slice(&build_jp2h_box(8, 8, 1, 8, 17));
    file.extend_from_slice(&build_jp2c_box(&build_minimal_j2k(8, 8, 1)));
    file
}

fn ihdr_payload(h: u32, w: u32, nc: u16, bpc: u8) -> Vec<u8> {
    let mut d = Vec::new();
    d.extend_from_slice(&h.to_be_bytes());
    d.extend_from_slice(&w.to_be_bytes());
    d.extend_from_slice(&nc.to_be_bytes());
    d.push(bpc);
    d.push(7);
    d.push(0);
    d.push(0);
    d
}

#[test]
fn read_jp_signature_valid() {
    let mut dec = Jp2Decoder::new();
    dec.read_jp(&JP2_MAGIC.to_be_bytes()).unwrap();
    assert_eq!(dec.state, Jp2State::Signature);
}

#[test]
fn read_jp_signature_bad_magic() {
    let mut dec = Jp2Decoder::new();
    let result = dec.read_jp(&0xDEADBEEFu32.to_be_bytes());
    assert!(result.is_err());
}

#[test]
fn read_jp_signature_wrong_state() {
    let mut dec = Jp2Decoder::new();
    dec.state = Jp2State::Signature;
    let result = dec.read_jp(&JP2_MAGIC.to_be_bytes());
    assert!(result.is_err());
}

#[test]
fn read_ftyp_valid() {
    let mut dec = Jp2Decoder::new();
    dec.state = Jp2State::Signature;
    let mut data = Vec::new();
    data.extend_from_slice(&JP2_JP2_BRAND.to_be_bytes());
    data.extend_from_slice(&0u32.to_be_bytes());
    data.extend_from_slice(&JP2_JP2_BRAND.to_be_bytes());
    dec.read_ftyp(&data).unwrap();
    assert_eq!(dec.state, Jp2State::FileType);
}

#[test]
fn read_ftyp_wrong_state() {
    let mut dec = Jp2Decoder::new();
    let data = vec![0u8; 12];
    let result = dec.read_ftyp(&data);
    assert!(result.is_err());
}

#[test]
fn read_ihdr_valid() {
    let mut dec = Jp2Decoder::new();
    let data = ihdr_payload(100, 200, 3, 8);
    dec.read_ihdr(&data).unwrap();
    assert_eq!(dec.height, 100);
    assert_eq!(dec.width, 200);
    assert_eq!(dec.numcomps, 3);
    assert_eq!(dec.bpc, 8);
    assert_eq!(dec.compression_type, 7);
    assert!(dec.ihdr_found);
    assert_eq!(dec.comp_info.len(), 3);
    for ci in &dec.comp_info {
        // The raw BPC byte 8 decoded: precision (8 & 0x7F) + 1, unsigned.
        assert_eq!(ci.prec, (8 & 0x7F) + 1);
        assert!(!ci.sgnd);
    }
}

#[test]
fn read_ihdr_zero_dimensions_fails() {
    let mut dec = Jp2Decoder::new();
    let data = ihdr_payload(0, 200, 3, 8);
    assert!(dec.read_ihdr(&data).is_err());
}

#[test]
fn read_ihdr_bad_size_fails() {
    let mut dec = Jp2Decoder::new();
    let data = vec![0u8; 10];
    assert!(dec.read_ihdr(&data).is_err());
}

#[test]
fn read_ihdr_duplicate_ignored_and_too_many_components() {
    let mut dec = Jp2Decoder::new();
    assert!(dec.read_ihdr(&ihdr_payload(1, 1, 16385, 7)).is_err());
    assert!(!dec.ihdr_found);
    dec.read_ihdr(&ihdr_payload(4, 5, 2, 0x87)).unwrap();
    assert_eq!(dec.comp_info[1].prec, 8);
    assert!(dec.comp_info[1].sgnd);
    dec.read_ihdr(&ihdr_payload(9, 9, 9, 1)).unwrap();
    assert_eq!(dec.numcomps, 2);
    assert_eq!(dec.height, 4);
}

#[test]
fn read_colr_enumerated() {
    let mut dec = Jp2Decoder::new();
    let mut data = Vec::new();
    data.push(1);
    data.push(0);
    data.push(0);
    data.extend_from_slice(&16u32.to_be_bytes());
    dec.read_colr(&data).unwrap();
    assert_eq!(dec.colour.meth, ColourMethod::Enumerated);
    assert_eq!(dec.colour.enumcs, 16);
    assert!(dec.colr_found);
}

#[test]
fn read_colr_icc() {
    let mut dec = Jp2Decoder::new();
    let mut data = Vec::new();
    data.push(2);
    data.push(0);
    data.push(0);
    data.extend_from_slice(&[0xDE, 0xAD, 0xBE, 0xEF]);
    dec.read_colr(&data).unwrap();
    assert_eq!(dec.colour.meth, ColourMethod::Icc);
    assert_eq!(dec.colour.icc_profile, vec![0xDE, 0xAD, 0xBE, 0xEF]);
}

#[test]
fn read_colr_duplicate_ignored() {
    let mut dec = Jp2Decoder::new();
    let mut data = Vec::new();
    data.push(1);
    data.push(0);
    data.push(0);
    data.extend_from_slice(&16u32.to_be_bytes());
    dec.read_colr(&data).unwrap();
    assert_eq!(dec.colour.enumcs, 16);

    let mut data2 = Vec::new();
    data2.push(1);
    data2.push(0);
    data2.push(0);
    data2.extend_from_slice(&17u32.to_be_bytes());
    dec.read_colr(&data2).unwrap();
    assert_eq!(dec.colour.enumcs, 16);
}

#[test]
fn read_colr_refusals() {
    let mut dec = Jp2Decoder::new();
    assert!(dec.read_colr(&[1, 0]).is_err());
    assert!(dec.read_colr(&[1, 5, 6, 0, 0]).is_err());
    assert_eq!(dec.colour.precedence, 5);
    assert!(dec.read_colr(&[3, 0, 0, 0, 0, 0, 0]).is_err());
    assert!(!dec.colr_found);
}

#[test]
fn read_bpcc_valid() {
    let mut dec = Jp2Decoder::new();
    dec.read_ihdr(&ihdr_payload(10, 10, 3, 255)).unwrap();

    let bpcc_data = vec![8, 10, 12];
    dec.read_bpcc(&bpcc_data).unwrap();
    // Raw bytes 8, 10, 12 decoded: precision raw + 1, unsigned.
    assert_eq!(dec.comp_info[0].prec, 9);
    assert_eq!(dec.comp_info[1].prec, 11);
    assert_eq!(dec.comp_info[2].prec, 13);
    assert!(!dec.comp_info[2].sgnd);
}

#[test]
fn read_bpcc_before_ihdr_fails() {
    let mut dec = Jp2Decoder::new();
    let data = vec![8, 10, 12];
    assert!(dec.read_bpcc(&data).is_err());
}

#[test]
fn read_bpcc_wrong_size_fails() {
    let mut dec = Jp2Decoder::new();
    dec.read_ihdr(&ihdr_payload(10, 10, 3, 255)).unwrap();
    let data = vec![8, 10];
    assert!(dec.read_bpcc(&data).is_err());
}

#[test]
fn read_jp2h_with_ihdr_and_colr() {
    let mut dec = Jp2Decoder::new();
    dec.state = Jp2State::FileType;

    let ihdr = build_ihdr_box(8, 8, 1, 8);
    let colr = build_colr_enumcs_box(17);
    let mut payload = Vec::new();
    payload.extend_from_slice(&ihdr);
    payload.extend_from_slice(&colr);

    dec.read_jp2h(&payload).unwrap();
    assert_eq!(dec.state, Jp2State::Header);
    assert_eq!(dec.width, 8);
    assert_eq!(dec.height, 8);
    assert_eq!(dec.numcomps, 1);
    assert!(dec.colr_found);
}

#[test]
fn read_jp2h_missing_ihdr_fails() {
    let mut dec = Jp2Decoder::new();
    dec.state = Jp2State::FileType;

    let colr = build_colr_enumcs_box(17);
    assert!(dec.read_jp2h(&colr).is_err());
}

#[test]
fn read_jp2h_bad_sub_box_length_fails() {
    let mut dec = Jp2Decoder::new();
    dec.state = Jp2State::FileType;
    let mut ihdr = build_ihdr_box(8, 8, 1, 8);
    ihdr[3] = 40;
    assert!(dec.read_jp2h(&ihdr).is_err());
    let mut dec = Jp2Decoder::new();
    assert!(dec.read_jp2h(&build_ihdr_box(8, 8, 1, 8)).is_err());
}

#[test]
fn read_jp2_header_minimal() {
    let jp2_data = build_minimal_jp2();
    let mut stream = MemoryStream::new_input(jp2_data);
    let mut dec = Jp2Decoder::new();

    dec.read_header(&mut stream).unwrap();

    assert_eq!(dec.state, Jp2State::Codestream);
    assert_eq!(dec.width, 8);
    assert_eq!(dec.height, 8);
    assert_eq!(dec.numcomps, 1);
    assert_eq!(dec.bpc, 8);
    assert!(dec.ihdr_found);
    assert!(dec.colr_found);
}

#[test]
fn read_jp2_header_then_codestream() {
    let jp2_data = build_minimal_jp2();
    let mut stream = MemoryStream::new_input(jp2_data);
    let mut dec = Jp2Decoder::new();

    dec.read_header(&mut stream).unwrap();
    dec.read_codestream(&mut stream).unwrap();

    assert_eq!(dec.j2k.image.x1, 8);
    assert_eq!(dec.j2k.image.y1, 8);
    assert_eq!(dec.j2k.image.comps.len(), 1);
    assert_eq!(dec.j2k.tile_data.len(), 1);
}

#[test]
fn read_jp2_colour_applied_to_image() {
    let jp2_data = build_minimal_jp2();
    let mut stream = MemoryStream::new_input(jp2_data);
    let mut dec = Jp2Decoder::new();

    dec.read_header(&mut stream).unwrap();
    dec.read_codestream(&mut stream).unwrap();

    assert_eq!(dec.j2k.image.color_space, ColorSpace::Gray);
}

#[test]
fn read_jp2_srgb_colour() {
    let mut file = Vec::new();
    file.extend_from_slice(&build_jp_box());
    file.extend_from_slice(&build_ftyp_box());
    file.extend_from_slice(&build_jp2h_box(8, 8, 3, 8, 16));
    file.extend_from_slice(&build_jp2c_box(&build_minimal_j2k(8, 8, 3)));

    let mut stream = MemoryStream::new_input(file);
    let mut dec = Jp2Decoder::new();
    dec.read_header(&mut stream).unwrap();
    dec.read_codestream(&mut stream).unwrap();

    assert_eq!(dec.j2k.image.color_space, ColorSpace::Srgb);
    assert_eq!(dec.j2k.image.comps.len(), 3);
}

#[test]
fn read_jp2_jp2c_before_header_fails() {
    let j2k = build_minimal_j2k(8, 8, 1);
    let mut file = Vec::new();
    file.extend_from_slice(&build_jp_box());
    file.extend_from_slice(&build_ftyp_box());
    file.extend_from_slice(&build_jp2c_box(&j2k));

    let mut stream = MemoryStream::new_input(file);
    let mut dec = Jp2Decoder::new();
    assert!(dec.read_header(&mut stream).is_err());
}

#[test]
fn read_codestream_before_header_fails() {
    let jp2_data = build_minimal_jp2();
    let mut stream = MemoryStream::new_input(jp2_data);
    let mut dec = Jp2Decoder::new();
    assert!(dec.read_codestream(&mut stream).is_err());
}

#[test]
fn apply_colour_maps_codes_and_copies_icc() {
    let mut dec = Jp2Decoder::new();
    dec.colour.enumcs = 24;
    dec.apply_colour();
    assert_eq!(dec.j2k.image.color_space, ColorSpace::Eycc);
    dec.colour.enumcs = 5;
    dec.apply_colour();
    assert_eq!(dec.j2k.image.color_space, ColorSpace::Unknown);
    dec.colour.meth = ColourMethod::Icc;
    dec.colour.icc_profile = vec![1, 2, 3];
    dec.apply_colour();
    assert_eq!(dec.j2k.image.icc_profile, vec![1, 2, 3]);
    assert_eq!(dec.j2k.image.color_space, ColorSpace::Unknown);
}

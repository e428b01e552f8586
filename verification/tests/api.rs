use openjpeg_rs::api::{decode, decode_owned, detect_format, CodecFormat};
use openjpeg_rs::error::Error;
use openjpeg_rs::image::{Image, ImageCompParam};
use openjpeg_rs::jp2::write::Jp2Encoder;
use openjpeg_rs::jp2::{ColourMethod, Jp2Colour};
use openjpeg_rs::types::ColorSpace;

fn build_minimal_j2k(w: u32, h: u32, nc: u16) -> Vec<u8> {
    let mut buf = Vec::new();
    buf.extend_from_slice(&[0xFF, 0x4F]);

    let mut siz = Vec::new();
    siz.extend_from_slice(&0u16.to_be_bytes());
    siz.extend_from_slice(&w.to_be_bytes());
    siz.extend_from_slice(&h.to_be_bytes());
    siz.extend_from_slice(&0u32.to_be_bytes());
    siz.extend_from_slice(&0u32.to_be_bytes());
    siz.extend_from_slice(&w.to_be_bytes());
    siz.extend_from_slice(&h.to_be_bytes());
    siz.extend_from_slice(&0u32.to_be_bytes());
    siz.extend_from_slice(&0u32.to_be_bytes());
    siz.extend_from_slice(&nc.to_be_bytes());
    for _ in 0..nc {
        siz.push(0x07);
        siz.push(0x01);
        siz.push(0x01);
    }
    let siz_len = (siz.len() + 2) as u16;
    buf.extend_from_slice(&[0xFF, 0x51]);
    buf.extend_from_slice(&siz_len.to_be_bytes());
    buf.extend_from_slice(&siz);

    let cod = vec![0x00, 0x00, 0x00, 0x01, 0x00, 0x00, 0x04, 0x04, 0x00, 0x01];
    let cod_len = (cod.len() + 2) as u16;
    buf.extend_from_slice(&[0xFF, 0x52]);
    buf.extend_from_slice(&cod_len.to_be_bytes());
    buf.extend_from_slice(&cod);

    let qcd = vec![0x40, 0x40];
    let qcd_len = (qcd.len() + 2) as u16;
    buf.extend_from_slice(&[0xFF, 0x5C]);
    buf.extend_from_slice(&qcd_len.to_be_bytes());
    buf.extend_from_slice(&qcd);

    let tile_data = vec![0u8; 4];
    let psot: u32 = 12 + 2 + tile_data.len() as u32;
    buf.extend_from_slice(&[0xFF, 0x90]);
    buf.extend_from_slice(&10u16.to_be_bytes());
    buf.extend_from_slice(&0u16.to_be_bytes());
    buf.extend_from_slice(&psot.to_be_bytes());
    buf.push(0x00);
    buf.push(0x01);
    buf.extend_from_slice(&[0xFF, 0x93]);
    buf.extend_from_slice(&tile_data);
    buf.extend_from_slice(&[0xFF, 0xD9]);
    buf
}

fn build_minimal_jp2() -> Vec<u8> {
    let mut enc = Jp2Encoder::new();
    let params: Vec<_> = (0..1)
        .map(|_| ImageCompParam {
            dx: 1,
            dy: 1,
            w: 8,
            h: 8,
            x0: 0,
            y0: 0,
            prec: 8,
            sgnd: false,
        })
        .collect();
    let mut image = Image::new(&params, ColorSpace::Gray);
    image.x0 = 0;
    image.y0 = 0;
    image.x1 = 8;
    image.y1 = 8;
    let colour = Jp2Colour {
        meth: ColourMethod::Enumerated,
        precedence: 0,
        approx: 0,
        enumcs: 17,
        icc_profile: Vec::new(),
    };
    enc.write_header(&image, &colour, None).unwrap();
    enc.write_codestream(&build_minimal_j2k(8, 8, 1)).unwrap();
    enc.finalize()
}

// -----------------------------------------------------------------------
// Tests: detect_format
// -----------------------------------------------------------------------

#[test]
fn detect_format_j2k() {
    let j2k = build_minimal_j2k(8, 8, 1);
    assert_eq!(detect_format(&j2k), Some(CodecFormat::J2k));
}

#[test]
fn detect_format_jp2() {
    let jp2 = build_minimal_jp2();
    assert_eq!(detect_format(&jp2), Some(CodecFormat::Jp2));
}

#[test]
fn detect_format_unknown() {
    assert_eq!(detect_format(&[0x00, 0x01, 0x02, 0x03]), None);
}

#[test]
fn detect_format_too_short() {
    assert_eq!(detect_format(&[0xFF]), None);
}


#[test]
fn decode_j2k_basic() {
    let j2k = build_minimal_j2k(8, 8, 1);
    let image = decode(&j2k, CodecFormat::J2k).unwrap();
    assert_eq!(image.x1, 8);
    assert_eq!(image.y1, 8);
    assert_eq!(image.comps.len(), 1);
}

#[test]
fn decode_jp2_basic() {
    let jp2 = build_minimal_jp2();
    let image = decode(&jp2, CodecFormat::Jp2).unwrap();
    assert_eq!(image.x1, 8);
    assert_eq!(image.y1, 8);
    assert_eq!(image.comps.len(), 1);
    assert_eq!(image.color_space, ColorSpace::Gray);
}

#[test]
fn decode_empty_fails() {
    assert!(decode(&[], CodecFormat::J2k).is_err());
}

#[test]
fn decode_owned_refuses_missing_soc() {
    assert!(matches!(decode_owned(vec![0x00, 0x01, 0x02], CodecFormat::J2k), Err(Error::InvalidInput(_))));
    assert!(matches!(decode_owned(vec![0xFF], CodecFormat::J2k), Err(Error::EndOfStream)));
    assert!(decode_owned(vec![0, 0, 0, 12], CodecFormat::Jp2).is_err());
}

#[test]
fn decode_j2k_three_components() {
    let j2k = build_minimal_j2k(5, 3, 3);
    let image = decode_owned(j2k, CodecFormat::J2k).unwrap();
    assert_eq!(image.x1, 5);
    assert_eq!(image.y1, 3);
    assert_eq!(image.comps.len(), 3);
    assert_eq!(image.comps[2].prec, 8);
}

#[test]
fn decode_soc_eoc_codestream_succeeds() {
    let img = decode(&[0xFF, 0x4F, 0xFF, 0xD9], CodecFormat::J2k).unwrap();
    assert!(img.comps.is_empty());
}

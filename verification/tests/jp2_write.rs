use openjpeg_rs::image::{Image, ImageCompParam};
use openjpeg_rs::io::cio::read_bytes_be;
use openjpeg_rs::jp2::write::{encode_bpc, Jp2Encoder};
use openjpeg_rs::jp2::{
    CdefEntry, ColourMethod, Jp2Colour, JP2_BPCC, JP2_CDEF, JP2_COLR, JP2_FTYP, JP2_IHDR, JP2_JP, JP2_JP2C,
    JP2_JP2H, JP2_JP2_BRAND, JP2_MAGIC,
};
use openjpeg_rs::types::ColorSpace;

fn create_test_image(nc: usize, prec: u32, sgnd: bool) -> Image {
    let params: Vec<_> = (0..nc)
        .map(|_| ImageCompParam {
            dx: 1,
            dy: 1,
            w: 8,
            h: 8,
            x0: 0,
            y0: 0,
            prec,
            sgnd,
        })
        .collect();
    let cs = if nc == 1 {
        ColorSpace::Gray
    } else {
        ColorSpace::Srgb
    };
    let mut image = Image::new(&params, cs);
    image.x0 = 0;
    image.y0 = 0;
    image.x1 = 8;
    image.y1 = 8;
    image
}

fn create_gray_colour() -> Jp2Colour {
    Jp2Colour {
        meth: ColourMethod::Enumerated,
        precedence: 0,
        approx: 0,
        enumcs: 17,
        icc_profile: Vec::new(),
    }
}

fn create_srgb_colour() -> Jp2Colour {
    Jp2Colour {
        meth: ColourMethod::Enumerated,
        precedence: 0,
        approx: 0,
        enumcs: 16,
        icc_profile: Vec::new(),
    }
}

// -----------------------------------------------------------------------
// Tests: encode_bpc helper
// -----------------------------------------------------------------------

#[test]
fn encode_bpc_8bit_unsigned() {
    assert_eq!(encode_bpc(8, false), 0x07);
}

#[test]
fn encode_bpc_16bit_signed() {
    assert_eq!(encode_bpc(16, true), 0x8F);
}

// -----------------------------------------------------------------------
// Tests: box writing
// -----------------------------------------------------------------------

#[test]
fn write_header_starts_with_jp_box() {
    let image = create_test_image(1, 8, false);
    let colour = create_gray_colour();
    let mut enc = Jp2Encoder::new();
    enc.write_header(&image, &colour, None).unwrap();

    // JP signature box: length=12, type=JP2_JP, magic
    assert_eq!(read_bytes_be(&enc.output[0..], 4), 12);
    assert_eq!(read_bytes_be(&enc.output[4..], 4), JP2_JP);
    assert_eq!(read_bytes_be(&enc.output[8..], 4), JP2_MAGIC);
}

#[test]
fn write_header_has_ftyp_box() {
    let image = create_test_image(1, 8, false);
    let colour = create_gray_colour();
    let mut enc = Jp2Encoder::new();
    enc.write_header(&image, &colour, None).unwrap();

    // FTYP follows JP at offset 12
    assert_eq!(read_bytes_be(&enc.output[12..], 4), 20); // length
    assert_eq!(read_bytes_be(&enc.output[16..], 4), JP2_FTYP);
    assert_eq!(read_bytes_be(&enc.output[20..], 4), JP2_JP2_BRAND);
}

#[test]
fn write_header_has_jp2h_with_ihdr() {
    let image = create_test_image(1, 8, false);
    let colour = create_gray_colour();
    let mut enc = Jp2Encoder::new();
    enc.write_header(&image, &colour, None).unwrap();

    // JP2H follows FTYP at offset 32
    let jp2h_off = 32;
    assert_eq!(read_bytes_be(&enc.output[jp2h_off + 4..], 4), JP2_JP2H);

    // IHDR is first sub-box at jp2h_off + 8
    let ihdr_off = jp2h_off + 8;
    assert_eq!(read_bytes_be(&enc.output[ihdr_off..], 4), 22); // IHDR length
    assert_eq!(read_bytes_be(&enc.output[ihdr_off + 4..], 4), JP2_IHDR);
    assert_eq!(read_bytes_be(&enc.output[ihdr_off + 8..], 4), 8); // height
    assert_eq!(read_bytes_be(&enc.output[ihdr_off + 12..], 4), 8); // width
    assert_eq!(read_bytes_be(&enc.output[ihdr_off + 16..], 2), 1); // numcomps
    assert_eq!(enc.output[ihdr_off + 18], 0x07); // BPC (8-bit unsigned)
    assert_eq!(enc.output[ihdr_off + 19], 7); // compression type
}

#[test]
fn write_header_has_colr_enumerated() {
    let image = create_test_image(1, 8, false);
    let colour = create_gray_colour();
    let mut enc = Jp2Encoder::new();
    enc.write_header(&image, &colour, None).unwrap();

    // Find COLR box after IHDR
    let colr_off = 32 + 8 + 22; // JP2H header + IHDR
    assert_eq!(read_bytes_be(&enc.output[colr_off + 4..], 4), JP2_COLR);
    assert_eq!(enc.output[colr_off + 8], 1); // METH=1 (enumerated)
    assert_eq!(read_bytes_be(&enc.output[colr_off + 11..], 4), 17); // EnumCS=gray
}

#[test]
fn write_header_with_icc_profile() {
    let image = create_test_image(3, 8, false);
    let colour = Jp2Colour {
        meth: ColourMethod::Icc,
        precedence: 0,
        approx: 0,
        enumcs: 0,
        icc_profile: vec![0xDE, 0xAD, 0xBE, 0xEF],
    };
    let mut enc = Jp2Encoder::new();
    enc.write_header(&image, &colour, None).unwrap();

    // Find COLR box: offset = JP(12) + FTYP(20) + JP2H_hdr(8) + IHDR(22)
    let colr_off = 12 + 20 + 8 + 22;
    assert_eq!(read_bytes_be(&enc.output[colr_off + 4..], 4), JP2_COLR);
    assert_eq!(enc.output[colr_off + 8], 2); // METH=2 (ICC)
    // ICC profile data follows at offset + 11
    assert_eq!(
        &enc.output[colr_off + 11..colr_off + 15],
        &[0xDE, 0xAD, 0xBE, 0xEF]
    );
}

#[test]
fn write_header_variable_bpc_writes_bpcc() {
    // 3 components with different precisions
    let mut image = create_test_image(3, 8, false);
    image.comps[1].prec = 10;
    image.comps[2].prec = 12;
    let colour = create_srgb_colour();
    let mut enc = Jp2Encoder::new();
    enc.write_header(&image, &colour, None).unwrap();

    // IHDR BPC should be 255
    let ihdr_off = 32 + 8;
    assert_eq!(enc.output[ihdr_off + 18], 255);

    // BPCC box follows IHDR
    let bpcc_off = ihdr_off + 22;
    assert_eq!(read_bytes_be(&enc.output[bpcc_off + 4..], 4), JP2_BPCC);
    assert_eq!(enc.output[bpcc_off + 8], 0x07); // comp 0: 8-bit unsigned
    assert_eq!(enc.output[bpcc_off + 9], 0x09); // comp 1: 10-bit unsigned
    assert_eq!(enc.output[bpcc_off + 10], 0x0B); // comp 2: 12-bit unsigned
}

#[test]
fn write_header_with_cdef() {
    let image = create_test_image(3, 8, false);
    let colour = create_srgb_colour();
    let cdef = vec![
        CdefEntry {
            cn: 0,
            typ: 0,
            asoc: 1,
        },
        CdefEntry {
            cn: 1,
            typ: 0,
            asoc: 2,
        },
        CdefEntry {
            cn: 2,
            typ: 0,
            asoc: 3,
        },
    ];
    let mut enc = Jp2Encoder::new();
    enc.write_header(&image, &colour, Some(&cdef)).unwrap();

    // Find CDEF in output (after JP2H header + IHDR + COLR)
    let found = enc
        .output
        .windows(4)
        .any(|w| read_bytes_be(w, 4) == JP2_CDEF);
    assert!(found, "CDEF box not found in output");
}

// -----------------------------------------------------------------------
// Tests: JP2C codestream box
// -----------------------------------------------------------------------

#[test]
fn write_codestream_wraps_in_jp2c() {
    let j2k_data = vec![0xFF, 0x4F, 0xAA, 0xBB]; // fake J2K
    let mut enc = Jp2Encoder::new();
    enc.write_codestream(&j2k_data).unwrap();

    assert_eq!(read_bytes_be(&enc.output[0..], 4), 12); // length = 8 + 4
    assert_eq!(read_bytes_be(&enc.output[4..], 4), JP2_JP2C);
    assert_eq!(&enc.output[8..], &j2k_data);
}


use openjpeg_rs::image::{Image, ImageCompParam};
use openjpeg_rs::io::cio::{MemoryStream, read_bytes_be};
use openjpeg_rs::j2k::markers::{patch_psot, read_sot, write_cod, write_qcd, write_sot};
use openjpeg_rs::j2k::params::{CodingParameters, TileCodingParameters, TileCompCodingParameters};
use openjpeg_rs::j2k::read::J2kDecoder;
use openjpeg_rs::j2k::write::J2kEncoder;
use openjpeg_rs::types::ColorSpace;

fn create_test_image_and_params() -> (Image, CodingParameters, TileCodingParameters) {
    let params = vec![ImageCompParam { dx: 1, dy: 1, w: 8, h: 8, x0: 0, y0: 0, prec: 8, sgnd: false }];
    let mut image = Image::new(&params, ColorSpace::Gray);
    image.x0 = 0;
    image.y0 = 0;
    image.x1 = 8;
    image.y1 = 8;

    let tccp = TileCompCodingParameters { numresolutions: 2, cblkw: 6, cblkh: 6, qmfbid: 1, ..Default::default() };
    let tcp = TileCodingParameters { numlayers: 1, tccps: vec![tccp], ..Default::default() };
    let cp = CodingParameters { tdx: 8, tdy: 8, tw: 1, th: 1, ..CodingParameters::new_encoder() };

    (image, cp, tcp)
}

#[test]
fn encode_header_starts_with_soc_siz() {
    let (image, cp, tcp) = create_test_image_and_params();
    let mut enc = J2kEncoder::new();
    enc.write_header(&image, &cp, &tcp).unwrap();

    assert_eq!(read_bytes_be(&enc.output[0..], 2), 0xFF4F);
    assert_eq!(read_bytes_be(&enc.output[2..], 2), 0xFF51);
}

#[test]
fn encode_tile_patches_psot() {
    let (image, cp, tcp) = create_test_image_and_params();
    let mut enc = J2kEncoder::new();
    enc.write_header(&image, &cp, &tcp).unwrap();

    let tile_data = vec![0xAB; 10];
    enc.write_tile(0, &tile_data, 0, 1).unwrap();

    let sot_pos = enc.output.windows(2).position(|w| w == [0xFF, 0x90]).unwrap();
    let psot = read_bytes_be(&enc.output[sot_pos + 6..], 4);
    assert_eq!(psot, 12 + 2 + 10);
}

#[test]
fn encode_finalize_ends_with_eoc() {
    let (image, cp, tcp) = create_test_image_and_params();
    let mut enc = J2kEncoder::new();
    enc.write_header(&image, &cp, &tcp).unwrap();
    enc.write_tile(0, &[0u8; 4], 0, 1).unwrap();
    let output = enc.finalize();

    let len = output.len();
    assert_eq!(read_bytes_be(&output[len - 2..], 2), 0xFFD9);
}

#[test]
fn encode_decode_roundtrip_header() {
    let (image, cp, tcp) = create_test_image_and_params();
    let mut enc = J2kEncoder::new();
    enc.write_header(&image, &cp, &tcp).unwrap();
    enc.write_tile(0, &[0u8; 4], 0, 1).unwrap();
    let output = enc.finalize();

    let mut stream = MemoryStream::new_input(output);
    let mut dec = J2kDecoder::new();
    dec.read_header(&mut stream).unwrap();

    assert_eq!(dec.image.x1, 8);
    assert_eq!(dec.image.y1, 8);
    assert_eq!(dec.image.comps.len(), 1);
    assert_eq!(dec.image.comps[0].prec, 8);
    assert_eq!(dec.cp.tdx, 8);
    assert_eq!(dec.cp.tdy, 8);
    assert_eq!(dec.cp.tw, 1);
    assert_eq!(dec.cp.th, 1);
}

#[test]
fn encode_decode_roundtrip_tiles() {
    let (image, cp, tcp) = create_test_image_and_params();
    let mut enc = J2kEncoder::new();
    enc.write_header(&image, &cp, &tcp).unwrap();
    let tile_data = vec![0x42; 16];
    enc.write_tile(0, &tile_data, 0, 1).unwrap();
    let output = enc.finalize();

    let mut stream = MemoryStream::new_input(output);
    let mut dec = J2kDecoder::new();
    dec.read_header(&mut stream).unwrap();
    dec.read_all_tiles(&mut stream).unwrap();

    assert_eq!(dec.tile_data.len(), 1);
    assert_eq!(dec.tile_data[0], tile_data);
}

#[test]
fn encode_header_refuses_missing_component_parameters() {
    let (image, cp, mut tcp) = create_test_image_and_params();
    tcp.tccps.clear();
    let mut enc = J2kEncoder::new();
    assert!(enc.write_header(&image, &cp, &tcp).is_err());
    assert!(enc.output.is_empty());
}

#[test]
fn cod_and_qcd_segments_read_back() {
    let (_, _, mut tcp) = create_test_image_and_params();
    tcp.csty = 1;
    tcp.tccps[0].prcw[0] = 5;
    tcp.tccps[0].prch[0] = 6;
    tcp.tccps[0].qntsty = 2;
    tcp.tccps[0].stepsizes[0].expn = 9;
    tcp.tccps[0].stepsizes[0].mant = 300;
    let mut out = Vec::new();
    write_cod(&mut out, &tcp);
    assert_eq!(read_bytes_be(&out, 2), 0xFF52);
    assert_eq!(read_bytes_be(&out[2..], 2) as usize, out.len() - 2);
    let mut back = TileCodingParameters::default();
    openjpeg_rs::j2k::markers::read_cod(&out[4..], &mut back, 1).unwrap();
    assert_eq!(back.csty, 1);
    assert_eq!(back.tccps[0].numresolutions, 2);
    assert_eq!((back.tccps[0].prcw[0], back.tccps[0].prch[0]), (5, 6));
    let mut q = Vec::new();
    write_qcd(&mut q, &tcp);
    assert_eq!(read_bytes_be(&q[2..], 2) as usize, q.len() - 2);
    openjpeg_rs::j2k::markers::read_qcd(&q[4..], &mut back, 1).unwrap();
    assert_eq!(back.tccps[0].qntsty, 2);
    assert_eq!(back.tccps[0].stepsizes[0].expn, 9);
    assert_eq!(back.tccps[0].stepsizes[0].mant, 300);
}

#[test]
fn sot_written_then_patched_reads_back() {
    let mut out = vec![0xEE];
    let at = write_sot(&mut out, 7, 2, 3);
    assert_eq!(at, 7);
    patch_psot(&mut out, at, 0x0102_0304);
    let sot = read_sot(&out[5..]).unwrap();
    assert_eq!(sot.tile_no, 7);
    assert_eq!(sot.psot, 0x0102_0304);
    assert_eq!((sot.tp_idx, sot.nb_parts), (2, 3));
}

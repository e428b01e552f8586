use openjpeg_rs::io::cio::MemoryStream;
use openjpeg_rs::j2k::J2kState;
use openjpeg_rs::j2k::read::J2kDecoder;

fn build_minimal_j2k() -> Vec<u8> {
    let mut buf = Vec::new();
    buf.extend_from_slice(&[0xFF, 0x4F]);

    let mut siz_payload = Vec::new();
    siz_payload.extend_from_slice(&0u16.to_be_bytes());
    siz_payload.extend_from_slice(&1u32.to_be_bytes());
    siz_payload.extend_from_slice(&1u32.to_be_bytes());
    siz_payload.extend_from_slice(&0u32.to_be_bytes());
    siz_payload.extend_from_slice(&0u32.to_be_bytes());
    siz_payload.extend_from_slice(&1u32.to_be_bytes());
    siz_payload.extend_from_slice(&1u32.to_be_bytes());
    siz_payload.extend_from_slice(&0u32.to_be_bytes());
    siz_payload.extend_from_slice(&0u32.to_be_bytes());
    siz_payload.extend_from_slice(&1u16.to_be_bytes());
    siz_payload.push(0x07);
    siz_payload.push(0x01);
    siz_payload.push(0x01);
    let siz_len = (siz_payload.len() + 2) as u16;
    buf.extend_from_slice(&[0xFF, 0x51]);
    buf.extend_from_slice(&siz_len.to_be_bytes());
    buf.extend_from_slice(&siz_payload);

    let mut cod_payload = Vec::new();
    cod_payload.push(0x00);
    cod_payload.push(0x00);
    cod_payload.extend_from_slice(&1u16.to_be_bytes());
    cod_payload.push(0x00);
    cod_payload.push(0x00);
    cod_payload.push(0x04);
    cod_payload.push(0x04);
    cod_payload.push(0x00);
    cod_payload.push(0x01);
    let cod_len = (cod_payload.len() + 2) as u16;
    buf.extend_from_slice(&[0xFF, 0x52]);
    buf.extend_from_slice(&cod_len.to_be_bytes());
    buf.extend_from_slice(&cod_payload);

    let qcd_payload = vec![0x40, 0x40];
    let qcd_len = (qcd_payload.len() + 2) as u16;
    buf.extend_from_slice(&[0xFF, 0x5C]);
    buf.extend_from_slice(&qcd_len.to_be_bytes());
    buf.extend_from_slice(&qcd_payload);

    let tile_data = vec![0u8; 4];
    let psot = 12 + 2 + tile_data.len() as u32;
    buf.extend_from_slice(&[0xFF, 0x90]);
    buf.extend_from_slice(&10u16.to_be_bytes());
    buf.extend_from_slice(&0u16.to_be_bytes());
    buf.extend_from_slice(&psot.to_be_bytes());
    buf.push(0x00);
    buf.push(0x01);

    buf.extend_from_slice(&[0xFF, 0x93]);
    buf.extend_from_slice(&tile_data);

    buf.extend_from_slice(&[0xFF, 0xD9]);
    buf
}

#[test]
fn decode_minimal_header() {
    let data = build_minimal_j2k();
    let mut stream = MemoryStream::new_input(data);
    let mut dec = J2kDecoder::new();

    dec.read_header(&mut stream).unwrap();

    assert_eq!(dec.image.x1, 1);
    assert_eq!(dec.image.y1, 1);
    assert_eq!(dec.image.comps.len(), 1);
    assert_eq!(dec.image.comps[0].prec, 8);
    assert_eq!(dec.cp.tw, 1);
    assert_eq!(dec.cp.th, 1);
    assert_eq!(dec.cp.tcps.len(), 1);
    assert_eq!(dec.state, J2kState::TphSot);
}

#[test]
fn decode_minimal_tile_part() {
    let data = build_minimal_j2k();
    let mut stream = MemoryStream::new_input(data);
    let mut dec = J2kDecoder::new();

    dec.read_header(&mut stream).unwrap();
    let tile_no = dec.read_tile_part(&mut stream).unwrap();

    assert_eq!(tile_no, Some(0));
    assert_eq!(dec.tile_data.len(), 1);
    assert_eq!(dec.tile_data[0].len(), 4);
}

#[test]
fn decode_all_tiles_then_eoc() {
    let data = build_minimal_j2k();
    let mut stream = MemoryStream::new_input(data);
    let mut dec = J2kDecoder::new();

    dec.read_header(&mut stream).unwrap();
    dec.read_all_tiles(&mut stream).unwrap();

    assert_eq!(dec.tile_data.len(), 1);
    assert!(matches!(dec.state, J2kState::Eoc));
}

#[test]
fn decode_missing_siz_fails() {
    let mut buf = Vec::new();
    buf.extend_from_slice(&[0xFF, 0x4F]);
    buf.extend_from_slice(&[0xFF, 0x90]);

    let mut stream = MemoryStream::new_input(buf);
    let mut dec = J2kDecoder::new();
    assert!(dec.read_header(&mut stream).is_err());
}

#[test]
fn decode_requires_soc_first() {
    let mut stream = MemoryStream::new_input(vec![0xFF, 0x51, 0, 2]);
    let mut dec = J2kDecoder::new();
    assert!(dec.read_header(&mut stream).is_err());
    let mut stream = MemoryStream::new_input(vec![0xFF]);
    assert!(dec.read_header(&mut stream).is_err());
}

#[test]
fn tile_parts_of_one_tile_are_appended() {
    let mut data = build_minimal_j2k();
    // Drop the EOC and add a second tile-part of tile 0 with 3 bytes, after a COM
    // segment in its header, running to the end of the stream (Psot = 0).
    data.truncate(data.len() - 2);
    data.extend_from_slice(&[0xFF, 0x90, 0, 10, 0, 0, 0, 0, 0, 0, 1, 2]);
    data.extend_from_slice(&[0xFF, 0x64, 0, 4, 0, 1]);
    data.extend_from_slice(&[0xFF, 0x93, 7, 8, 9]);
    let mut stream = MemoryStream::new_input(data);
    let mut dec = J2kDecoder::new();
    dec.read_header(&mut stream).unwrap();
    assert_eq!(dec.read_tile_part(&mut stream).unwrap(), Some(0));
    assert_eq!(dec.read_tile_part(&mut stream).unwrap(), Some(0));
    assert_eq!(dec.tile_data[0], vec![0, 0, 0, 0, 7, 8, 9]);
    assert_eq!(dec.read_tile_part(&mut stream).unwrap(), None);
    assert_eq!(dec.state, J2kState::Neoc);
}

#[test]
fn tile_part_beyond_grid_fails() {
    let mut data = build_minimal_j2k();
    // Tile index 1 in a 1 x 1 grid.
    let sot = data.len() - 2 - 4 - 2 - 12;
    data[sot + 4] = 0;
    data[sot + 5] = 1;
    let mut stream = MemoryStream::new_input(data);
    let mut dec = J2kDecoder::new();
    dec.read_header(&mut stream).unwrap();
    assert!(dec.read_tile_part(&mut stream).is_err());
}

#[test]
fn num_tiles_is_grid_size() {
    let mut stream = MemoryStream::new_input(build_minimal_j2k());
    let mut dec = J2kDecoder::new();
    dec.read_header(&mut stream).unwrap();
    assert_eq!(dec.num_tiles(), 1);
}

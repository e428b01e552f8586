use openjpeg_rs::error::Error;
use openjpeg_rs::io::cio::MemoryStream;
use openjpeg_rs::jp2::read::read_box_header;
use openjpeg_rs::jp2::{JP2_IHDR, JP2_JP2C};

#[test]
fn read_box_header_basic() {
    let mut data = Vec::new();
    data.extend_from_slice(&22u32.to_be_bytes());
    data.extend_from_slice(&JP2_IHDR.to_be_bytes());
    data.extend_from_slice(&[0u8; 14]); // dummy payload

    let mut stream = MemoryStream::new_input(data);
    let hdr = read_box_header(&mut stream).unwrap();
    assert_eq!(hdr.length, 22);
    assert_eq!(hdr.box_type, JP2_IHDR);
}

#[test]
fn read_box_header_last_box() {
    // length=0 means "extends to end of stream"
    let mut data = Vec::new();
    data.extend_from_slice(&0u32.to_be_bytes()); // length=0
    data.extend_from_slice(&JP2_JP2C.to_be_bytes());
    data.extend_from_slice(&[0xAA; 20]); // 20 bytes of data

    let mut stream = MemoryStream::new_input(data);
    let hdr = read_box_header(&mut stream).unwrap();
    assert_eq!(hdr.box_type, JP2_JP2C);
    assert_eq!(hdr.length, 20 + 8); // remaining + header
}

#[test]
fn read_box_header_extended_length() {
    let mut data = Vec::new();
    data.extend_from_slice(&1u32.to_be_bytes());
    data.extend_from_slice(&JP2_JP2C.to_be_bytes());
    data.extend_from_slice(&0u32.to_be_bytes());
    data.extend_from_slice(&40u32.to_be_bytes());
    let mut stream = MemoryStream::new_input(data);
    let hdr = read_box_header(&mut stream).unwrap();
    assert_eq!(hdr.length, 40);
    assert_eq!(hdr.header_len, 16);
    assert_eq!(stream.tell(), 16);
}

#[test]
fn read_box_header_extended_length_over_4gb_fails() {
    let mut data = Vec::new();
    data.extend_from_slice(&1u32.to_be_bytes());
    data.extend_from_slice(&JP2_JP2C.to_be_bytes());
    data.extend_from_slice(&1u32.to_be_bytes());
    data.extend_from_slice(&0u32.to_be_bytes());
    let mut stream = MemoryStream::new_input(data);
    assert!(matches!(read_box_header(&mut stream), Err(Error::InvalidInput(_))));
}

#[test]
fn read_box_header_truncated_fails() {
    let mut stream = MemoryStream::new_input(vec![0, 0, 0]);
    assert!(matches!(read_box_header(&mut stream), Err(Error::EndOfStream)));
}

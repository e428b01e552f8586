use openjpeg_rs::io::cio::{MemoryStream, read_bytes_be, write_bytes_be};

#[test]
fn write_read_bytes_be_1() {
    let mut buf = [0u8; 4];
    write_bytes_be(&mut buf, 0xAB, 1);
    assert_eq!(read_bytes_be(&buf, 1), 0xAB);
}

#[test]
fn write_read_bytes_be_2() {
    let mut buf = [0u8; 4];
    write_bytes_be(&mut buf, 0xABCD, 2);
    assert_eq!(buf[0], 0xAB);
    assert_eq!(buf[1], 0xCD);
    assert_eq!(read_bytes_be(&buf, 2), 0xABCD);
}

#[test]
fn write_read_bytes_be_4() {
    let mut buf = [0u8; 4];
    write_bytes_be(&mut buf, 0xDEADBEEF, 4);
    assert_eq!(read_bytes_be(&buf, 4), 0xDEADBEEF);
}

#[test]
fn bytes_be_order_is_big_endian() {
    let mut buf = [0u8; 4];
    write_bytes_be(&mut buf, 0x0102_0304, 4);
    assert_eq!(buf, [1, 2, 3, 4]);
    let mut two = [0u8; 2];
    write_bytes_be(&mut two, 0x0102_0304, 2);
    assert_eq!(two, [3, 4]);
    assert_eq!(read_bytes_be(&[0x12, 0x34, 0x56], 3), 0x12_3456);
}

#[test]
fn output_stream_write_and_read_back() {
    let mut stream = MemoryStream::new_output();
    let data = b"Hello, JPEG 2000!";
    stream.write(data).unwrap();
    assert_eq!(stream.tell(), data.len());
    assert_eq!(&stream.data()[..data.len()], data);
}

#[test]
fn input_stream_read() {
    let data = vec![0xDE, 0xAD, 0xBE, 0xEF];
    let mut stream = MemoryStream::new_input(data);
    let mut buf = [0u8; 2];
    let n = stream.read(&mut buf).unwrap();
    assert_eq!(n, 2);
    assert_eq!(buf, [0xDE, 0xAD]);
    let n = stream.read(&mut buf).unwrap();
    assert_eq!(n, 2);
    assert_eq!(buf, [0xBE, 0xEF]);
}

#[test]
fn input_stream_read_at_end() {
    let data = vec![0x01, 0x02];
    let mut stream = MemoryStream::new_input(data);
    let mut buf = [0u8; 4];
    let n = stream.read(&mut buf).unwrap();
    assert_eq!(n, 2);
}

#[test]
fn stream_seek_and_tell() {
    let data = vec![0; 100];
    let mut stream = MemoryStream::new_input(data);
    stream.seek(50).unwrap();
    assert_eq!(stream.tell(), 50);
    stream.seek(0).unwrap();
    assert_eq!(stream.tell(), 0);
}

#[test]
fn stream_skip() {
    let data = vec![0; 100];
    let mut stream = MemoryStream::new_input(data);
    stream.skip(10).unwrap();
    assert_eq!(stream.tell(), 10);
    stream.skip(20).unwrap();
    assert_eq!(stream.tell(), 30);
}

#[test]
fn stream_skip_backwards_and_out_of_range() {
    let data = vec![0; 10];
    let mut stream = MemoryStream::new_input(data);
    stream.skip(4).unwrap();
    stream.skip(-2).unwrap();
    assert_eq!(stream.tell(), 2);
    assert!(stream.skip(-3).is_err());
    assert!(stream.skip(9).is_err());
    assert_eq!(stream.tell(), 2);
}

#[test]
fn stream_bytes_left() {
    let data = vec![0; 100];
    let mut stream = MemoryStream::new_input(data);
    assert_eq!(stream.bytes_left(), 100);
    stream.skip(30).unwrap();
    assert_eq!(stream.bytes_left(), 70);
}

#[test]
fn stream_seek_out_of_bounds() {
    let data = vec![0; 10];
    let mut stream = MemoryStream::new_input(data);
    let result = stream.seek(20);
    assert!(result.is_err());
}

#[test]
fn input_stream_refuses_writes() {
    let mut stream = MemoryStream::new_input(vec![1, 2, 3]);
    assert!(stream.write(&[9]).is_err());
    assert_eq!(stream.data(), &[1, 2, 3]);
}

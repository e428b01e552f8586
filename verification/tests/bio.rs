use openjpeg_rs::io::bio::Bio;


#[test]
fn roundtrip_single_bits() {
    let mut buf = [0u8; 4];
    {
        let mut enc = Bio::encoder(&mut buf);
        enc.write(1, 1).unwrap();
        enc.write(0, 1).unwrap();
        enc.write(1, 1).unwrap();
        enc.write(1, 1).unwrap();
        enc.flush().unwrap();
    }
    {
        let mut dec = Bio::decoder(&mut buf);
        assert_eq!(dec.read(1).unwrap(), 1);
        assert_eq!(dec.read(1).unwrap(), 0);
        assert_eq!(dec.read(1).unwrap(), 1);
        assert_eq!(dec.read(1).unwrap(), 1);
    }
}

#[test]
fn roundtrip_multi_bits() {
    let mut buf = [0u8; 8];
    {
        let mut enc = Bio::encoder(&mut buf);
        enc.write(0b1010, 4).unwrap();
        enc.write(0b11001100, 8).unwrap();
        enc.write(255, 8).unwrap();
        enc.flush().unwrap();
    }
    {
        let mut dec = Bio::decoder(&mut buf);
        assert_eq!(dec.read(4).unwrap(), 0b1010);
        assert_eq!(dec.read(8).unwrap(), 0b11001100);
        assert_eq!(dec.read(8).unwrap(), 255);
    }
}

#[test]
fn num_bytes_after_flush() {
    let mut buf = [0u8; 8];
    let mut enc = Bio::encoder(&mut buf);
    enc.write(0b1010, 4).unwrap();
    enc.flush().unwrap();
    assert!(enc.num_bytes() >= 1);
}

#[test]
fn ff_stuffing() {
    let mut buf = [0u8; 4];
    {
        let mut enc = Bio::encoder(&mut buf);
        enc.write(0xFF, 8).unwrap();
        enc.write(0b1010101, 7).unwrap();
        enc.flush().unwrap();
    }
    {
        let mut dec = Bio::decoder(&mut buf);
        assert_eq!(dec.read(8).unwrap(), 0xFF);
        assert_eq!(dec.read(7).unwrap(), 0b1010101);
    }
}

#[test]
fn encoder_buffer_too_small() {
    let mut buf = [0u8; 1];
    let mut enc = Bio::encoder(&mut buf);
    enc.write(0xFF, 8).unwrap();
    let result = enc.flush();
    assert!(result.is_err());
}

#[test]
fn roundtrip_32bit_value() {
    let mut buf = [0u8; 8];
    let val = 0xDEADBEEF_u32;
    {
        let mut enc = Bio::encoder(&mut buf);
        enc.write(val, 32).unwrap();
        enc.flush().unwrap();
    }
    {
        let mut dec = Bio::decoder(&mut buf);
        assert_eq!(dec.read(32).unwrap(), val);
    }
}

#[test]
fn inalign_basic() {
    let mut buf = [0u8; 4];
    {
        let mut enc = Bio::encoder(&mut buf);
        enc.write(0b101, 3).unwrap();
        enc.flush().unwrap();
    }
    {
        let mut dec = Bio::decoder(&mut buf);
        let _ = dec.read(3).unwrap();
        dec.inalign().unwrap();
    }
}

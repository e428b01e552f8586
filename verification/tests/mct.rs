use openjpeg_rs::transform::mct::{mct_decode, mct_encode};

#[test]
fn rct_roundtrip_lossless() {
    let mut c0 = vec![100i32, 200, 50, 255];
    let mut c1 = vec![150, 100, 200, 128];
    let mut c2 = vec![80, 50, 180, 64];
    let orig0 = c0.clone();
    let orig1 = c1.clone();
    let orig2 = c2.clone();
    mct_encode(&mut c0, &mut c1, &mut c2);
    mct_decode(&mut c0, &mut c1, &mut c2);
    assert_eq!(c0, orig0);
    assert_eq!(c1, orig1);
    assert_eq!(c2, orig2);
}

#[test]
fn rct_encode_known_values() {
    // R=100, G=150, B=80: Y = (100 + 300 + 80) >> 2 = 120, Cb = 80 - 150, Cr = 100 - 150.
    let mut c0 = vec![100i32];
    let mut c1 = vec![150];
    let mut c2 = vec![80];
    mct_encode(&mut c0, &mut c1, &mut c2);
    assert_eq!(c0[0], 120);
    assert_eq!(c1[0], -70);
    assert_eq!(c2[0], -50);
}

#[test]
fn rct_decode_negative_chroma_rounds_down() {
    // Y=120, Cb=-70, Cr=-50: G = 120 - ((-120) >> 2) = 150, R = -50 + 150, B = -70 + 150.
    let mut c0 = vec![120i32];
    let mut c1 = vec![-70];
    let mut c2 = vec![-50];
    mct_decode(&mut c0, &mut c1, &mut c2);
    assert_eq!((c0[0], c1[0], c2[0]), (100, 150, 80));
}

use openjpeg_rs::transform::dwt::{dwt_decode_1_53, dwt_encode_1_53};


// ==================== 1D 5-3 tests ====================

#[test]
fn encode_1d_53_even_cas0_roundtrip() {
    // Even length, cas=0, non-linear data
    let input = vec![10, 23, 35, 41, 58, 62, 77, 80];
    let mut data = input.clone();
    let sn = 4;
    let dn = 4;
    dwt_encode_1_53(&mut data, sn, dn, false);
    assert_ne!(data, input);
    dwt_decode_1_53(&mut data, sn, dn, false);
    assert_eq!(data, input);
}

#[test]
fn encode_1d_53_odd_cas0_roundtrip() {
    // Odd length, cas=0, non-linear data
    let input = vec![10, 23, 35, 41, 58, 62, 77];
    let mut data = input.clone();
    let sn = 4;
    let dn = 3;
    dwt_encode_1_53(&mut data, sn, dn, false);
    assert_ne!(data, input);
    dwt_decode_1_53(&mut data, sn, dn, false);
    assert_eq!(data, input);
}

#[test]
fn encode_1d_53_cas1_roundtrip() {
    // cas=1: high-pass at even indices
    let input = vec![100, 200, 300, 400, 500, 600];
    let mut data = input.clone();
    let sn = 3;
    let dn = 3;
    dwt_encode_1_53(&mut data, sn, dn, true);
    assert_ne!(data, input);
    dwt_decode_1_53(&mut data, sn, dn, true);
    assert_eq!(data, input);
}

#[test]
fn encode_1d_53_length_1() {
    // Single element: no-op for cas=0
    let mut data = vec![42];
    dwt_encode_1_53(&mut data, 1, 0, false);
    assert_eq!(data, vec![42]);
}

#[test]
fn encode_1d_53_length_1_cas1() {
    // Single element, cas=1: value is doubled on encode, halved on decode
    let mut data = vec![42];
    dwt_encode_1_53(&mut data, 0, 1, true);
    assert_eq!(data[0], 84);
    dwt_decode_1_53(&mut data, 0, 1, true);
    assert_eq!(data[0], 42);
}

#[test]
fn encode_1d_53_length_2_cas0_roundtrip() {
    let input = vec![100, 200];
    let mut data = input.clone();
    let sn = 1;
    let dn = 1;
    dwt_encode_1_53(&mut data, sn, dn, false);
    dwt_decode_1_53(&mut data, sn, dn, false);
    assert_eq!(data, input);
}

#[test]
fn encode_1d_53_known_values_cas0() {
    // Input: [10, 20, 30, 40] (interleaved as s0=10, d0=20, s1=30, d1=40)
    // cas=0, sn=2, dn=2
    //
    // Predict: d[i] -= (s[i] + s[i+1]) >> 1
    //   d[0] = 20 - (10 + 30) >> 1 = 0
    //   d[1] = 40 - (30 + 30) >> 1 = 10  (boundary: s_[2] = s[1] = 30)
    // Update: s[i] += (d_[i-1] + d[i] + 2) >> 2
    //   s[0] = 10 + (0 + 0 + 2) >> 2 = 10  (boundary: d_[-1] = d[0] = 0)
    //   s[1] = 30 + (0 + 10 + 2) >> 2 = 33
    let mut data = vec![10, 20, 30, 40];
    dwt_encode_1_53(&mut data, 2, 2, false);
    assert_eq!(data, vec![10, 0, 33, 10]);
}

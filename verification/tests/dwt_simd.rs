use openjpeg_rs::transform::dwt::{dwt_decode_1_53, dwt_encode_1_53};
use openjpeg_rs::transform::dwt_simd::{
    dwt_decode_vert_53_avx2, dwt_encode_vert_53, dwt_encode_vert_53_avx2, dwt_encode_vert_53_sse2,
    dwt_decode_vert_53_sse2,
};

fn scalar_encode_columns(data: &mut [i32], stride: usize, h: usize, sn: usize, dn: usize, cols: usize) {
    let mut tmp = vec![0i32; h];
    for j in 0..cols {
        for i in 0..h {
            tmp[i] = data[i * stride + j];
        }
        dwt_encode_1_53(&mut tmp[..h], sn, dn, false);
        for i in 0..sn {
            data[i * stride + j] = tmp[2 * i];
        }
        for i in 0..dn {
            data[(sn + i) * stride + j] = tmp[2 * i + 1];
        }
    }
}

fn scalar_decode_columns(data: &mut [i32], stride: usize, h: usize, sn: usize, dn: usize, cols: usize) {
    let mut tmp = vec![0i32; h];
    for j in 0..cols {
        for i in 0..sn {
            tmp[2 * i] = data[i * stride + j];
        }
        for i in 0..dn {
            tmp[2 * i + 1] = data[(sn + i) * stride + j];
        }
        dwt_decode_1_53(&mut tmp[..h], sn, dn, false);
        for i in 0..h {
            data[i * stride + j] = tmp[i];
        }
    }
}

#[test]
fn encode_vert_53_avx2_matches_scalar() {
    let w = 16;
    let h = 10;
    let stride = w;
    let sn = 5;
    let dn = 5;
    let original: Vec<i32> = (0..w * h).map(|i| (i as i32 * 3 + 7) % 200 - 100).collect();
    let mut scalar = original.clone();
    scalar_encode_columns(&mut scalar, stride, h, sn, dn, 8);
    let mut simd = original.clone();
    dwt_encode_vert_53_avx2(&mut simd, stride, h, sn, dn, 0);
    for row in 0..h {
        for col in 0..8 {
            assert_eq!(scalar[row * stride + col], simd[row * stride + col], "mismatch at row={row}, col={col}");
        }
    }
}

#[test]
fn encode_vert_53_sse2_matches_scalar() {
    let w = 16;
    let h = 10;
    let stride = w;
    let sn = 5;
    let dn = 5;
    let original: Vec<i32> = (0..w * h).map(|i| (i as i32 * 3 + 7) % 200 - 100).collect();
    let mut scalar = original.clone();
    scalar_encode_columns(&mut scalar, stride, h, sn, dn, 4);
    let mut simd = original.clone();
    dwt_encode_vert_53_sse2(&mut simd, stride, h, sn, dn, 0);
    for row in 0..h {
        for col in 0..4 {
            assert_eq!(scalar[row * stride + col], simd[row * stride + col], "mismatch at row={row}, col={col}");
        }
    }
}

#[test]
fn decode_vert_53_avx2_matches_scalar() {
    let w = 16;
    let h = 10;
    let stride = w;
    let sn = 5;
    let dn = 5;
    let encoded: Vec<i32> = (0..w * h).map(|i| (i as i32 * 13 + 3) % 200 - 100).collect();
    let mut scalar = encoded.clone();
    scalar_decode_columns(&mut scalar, stride, h, sn, dn, 8);
    let mut simd = encoded.clone();
    dwt_decode_vert_53_avx2(&mut simd, stride, h, sn, dn, 0);
    for row in 0..h {
        for col in 0..8 {
            assert_eq!(scalar[row * stride + col], simd[row * stride + col], "mismatch at row={row}, col={col}");
        }
    }
}

#[test]
fn vert_53_roundtrip_leaves_other_columns() {
    // Odd height (sn = dn + 1), columns 3..7 of 9: the pass round-trips and the other
    // columns are untouched.
    let w = 9;
    let h = 7;
    let original: Vec<i32> = (0..w * h).map(|i| (i as i32 * 11 + 5) % 97 - 48).collect();
    let mut data = original.clone();
    dwt_encode_vert_53(&mut data, w, h, 4, 3, 3, 4);
    for row in 0..h {
        for col in (0..3).chain(7..9) {
            assert_eq!(data[row * w + col], original[row * w + col]);
        }
    }
    assert_ne!(data, original);
    dwt_decode_vert_53_sse2(&mut data, w, h, 4, 3, 3);
    assert_eq!(data, original);
}

#[test]
fn vert_53_single_row_is_unchanged() {
    let mut data = vec![5, -3, 8, 1];
    dwt_encode_vert_53_sse2(&mut data, 4, 1, 1, 0, 0);
    assert_eq!(data, vec![5, -3, 8, 1]);
}

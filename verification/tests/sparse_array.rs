use openjpeg_rs::coding::sparse_array::SparseArray;

#[test]
fn new_creates_valid_array() {
    let sa = SparseArray::new(100, 200, 32, 32);
    assert_eq!(sa.width(), 100);
    assert_eq!(sa.height(), 200);
}

#[test]
fn new_calculates_block_counts() {
    let sa = SparseArray::new(100, 200, 32, 32);
    assert_eq!(sa.block_count_hor(), 4);
    assert_eq!(sa.block_count_ver(), 7);
}

#[test]
fn new_exact_block_size() {
    let sa = SparseArray::new(64, 128, 32, 32);
    assert_eq!(sa.block_count_hor(), 2);
    assert_eq!(sa.block_count_ver(), 4);
}

#[test]
fn is_region_valid_accepts_valid() {
    let sa = SparseArray::new(100, 200, 32, 32);
    assert!(sa.is_region_valid(0, 0, 100, 200));
    assert!(sa.is_region_valid(10, 20, 50, 80));
    assert!(sa.is_region_valid(0, 0, 1, 1));
}

#[test]
fn is_region_valid_rejects_invalid() {
    let sa = SparseArray::new(100, 200, 32, 32);
    assert!(!sa.is_region_valid(10, 10, 10, 10));
    assert!(!sa.is_region_valid(50, 0, 10, 100));
    assert!(!sa.is_region_valid(0, 0, 101, 200));
    assert!(!sa.is_region_valid(0, 0, 100, 201));
    assert!(!sa.is_region_valid(100, 0, 101, 1));
}

#[test]
fn read_unwritten_region_returns_zeros() {
    let sa = SparseArray::new(64, 64, 32, 32);
    let mut buf = vec![42i32; 16];
    sa.read_region(0, 0, 4, 4, &mut buf, 1, 4, false).unwrap();
    assert!(buf.iter().all(|&v| v == 0));
}

#[test]
fn write_then_read_roundtrip() {
    let mut sa = SparseArray::new(64, 64, 32, 32);
    let src: Vec<i32> = (0..16).collect();
    sa.write_region(0, 0, 4, 4, &src, 1, 4, false).unwrap();

    let mut dst = vec![0i32; 16];
    sa.read_region(0, 0, 4, 4, &mut dst, 1, 4, false).unwrap();
    assert_eq!(src, dst);
}

#[test]
fn write_then_read_partial_block() {
    let mut sa = SparseArray::new(64, 64, 32, 32);
    let src: Vec<i32> = (100..109).collect();
    sa.write_region(10, 10, 13, 13, &src, 1, 3, false).unwrap();

    let mut dst = vec![0i32; 9];
    sa.read_region(10, 10, 13, 13, &mut dst, 1, 3, false).unwrap();
    assert_eq!(src, dst);
}

#[test]
fn write_then_read_across_blocks() {
    let mut sa = SparseArray::new(64, 64, 8, 8);
    let src: Vec<i32> = (0..144).collect();
    sa.write_region(2, 2, 14, 14, &src, 1, 12, false).unwrap();

    let mut dst = vec![0i32; 144];
    sa.read_region(2, 2, 14, 14, &mut dst, 1, 12, false).unwrap();
    assert_eq!(src, dst);
}

#[test]
fn read_with_col_stride() {
    let mut sa = SparseArray::new(32, 32, 16, 16);
    let src: Vec<i32> = (0..4).collect();
    sa.write_region(0, 0, 2, 2, &src, 1, 2, false).unwrap();

    let mut dst = vec![0i32; 8];
    sa.read_region(0, 0, 2, 2, &mut dst, 2, 4, false).unwrap();
    assert_eq!(dst[0], 0);
    assert_eq!(dst[2], 1);
    assert_eq!(dst[4], 2);
    assert_eq!(dst[6], 3);
}

#[test]
fn write_with_col_stride() {
    let mut sa = SparseArray::new(32, 32, 16, 16);
    let src = vec![10, 0, 20, 0, 30, 0, 40, 0];
    sa.write_region(0, 0, 2, 2, &src, 2, 4, false).unwrap();

    let mut dst = vec![0i32; 4];
    sa.read_region(0, 0, 2, 2, &mut dst, 1, 2, false).unwrap();
    assert_eq!(dst, vec![10, 20, 30, 40]);
}

#[test]
fn invalid_region_non_forgiving_returns_error() {
    let sa = SparseArray::new(64, 64, 32, 32);
    let mut buf = vec![0i32; 4];
    let result = sa.read_region(0, 0, 65, 1, &mut buf, 1, 65, false);
    assert!(result.is_err());
}

#[test]
fn invalid_region_forgiving_returns_ok() {
    let sa = SparseArray::new(64, 64, 32, 32);
    let mut buf = vec![0i32; 4];
    let result = sa.read_region(0, 0, 65, 1, &mut buf, 1, 65, true);
    assert!(result.is_ok());
}

#[test]
fn single_element_write_read() {
    let mut sa = SparseArray::new(10, 10, 4, 4);
    let src = [42i32];
    sa.write_region(5, 5, 6, 6, &src, 1, 1, false).unwrap();

    let mut dst = [0i32];
    sa.read_region(5, 5, 6, 6, &mut dst, 1, 1, false).unwrap();
    assert_eq!(dst[0], 42);
}

#[test]
fn writes_leave_other_samples_and_allocate_only_touched_blocks() {
    let mut sa = SparseArray::new(10, 10, 4, 4);
    sa.write_region(3, 3, 5, 4, &[7, 8], 1, 2, false).unwrap();
    let allocated = sa.data_blocks.iter().filter(|b| b.is_some()).count();
    assert_eq!(allocated, 2);
    let mut dst = vec![-1i32; 100];
    sa.read_region(0, 0, 10, 10, &mut dst, 1, 10, false).unwrap();
    for (i, v) in dst.iter().enumerate() {
        let expected = match i {
            33 => 7,
            34 => 8,
            _ => 0,
        };
        assert_eq!(*v, expected, "sample {i}");
    }
    assert!(sa.write_region(0, 0, 11, 1, &[1; 11], 1, 11, false).is_err());
    assert!(sa.write_region(0, 0, 11, 1, &[1; 11], 1, 11, true).is_ok());
}

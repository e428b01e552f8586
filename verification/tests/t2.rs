use openjpeg_rs::io::bio::Bio;
use openjpeg_rs::tier2::t2::{
    t2_getcommacode, t2_getnumpasses, t2_getpassbits, t2_init_seg, t2_putcommacode, t2_putnumpasses,
};
use openjpeg_rs::types::{J2K_CCP_CBLKSTY_LAZY, J2K_CCP_CBLKSTY_TERMALL};
// --- Comma code ---

#[test]
fn comma_code_roundtrip() {
    for n in 0..20 {
        let mut buf = vec![0u8; 16];
        {
            let mut bio = Bio::encoder(&mut buf);
            t2_putcommacode(&mut bio, n).unwrap();
            bio.flush().unwrap();
        }
        {
            let mut bio = Bio::decoder(&mut buf);
            let decoded = t2_getcommacode(&mut bio).unwrap();
            assert_eq!(decoded, n, "comma code roundtrip failed for n={n}");
        }
    }
}

#[test]
fn comma_code_zero() {
    let mut buf = vec![0u8; 4];
    {
        let mut bio = Bio::encoder(&mut buf);
        t2_putcommacode(&mut bio, 0).unwrap();
        bio.flush().unwrap();
    }
    {
        let mut bio = Bio::decoder(&mut buf);
        assert_eq!(t2_getcommacode(&mut bio).unwrap(), 0);
    }
}

// --- Number of passes ---

#[test]
fn numpasses_roundtrip() {
    for n in 1..=164 {
        let mut buf = vec![0u8; 16];
        {
            let mut bio = Bio::encoder(&mut buf);
            t2_putnumpasses(&mut bio, n).unwrap();
            bio.flush().unwrap();
        }
        {
            let mut bio = Bio::decoder(&mut buf);
            let decoded = t2_getnumpasses(&mut bio).unwrap();
            assert_eq!(decoded, n, "numpasses roundtrip failed for n={n}");
        }
    }
}

#[test]
fn numpasses_boundary_values() {
    for n in [1, 2, 3, 5, 6, 36, 37, 164] {
        let mut buf = vec![0u8; 16];
        {
            let mut bio = Bio::encoder(&mut buf);
            t2_putnumpasses(&mut bio, n).unwrap();
            bio.flush().unwrap();
        }
        {
            let mut bio = Bio::decoder(&mut buf);
            let decoded = t2_getnumpasses(&mut bio).unwrap();
            assert_eq!(decoded, n, "numpasses boundary failed for n={n}");
        }
    }
}

// --- Segment initialization ---

#[test]
fn init_seg_default_maxpasses() {
    let mut segs = Vec::new();
    t2_init_seg(&mut segs, 0, 0, true);
    assert_eq!(segs.len(), 1);
    assert_eq!(segs[0].maxpasses, 109);
    assert_eq!(segs[0].len, 0);
    assert_eq!(segs[0].numpasses, 0);
}

#[test]
fn init_seg_termall() {
    let mut segs = Vec::new();
    t2_init_seg(&mut segs, 0, J2K_CCP_CBLKSTY_TERMALL, true);
    assert_eq!(segs[0].maxpasses, 1);
}

#[test]
fn init_seg_lazy_alternation() {
    let mut segs = Vec::new();
    // First segment: 10 passes
    t2_init_seg(&mut segs, 0, J2K_CCP_CBLKSTY_LAZY, true);
    assert_eq!(segs[0].maxpasses, 10);
    // Second segment: 2 (since previous was 10)
    t2_init_seg(&mut segs, 1, J2K_CCP_CBLKSTY_LAZY, false);
    assert_eq!(segs[1].maxpasses, 2);
    // Third segment: 1 (since previous was 2)
    t2_init_seg(&mut segs, 2, J2K_CCP_CBLKSTY_LAZY, false);
    assert_eq!(segs[2].maxpasses, 1);
    // Fourth segment: 2 (since previous was 1)
    t2_init_seg(&mut segs, 3, J2K_CCP_CBLKSTY_LAZY, false);
    assert_eq!(segs[3].maxpasses, 2);
    // Fifth segment: 1 (since previous was 2)
    t2_init_seg(&mut segs, 4, J2K_CCP_CBLKSTY_LAZY, false);
    assert_eq!(segs[4].maxpasses, 1);
}

#[test]
fn init_seg_grows_vector() {
    let mut segs = Vec::new();
    t2_init_seg(&mut segs, 5, 0, true);
    assert_eq!(segs.len(), 6);
    assert_eq!(segs[5].maxpasses, 109);
}

// --- Pass bits ---

#[test]
fn pass_bits_ranges() {
    assert_eq!(t2_getpassbits(0), 1);
    assert_eq!(t2_getpassbits(1), 1);
    assert_eq!(t2_getpassbits(2), 2);
    assert_eq!(t2_getpassbits(5), 2);
    assert_eq!(t2_getpassbits(6), 4);
    assert_eq!(t2_getpassbits(36), 4);
    assert_eq!(t2_getpassbits(37), 6);
    assert_eq!(t2_getpassbits(164), 6);
    assert_eq!(t2_getpassbits(165), 8);
}

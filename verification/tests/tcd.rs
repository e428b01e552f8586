use openjpeg_rs::tcd::{TcdCblkDec, TcdSeg};

#[test]
fn tcd_seg_default() {
    let seg = TcdSeg::default();
    assert_eq!(seg.len, 0);
    assert_eq!(seg.numpasses, 0);
    assert_eq!(seg.maxpasses, 0);
}

#[test]
fn tcd_cblk_dec_default() {
    let cblk = TcdCblkDec::default();
    assert!(cblk.segs.is_empty());
    assert!(cblk.chunks.is_empty());
    assert!(!cblk.corrupted);
    assert!(cblk.decoded_data.is_none());
}

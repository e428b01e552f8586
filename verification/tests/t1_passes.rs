use openjpeg_rs::coding::mqc::Mqc;
use openjpeg_rs::coding::t1::{getnmsedec_ref, smr_abs, update_flags, DecodeSegment, T1};
use openjpeg_rs::types::{
    COMMON_CBLK_DATA_EXTRA,
    J2K_CCP_CBLKSTY_LAZY, T1_CTXNO_AGG, T1_CTXNO_UNI, T1_CTXNO_ZC, T1_MU_THIS, T1_NMSEDEC_FRACBITS, T1_PI_0,
    T1_PI_THIS, T1_SIGMA_4, T1_TYPE_MQ,
};

/// The initial contexts of tier-1 coding.
fn init_t1_mqc_contexts(mqc: &mut Mqc) {
    mqc.reset_states();
    mqc.set_state(T1_CTXNO_UNI, 0, 46);
    mqc.set_state(T1_CTXNO_AGG, 0, 3);
    mqc.set_state(T1_CTXNO_ZC, 0, 4);
}

#[test]
fn sigpass_encode_decode_roundtrip() {
    // 4x4 block: (col 0, row 0) already significant; its east neighbour (col 1, row 0)
    // has its bit set at the test bit-plane and is coded by the significance pass.
    let bpno: i32 = 3;
    let one = 1i32 << (bpno + T1_NMSEDEC_FRACBITS as i32);

    let mut enc = T1::new(true);
    enc.allocate_buffers(4, 4).unwrap();
    enc.set_orient(0);
    let fp00 = enc.flags_index(0, 0);
    let stride = enc.flags_stride();
    update_flags(&mut enc.flags, fp00, 0, 0, stride, false);
    // Encoder data is column by column within a stripe: (col 1, row 0) is data[4].
    enc.data[4] = one;

    let mut enc_buf = vec![0u8; 256];
    let num_bytes;
    {
        let mut mqc = Mqc::new(&mut enc_buf);
        init_t1_mqc_contexts(&mut mqc);
        mqc.init_enc();
        let nmsedec = enc.enc_sigpass(&mut mqc, bpno, T1_TYPE_MQ, 0);
        mqc.flush();
        assert!(nmsedec >= 0);
        num_bytes = mqc.num_bytes();
        assert!(num_bytes > 0);
    }

    // The encoder's bytes start at the beginning of its buffer.
    let mut dec_buf = vec![0u8; 256];
    dec_buf[..num_bytes].copy_from_slice(&enc_buf[..num_bytes]);

    let mut dec = T1::new(false);
    dec.allocate_buffers(4, 4).unwrap();
    dec.set_orient(0);
    let fp00 = dec.flags_index(0, 0);
    let stride = dec.flags_stride();
    update_flags(&mut dec.flags, fp00, 0, 0, stride, false);
    {
        let mut mqc = Mqc::new(&mut dec_buf);
        init_t1_mqc_contexts(&mut mqc);
        mqc.init_dec(num_bytes);
        dec.dec_sigpass_mqc(&mut mqc, bpno + 1, 0);
        mqc.finish_dec();
    }

    // Decoder data is row by row: (col 1, row 0) is data[1].
    let oneplushalf = (1i32 << bpno) | (1i32 << (bpno - 1));
    assert_eq!(dec.data[1], oneplushalf);
}

#[test]
fn refpass_encode_decode_roundtrip() {
    // (col 1, row 0) became significant at bit-plane 5; the refinement pass at
    // bit-plane 3 codes its bit there.
    let higher_bpno: i32 = 5;
    let refine_bpno: i32 = 3;

    let mut enc = T1::new(true);
    enc.allocate_buffers(4, 4).unwrap();
    enc.set_orient(0);
    let val = (1i32 << (higher_bpno + T1_NMSEDEC_FRACBITS as i32))
        | (1i32 << (refine_bpno + T1_NMSEDEC_FRACBITS as i32));
    enc.data[4] = val;
    let fp = enc.flags_index(1, 0);
    let stride = enc.flags_stride();
    update_flags(&mut enc.flags, fp, 0, 0, stride, false);

    let mut enc_buf = vec![0u8; 256];
    let num_bytes;
    {
        let mut mqc = Mqc::new(&mut enc_buf);
        init_t1_mqc_contexts(&mut mqc);
        mqc.init_enc();
        let nmsedec = enc.enc_refpass(&mut mqc, refine_bpno, T1_TYPE_MQ);
        mqc.flush();
        assert!(nmsedec >= 0);
        num_bytes = mqc.num_bytes();
        assert!(num_bytes > 0);
    }
    assert_ne!(enc.flags[fp] & T1_MU_THIS, 0, "MU_THIS should be set after enc_refpass");

    let mut dec_buf = vec![0u8; 256];
    dec_buf[..num_bytes].copy_from_slice(&enc_buf[..num_bytes]);

    let mut dec = T1::new(false);
    dec.allocate_buffers(4, 4).unwrap();
    dec.set_orient(0);
    let one_high = 1i32 << higher_bpno;
    let half_high = one_high >> 1;
    let oneplushalf_high = one_high | half_high;
    dec.data[1] = oneplushalf_high;
    let fp_dec = dec.flags_index(1, 0);
    let stride_dec = dec.flags_stride();
    update_flags(&mut dec.flags, fp_dec, 0, 0, stride_dec, false);
    {
        let mut mqc = Mqc::new(&mut dec_buf);
        init_t1_mqc_contexts(&mut mqc);
        mqc.init_dec(num_bytes);
        dec.dec_refpass_mqc(&mut mqc, refine_bpno + 1);
        mqc.finish_dec();
    }

    let poshalf = 1i32 << (refine_bpno - 1);
    let expected = oneplushalf_high + poshalf;
    assert_eq!(dec.data[1], expected, "refinement bit should adjust decoded value");
    assert_ne!(dec.flags[fp_dec] & T1_MU_THIS, 0, "MU_THIS should be set after dec_refpass");
}

#[test]
fn clnpass_encode_decode_roundtrip() {
    // 4x4 block with two non-zero coefficients at bit-plane 3, coded by a first
    // clean-up pass over clear flags.
    let bpno: i32 = 3;
    let one = 1i32 << (bpno + T1_NMSEDEC_FRACBITS as i32);

    let mut enc = T1::new(true);
    enc.allocate_buffers(4, 4).unwrap();
    enc.set_orient(0);
    // (col 0, row 0) = data[0], positive; (col 2, row 1) = data[9], negative.
    enc.data[0] = one;
    enc.data[9] = (one as u32 | 0x8000_0000) as i32;

    let mut enc_buf = vec![0u8; 256];
    let num_bytes;
    {
        let mut mqc = Mqc::new(&mut enc_buf);
        init_t1_mqc_contexts(&mut mqc);
        mqc.init_enc();
        let nmsedec = enc.enc_clnpass(&mut mqc, bpno, 0);
        mqc.flush();
        assert!(nmsedec >= 0);
        num_bytes = mqc.num_bytes();
        assert!(num_bytes > 0);
    }

    let mut dec_buf = vec![0u8; 256];
    dec_buf[..num_bytes].copy_from_slice(&enc_buf[..num_bytes]);

    let mut dec = T1::new(false);
    dec.allocate_buffers(4, 4).unwrap();
    dec.set_orient(0);
    {
        let mut mqc = Mqc::new(&mut dec_buf);
        init_t1_mqc_contexts(&mut mqc);
        mqc.init_dec(num_bytes);
        dec.dec_clnpass(&mut mqc, bpno + 1, 0);
        mqc.finish_dec();
    }

    let oneplushalf = (1i32 << bpno) | (1i32 << (bpno - 1));
    assert_eq!(dec.data[0], oneplushalf, "(0,0) should be positive oneplushalf");
    assert_eq!(dec.data[6], -oneplushalf, "(2,1) should be negative oneplushalf");
    assert_eq!(dec.data[1], 0, "(1,0) should be 0");
    assert_eq!(dec.data[5], 0, "(1,1) should be 0");
}

#[test]
fn enc_passes_leave_data_unchanged() {
    let mut enc = T1::new(true);
    enc.allocate_buffers(5, 6).unwrap();
    enc.set_orient(1);
    for i in 0..30 {
        enc.data[i] = ((i as i32) * 97) << T1_NMSEDEC_FRACBITS;
    }
    let before = enc.data.clone();
    let mut buf = vec![0u8; 1024];
    let mut mqc = Mqc::new(&mut buf);
    init_t1_mqc_contexts(&mut mqc);
    mqc.init_enc();
    for bpno in (0..12).rev() {
        enc.enc_sigpass(&mut mqc, bpno, T1_TYPE_MQ, 0);
        enc.enc_refpass(&mut mqc, bpno, T1_TYPE_MQ);
        enc.enc_clnpass(&mut mqc, bpno, 0);
    }
    mqc.flush();
    assert_eq!(enc.data, before);
}

#[test]
fn clnpass_clears_visited_marks() {
    let mut dec = T1::new(false);
    dec.allocate_buffers(4, 4).unwrap();
    dec.set_orient(0);
    let mut buf = vec![0u8; 16];
    let mut mqc = Mqc::new(&mut buf);
    init_t1_mqc_contexts(&mut mqc);
    mqc.init_dec(0);
    dec.dec_clnpass(&mut mqc, 4, 0);
    for x in 0..4 {
        let fp = dec.flags_index(x, 0);
        assert_eq!(dec.flags[fp] & T1_PI_0, 0);
        assert_eq!(dec.flags[fp] & (T1_PI_THIS << 3), 0);
    }
}

#[test]
fn raw_sigpass_sets_significance() {
    // (col 0, row 0) is significant. The raw bits 0, 1, 1 leave (col 0, row 1) clear,
    // then make (col 1, row 0) significant and negative; the later bits are 0.
    let mut dec = T1::new(false);
    dec.allocate_buffers(4, 4).unwrap();
    dec.set_orient(0);
    let fp00 = dec.flags_index(0, 0);
    let stride = dec.flags_stride();
    update_flags(&mut dec.flags, fp00, 0, 0, stride, false);
    let mut buf = vec![0x60u8, 0, 0, 0, 0, 0];
    let mut mqc = Mqc::new(&mut buf);
    mqc.raw_init_dec(4);
    dec.dec_sigpass_raw(&mut mqc, 4, 0);
    let fp10 = dec.flags_index(1, 0);
    assert_ne!(dec.flags[fp10] & T1_SIGMA_4, 0);
    assert_eq!(dec.data[1], -12);
    assert_eq!(dec.data[4], 0);
}

#[test]
fn decode_cblk_refuses_high_bitplane() {
    let mut dec = T1::new(false);
    dec.allocate_buffers(4, 4).unwrap();
    let segs: Vec<DecodeSegment> = Vec::new();
    assert!(dec.decode_cblk(&segs, 0, 20, 11, 0).is_err());
    assert!(dec.decode_cblk(&segs, 0, 20, 10, 0).is_ok());
}

#[test]
fn decode_cblk_refuses_cleanup_in_raw_segment() {
    let mut dec = T1::new(false);
    dec.allocate_buffers(4, 4).unwrap();
    let bytes = [0u8; 8];
    // numbps 10: the first clean-up pass is arithmetic; lazy segments of the later
    // bit-planes hold significance and refinement passes only.
    let segs = vec![
        DecodeSegment { data: &bytes, num_passes: 10 },
        DecodeSegment { data: &bytes, num_passes: 2 },
        DecodeSegment { data: &bytes, num_passes: 1 },
    ];
    assert!(dec.decode_cblk(&segs, 0, 0, 10, J2K_CCP_CBLKSTY_LAZY).is_ok());
    let bad = vec![
        DecodeSegment { data: &bytes, num_passes: 10 },
        DecodeSegment { data: &bytes, num_passes: 3 },
    ];
    assert!(dec.decode_cblk(&bad, 0, 0, 10, J2K_CCP_CBLKSTY_LAZY).is_err());
}

#[test]
fn decode_cblk_roundtrip_cleanup() {
    // A clean-up pass coded at the most significant bit-plane decodes through
    // decode_cblk to the same values as the clean-up pass alone.
    let bpno: i32 = 2;
    let one = 1i32 << (bpno + T1_NMSEDEC_FRACBITS as i32);
    let mut enc = T1::new(true);
    enc.allocate_buffers(4, 4).unwrap();
    enc.set_orient(0);
    enc.data[5] = one;
    let mut enc_buf = vec![0u8; 256];
    let num_bytes;
    {
        let mut mqc = Mqc::new(&mut enc_buf);
        init_t1_mqc_contexts(&mut mqc);
        mqc.init_enc();
        enc.enc_clnpass(&mut mqc, bpno, 0);
        mqc.flush();
        num_bytes = mqc.num_bytes();
    }
    let mut dec = T1::new(false);
    dec.allocate_buffers(4, 4).unwrap();
    let segs = vec![DecodeSegment { data: &enc_buf[..num_bytes], num_passes: 1 }];
    dec.decode_cblk(&segs, 0, 0, (bpno + 1) as u32, 0).unwrap();
    // (col 1, row 1) in row order is data[5].
    let oneplushalf = (1i32 << bpno) | (1i32 << (bpno - 1));
    assert_eq!(dec.data[5], oneplushalf);
}

fn roundtrip_block(w: u32, h: u32, values: &[i32], cblksty: u32) {
    let mut enc = T1::new(true);
    enc.allocate_buffers(w, h).unwrap();
    // Encoder data: stripes of four rows, column by column within a stripe.
    let (wu, hu) = (w as usize, h as usize);
    for y in 0..hu {
        for x in 0..wu {
            let stripe = y / 4;
            let rows = if (stripe + 1) * 4 <= hu { 4 } else { hu - stripe * 4 };
            let idx = stripe * 4 * wu + x * rows + (y % 4);
            enc.data[idx] = values[y * wu + x] << T1_NMSEDEC_FRACBITS;
        }
    }
    let mut buf = vec![0u8; 1 << 16];
    let (passes, numbps) = enc.encode_cblk(&mut buf, 0, cblksty).unwrap();
    assert_eq!(passes.len(), if numbps == 0 { 0 } else { 3 * numbps as usize - 2 });
    // Segments end at the terminated passes.
    let mut segs = Vec::new();
    let mut start = 0usize;
    let mut count = 0u32;
    for p in &passes {
        count += 1;
        if p.term {
            let end = p.rate as usize;
            segs.push(DecodeSegment { data: &buf[start..end], num_passes: count });
            start = end;
            count = 0;
        }
    }
    let mut dec = T1::new(false);
    dec.allocate_buffers(w, h).unwrap();
    dec.decode_cblk(&segs, 0, 0, numbps, cblksty).unwrap();
    // Each magnitude comes back at the middle of its last bit-plane's step: `m | 1`.
    for i in 0..(wu * hu) {
        let v = values[i];
        let expected = if v == 0 { 0 } else if v > 0 { v | 1 } else { -((-v) | 1) };
        assert_eq!(dec.data[i], expected, "sample {}", i);
    }
}

#[test]
fn encode_cblk_roundtrip_default_style() {
    let values: Vec<i32> = (0..16).map(|i| ((i * 37) % 23) - 11).collect();
    roundtrip_block(4, 4, &values, 0);
}

#[test]
fn encode_cblk_roundtrip_partial_stripe() {
    let values: Vec<i32> = (0..35).map(|i| ((i * 53) % 41) - 20).collect();
    roundtrip_block(5, 7, &values, 0);
}

#[test]
fn encode_cblk_roundtrip_termall_reset() {
    // Every pass is its own segment; each segment is decoded from the initial contexts,
    // which the reset style gives the encoder too.
    let values: Vec<i32> = (0..16).map(|i| ((i * 29) % 17) - 8).collect();
    roundtrip_block(
        4,
        4,
        &values,
        openjpeg_rs::types::J2K_CCP_CBLKSTY_TERMALL | openjpeg_rs::types::J2K_CCP_CBLKSTY_RESET,
    );
}

#[test]
fn encode_cblk_roundtrip_lazy() {
    let values: Vec<i32> = (0..64).map(|i| ((i * 389) % 1201) - 600).collect();
    roundtrip_block(8, 8, &values, J2K_CCP_CBLKSTY_LAZY);
}

#[test]
fn encode_cblk_roundtrip_reset_segsym() {
    let values: Vec<i32> = (0..16).map(|i| ((i * 71) % 97) - 48).collect();
    roundtrip_block(
        4,
        4,
        &values,
        openjpeg_rs::types::J2K_CCP_CBLKSTY_RESET | openjpeg_rs::types::J2K_CCP_CBLKSTY_SEGSYM,
    );
}

#[test]
fn encode_cblk_small_values_have_no_pass() {
    let mut enc = T1::new(true);
    enc.allocate_buffers(4, 4).unwrap();
    enc.data[3] = 63;
    enc.data[5] = -40;
    let mut buf = vec![0u8; 4096];
    let (passes, numbps) = enc.encode_cblk(&mut buf, 0, 0).unwrap();
    assert!(passes.is_empty());
    assert_eq!(numbps, 0);
    // The samples are left in sign-magnitude form.
    assert_eq!(enc.data[5], (40u32 | 0x8000_0000) as i32);
}

#[test]
fn encode_cblk_pass_schedule() {
    let mut enc = T1::new(true);
    enc.allocate_buffers(4, 4).unwrap();
    enc.data[0] = 5 << 6;
    let mut buf = vec![0u8; 4096];
    let (passes, numbps) = enc.encode_cblk(&mut buf, 0, 0).unwrap();
    assert_eq!(numbps, 3);
    let kinds: Vec<(i32, u32)> = passes.iter().map(|p| (p.bpno, p.passtype)).collect();
    assert_eq!(kinds, vec![(2, 2), (1, 0), (1, 1), (1, 2), (0, 0), (0, 1), (0, 2)]);
    assert!(passes[6].term);
    assert!(passes.iter().take(6).all(|p| !p.term));
    let mut prev = 0;
    for p in &passes {
        assert!(p.rate >= prev);
        assert_eq!(p.len, p.rate - prev);
        prev = p.rate;
    }
}

#[test]
fn encode_cblk_refuses_small_buffer() {
    let mut enc = T1::new(true);
    enc.allocate_buffers(4, 4).unwrap();
    enc.data[0] = 5 << 6;
    let mut buf = vec![0u8; 8];
    assert!(matches!(enc.encode_cblk(&mut buf, 0, 0), Err(openjpeg_rs::error::Error::BufferTooSmall)));
}

#[test]
fn multi_pass_roundtrip() {
    let original: [i32; 16] = [100, -50, 25, 0, -30, 60, -10, 5, 15, -20, 40, -35, 0, 70, -80, 45];
    let w = 4u32;
    let h = 4u32;

    // Column by column within the stripe, shifted by the fractional bits.
    let mut zigzag_data = vec![0i32; (w * h) as usize];
    for r in 0..h as usize {
        for c in 0..w as usize {
            let val = original[r * w as usize + c];
            zigzag_data[c * h as usize + r] = val << T1_NMSEDEC_FRACBITS;
        }
    }

    let mut enc = T1::new(true);
    enc.allocate_buffers(w, h).unwrap();
    enc.data[..zigzag_data.len()].copy_from_slice(&zigzag_data);

    let mut enc_buf = vec![0u8; 4096];
    let (passes, numbps) = enc.encode_cblk(&mut enc_buf, 0, 0).unwrap();
    assert!(!passes.is_empty(), "should produce at least one pass");

    let total_rate = passes.last().unwrap().rate as usize;
    let total_passes = passes.len() as u32;
    // The encoder's bytes start at the beginning of its buffer.
    let encoded_data = enc_buf[..total_rate].to_vec();

    let mut dec = T1::new(false);
    dec.allocate_buffers(w, h).unwrap();
    let mut dec_buf = vec![0u8; encoded_data.len() + COMMON_CBLK_DATA_EXTRA];
    dec_buf[..encoded_data.len()].copy_from_slice(&encoded_data);
    let segments = [DecodeSegment { data: &dec_buf[..encoded_data.len()], num_passes: total_passes }];

    let max_abs = original.iter().map(|&v| v.abs()).max().unwrap();
    let max_shifted = max_abs << T1_NMSEDEC_FRACBITS;
    let expected_numbps = (31 - (max_shifted as u32).leading_zeros()) + 1 - T1_NMSEDEC_FRACBITS;
    assert_eq!(numbps, expected_numbps);

    dec.decode_cblk(&segments, 0, 0, numbps, 0).unwrap();

    let tolerance = 2i32;
    for r in 0..h as usize {
        for c in 0..w as usize {
            let decoded = dec.data[r * w as usize + c];
            let expected = original[r * w as usize + c];
            let diff = (decoded - expected).abs();
            assert!(
                diff <= tolerance,
                "coefficient ({},{}) mismatch: decoded={}, expected={}, diff={}, tolerance={}",
                c,
                r,
                decoded,
                expected,
                diff,
                tolerance,
            );
        }
    }
}

#[test]
fn refpass_raw_moves_only_refined_samples() {
    // (col 1, row 0) is significant; (col 2, row 1) holds a value but is not significant.
    let mut dec = T1::new(false);
    dec.allocate_buffers(4, 4).unwrap();
    dec.set_orient(0);
    let start = (1i32 << 5) | (1i32 << 4);
    dec.data[1] = start;
    dec.data[6] = 7;
    let fp = dec.flags_index(1, 0);
    let stride = dec.flags_stride();
    update_flags(&mut dec.flags, fp, 0, 0, stride, false);
    let mut buf = vec![0b1010_0000u8, 0, 0, 0];
    {
        let mut mqc = Mqc::new(&mut buf);
        mqc.raw_init_dec(1);
        dec.dec_refpass_raw(&mut mqc, 3);
    }
    let half = 1i32 << 1;
    assert!(dec.data[1] == start + half || dec.data[1] == start - half);
    assert_eq!(dec.data[6], 7);
    for k in 0..16 {
        if k != 1 && k != 6 {
            assert_eq!(dec.data[k], 0);
        }
    }
}

#[test]
fn enc_refpass_distortion_is_the_refined_samples_entry() {
    // Only (col 1, row 0) is significant; its refinement table entry is the pass's
    // distortion decrease.
    let bpno: i32 = 3;
    let mut enc = T1::new(true);
    enc.allocate_buffers(4, 4).unwrap();
    enc.set_orient(0);
    let val = (1i32 << 11) | (100 << 3);
    enc.data[4] = val;
    enc.data[9] = 1i32 << (bpno + T1_NMSEDEC_FRACBITS as i32);
    let fp = enc.flags_index(1, 0);
    let stride = enc.flags_stride();
    update_flags(&mut enc.flags, fp, 0, 0, stride, false);
    let mut buf = vec![0u8; 256];
    let mut mqc = Mqc::new(&mut buf);
    init_t1_mqc_contexts(&mut mqc);
    mqc.init_enc();
    let nmsedec = enc.enc_refpass(&mut mqc, bpno, T1_TYPE_MQ);
    assert_eq!(nmsedec, getnmsedec_ref(smr_abs(val), bpno as u32) as i32);
    assert_eq!(nmsedec, 2560);
}

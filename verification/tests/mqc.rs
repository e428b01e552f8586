use openjpeg_rs::coding::mqc::{MQC_NLPS, MQC_NMPS, MQC_NUMSTATES, MQC_QEVAL, Mqc, mqc_state};

#[test]
fn state_table_length() {
    assert_eq!(MQC_QEVAL.len(), 47);
    assert_eq!(MQC_NUMSTATES, 47);
}

#[test]
fn state_table_first_entry() {
    let s = mqc_state(0);
    assert_eq!(s.qeval, 0x5601);
    assert_eq!((s.nmps, s.nlps, s.switch_mps), (1, 1, true));
}

#[test]
fn state_table_last_entry() {
    let s = mqc_state(46);
    assert_eq!(s.qeval, 0x5601);
    assert_eq!((s.nmps, s.nlps), (46, 46));
}

#[test]
fn state_table_transitions_valid() {
    for i in 0..47 {
        assert!(MQC_NMPS[i] < 47, "state {i}: nmps out of range");
        assert!(MQC_NLPS[i] < 47, "state {i}: nlps out of range");
    }
}

#[test]
fn reset_states_all_equiprobable() {
    let mut buf = vec![0u8; 128];
    let mut mqc = Mqc::new(&mut buf);
    mqc.set_state(5, 1, 20);
    mqc.reset_states();
    for i in 0..19 {
        assert_eq!(mqc.ctxs[i], 0);
        assert_eq!(mqc_state(mqc.ctxs[i]).qeval, 0x5601);
        assert_eq!(mqc.ctxs_mps[i], 0);
    }
}

#[test]
fn set_state_specific_context() {
    let mut buf = vec![0u8; 128];
    let mut mqc = Mqc::new(&mut buf);
    mqc.reset_states();
    mqc.set_state(17, 0, 46);
    assert_eq!(mqc.ctxs[17], 46);
    assert_eq!(mqc.ctxs[16], 0);
}

#[test]
fn init_enc_sets_initial_state() {
    let mut buf = vec![0u8; 128];
    let mut mqc = Mqc::new(&mut buf);
    mqc.init_enc();
    assert_eq!(mqc.num_bytes(), 0);
    assert_eq!(mqc.a, 0x8000);
    assert_eq!(mqc.ct, 12);
}

#[test]
fn encode_single_symbol_and_flush() {
    let mut buf = vec![0u8; 128];
    let mut mqc = Mqc::new(&mut buf);
    mqc.reset_states();
    mqc.init_enc();
    mqc.set_curctx(0);
    mqc.encode(0);
    mqc.flush();
    assert!(mqc.num_bytes() > 0);
}

fn roundtrip(ctx_syms: &[(usize, u32)]) {
    let mut buf = vec![0u8; 256];
    {
        let mut mqc = Mqc::new(&mut buf);
        mqc.reset_states();
        mqc.init_enc();
        for &(ctx, sym) in ctx_syms {
            mqc.set_curctx(ctx);
            mqc.encode(sym);
        }
        mqc.flush();
    }
    {
        let mut mqc = Mqc::new(&mut buf);
        mqc.reset_states();
        let len = mqc.buf_len();
        mqc.init_dec(len);
        for &(ctx, expected) in ctx_syms {
            mqc.set_curctx(ctx);
            let d = mqc.decode();
            assert_eq!(d, expected);
        }
        mqc.finish_dec();
    }
}

#[test]
fn encode_decode_roundtrip_mps() {
    let symbols = [0u32, 0, 0, 0, 0, 0, 0, 0];
    let v: Vec<(usize, u32)> = symbols.iter().map(|&s| (0, s)).collect();
    roundtrip(&v);
}

#[test]
fn encode_decode_roundtrip_mixed() {
    let symbols = [0u32, 1, 0, 1, 1, 0, 0, 1, 0, 0, 0, 1];
    let v: Vec<(usize, u32)> = symbols.iter().map(|&s| (0, s)).collect();
    roundtrip(&v);
}

#[test]
fn encode_decode_multiple_contexts() {
    let ctx_syms: [(usize, u32); 8] = [(0, 0), (1, 1), (0, 1), (2, 0), (1, 0), (0, 0), (2, 1), (1, 1)];
    roundtrip(&ctx_syms);
}

#[test]
fn encode_decode_long_skewed_sequence() {
    // A long run in one context drives it through many states, with a few less
    // probable symbols mixed in.
    let mut v = Vec::new();
    for i in 0..60u32 {
        v.push(((i % 3) as usize, if i % 13 == 0 { 1 } else { 0 }));
    }
    roundtrip(&v);
}

#[test]
fn segmark_enc_encodes_four_symbols() {
    let mut buf = vec![0u8; 128];
    let mut mqc = Mqc::new(&mut buf);
    mqc.reset_states();
    mqc.init_enc();
    mqc.segmark_enc();
    mqc.flush();
    assert!(mqc.num_bytes() > 0);
}

#[test]
fn bypass_encode_decode_roundtrip() {
    let mut buf = vec![0u8; 256];
    let bits = [1u32, 0, 1, 1, 0, 0, 1, 0, 1, 0, 0, 1, 1, 1, 0, 1];
    {
        let mut mqc = Mqc::new(&mut buf);
        mqc.reset_states();
        mqc.init_enc();
        mqc.set_curctx(0);
        mqc.encode(0);
        mqc.encode(1);
        mqc.flush();
        mqc.bypass_init_enc();
        for &b in &bits {
            mqc.bypass_enc(b);
        }
        mqc.bypass_flush_enc(false);
        assert!(mqc.num_bytes() > 0);
    }
}

#[test]
fn bypass_bits_read_back_raw() {
    let mut buf = vec![0u8; 64];
    let bits = [1u32, 0, 1, 1, 0, 0, 1, 0, 1, 1, 1, 1, 1, 1, 1, 1, 0, 1, 0];
    let n;
    {
        let mut mqc = Mqc::new(&mut buf);
        mqc.init_enc();
        mqc.bp = 1;
        mqc.bypass_init_enc();
        for &b in &bits {
            mqc.bypass_enc(b);
        }
        mqc.bypass_flush_enc(true);
        n = mqc.num_bytes() + 1;
    }
    let mut mqc = Mqc::new(&mut buf);
    mqc.raw_init_dec(n);
    for &b in &bits {
        assert_eq!(mqc.raw_decode(), b);
    }
}

#[test]
fn raw_decode_roundtrip() {
    let data = vec![0b10110010u8, 0b11001010u8, 0xFF, 0xFF];
    let mut buf = data;
    let mut mqc = Mqc::new(&mut buf);
    mqc.raw_init_dec(2);
    let mut decoded = Vec::new();
    for _ in 0..16 {
        decoded.push(mqc.raw_decode());
    }
    assert_eq!(decoded[0], 1);
    assert_eq!(decoded[1], 0);
    assert_eq!(decoded[2], 1);
    assert_eq!(decoded[3], 1);
    assert_eq!(decoded[4], 0);
    assert_eq!(decoded[5], 0);
    assert_eq!(decoded[6], 1);
    assert_eq!(decoded[7], 0);
    mqc.finish_dec();
}

#[test]
fn raw_decode_past_end_reads_ones() {
    let mut buf = vec![0x00u8];
    let mut mqc = Mqc::new(&mut buf);
    mqc.raw_init_dec(1);
    for _ in 0..8 {
        assert_eq!(mqc.raw_decode(), 0);
    }
    for _ in 0..20 {
        assert_eq!(mqc.raw_decode(), 1);
    }
}

#[test]
fn num_bytes_tracks_position() {
    let mut buf = vec![0u8; 128];
    let mut mqc = Mqc::new(&mut buf);
    mqc.reset_states();
    mqc.init_enc();
    assert_eq!(mqc.num_bytes(), 0);
    mqc.set_curctx(0);
    for _ in 0..100 {
        mqc.encode(0);
    }
    mqc.flush();
    assert!(mqc.num_bytes() > 0);
}

#[test]
fn restart_init_enc_resets_state() {
    let mut buf = vec![0u8; 256];
    let mut mqc = Mqc::new(&mut buf);
    mqc.reset_states();
    mqc.init_enc();
    mqc.set_curctx(0);
    mqc.encode(0);
    mqc.encode(1);
    mqc.flush();
    mqc.restart_init_enc();
    assert_eq!(mqc.a, 0x8000);
    assert_eq!(mqc.c, 0);
    mqc.set_curctx(0);
    mqc.encode(0);
    mqc.flush();
}

#[test]
fn erterm_enc_fills_correctly() {
    let mut buf = vec![0u8; 128];
    let mut mqc = Mqc::new(&mut buf);
    mqc.reset_states();
    mqc.init_enc();
    mqc.set_curctx(0);
    mqc.encode(0);
    mqc.encode(1);
    mqc.erterm_enc();
    assert!(mqc.num_bytes() > 0);
}

#[test]
fn reset_enc_sets_code_block_states() {
    let mut buf = vec![0u8; 8];
    let mut mqc = Mqc::new(&mut buf);
    mqc.reset_enc();
    assert_eq!(mqc.ctxs[18], 46);
    assert_eq!(mqc.ctxs[17], 3);
    assert_eq!(mqc.ctxs[0], 4);
    assert_eq!(mqc.ctxs[1], 0);
}

#[test]
fn decoder_models_stay_in_step_with_encoder() {
    // After each symbol the decoder's interval register and the state and more probable
    // symbol of the context used are those of the encoder.
    let ctx_syms: [(usize, u32); 10] =
        [(0, 1), (0, 0), (3, 1), (3, 1), (0, 0), (3, 0), (0, 1), (0, 1), (3, 0), (0, 0)];
    let mut buf = vec![0u8; 256];
    let mut trace = Vec::new();
    {
        let mut mqc = Mqc::new(&mut buf);
        mqc.reset_states();
        mqc.init_enc();
        for &(ctx, sym) in ctx_syms.iter() {
            mqc.set_curctx(ctx);
            mqc.encode(sym);
            trace.push((mqc.a, mqc.ctxs[ctx], mqc.ctxs_mps[ctx]));
        }
        mqc.flush();
    }
    let mut mqc = Mqc::new(&mut buf);
    mqc.reset_states();
    let len = mqc.buf_len();
    mqc.init_dec(len);
    for (i, &(ctx, sym)) in ctx_syms.iter().enumerate() {
        mqc.set_curctx(ctx);
        assert_eq!(mqc.decode(), sym);
        assert_eq!((mqc.a, mqc.ctxs[ctx], mqc.ctxs_mps[ctx]), trace[i]);
    }
}

#[test]
fn encode_first_lps_in_fresh_context_switches_mps() {
    // State 0 (qeval 0x5601) with A = 0x8000: A - Q = 0x29FF < Q, so the LPS keeps
    // 0x29FF, renormalised to 0xA7FC; state 0 moves to its LPS next state 1 and swaps the MPS.
    let mut buf = vec![0u8; 64];
    let mut mqc = Mqc::new(&mut buf);
    mqc.reset_states();
    mqc.init_enc();
    mqc.set_curctx(0);
    mqc.encode(1);
    assert_eq!(mqc.a, 0xA7FC);
    assert_eq!((mqc.ctxs[0], mqc.ctxs_mps[0]), (1, 1));
}

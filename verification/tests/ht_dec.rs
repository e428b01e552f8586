use openjpeg_rs::coding::ht_dec::{
    count_leading_zeros, decode_init_uvlc, decode_one_sample, decode_noninit_uvlc, population_count, FrwdReader, MelDecoder,
    RevReader,
};


// -----------------------------------------------------------------------
// Tests: helper functions
// -----------------------------------------------------------------------

#[test]
fn count_leading_zeros_basic() {
    assert_eq!(count_leading_zeros(0), 32);
    assert_eq!(count_leading_zeros(1), 31);
    assert_eq!(count_leading_zeros(0x8000_0000), 0);
    assert_eq!(count_leading_zeros(0x0000_0100), 23);
}

#[test]
fn population_count_basic() {
    assert_eq!(population_count(0), 0);
    assert_eq!(population_count(0xFFFF_FFFF), 32);
    assert_eq!(population_count(0x5555_5555), 16);
    assert_eq!(population_count(0b1010_1010), 4);
}

// -----------------------------------------------------------------------
// Tests: MEL decoder
// -----------------------------------------------------------------------

#[test]
fn mel_decoder_init() {
    // MEL data with no unstuffing needed
    let data = [0x00, 0x00, 0x00, 0x00];
    let mel = MelDecoder::new(&data);
    assert_eq!(mel.k, 0);
    assert_eq!(mel.num_runs, 0);
}

#[test]
fn mel_decoder_single_run() {
    // Simple MEL: a single '1' bit means run=0 (event immediately)
    // when k=0, '1' → run = 0, k stays at 0
    // when k=0, '0' followed by nothing → run = 1
    let data = [0x80, 0x00]; // bit pattern: 1 0 0 0 ...
    let mut mel = MelDecoder::new(&data);
    let run = mel.decode_run().unwrap();
    assert_eq!(run, 0); // '1' bit at k=0 → run=0
}

#[test]
fn mel_decoder_unstuffing() {
    // After 0xFF, the MSB of the next byte is stripped
    let data = [0xFF, 0x7F]; // 0xFF followed by 0x7F (MSB=0, stripped)
    let mel = MelDecoder::new(&data);
    // Just verify initialization succeeds
    let _ = &mel;
}

// -----------------------------------------------------------------------
// Tests: Reverse reader
// -----------------------------------------------------------------------

#[test]
fn rev_reader_init_and_fetch() {
    // 4 bytes: [0x12, 0x34, 0x56, 0x78]
    // Reverse reader starts from end, so first bytes read are 0x78, 0x56, ...
    let data = [0x12, 0x34, 0x56, 0x78];
    let reader = RevReader::new(&data);
    let bits = reader.fetch();
    // First byte read backwards is 0x78 = 0b0111_1000
    // Expect these bits at LSB of fetch result
    assert_ne!(bits, 0);
}

#[test]
fn rev_reader_advance_consumes_bits() {
    let data = [0x12, 0x34, 0x56, 0x78];
    let mut reader = RevReader::new(&data);
    let bits1 = reader.fetch();
    reader.advance(4).unwrap();
    let bits2 = reader.fetch();
    // After consuming 4 bits, the result should differ
    assert_ne!(bits1, bits2);
}

#[test]
fn rev_reader_unstuffing() {
    // Data ending with 0xFF requires unstuffing
    let data = [0x00, 0xFF];
    let reader = RevReader::new(&data);
    // Should handle 0xFF unstuffing correctly
    let _ = reader.fetch();
}

// -----------------------------------------------------------------------
// Tests: Forward reader
// -----------------------------------------------------------------------

#[test]
fn frwd_reader_init_and_fetch() {
    let data = [0xAB, 0xCD, 0xEF, 0x01];
    let reader = FrwdReader::new(&data, 0xFF);
    let bits = reader.fetch();
    // First byte forward is 0xAB
    assert_ne!(bits, 0);
}

#[test]
fn frwd_reader_advance_consumes_bits() {
    let data = [0xAB, 0xCD, 0xEF, 0x01];
    let mut reader = FrwdReader::new(&data, 0xFF);
    let bits1 = reader.fetch();
    reader.advance(8).unwrap();
    let bits2 = reader.fetch();
    assert_ne!(bits1, bits2);
}

#[test]
fn frwd_reader_fill_on_exhaustion() {
    // 2-byte data, read more than available → fills with fill_byte
    let data = [0x42, 0x43];
    let mut reader = FrwdReader::new(&data, 0xFF);
    // Consume all real data
    reader.advance(16).unwrap();
    let bits = reader.fetch();
    // Should be filled with 0xFF bytes
    assert_eq!(bits & 0xFF, 0xFF);
}

#[test]
fn frwd_reader_unstuffing() {
    // After 0xFF, MSB of next byte is stripped
    let data = [0xFF, 0x7F, 0x00];
    let reader = FrwdReader::new(&data, 0xFF);
    let _ = reader.fetch();
}

// -----------------------------------------------------------------------
// Tests: UVLC decoders
// -----------------------------------------------------------------------

#[test]
fn decode_init_uvlc_mode0() {
    let (consumed, u) = decode_init_uvlc(0, 0);
    assert_eq!(consumed, 0);
    assert_eq!(u, [1, 1]);
}

#[test]
fn decode_init_uvlc_mode1() {
    // VLC bits: 1 (prefix "1" -> u_pfx=1, suffix_len=0)
    let (consumed, u) = decode_init_uvlc(0b1, 1);
    assert_eq!(consumed, 1);
    assert_eq!(u[0], 2); // d=1, u=1+1=2
    assert_eq!(u[1], 1);
}

#[test]
fn decode_init_uvlc_mode2() {
    let (consumed, u) = decode_init_uvlc(0b1, 2);
    assert_eq!(consumed, 1);
    assert_eq!(u[0], 1);
    assert_eq!(u[1], 2);
}

#[test]
fn decode_init_uvlc_mode1_prefix01() {
    // VLC bits: 10 (prefix "01" -> u_pfx=2, suffix_len=0)
    let (consumed, u) = decode_init_uvlc(0b10, 1);
    assert_eq!(consumed, 2);
    assert_eq!(u[0], 3); // d=2, u=2+1=3
    assert_eq!(u[1], 1);
}

#[test]
fn decode_init_uvlc_mode4() {
    // Mode 4: both u_off=1, MEL event=1, each gets +2+kappa(=1)=+3
    // Two prefix "1" codewords
    let (consumed, u) = decode_init_uvlc(0b11, 4);
    assert_eq!(consumed, 2);
    assert_eq!(u[0], 4); // d=1, u=1+3=4
    assert_eq!(u[1], 4);
}

#[test]
fn decode_noninit_uvlc_mode0() {
    let (consumed, u) = decode_noninit_uvlc(0, 0);
    assert_eq!(consumed, 0);
    assert_eq!(u, [1, 1]);
}

#[test]
fn decode_noninit_uvlc_mode3() {
    // Two symbols, each "1" prefix
    let (consumed, u) = decode_noninit_uvlc(0b11, 3);
    assert_eq!(consumed, 2);
    assert_eq!(u[0], 2); // d=1, u=1+1
    assert_eq!(u[1], 2);
}

#[test]
fn decode_noninit_uvlc_mode1() {
    let (consumed, u) = decode_noninit_uvlc(0b1, 1);
    assert_eq!(consumed, 1);
    assert_eq!(u[0], 2);
    assert_eq!(u[1], 1);
}

#[test]
fn decode_noninit_uvlc_mode2() {
    let (consumed, u) = decode_noninit_uvlc(0b1, 2);
    assert_eq!(consumed, 1);
    assert_eq!(u[0], 1);
    assert_eq!(u[1], 2);
}


#[test]
fn decode_one_sample_sign_magnitude_and_shift() {
    // ms_val = 0b1101: sign bit 1, three magnitude bits 0b101, EMB bit 1 above them,
    // bin-centre bit set: v_n = 0b1101 = 13; (13 + 2) << (2 - 1) = 30; sign in bit 31.
    let data = [0x0D, 0x00, 0x00, 0x00];
    let mut reader = FrwdReader::new(&data, 0);
    let v = decode_one_sample(&mut reader, 3, 0, 1, 2).unwrap();
    assert_eq!(v, 0x8000_001E);
    // Three bits were consumed.
    assert_eq!(reader.fetch() & 1, 1);
}

#[test]
fn decode_one_sample_emb_k_reduces_bits_taken() {
    // m_n = u_q - emb_k = 1: magnitude bit 0 of 0b10 is 0, EMB bit 0 above it, centre bit:
    // v_n = 1; (1 + 2) << 0 = 3; sign bit 0.
    let data = [0x02, 0x00, 0x00, 0x00];
    let mut reader = FrwdReader::new(&data, 0);
    let v = decode_one_sample(&mut reader, 2, 1, 0, 1).unwrap();
    assert_eq!(v, 3);
    assert_eq!(reader.fetch() & 1, 1);
}

#[test]
fn frwd_reader_buffers_first_bytes_low_first() {
    let data = [0xAB, 0xCD, 0xEF, 0x01];
    let reader = FrwdReader::new(&data, 0);
    assert_eq!(reader.fetch(), 0x01EF_CDAB);
}

#[test]
fn mel_decoder_event_run_in_higher_state() {
    // Two full runs raise the state from 0 to 2 (exponent 0 each: runs 0); a 0 bit in
    // state 2 (exponent 0) is an event after no zero quad: run coded 1.
    let data = [0b1100_0000, 0x00];
    let mut mel = MelDecoder::new(&data);
    assert_eq!(mel.decode_run().unwrap(), 0);
    assert_eq!(mel.decode_run().unwrap(), 0);
    assert_eq!(mel.decode_run().unwrap(), 1);
}

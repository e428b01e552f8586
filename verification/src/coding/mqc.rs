//! The MQ arithmetic coder: context states, the encoder with its bypass and termination
//! modes, and the decoder.
use vstd::prelude::*;
use crate::types::{T1_CTXNO_AGG, T1_CTXNO_UNI, T1_CTXNO_ZC};

verus! {

/// Number of coding contexts.
pub const MQC_NUMCTXS: usize = 19;

/// Entry of the MQ state table: probability estimate and the next states after a more or
/// a less probable symbol.
#[derive(Debug, Clone, Copy, PartialEq, Eq, Structural)]
pub struct MqcState {
    /// Probability estimate of the less probable symbol.
    pub qeval: u32,
    /// Next state after a more probable symbol.
    pub nmps: usize,
    /// Next state after a less probable symbol.
    pub nlps: usize,
    /// Whether a less probable symbol swaps which symbol is the more probable.
    pub switch_mps: bool,
}

/// Probability estimate of each of the 47 states.
pub const MQC_QEVAL: [u32; 47] = [
    0x5601, 0x3401, 0x1801, 0x0AC1, 0x0521, 0x0221, 0x5601, 0x5401, 0x4801, 0x3801, 0x3001, 0x2401,
    0x1C01, 0x1601, 0x5601, 0x5401, 0x5101, 0x4801, 0x3801, 0x3401, 0x3001, 0x2801, 0x2401, 0x2201,
    0x1C01, 0x1801, 0x1601, 0x1401, 0x1201, 0x1101, 0x0AC1, 0x09C1, 0x08A1, 0x0521, 0x0441, 0x02A1,
    0x0221, 0x0141, 0x0111, 0x0085, 0x0049, 0x0025, 0x0015, 0x0009, 0x0005, 0x0001, 0x5601,
];

/// Next state after a more probable symbol, for each state.
pub const MQC_NMPS: [usize; 47] = [
    1, 2, 3, 4, 5, 38, 7, 8, 9, 10, 11, 12, 13, 29, 15, 16,
    17, 18, 19, 20, 21, 22, 23, 24, 25, 26, 27, 28, 29, 30, 31, 32,
    33, 34, 35, 36, 37, 38, 39, 40, 41, 42, 43, 44, 45, 45, 46,
];

/// Next state after a less probable symbol, for each state.
pub const MQC_NLPS: [usize; 47] = [
    1, 6, 9, 12, 29, 33, 6, 14, 14, 14, 17, 18, 20, 21, 14, 14,
    15, 16, 17, 18, 19, 19, 20, 21, 22, 23, 24, 25, 26, 27, 28, 29,
    30, 31, 32, 33, 34, 35, 36, 37, 38, 39, 40, 41, 42, 43, 46,
];

/// Whether a less probable symbol swaps the more probable symbol, for each state.
pub const MQC_SWITCH: [bool; 47] = [
    true, false, false, false, false, false, true, false,
    false, false, false, false, false, false, true, false,
    false, false, false, false, false, false, false, false,
    false, false, false, false, false, false, false, false,
    false, false, false, false, false, false, false, false,
    false, false, false, false, false, false, false,
];

/// Number of states of the MQ coder.
pub const MQC_NUMSTATES: usize = 47;

/// Entry `i` of the state table.
pub open spec fn state_spec(i: int) -> MqcState {
    MqcState { qeval: MQC_QEVAL@[i], nmps: MQC_NMPS@[i], nlps: MQC_NLPS@[i], switch_mps: MQC_SWITCH@[i] }
}

/// Whether every state of the table has a probability estimate between 1 and 0x5601 and
/// next states within the table.
pub open spec fn states_valid() -> bool {
    forall|i: int|
        0 <= i < 47 ==> {
            &&& 1 <= #[trigger] MQC_QEVAL@[i] <= 0x5601
            &&& MQC_NMPS@[i] < 47
            &&& MQC_NLPS@[i] < 47
        }
}

/// Every state of the table is valid.
pub proof fn lemma_states_valid()
    ensures
        states_valid(),
{
    assert forall|i: int| 0 <= i < 47 implies {
        &&& 1 <= #[trigger] MQC_QEVAL@[i] <= 0x5601
        &&& MQC_NMPS@[i] < 47
        &&& MQC_NLPS@[i] < 47
    } by {
        assert(0 <= i < 47);
    }
}

/// Entry `i` of the state table.
pub fn mqc_state(i: usize) -> (s: MqcState)
    requires
        i < MQC_NUMSTATES,
    ensures
        s == state_spec(i as int),
        1 <= s.qeval <= 0x5601,
        s.nmps < MQC_NUMSTATES,
        s.nlps < MQC_NUMSTATES,
{
    proof {
        lemma_states_valid();
    }
    MqcState { qeval: MQC_QEVAL[i], nmps: MQC_NMPS[i], nlps: MQC_NLPS[i], switch_mps: MQC_SWITCH[i] }
}

/// Lower bound of the interval register, once one byte was output during a
/// renormalisation, at bit count `ct`: at least 2 when the byte was output, doubled at
/// each later shift.
pub open spec fn bytes_one_bound(ct: u32) -> u32 {
    if ct >= 7 { 2 } else if ct == 6 { 4 } else if ct == 5 { 8 } else if ct == 4 { 16 } else if ct == 3 { 32 }
    else if ct == 2 { 64 } else if ct == 1 { 128 } else { 256 }
}

/// Lower bound of the interval register once two bytes were output: at least 256 when
/// the second byte was output, doubled at each later shift.
pub open spec fn bytes_two_bound(ct: u32) -> u32 {
    if ct >= 7 { 256 } else if ct == 6 { 512 } else if ct == 5 { 1024 } else if ct == 4 { 2048 }
    else if ct == 3 { 4096 } else if ct == 2 { 8192 } else if ct == 1 { 16384 } else { 32768 }
}

/// The interval register after renormalisation: doubled until it reaches 0x8000.
pub open spec fn renorm_a(a: int) -> int
    decreases 0x10000 - a,
{
    if a <= 0 || a >= 0x8000 {
        a
    } else {
        renorm_a(2 * a)
    }
}

/// The interval register after coding a symbol in a context whose probability estimate
/// is `qeval`, before renormalisation: the sub-interval of the more probable symbol is
/// `a - qeval`, and of the two sub-intervals the larger goes to the more probable symbol
/// (the conditional exchange).
pub open spec fn coded_a(a: int, qeval: int, is_mps: bool) -> int {
    if is_mps {
        if a - qeval < qeval { qeval } else { a - qeval }
    } else {
        if a - qeval < qeval { a - qeval } else { qeval }
    }
}

/// The interval register after coding a symbol: `coded_a`, then renormalised. Encoder and
/// decoder update it alike.
pub open spec fn next_a(a: int, qeval: int, is_mps: bool) -> int {
    renorm_a(coded_a(a, qeval, is_mps))
}

/// `c + q` wrapped to 32 bits.
pub open spec fn wrap_add(c: u32, q: u32) -> u32 {
    if c + q > u32::MAX { (c + q - 0x1_0000_0000) as u32 } else { (c + q) as u32 }
}

/// Encoder registers `(c, ct, bp, buf)` after outputting a byte of the code register `c`
/// after the current byte (index `bp - 1`, or a virtual zero byte when `bp == 0`): after a
/// 0xFF byte, 7 bits go out (bit stuffing); otherwise a carry out of the register is first
/// added to the current byte, and 8 bits go out unless that made it 0xFF.
pub open spec fn byteout_spec(c: u32, bp: int, buf: Seq<u8>) -> (u32, u32, int, Seq<u8>) {
    let cur: u8 = if bp == 0 { 0 } else { buf[bp - 1] };
    if cur == 0xff {
        (c & 0xfffff, 7, bp + 1, buf.update(bp, (c >> 20u32) as u8))
    } else if c & 0x800_0000 == 0 {
        (c & 0x7ffff, 8, bp + 1, buf.update(bp, (c >> 19u32) as u8))
    } else {
        let bumped = (cur + 1) as u8;
        let buf1 = if bp > 0 { buf.update(bp - 1, bumped) } else { buf };
        if bumped == 0xff {
            let c1 = c & 0x7ff_ffff;
            (c1 & 0xfffff, 7, bp + 1, buf1.update(bp, (c1 >> 20u32) as u8))
        } else {
            (c & 0x7ffff, 8, bp + 1, buf1.update(bp, (c >> 19u32) as u8))
        }
    }
}

/// Encoder registers `(a, c, ct, bp, buf)` after renormalisation: while the interval is
/// below 0x8000 it and the code register double, and a byte goes out each time the bit
/// counter runs out.
pub open spec fn renorm_spec(a: u32, c: u32, ct: u32, bp: int, buf: Seq<u8>) -> (u32, u32, u32, int, Seq<u8>)
    decreases 0x10000 - a,
{
    if a == 0 || a >= 0x8000 || ct == 0 {
        (a, c, ct, bp, buf)
    } else {
        let a1 = (2 * a) as u32;
        let c1 = c << 1u32;
        let ct1 = (ct - 1) as u32;
        if ct1 == 0 {
            let (c2, ct2, bp2, buf2) = byteout_spec(c1, bp, buf);
            renorm_spec(a1, c2, ct2, bp2, buf2)
        } else {
            renorm_spec(a1, c1, ct1, bp, buf)
        }
    }
}

/// Encoder registers `(a, c, ct, bp, buf)` after coding symbol `is_mps` (the more probable
/// one or not) in a context whose probability estimate is `q`: the interval and code
/// register follow the conditional exchange, then renormalisation.
pub open spec fn encode_spec(a: u32, c: u32, ct: u32, bp: int, buf: Seq<u8>, q: u32, is_mps: bool) -> (
    u32,
    u32,
    u32,
    int,
    Seq<u8>,
) {
    let a1 = (a - q) as u32;
    if is_mps {
        if a1 < 0x8000 {
            if a1 < q {
                renorm_spec(q, c, ct, bp, buf)
            } else {
                renorm_spec(a1, wrap_add(c, q), ct, bp, buf)
            }
        } else {
            (a1, wrap_add(c, q), ct, bp, buf)
        }
    } else if a1 < q {
        renorm_spec(a1, wrap_add(c, q), ct, bp, buf)
    } else {
        renorm_spec(q, c, ct, bp, buf)
    }
}

/// `c - q` wrapped to 32 bits.
pub open spec fn wrap_sub(c: u32, q: u32) -> u32 {
    if c < q { (c + 0x1_0000_0000 - q) as u32 } else { (c - q) as u32 }
}

/// The code register set for termination: its low 16 bits set, less 0x8000 when that
/// does not leave the coded interval `[c, c + a)`.
pub open spec fn setbits_c(a: u32, c: u32) -> u32 {
    let tempc = wrap_add(c, a);
    let c1 = c | 0xffff;
    if c1 >= tempc { wrap_sub(c1, 0x8000) } else { c1 }
}

/// Encoder position and bytes `(bp, buf)` after termination: the register set by
/// `setbits_c` goes out in two bytes, and the position moves past the last one unless it
/// is 0xFF.
pub open spec fn flush_spec(a: u32, c: u32, ct: u32, bp: int, buf: Seq<u8>) -> (int, Seq<u8>) {
    let (c1, ct1, bp1, buf1) = byteout_spec(setbits_c(a, c) << ct, bp, buf);
    let (c2, ct2, bp2, buf2) = byteout_spec(c1 << ct1, bp1, buf1);
    (if buf2[bp2 - 1] != 0xff { bp2 + 1 } else { bp2 }, buf2)
}

/// State and more probable symbol of a context in state `state` with more probable
/// symbol `mps` after coding symbol `d` with the interval register at `a`: a less probable
/// symbol moves to the state's next state for it and may swap the more probable symbol; a
/// more probable symbol moves to its next state only when the coding renormalises.
pub open spec fn next_ctx(state: int, mps: int, a: int, d: int) -> (int, int) {
    let st = state_spec(state);
    if d == mps {
        if a - st.qeval < 0x8000 { (st.nmps as int, mps) } else { (state, mps) }
    } else {
        (st.nlps as int, if st.switch_mps { 1 - mps } else { mps })
    }
}

/// The symbol that the decoder reads from its registers `a` and `c` in a context in state
/// `st` with more probable symbol `mps`: it compares the high half of `c` with the
/// probability estimate and undoes the conditional exchange.
pub open spec fn dec_symbol(a: int, c: int, st: MqcState, mps: int) -> int {
    let a1 = a - st.qeval;
    if c / 0x10000 < st.qeval {
        if a1 < st.qeval { mps } else { 1 - mps }
    } else if a1 < 0x8000 && a1 < st.qeval {
        1 - mps
    } else {
        mps
    }
}

/// The decoder's byte at `i` of the input `bytes` that ends at `end`: 0xFF past the end.
pub open spec fn byte_at(bytes: Seq<u8>, end: int, i: int) -> u8 {
    if i < end {
        bytes[i]
    } else {
        0xFF
    }
}

/// `Mqc::bytein_regs` over the input `bytes` that ends at `end`.
pub open spec fn bytein_at(bytes: Seq<u8>, end: int, c: u32, bp: int) -> (u32, u32, int) {
    let cur = byte_at(bytes, end, bp - 1);
    if cur == 0xff {
        let next = byte_at(bytes, end, bp);
        if next > 0x8f {
            (wrap_add(c, 0xff00), 8, bp)
        } else {
            (wrap_add(c, (next as u32) << 9u32), 7, bp + 1)
        }
    } else {
        (wrap_add(c, (byte_at(bytes, end, bp) as u32) << 8u32), 8, bp + 1)
    }
}

/// `Mqc::renormd_regs` over the input `bytes` that ends at `end`.
pub open spec fn renormd_at(bytes: Seq<u8>, end: int, a: u32, c: u32, ct: u32, bp: int) -> (u32, u32, u32, int)
    decreases 0x10000 - a,
{
    if a == 0 || a >= 0x8000 {
        (a, c, ct, bp)
    } else {
        let (c1, ct1, bp1) = if ct == 0 { bytein_at(bytes, end, c, bp) } else { (c, ct, bp) };
        if ct1 == 0 {
            (a, c, ct, bp)
        } else {
            renormd_at(bytes, end, (2 * a) as u32, c1 << 1u32, (ct1 - 1) as u32, bp1)
        }
    }
}

/// Decoder registers `(a, c, ct, bp)` after decoding a symbol from registers `a`, `c`,
/// `ct`, `bp` in a context in state `st`, over the input `bytes` that ends at `end`.
pub open spec fn decode_regs_at(bytes: Seq<u8>, end: int, a: u32, c: u32, ct: u32, bp: int, st: int) -> (u32, u32, u32, int) {
    let q = state_spec(st).qeval;
    let a1 = (a - q) as u32;
    if c / 0x10000 < q {
        renormd_at(bytes, end, q, c, ct, bp)
    } else {
        let c2 = (c - q * 0x10000) as u32;
        if a1 < 0x8000 {
            renormd_at(bytes, end, a1, c2, ct, bp)
        } else {
            (a1, c2, ct, bp)
        }
    }
}

/// Raw decoding registers `(bp, c, ct)` after reading one bit from registers `c`, `ct`,
/// `bp`, over the input `bytes` that ends at `end` (see `Mqc::raw_next`).
pub open spec fn raw_next_at(bytes: Seq<u8>, end: int, c: u32, ct: u32, bp: int) -> (int, int, int) {
    if ct == 0 {
        let cur = byte_at(bytes, end, bp - 1) as int;
        if c == 0xff {
            if cur > 0x8f {
                (bp, 0xff, 7)
            } else {
                (bp + 1, cur, 6)
            }
        } else {
            (bp + 1, cur, 7)
        }
    } else {
        (bp, c as int, ct - 1)
    }
}

/// The decoder's registers `(a, c, ct, bp)` and the state and more probable symbol of
/// each context.
pub type DecModel = (u32, u32, u32, int, Seq<usize>, Seq<u8>);

/// Decoding one symbol in context `ctx` from decoder `m`, over the input `bytes` that
/// ends at `end`: the symbol, and the decoder after it (registers renormalised, the
/// context's state and more probable symbol adapted).
#[verifier::opaque]
pub open spec fn dec_step(bytes: Seq<u8>, end: int, m: DecModel, ctx: int) -> (u32, DecModel) {
    let st = m.4[ctx] as int;
    let mps = m.5[ctx] as int;
    let d = dec_symbol(m.0 as int, m.1 as int, state_spec(st), mps);
    let regs = decode_regs_at(bytes, end, m.0, m.1, m.2, m.3, st);
    let nc = next_ctx(st, mps, m.0 as int, d);
    (d as u32, (regs.0, regs.1, regs.2, regs.3, m.4.update(ctx, nc.0 as usize), m.5.update(ctx, nc.1 as u8)))
}

/// Reading one raw bit from decoder `m` over the input `bytes` that ends at `end`: the bit
/// and the decoder after it; the interval register and the contexts are not used.
#[verifier::opaque]
pub open spec fn raw_step(bytes: Seq<u8>, end: int, m: DecModel) -> (u32, DecModel) {
    let n = raw_next_at(bytes, end, m.1, m.2, m.3);
    (((n.1 as u32) >> (n.2 as u32)) % 2, (m.0, n.1 as u32, n.2 as u32, n.0, m.4, m.5))
}

/// A raw decode call, as `Mqc::raw_decode` states it, is one raw step of the decoder model.
pub proof fn lemma_raw_decode_model(before: &Mqc, after: &Mqc, r: u32)
    requires
        r == (after.c >> after.ct) % 2,
        (after.bp as int, after.c as int, after.ct as int) == before.raw_next(),
        after.a == before.a,
        after.ctxs == before.ctxs && after.ctxs_mps == before.ctxs_mps,
    ensures
        raw_step(before.bytes(), before.end as int, before.dec_model()) == (r, after.dec_model()),
{
    reveal(raw_step);
}

/// The encoder's registers `(a, c, ct, bp)`, its buffer, and the state and more probable
/// symbol of each context.
pub type EncModel = (u32, u32, u32, int, Seq<u8>, Seq<usize>, Seq<u8>);

/// Coding symbol `d` in context `ctx` from encoder `m`: the registers and buffer that
/// `encode_spec` gives, and the context's state and more probable symbol adapted.
pub open spec fn enc_one(m: EncModel, ctx: int, d: int) -> EncModel {
    let st = m.5[ctx] as int;
    let mps = m.6[ctx] as int;
    let e = encode_spec(m.0, m.1, m.2, m.3, m.4, state_spec(st).qeval, d == mps);
    let nc = next_ctx(st, mps, m.0 as int, d);
    (e.0, e.1, e.2, e.3, e.4, m.5.update(ctx, nc.0 as usize), m.6.update(ctx, nc.1 as u8))
}

/// Coding the symbols `s`, each a context and a bit, in order from encoder `m`.
pub open spec fn enc_all(m: EncModel, s: Seq<(int, u32)>) -> EncModel
    decreases s.len(),
{
    if s.len() == 0 {
        m
    } else {
        enc_one(enc_all(m, s.drop_last()), s.last().0, s.last().1 as int)
    }
}

/// Coding `a` then `b` is coding `a + b`.
pub proof fn lemma_enc_all_append(m: EncModel, a: Seq<(int, u32)>, b: Seq<(int, u32)>)
    ensures
        enc_all(enc_all(m, a), b) == enc_all(m, a + b),
    decreases b.len(),
{
    if b.len() == 0 {
        assert(a + b =~= a);
    } else {
        lemma_enc_all_append(m, a, b.drop_last());
        assert((a + b).drop_last() =~= a + b.drop_last());
        assert((a + b).last() == b.last());
    }
}

/// An encode call, as `Mqc::encode` states it, is one step of the encoder model.
pub proof fn lemma_encode_model(before: &Mqc, after: &Mqc, d: u32)
    requires
        before.enc_step(after, 3),
        before.curctx < MQC_NUMCTXS,
        before.adapted(after, d as int),
        before.coded(after, d as int),
    ensures
        after.enc_model() == enc_one(before.enc_model(), before.curctx as int, d as int),
{
    reveal(Mqc::adapted);
    reveal(Mqc::coded);
    let ctx = before.curctx as int;
    let nc = next_ctx(before.cur_state(), before.cur_mps(), before.a as int, d as int);
    assert forall|i: int| 0 <= i < MQC_NUMCTXS && i != ctx implies after.ctxs_mps@[i] == before.ctxs_mps@[i] && after.ctxs@[i] == before.ctxs@[i] by {
        assert(after.ctxs@[i] == before.ctxs@[i]);
    }
    assert(after.ctxs@ =~= before.ctxs@.update(ctx, nc.0 as usize));
    assert(after.ctxs_mps@ =~= before.ctxs_mps@.update(ctx, nc.1 as u8));
}

/// A decode call, as `Mqc::decode` states it, is one step of the decoder model.
pub proof fn lemma_decode_model(before: &Mqc, after: &Mqc, r: u32)
    requires
        before.dec_wf(),
        after.curctx == before.curctx,
        before.curctx < MQC_NUMCTXS,
        forall|i: int| 0 <= i < MQC_NUMCTXS && i != before.curctx ==> #[trigger] after.ctxs@[i]
            == before.ctxs@[i] && after.ctxs_mps@[i] == before.ctxs_mps@[i],
        r == dec_symbol(before.a as int, before.c as int, state_spec(before.cur_state()), before.cur_mps()),
        before.adapted(after, r as int),
        before.decoded(after),
    ensures
        dec_step(before.bytes(), before.end as int, before.dec_model(), before.curctx as int) == (r, after.dec_model()),
{
    reveal(Mqc::adapted);
    reveal(Mqc::decoded);
    reveal(dec_step);
    let q = state_spec(before.cur_state()).qeval;
    let ctx = before.curctx as int;
    let m = before.dec_model();
    let nc = next_ctx(before.cur_state(), before.cur_mps(), before.a as int, r as int);
    assert(after.ctxs@ =~= before.ctxs@.update(ctx, nc.0 as usize));
    assert forall|i: int| 0 <= i < MQC_NUMCTXS && i != ctx implies after.ctxs_mps@[i] == before.ctxs_mps@[i] by {
        assert(after.ctxs@[i] == before.ctxs@[i]);
    }
    assert(after.ctxs_mps@ =~= before.ctxs_mps@.update(ctx, nc.1 as u8));
}

/// Value of the bit counter in bypass mode before any bit was coded: any value above 8
/// marks it.
pub const BYPASS_CT_INIT: u32 = 0xDEAD_BEEF;

/// MQ coder over a byte buffer. `bp` is one past the position of the current byte: the
/// encoder starts on a virtual zero byte before the buffer (`bp == 0`), the decoder on
/// the first byte of its input; past `end` the decoder reads 0xFF bytes.
pub struct Mqc<'a> {
    /// The coded bytes.
    pub buf: &'a mut [u8],
    /// One past the index of the current byte.
    pub bp: usize,
    /// Code register.
    pub c: u32,
    /// Interval register.
    pub a: u32,
    /// Bit counter.
    pub ct: u32,
    /// Index of the first coded byte.
    pub start: usize,
    /// End of the decoder's input.
    pub end: usize,
    /// State of each context.
    pub ctxs: [usize; MQC_NUMCTXS],
    /// More probable symbol of each context.
    pub ctxs_mps: [u8; MQC_NUMCTXS],
    /// Current context.
    pub curctx: usize,
    /// Number of times the decoder met the end of its input.
    pub end_of_byte_stream_counter: u32,
}

impl<'a> Mqc<'a> {
    /// The bytes of the buffer.
    pub open spec fn bytes(&self) -> Seq<u8> {
        self.buf@
    }

    /// Decoder registers `(c, ct, bp)` after reading the next byte into the code register:
    /// after a 0xFF byte, the next byte goes in with 7 bits, unless it is above 0x8F (a
    /// marker, or the end of the input), where 0xFF00 is fed and the position stays;
    /// otherwise the next byte goes in with 8 bits.
    pub open spec fn bytein_regs(&self, c: u32, bp: int) -> (u32, u32, int) {
        bytein_at(self.bytes(), self.end as int, c, bp)
    }

    /// Decoder registers `(a, c, ct, bp)` after renormalisation: the interval and the code
    /// register double until the interval reaches 0x8000, a byte being read in whenever
    /// the bit counter has run out.
    pub open spec fn renormd_regs(&self, a: u32, c: u32, ct: u32, bp: int) -> (u32, u32, u32, int) {
        renormd_at(self.bytes(), self.end as int, a, c, ct, bp)
    }

    /// What the encoder holds: its registers, its buffer, and its contexts.
    pub open spec fn enc_model(&self) -> EncModel {
        (self.a, self.c, self.ct, self.bp as int, self.buf@, self.ctxs@, self.ctxs_mps@)
    }

    /// What the decoder holds that decoding depends on, besides its input: the registers
    /// `(a, c, ct, bp)` and the state and more probable symbol of each context.
    pub open spec fn dec_model(&self) -> DecModel {
        (self.a, self.c, self.ct, self.bp as int, self.ctxs@, self.ctxs_mps@)
    }

    /// Decoder registers `(a, c, ct, bp)` after decoding a symbol in the current context.
    pub open spec fn decode_regs(&self) -> (u32, u32, u32, int) {
        let q = state_spec(self.cur_state()).qeval;
        let a1 = (self.a - q) as u32;
        if self.c / 0x10000 < q {
            self.renormd_regs(q, self.c, self.ct, self.bp as int)
        } else {
            let c2 = (self.c - q * 0x10000) as u32;
            if a1 < 0x8000 {
                self.renormd_regs(a1, c2, self.ct, self.bp as int)
            } else {
                (a1, c2, self.ct, self.bp as int)
            }
        }
    }

    /// Whether `after` holds the decoder registers that decoding a symbol in `self` gives.
    #[verifier::opaque]
    pub open spec fn decoded(&self, after: &Self) -> bool {
        (after.a, after.c, after.ct, after.bp as int) == self.decode_regs()
    }

    /// State of the current context.
    pub open spec fn cur_state(&self) -> int {
        self.ctxs@[self.curctx as int] as int
    }

    /// More probable symbol of the current context.
    pub open spec fn cur_mps(&self) -> int {
        self.ctxs_mps@[self.curctx as int] as int
    }

    /// Whether `after` holds the interval register and the current context's state and
    /// more probable symbol that coding symbol `d` in `self` gives.
    #[verifier::opaque]
    pub open spec fn adapted(&self, after: &Self, d: int) -> bool {
        let q = state_spec(self.cur_state()).qeval as int;
        &&& after.a == next_a(self.a as int, q, d == self.cur_mps())
        &&& (after.cur_state(), after.cur_mps()) == next_ctx(self.cur_state(), self.cur_mps(), self.a as int, d)
    }

    /// Whether `after` holds the registers and bytes that coding symbol `d` in `self` gives.
    #[verifier::opaque]
    pub open spec fn coded(&self, after: &Self, d: int) -> bool {
        let q = state_spec(self.cur_state()).qeval;
        (after.a, after.c, after.ct, after.bp as int, after.buf@) == encode_spec(
            self.a,
            self.c,
            self.ct,
            self.bp as int,
            self.buf@,
            q,
            d == self.cur_mps(),
        )
    }

    /// Whether the current context and every context's state and symbol are in range.
    pub open spec fn ctxs_valid(&self) -> bool {
        &&& self.curctx < MQC_NUMCTXS
        &&& forall|i: int| 0 <= i < MQC_NUMCTXS ==> #[trigger] self.ctxs@[i] < MQC_NUMSTATES && self.ctxs_mps@[i] <= 1
    }

    /// Whether the encoder's registers are in their coding ranges.
    pub open spec fn enc_wf(&self) -> bool {
        &&& self.ctxs_valid()
        &&& self.start == 0
        &&& self.bp <= self.buf@.len()
        &&& 1 <= self.ct <= 13
        &&& 0x8000 <= self.a <= 0xffff
    }

    /// Whether the decoder's registers are in their decoding ranges.
    pub open spec fn dec_wf(&self) -> bool {
        &&& self.ctxs_valid()
        &&& self.start <= self.end <= self.buf@.len()
        &&& self.end + 2 <= usize::MAX
        &&& self.start + 1 <= self.bp <= self.end + 2
        &&& self.ct <= 8
        &&& 0x8000 <= self.a <= 0xffff
    }

    /// The encoder's current byte: the virtual zero byte before the buffer, or the byte
    /// before `bp`.
    pub open spec fn enc_cur(&self) -> u8 {
        if self.bp == 0 {
            0
        } else {
            self.buf@[self.bp - 1]
        }
    }

    /// The decoder's byte at `i`: the input, then 0xFF past its end.
    pub open spec fn dec_byte(&self, i: int) -> u8 {
        byte_at(self.bytes(), self.end as int, i)
    }

    /// Whether `other` agrees with `self` on the buffer's length and on every byte before
    /// index `k`.
    pub open spec fn keeps_bytes_before(&self, other: &Self, k: int) -> bool {
        &&& other.buf@.len() == self.buf@.len()
        &&& forall|i: int| 0 <= i < k ==> #[trigger] other.buf@[i] == self.buf@[i]
    }

    /// Context validity depends on the contexts and the current context alone.
    pub(crate) proof fn lemma_ctxs_valid_kept(&self, other: &Self)
        requires
            self.ctxs_valid(),
            other.ctxs == self.ctxs,
            other.ctxs_mps == self.ctxs_mps,
            other.curctx == self.curctx,
        ensures
            other.ctxs_valid(),
    {
        assert forall|i: int| 0 <= i < MQC_NUMCTXS implies #[trigger] other.ctxs@[i] < MQC_NUMSTATES
            && other.ctxs_mps@[i] <= 1 by {
            assert(self.ctxs@[i] < MQC_NUMSTATES);
        }
    }

    /// A coder over `buf`, with every context in state 0.
    #[verifier::spinoff_prover]
    pub fn new(buf: &'a mut [u8]) -> (r: Self)
        ensures
            r.buf@ == old(buf)@,
            r.bp == 0 && r.start == 0 && r.end == 0,
            r.c == 0 && r.a == 0 && r.ct == 0,
            r.curctx == 0 && r.end_of_byte_stream_counter == 0,
            forall|i: int| 0 <= i < MQC_NUMCTXS ==> #[trigger] r.ctxs@[i] == 0 && r.ctxs_mps@[i] == 0,
            r.ctxs_valid(),
    {
        Mqc {
            buf,
            bp: 0,
            c: 0,
            a: 0,
            ct: 0,
            start: 0,
            end: 0,
            ctxs: [0usize; 19],
            ctxs_mps: [0u8; 19],
            curctx: 0,
            end_of_byte_stream_counter: 0,
        }
    }

    /// Puts every context in state 0 with more probable symbol 0.
    #[verifier::spinoff_prover]
    pub fn reset_states(&mut self)
        ensures
            forall|i: int| 0 <= i < MQC_NUMCTXS ==> #[trigger] final(self).ctxs@[i] == 0 && final(self).ctxs_mps@[i] == 0,
            final(self).curctx == old(self).curctx,
            final(self).buf@ == old(self).buf@,
            final(self).bp == old(self).bp && final(self).c == old(self).c,
            final(self).a == old(self).a && final(self).ct == old(self).ct,
            final(self).start == old(self).start && final(self).end == old(self).end,
            old(self).curctx < MQC_NUMCTXS ==> final(self).ctxs_valid(),
    {
        let mut i: usize = 0;
        while i < MQC_NUMCTXS
            invariant
                i <= MQC_NUMCTXS,
                forall|k: int| 0 <= k < i ==> #[trigger] self.ctxs@[k] == 0 && self.ctxs_mps@[k] == 0,
                self.curctx == old(self).curctx,
                self.buf@ == old(self).buf@,
                self.bp == old(self).bp && self.c == old(self).c,
                self.a == old(self).a && self.ct == old(self).ct,
                self.start == old(self).start && self.end == old(self).end,
            decreases MQC_NUMCTXS - i,
        {
            let ghost c0 = self.ctxs@;
            let ghost m0 = self.ctxs_mps@;
            assert forall|k: int| 0 <= k < i implies c0[k] == 0 && m0[k] == 0 by {
                assert(self.ctxs@[k] == 0);
            }
            self.ctxs[i] = 0;
            self.ctxs_mps[i] = 0;
            assert(self.ctxs@ == c0.update(i as int, 0usize));
            assert(self.ctxs_mps@ == m0.update(i as int, 0u8));
            assert forall|k: int| 0 <= k < i + 1 implies #[trigger] self.ctxs@[k] == 0 && self.ctxs_mps@[k] == 0 by {
                if k < i {
                    assert(c0[k] == 0 && m0[k] == 0);
                }
            }
            i += 1;
        }
    }

    /// Puts context `ctxno` in state `prob` with more probable symbol `msb`.
    #[verifier::spinoff_prover]
    pub fn set_state(&mut self, ctxno: usize, msb: u32, prob: i32)
        requires
            ctxno < MQC_NUMCTXS,
            msb <= 1,
            0 <= prob < MQC_NUMSTATES,
        ensures
            final(self).ctxs@ == old(self).ctxs@.update(ctxno as int, prob as usize),
            final(self).ctxs_mps@ == old(self).ctxs_mps@.update(ctxno as int, msb as u8),
            final(self).curctx == old(self).curctx,
            final(self).buf@ == old(self).buf@,
            final(self).bp == old(self).bp && final(self).c == old(self).c,
            final(self).a == old(self).a && final(self).ct == old(self).ct,
            final(self).start == old(self).start && final(self).end == old(self).end,
            old(self).ctxs_valid() ==> final(self).ctxs_valid(),
    {
        self.ctxs[ctxno] = prob as usize;
        self.ctxs_mps[ctxno] = msb as u8;
        assert(self.ctxs@ == old(self).ctxs@.update(ctxno as int, prob as usize));
        assert(self.ctxs_mps@ == old(self).ctxs_mps@.update(ctxno as int, msb as u8));
        proof {
            if old(self).ctxs_valid() {
                assert forall|i: int| 0 <= i < MQC_NUMCTXS implies #[trigger] self.ctxs@[i] < MQC_NUMSTATES
                    && self.ctxs_mps@[i] <= 1 by {
                    if i != ctxno {
                        assert(old(self).ctxs@[i] < MQC_NUMSTATES);
                    }
                }
            }
        }
    }

    /// Makes `ctxno` the current context.
    #[verifier::spinoff_prover]
    pub fn set_curctx(&mut self, ctxno: usize)
        requires
            ctxno < MQC_NUMCTXS,
        ensures
            final(self).curctx == ctxno,
            final(self).ctxs == old(self).ctxs && final(self).ctxs_mps == old(self).ctxs_mps,
            final(self).buf@ == old(self).buf@,
            final(self).bp == old(self).bp && final(self).c == old(self).c,
            final(self).a == old(self).a && final(self).ct == old(self).ct,
            final(self).start == old(self).start && final(self).end == old(self).end,
            final(self).end_of_byte_stream_counter == old(self).end_of_byte_stream_counter,
    {
        self.curctx = ctxno;
    }

    /// Starts encoding at the start of the buffer.
    #[verifier::spinoff_prover]
    pub fn init_enc(&mut self)
        requires
            old(self).ctxs_valid(),
        ensures
            final(self).enc_wf(),
            final(self).a == 0x8000 && final(self).c == 0 && final(self).ct == 12,
            final(self).bp == 0 && final(self).start == 0,
            final(self).curctx == 0,
            final(self).ctxs == old(self).ctxs && final(self).ctxs_mps == old(self).ctxs_mps,
            final(self).buf@ == old(self).buf@,
    {
        self.curctx = 0;
        self.a = 0x8000;
        self.c = 0;
        self.bp = 0;
        self.ct = 12;
        self.start = 0;
        self.end_of_byte_stream_counter = 0;
        assert(self.ctxs_valid());
    }

    /// The encoder's current byte.
    #[verifier::spinoff_prover]
    fn cur_byte(&self) -> (r: u8)
        requires
            self.bp <= self.buf@.len(),
        ensures
            r == self.enc_cur(),
    {
        if self.bp == 0 {
            0
        } else {
            self.buf[self.bp - 1]
        }
    }

    /// Outputs a byte of the code register, propagating a carry into the current byte
    /// and stuffing a bit after 0xFF.
    #[verifier::spinoff_prover]
    fn byteout(&mut self)
        requires
            old(self).ctxs_valid(),
            old(self).start == 0,
            old(self).bp < old(self).buf@.len(),
        ensures
            final(self).ctxs == old(self).ctxs && final(self).ctxs_mps == old(self).ctxs_mps,
            final(self).curctx == old(self).curctx,
            final(self).start == old(self).start,
            final(self).a == old(self).a,
            final(self).bp == old(self).bp + 1,
            final(self).ct == 7 || final(self).ct == 8,
            final(self).ctxs_valid(),
            old(self).keeps_bytes_before(&*final(self), old(self).bp - 1),
            (final(self).c, final(self).ct, final(self).bp as int, final(self).buf@) == byteout_spec(
                old(self).c,
                old(self).bp as int,
                old(self).buf@,
            ),
    {
        let cur = self.cur_byte();
        if cur == 0xff {
            let b = (self.c >> 20) as u8;
            self.buf[self.bp] = b;
            self.bp = self.bp + 1;
            self.c = self.c & 0xfffff;
            self.ct = 7;
        } else if self.c & 0x800_0000 == 0 {
            let b = (self.c >> 19) as u8;
            self.buf[self.bp] = b;
            self.bp = self.bp + 1;
            self.c = self.c & 0x7ffff;
            self.ct = 8;
        } else {
            let bumped: u8 = cur + 1;
            if self.bp > 0 {
                self.buf[self.bp - 1] = bumped;
            }
            if bumped == 0xff {
                self.c = self.c & 0x7ff_ffff;
                let b = (self.c >> 20) as u8;
                self.buf[self.bp] = b;
                self.bp = self.bp + 1;
                self.c = self.c & 0xfffff;
                self.ct = 7;
            } else {
                let b = (self.c >> 19) as u8;
                self.buf[self.bp] = b;
                self.bp = self.bp + 1;
                self.c = self.c & 0x7ffff;
                self.ct = 8;
            }
        }
    }

    /// Renormalises: doubles the interval until it reaches 0x8000, outputting a byte
    /// whenever the bit counter runs out; at most three bytes are output.
    #[verifier::spinoff_prover]
    fn renorme(&mut self)
        requires
            old(self).ctxs_valid(),
            old(self).start == 0,
            1 <= old(self).ct <= 13,
            1 <= old(self).a < 0x8000,
            old(self).bp + 3 <= old(self).buf@.len(),
        ensures
            final(self).ctxs == old(self).ctxs && final(self).ctxs_mps == old(self).ctxs_mps,
            final(self).curctx == old(self).curctx,
            final(self).start == old(self).start,
            old(self).bp <= final(self).bp <= old(self).bp + 3,
            1 <= final(self).ct <= 13,
            0x8000 <= final(self).a <= 0xffff,
            final(self).a == renorm_a(old(self).a as int),
            old(self).keeps_bytes_before(&*final(self), old(self).bp - 1),
            (final(self).a, final(self).c, final(self).ct, final(self).bp as int, final(self).buf@) == renorm_spec(
                old(self).a,
                old(self).c,
                old(self).ct,
                old(self).bp as int,
                old(self).buf@,
            ),
    {
        let ghost s0 = *self;
        let mut first = true;
        let mut k: usize = 0;
        loop
            invariant_except_break
                self.a < 0x8000,
                k <= 2,
                !first ==> self.a >= 2,
                k >= 1 ==> self.ct <= 8,
                k == 1 ==> self.a >= bytes_one_bound(self.ct),
                k == 2 ==> self.a >= bytes_two_bound(self.ct),
            invariant
                self.ctxs == s0.ctxs && self.ctxs_mps == s0.ctxs_mps,
                self.curctx == s0.curctx,
                self.start == 0,
                s0.bp + 3 <= s0.buf@.len(),
                s0.ctxs_valid(),
                1 <= self.ct <= 13,
                1 <= self.a <= 0xffff,
                k <= 3,
                self.bp == s0.bp + k,
                s0.keeps_bytes_before(&*self, s0.bp - 1),
                renorm_a(self.a as int) == renorm_a(s0.a as int),
                renorm_spec(self.a, self.c, self.ct, self.bp as int, self.buf@) == renorm_spec(
                    s0.a,
                    s0.c,
                    s0.ct,
                    s0.bp as int,
                    s0.buf@,
                ),
            ensures
                self.a >= 0x8000,
            decreases 0x10000 - self.a,
        {
            assert(renorm_a(self.a as int) == renorm_a(2 * self.a));
            let ghost pre = renorm_spec(self.a, self.c, self.ct, self.bp as int, self.buf@);
            self.a = self.a * 2;
            self.c = self.c << 1u32;
            self.ct = self.ct - 1;
            first = false;
            if self.ct == 0 {
                self.byteout();
                k = k + 1;
            }
            assert(renorm_spec(self.a, self.c, self.ct, self.bp as int, self.buf@) == pre);
            if self.a >= 0x8000 {
                break;
            }
        }
    }

    /// Whether the encoder's registers are those of bypass mode.
    pub open spec fn bypass_wf(&self) -> bool {
        &&& self.ctxs_valid()
        &&& self.start == 0
        &&& 1 <= self.bp <= self.buf@.len() + 1
        &&& self.buf@.len() < usize::MAX
        &&& (self.ct == BYPASS_CT_INIT || self.ct <= 8)
    }

    /// What `encode` keeps: the buffer's length and the bytes before the current one, the
    /// contexts other than the current one, and the current context's index.
    pub open spec fn enc_step(&self, after: &Self, max_bytes: int) -> bool {
        &&& after.enc_wf()
        &&& self.bp <= after.bp <= self.bp + max_bytes
        &&& self.keeps_bytes_before(after, self.bp - 1)
        &&& after.curctx == self.curctx
        &&& forall|i: int| 0 <= i < MQC_NUMCTXS && i != self.curctx ==> #[trigger] after.ctxs@[i] == self.ctxs@[i]
            && after.ctxs_mps@[i] == self.ctxs_mps@[i]
    }

    /// Codes the more probable symbol in the current context.
    #[verifier::spinoff_prover]
    fn codemps(&mut self)
        requires
            old(self).enc_wf(),
            old(self).bp + 3 <= old(self).buf@.len(),
        ensures
            old(self).enc_step(&*final(self), 3),
            final(self).ctxs_mps == old(self).ctxs_mps,
            old(self).adapted(&*final(self), old(self).cur_mps()),
            old(self).coded(&*final(self), old(self).cur_mps()),
    {
        reveal(Mqc::adapted);
        reveal(Mqc::coded);
        let ctx = self.curctx;
        let st = mqc_state(self.ctxs[ctx]);
        self.a = self.a - st.qeval;
        if self.a < 0x8000 {
            if self.a < st.qeval {
                self.a = st.qeval;
            } else {
                self.c = self.c.wrapping_add(st.qeval);
            }
            self.ctxs[ctx] = st.nmps;
            proof {
                assert forall|i: int| 0 <= i < MQC_NUMCTXS implies #[trigger] self.ctxs@[i] < MQC_NUMSTATES
                    && self.ctxs_mps@[i] <= 1 by {
                    assert(old(self).ctxs@[i] < MQC_NUMSTATES);
                }
            }
            self.renorme();
        } else {
            self.c = self.c.wrapping_add(st.qeval);
        }
    }

    /// Codes the less probable symbol in the current context.
    #[verifier::spinoff_prover]
    fn codelps(&mut self)
        requires
            old(self).enc_wf(),
            old(self).bp + 3 <= old(self).buf@.len(),
        ensures
            old(self).enc_step(&*final(self), 3),
            old(self).adapted(&*final(self), 1 - old(self).cur_mps()),
            old(self).coded(&*final(self), 1 - old(self).cur_mps()),
    {
        reveal(Mqc::adapted);
        reveal(Mqc::coded);
        let ctx = self.curctx;
        let st = mqc_state(self.ctxs[ctx]);
        self.a = self.a - st.qeval;
        if self.a < st.qeval {
            self.c = self.c.wrapping_add(st.qeval);
        } else {
            self.a = st.qeval;
        }
        if st.switch_mps {
            let m = self.ctxs_mps[ctx];
            self.ctxs_mps[ctx] = 1 - m;
        }
        self.ctxs[ctx] = st.nlps;
        proof {
            assert forall|i: int| 0 <= i < MQC_NUMCTXS implies #[trigger] self.ctxs@[i] < MQC_NUMSTATES
                && self.ctxs_mps@[i] <= 1 by {
                assert(old(self).ctxs@[i] < MQC_NUMSTATES);
            }
        }
        self.renorme();
    }

    /// Codes symbol `d` in the current context: as the more probable symbol when it is
    /// the context's more probable symbol, else as the less probable one. Outputs at most
    /// three bytes.
    #[verifier::spinoff_prover]
    pub fn encode(&mut self, d: u32)
        requires
            old(self).enc_wf(),
            old(self).bp + 3 <= old(self).buf@.len(),
        ensures
            old(self).enc_step(&*final(self), 3),
            d == old(self).ctxs_mps@[old(self).curctx as int] && old(self).ctxs@[old(self).curctx as int]
                == final(self).ctxs@[old(self).curctx as int] ==> final(self).ctxs_mps == old(self).ctxs_mps,
            old(self).adapted(&*final(self), d as int),
            old(self).coded(&*final(self), d as int),
    {
        reveal(Mqc::adapted);
        reveal(Mqc::coded);
        if self.ctxs_mps[self.curctx] as u32 == d {
            self.codemps();
        } else {
            self.codelps();
        }
    }

    /// Sets the low bits of the code register for the termination.
    #[verifier::spinoff_prover]
    fn setbits(&mut self)
        ensures
            final(self).bp == old(self).bp && final(self).a == old(self).a && final(self).ct == old(self).ct,
            final(self).buf@ == old(self).buf@,
            final(self).ctxs == old(self).ctxs && final(self).ctxs_mps == old(self).ctxs_mps,
            final(self).curctx == old(self).curctx && final(self).start == old(self).start,
            old(self).enc_wf() ==> final(self).enc_wf(),
            final(self).c == setbits_c(old(self).a, old(self).c),
    {
        let tempc = self.c.wrapping_add(self.a);
        self.c = self.c | 0xffff;
        if self.c >= tempc {
            self.c = self.c.wrapping_sub(0x8000);
        }
    }

    /// Terminates the coding: outputs the remaining bytes of the code register, keeping
    /// the last byte out of the count when it is 0xFF.
    #[verifier::spinoff_prover]
    pub fn flush(&mut self)
        requires
            old(self).enc_wf(),
            old(self).bp + 3 <= old(self).buf@.len(),
        ensures
            final(self).enc_wf(),
            old(self).bp + 2 <= final(self).bp <= old(self).bp + 3,
            old(self).keeps_bytes_before(&*final(self), old(self).bp - 1),
            final(self).ctxs == old(self).ctxs && final(self).ctxs_mps == old(self).ctxs_mps,
            final(self).curctx == old(self).curctx,
            (final(self).bp as int, final(self).buf@) == flush_spec(
                old(self).a,
                old(self).c,
                old(self).ct,
                old(self).bp as int,
                old(self).buf@,
            ),
    {
        let _len = self.buf.len();
        let ghost s0 = *self;
        self.setbits();
        self.c = self.c << self.ct;
        proof {
            s0.lemma_ctxs_valid_kept(&*self);
        }
        self.byteout();
        self.c = self.c << self.ct;
        let ghost s1 = *self;
        proof {
            s1.lemma_ctxs_valid_kept(&*self);
        }
        self.byteout();
        assert(self.bp == s0.bp + 2);
        let cur = self.cur_byte();
        if cur != 0xff {
            self.bp = self.bp + 1;
        }
    }

    /// Starts bypass (raw) coding after a termination.
    #[verifier::spinoff_prover]
    pub fn bypass_init_enc(&mut self)
        requires
            old(self).ctxs_valid(),
            old(self).start == 0,
            1 <= old(self).bp <= old(self).buf@.len() + 1,
            old(self).buf@.len() < usize::MAX,
        ensures
            final(self).bypass_wf(),
            final(self).ct == BYPASS_CT_INIT,
            final(self).c == 0,
            final(self).bp == old(self).bp,
            final(self).buf@ == old(self).buf@,
            final(self).ctxs == old(self).ctxs && final(self).ctxs_mps == old(self).ctxs_mps,
            final(self).curctx == old(self).curctx,
    {
        let ghost s0 = *self;
        self.c = 0;
        self.ct = BYPASS_CT_INIT;
        proof {
            s0.lemma_ctxs_valid_kept(&*self);
        }
    }

    /// Codes the bit `d` raw, outputting a byte when eight bits are gathered (seven after
    /// a 0xFF byte).
    #[verifier::spinoff_prover]
    pub fn bypass_enc(&mut self, d: u32)
        requires
            old(self).bypass_wf(),
            old(self).bp <= old(self).buf@.len(),
            d <= 1,
        ensures
            final(self).bypass_wf(),
            old(self).bp <= final(self).bp <= old(self).bp + 1,
            old(self).keeps_bytes_before(&*final(self), old(self).bp - 1),
            final(self).ctxs == old(self).ctxs && final(self).ctxs_mps == old(self).ctxs_mps,
            final(self).curctx == old(self).curctx,
    {
        if self.ct == BYPASS_CT_INIT {
            self.ct = 8;
        }
        if self.ct == 0 {
            self.ct = 8;
        }
        self.ct = self.ct - 1;
        self.c = self.c.wrapping_add(d << self.ct);
        if self.ct == 0 {
            let b = self.c as u8;
            self.buf[self.bp - 1] = b;
            self.ct = 8;
            if b == 0xff {
                self.ct = 7;
            }
            self.bp = self.bp + 1;
            self.c = 0;
        }
    }

    /// The encoder's byte `k` places before the current one, the virtual zero byte before
    /// the buffer when there is none.
    #[verifier::spinoff_prover]
    fn byte_back(&self, k: usize) -> (r: u8)
        requires
            self.bp <= self.buf@.len() + 1,
            1 <= k <= 2,
        ensures
            r == (if self.bp >= k + 1 { self.bytes()[self.bp - 1 - k] } else { 0u8 }),
    {
        if self.bp >= k + 1 {
            self.buf[self.bp - 1 - k]
        } else {
            0
        }
    }

    /// Number of bytes that terminating the bypass coding would add.
    #[verifier::spinoff_prover]
    pub fn bypass_get_extra_bytes(&self, erterm: bool) -> (r: u32)
        requires
            self.bypass_wf(),
        ensures
            r == (if self.ct < 7 || (self.ct == 7 && (erterm || (if self.bp >= 2 {
                self.bytes()[self.bp - 2]
            } else {
                0u8
            }) != 0xff)) {
                1u32
            } else {
                0u32
            }),
    {
        let prev = self.byte_back(1);
        if self.ct < 7 || (self.ct == 7 && (erterm || prev != 0xff)) {
            1
        } else {
            0
        }
    }

    /// Terminates bypass coding: pads and outputs the partial byte when there is one, or
    /// drops a trailing 0xFF byte, or (without `erterm`) a trailing 0xFF 0x7F pair.
    #[verifier::spinoff_prover]
    pub fn bypass_flush_enc(&mut self, erterm: bool)
        requires
            old(self).bypass_wf(),
            old(self).bp <= old(self).buf@.len(),
        ensures
            final(self).bp <= old(self).bp + 1,
            final(self).bp + 2 >= old(self).bp,
            final(self).bp >= 1,
            final(self).buf@.len() == old(self).buf@.len(),
            final(self).ctxs == old(self).ctxs && final(self).ctxs_mps == old(self).ctxs_mps,
            final(self).curctx == old(self).curctx && final(self).start == old(self).start,
    {
        let prev = self.byte_back(1);
        if self.ct < 7 || (self.ct == 7 && (erterm || prev != 0xff)) {
            let mut bit_value: u32 = 0;
            while self.ct > 0
                invariant
                    bit_value <= 1,
                    self.ct <= 8,
                    self.bp == old(self).bp,
                    self.buf@ == old(self).buf@,
                    self.ctxs == old(self).ctxs && self.ctxs_mps == old(self).ctxs_mps,
                    self.curctx == old(self).curctx && self.start == old(self).start,
                decreases self.ct,
            {
                self.ct = self.ct - 1;
                self.c = self.c.wrapping_add(bit_value << self.ct);
                bit_value = 1 - bit_value;
            }
            self.buf[self.bp - 1] = self.c as u8;
            self.bp = self.bp + 1;
        } else if self.ct == 7 && prev == 0xff {
            self.bp = self.bp - 1;
        } else if self.ct == 8 && !erterm && prev == 0x7f && self.byte_back(2) == 0xff {
            self.bp = self.bp - 2;
        }
    }

    /// Puts every context back in its initial state for coding a code block: all in
    /// state 0, the uniform context in state 46, the run-length context in state 3 and the
    /// first zero-coding context in state 4.
    #[verifier::spinoff_prover]
    pub fn reset_enc(&mut self)
        requires
            old(self).curctx < MQC_NUMCTXS,
        ensures
            final(self).ctxs_valid(),
            forall|i: int|
                0 <= i < MQC_NUMCTXS ==> #[trigger] final(self).ctxs@[i] == (if i == T1_CTXNO_UNI {
                    46usize
                } else if i == T1_CTXNO_AGG {
                    3usize
                } else if i == T1_CTXNO_ZC {
                    4usize
                } else {
                    0usize
                }) && final(self).ctxs_mps@[i] == 0,
            final(self).curctx == old(self).curctx,
            final(self).buf@ == old(self).buf@,
            final(self).bp == old(self).bp && final(self).c == old(self).c,
            final(self).a == old(self).a && final(self).ct == old(self).ct,
            final(self).start == old(self).start && final(self).end == old(self).end,
    {
        self.reset_states();
        self.set_state(T1_CTXNO_UNI, 0, 46);
        self.set_state(T1_CTXNO_AGG, 0, 3);
        self.set_state(T1_CTXNO_ZC, 0, 4);
    }

    /// Restarts the arithmetic coder after a termination, on the last output byte.
    #[verifier::spinoff_prover]
    pub fn restart_init_enc(&mut self)
        requires
            old(self).ctxs_valid(),
            old(self).start == 0,
            1 <= old(self).bp <= old(self).buf@.len() + 1,
        ensures
            final(self).enc_wf(),
            final(self).bp == old(self).bp - 1,
            final(self).a == 0x8000 && final(self).c == 0,
            final(self).ct == (if final(self).enc_cur() == 0xff { 13u32 } else { 12u32 }),
            final(self).buf@ == old(self).buf@,
            final(self).ctxs == old(self).ctxs && final(self).ctxs_mps == old(self).ctxs_mps,
            final(self).curctx == old(self).curctx,
    {
        self.a = 0x8000;
        self.c = 0;
        self.ct = 12;
        self.bp = self.bp - 1;
        if self.cur_byte() == 0xff {
            self.ct = 13;
        }
    }

    /// Terminates the coding with the predictable termination: outputs the code
    /// register's bits, then one more byte unless the last one is 0xFF.
    #[verifier::spinoff_prover]
    pub fn erterm_enc(&mut self)
        requires
            old(self).enc_wf(),
            old(self).bp + 3 <= old(self).buf@.len(),
        ensures
            final(self).enc_wf(),
            old(self).bp <= final(self).bp <= old(self).bp + 3,
            final(self).bp >= 1,
            old(self).keeps_bytes_before(&*final(self), old(self).bp - 1),
            final(self).ctxs == old(self).ctxs && final(self).ctxs_mps == old(self).ctxs_mps,
            final(self).curctx == old(self).curctx,
    {
        let mut k: i32 = 12 - self.ct as i32;
        let mut n: usize = 0;
        while k > 0
            invariant
                self.ctxs_valid(),
                self.start == 0,
                self.ctxs == old(self).ctxs && self.ctxs_mps == old(self).ctxs_mps,
                self.curctx == old(self).curctx,
                0x8000 <= self.a <= 0xffff,
                1 <= self.ct <= 13,
                n <= 2,
                n >= 1 ==> self.ct == 7 || self.ct == 8,
                n == 0 ==> k <= 11,
                n == 1 ==> k <= 4,
                n == 2 ==> k <= -3,
                k >= -8,
                self.bp == old(self).bp + n,
                old(self).bp + 3 <= old(self).buf@.len(),
                old(self).keeps_bytes_before(&*self, old(self).bp - 1),
            decreases k + 8,
        {
            let ghost s1 = *self;
            self.c = self.c << self.ct;
            self.ct = 0;
            proof {
                s1.lemma_ctxs_valid_kept(&*self);
            }
            self.byteout();
            let ghost k0 = k;
            k = k - self.ct as i32;
            assert(k < k0);
            n = n + 1;
        }
        if self.cur_byte() != 0xff {
            self.byteout();
        }
    }

    /// Codes the segmentation symbol: 1, 0, 1, 0 in the uniform context.
    #[verifier::spinoff_prover]
    pub fn segmark_enc(&mut self)
        requires
            old(self).enc_wf(),
            old(self).bp + 12 <= old(self).buf@.len(),
        ensures
            final(self).enc_wf(),
            old(self).bp <= final(self).bp <= old(self).bp + 12,
            old(self).keeps_bytes_before(&*final(self), old(self).bp - 1),
            final(self).curctx == T1_CTXNO_UNI,
    {
        self.set_curctx(T1_CTXNO_UNI);
        let mut i: u32 = 1;
        while i < 5
            invariant
                1 <= i <= 5,
                self.enc_wf(),
                self.curctx == T1_CTXNO_UNI,
                old(self).bp <= self.bp <= old(self).bp + 3 * (i - 1),
                old(self).bp + 12 <= old(self).buf@.len(),
                old(self).keeps_bytes_before(&*self, old(self).bp - 1),
            decreases 5 - i,
        {
            self.encode(i % 2);
            i += 1;
        }
    }

    /// Number of bytes coded.
    #[verifier::spinoff_prover]
    pub fn num_bytes(&self) -> (r: usize)
        ensures
            r == (if self.bp > self.start + 1 { self.bp - 1 - self.start } else { 0 }),
    {
        if self.bp > self.start && self.bp - self.start > 1 {
            self.bp - self.start - 1
        } else {
            0
        }
    }

    /// Length of the buffer.
    #[verifier::spinoff_prover]
    pub fn buf_len(&self) -> (r: usize)
        ensures
            r == self.bytes().len(),
    {
        self.buf.len()
    }

    /// The decoder's byte at `i`.
    #[verifier::spinoff_prover]
    fn dec_byte_at(&self, i: usize) -> (r: u8)
        requires
            self.end <= self.buf@.len(),
        ensures
            r == self.dec_byte(i as int),
    {
        if i < self.end {
            self.buf[i]
        } else {
            0xff
        }
    }

    /// Reads the next byte into the code register; stays on a 0xFF followed by a byte
    /// above 0x8F (a marker or the end of the input), feeding 0xFF00.
    #[verifier::spinoff_prover]
    fn bytein(&mut self)
        requires
            old(self).start <= old(self).end <= old(self).buf@.len(),
            old(self).end + 2 <= usize::MAX,
            old(self).start + 1 <= old(self).bp <= old(self).end + 2,
        ensures
            final(self).ct == 7 || final(self).ct == 8,
            final(self).start == old(self).start && final(self).end == old(self).end,
            old(self).bp <= final(self).bp <= old(self).end + 2,
            final(self).bp <= old(self).bp + 1,
            final(self).buf@ == old(self).buf@,
            final(self).a == old(self).a,
            (final(self).c, final(self).ct, final(self).bp as int) == old(self).bytein_regs(
                old(self).c,
                old(self).bp as int,
            ),
            final(self).ctxs == old(self).ctxs && final(self).ctxs_mps == old(self).ctxs_mps,
            final(self).curctx == old(self).curctx,
    {
        let cur = self.dec_byte_at(self.bp - 1);
        if cur == 0xff {
            let next = self.dec_byte_at(self.bp);
            if next > 0x8f {
                self.c = self.c.wrapping_add(0xff00);
                self.ct = 8;
                self.end_of_byte_stream_counter = self.end_of_byte_stream_counter.wrapping_add(1);
            } else {
                self.bp = self.bp + 1;
                self.c = self.c.wrapping_add((next as u32) << 9u32);
                self.ct = 7;
            }
        } else {
            self.bp = self.bp + 1;
            let b = self.dec_byte_at(self.bp - 1);
            self.c = self.c.wrapping_add((b as u32) << 8u32);
            self.ct = 8;
        }
    }

    /// Starts decoding the first `len` bytes of the buffer.
    #[verifier::spinoff_prover]
    pub fn init_dec(&mut self, len: usize)
        requires
            old(self).ctxs_valid(),
            len <= old(self).buf@.len(),
            len + 2 <= usize::MAX,
        ensures
            final(self).dec_wf(),
            final(self).start == 0 && final(self).end == len,
            final(self).a == 0x8000,
            final(self).curctx == 0,
            final(self).buf@ == old(self).buf@,
            final(self).ctxs == old(self).ctxs && final(self).ctxs_mps == old(self).ctxs_mps,
            ({
                let first: u32 = if len == 0 { 0xff } else { old(self).buf@[0] as u32 };
                let (c1, ct1, bp1) = final(self).bytein_regs(first << 16u32, 1);
                &&& final(self).c == c1 << 7u32
                &&& final(self).ct == ct1 - 7
                &&& final(self).bp == bp1
            }),
    {
        self.start = 0;
        self.end = len;
        self.bp = 1;
        self.curctx = 0;
        self.end_of_byte_stream_counter = 0;
        if len == 0 {
            self.c = 0xff << 16u32;
        } else {
            self.c = (self.buf[0] as u32) << 16u32;
        }
        self.bytein();
        self.c = self.c << 7u32;
        self.ct = self.ct - 7;
        self.a = 0x8000;
    }

    /// Whether the decoder's registers are those of raw decoding.
    pub open spec fn raw_wf(&self) -> bool {
        &&& self.start <= self.end <= self.buf@.len()
        &&& self.end + 2 <= usize::MAX
        &&& self.start + 1 <= self.bp <= self.end + 2
        &&& self.bp == self.end + 2 ==> self.c == 0xff
        &&& self.ct <= 8
    }

    /// Raw decoding registers `(bp, c, ct)` after reading one bit: with no bit left in `c`,
    /// the next input byte is loaded with 8 bits, or with 7 after a 0xFF byte (its top bit
    /// is a stuffed 0); a 0xFF followed by a byte above 0x8F (a marker, or the end of the
    /// input) is not passed, and 0xFF is fed again. Otherwise one bit is consumed.
    pub open spec fn raw_next(&self) -> (int, int, int) {
        raw_next_at(self.bytes(), self.end as int, self.c, self.ct, self.bp as int)
    }

    /// Starts raw decoding of the first `len` bytes of the buffer.
    #[verifier::spinoff_prover]
    pub fn raw_init_dec(&mut self, len: usize)
        requires
            len <= old(self).buf@.len(),
            len + 2 <= usize::MAX,
        ensures
            final(self).raw_wf(),
            final(self).start == 0 && final(self).end == len && final(self).bp == 1,
            final(self).c == 0 && final(self).ct == 0,
            final(self).buf@ == old(self).buf@,
            final(self).ctxs == old(self).ctxs && final(self).ctxs_mps == old(self).ctxs_mps,
            final(self).curctx == old(self).curctx,
            final(self).a == old(self).a,
    {
        self.start = 0;
        self.end = len;
        self.bp = 1;
        self.c = 0;
        self.ct = 0;
    }

    /// Decodes a raw bit: the next bit of the input, most significant first, skipping the
    /// stuffed bit after a 0xFF byte and reading ones past a marker or the end.
    #[verifier::spinoff_prover]
    pub fn raw_decode(&mut self) -> (r: u32)
        requires
            old(self).raw_wf(),
        ensures
            final(self).raw_wf(),
            r <= 1,
            r == (final(self).c >> final(self).ct) % 2,
            (final(self).bp as int, final(self).c as int, final(self).ct as int) == old(self).raw_next(),
            final(self).a == old(self).a,
            final(self).start == old(self).start && final(self).end == old(self).end,
            final(self).buf@ == old(self).buf@,
            final(self).ctxs == old(self).ctxs && final(self).ctxs_mps == old(self).ctxs_mps,
            final(self).curctx == old(self).curctx,
    {
        if self.ct == 0 {
            if self.c == 0xff {
                let cur = self.dec_byte_at(self.bp - 1);
                if cur > 0x8f {
                    self.c = 0xff;
                    self.ct = 8;
                } else {
                    self.c = cur as u32;
                    self.bp = self.bp + 1;
                    self.ct = 7;
                }
            } else {
                let cur = self.dec_byte_at(self.bp - 1);
                self.c = cur as u32;
                self.bp = self.bp + 1;
                self.ct = 8;
            }
        }
        self.ct = self.ct - 1;
        (self.c >> self.ct) % 2
    }

    /// Renormalises the decoder: doubles the interval until it reaches 0x8000, reading a
    /// byte whenever the bit counter runs out.
    #[verifier::spinoff_prover]
    fn renormd(&mut self)
        requires
            old(self).ctxs_valid(),
            old(self).start <= old(self).end <= old(self).buf@.len(),
            old(self).end + 2 <= usize::MAX,
            old(self).start + 1 <= old(self).bp <= old(self).end + 2,
            old(self).ct <= 8,
            1 <= old(self).a < 0x8000,
        ensures
            final(self).dec_wf(),
            final(self).a == renorm_a(old(self).a as int),
            (final(self).a, final(self).c, final(self).ct, final(self).bp as int) == old(self).renormd_regs(
                old(self).a,
                old(self).c,
                old(self).ct,
                old(self).bp as int,
            ),
            final(self).start == old(self).start && final(self).end == old(self).end,
            final(self).buf@ == old(self).buf@,
            final(self).ctxs == old(self).ctxs && final(self).ctxs_mps == old(self).ctxs_mps,
            final(self).curctx == old(self).curctx,
    {
        loop
            invariant_except_break
                self.a < 0x8000,
            invariant
                old(self).ctxs_valid(),
                self.start <= self.end <= self.buf@.len(),
                self.end + 2 <= usize::MAX,
                self.start + 1 <= self.bp <= self.end + 2,
                self.ct <= 8,
                1 <= self.a <= 0xffff,
                self.start == old(self).start && self.end == old(self).end,
                self.buf@ == old(self).buf@,
                self.ctxs == old(self).ctxs && self.ctxs_mps == old(self).ctxs_mps,
                self.curctx == old(self).curctx,
                renorm_a(self.a as int) == renorm_a(old(self).a as int),
                old(self).renormd_regs(self.a, self.c, self.ct, self.bp as int) == old(self).renormd_regs(
                    old(self).a,
                    old(self).c,
                    old(self).ct,
                    old(self).bp as int,
                ),
            ensures
                self.a >= 0x8000,
            decreases 0x10000 - self.a,
        {
            let ghost pre = old(self).renormd_regs(self.a, self.c, self.ct, self.bp as int);
            if self.ct == 0 {
                self.bytein();
            }
            assert(renorm_a(self.a as int) == renorm_a(2 * self.a));
            self.a = self.a * 2;
            self.c = self.c << 1u32;
            self.ct = self.ct - 1;
            assert(old(self).renormd_regs(self.a, self.c, self.ct, self.bp as int) == pre);
            if self.a >= 0x8000 {
                break;
            }
        }
    }

    /// Decodes a symbol in the current context.
    #[verifier::spinoff_prover]
    pub fn decode(&mut self) -> (r: u32)
        requires
            old(self).dec_wf(),
        ensures
            final(self).dec_wf(),
            r <= 1,
            final(self).start == old(self).start && final(self).end == old(self).end,
            final(self).buf@ == old(self).buf@,
            final(self).curctx == old(self).curctx,
            forall|i: int| 0 <= i < MQC_NUMCTXS && i != old(self).curctx ==> #[trigger] final(self).ctxs@[i]
                == old(self).ctxs@[i] && final(self).ctxs_mps@[i] == old(self).ctxs_mps@[i],
            r == dec_symbol(old(self).a as int, old(self).c as int, state_spec(old(self).cur_state()), old(self).cur_mps()),
            old(self).adapted(&*final(self), r as int),
            old(self).decoded(&*final(self)),
    {
        reveal(Mqc::adapted);
        reveal(Mqc::decoded);
        let ctx = self.curctx;
        let st = mqc_state(self.ctxs[ctx]);
        let mps = self.ctxs_mps[ctx] as u32;
        self.a = self.a - st.qeval;
        let d: u32;
        if self.c / 0x10000 < st.qeval {
            if self.a < st.qeval {
                self.a = st.qeval;
                d = mps;
                self.ctxs[ctx] = st.nmps;
            } else {
                self.a = st.qeval;
                d = 1 - mps;
                if st.switch_mps {
                    self.ctxs_mps[ctx] = (1 - mps) as u8;
                }
                self.ctxs[ctx] = st.nlps;
            }
            proof {
                assert forall|i: int| 0 <= i < MQC_NUMCTXS implies #[trigger] self.ctxs@[i] < MQC_NUMSTATES
                    && self.ctxs_mps@[i] <= 1 by {
                    assert(old(self).ctxs@[i] < MQC_NUMSTATES);
                }
            }
            let ghost before = *self;
            self.renormd();
        } else {
            self.c = self.c - st.qeval * 0x10000;
            if self.a < 0x8000 {
                if self.a < st.qeval {
                    d = 1 - mps;
                    if st.switch_mps {
                        self.ctxs_mps[ctx] = (1 - mps) as u8;
                    }
                    self.ctxs[ctx] = st.nlps;
                } else {
                    d = mps;
                    self.ctxs[ctx] = st.nmps;
                }
                proof {
                    assert forall|i: int| 0 <= i < MQC_NUMCTXS implies #[trigger] self.ctxs@[i] < MQC_NUMSTATES
                        && self.ctxs_mps@[i] <= 1 by {
                        assert(old(self).ctxs@[i] < MQC_NUMSTATES);
                    }
                }
                let ghost before = *self;
                self.renormd();
            } else {
                d = mps;
            }
        }
        d
    }

    /// Ends decoding; the input was never altered, so there is nothing to restore.
    #[verifier::spinoff_prover]
    pub fn finish_dec(&mut self)
        ensures
            *final(self) == *old(self),
    {
    }
}

/// The decoder keeps the encoder's probability model in step: when the encoder and the
/// decoder start with the same interval register and the same state and more probable
/// symbol in their current context, coding a symbol in the encoder and reading the same
/// symbol in the decoder leave both with the same interval register and the same state
/// and more probable symbol in that context.
pub proof fn lemma_models_in_step<'a, 'b>(enc0: Mqc<'a>, enc1: Mqc<'a>, dec0: Mqc<'b>, dec1: Mqc<'b>, d: int)
    requires
        enc0.a == dec0.a,
        enc0.cur_state() == dec0.cur_state(),
        enc0.cur_mps() == dec0.cur_mps(),
        enc0.adapted(&enc1, d),
        dec0.adapted(&dec1, d),
    ensures
        enc1.a == dec1.a,
        enc1.cur_state() == dec1.cur_state(),
        enc1.cur_mps() == dec1.cur_mps(),
{
    reveal(Mqc::adapted);
}

} // verus!

//! High-throughput block decoding: the MEL decoder, the forward and backward bit readers
//! with byte unstuffing, and the variable-length codes of the cleanup pass.
use vstd::prelude::*;
use crate::error::{Error, Result, invalid};
use crate::types::{is_floorlog2, lemma_leading_zeros_floorlog2};
use crate::bits::lemma_low_masks;
use vstd::arithmetic::power2::pow2;

verus! {

/// Number of set bits among the `n` low bits of `v`.
pub open spec fn bit_count(v: u32, n: nat) -> nat
    decreases n,
{
    if n == 0 {
        0
    } else {
        bit_count(v, (n - 1) as nat) + ((v >> (n - 1) as u32) & 1u32) as nat
    }
}

/// Number of zero bits above the highest set bit of `val`; 32 for zero.
pub fn count_leading_zeros(val: u32) -> (r: u32)
    ensures
        r <= 32,
        val == 0 <==> r == 32,
        val > 0 ==> is_floorlog2(val as int, 31 - r),
{
    proof {
        vstd::std_specs::bits::axiom_u32_leading_zeros(val);
        if val > 0 {
            lemma_leading_zeros_floorlog2(val);
        }
    }
    val.leading_zeros()
}

/// Number of set bits of `val`.
pub fn population_count(val: u32) -> (r: u32)
    ensures
        r == bit_count(val, 32),
{
    let mut c: u32 = 0;
    let mut i: u32 = 0;
    while i < 32
        invariant
            i <= 32,
            c == bit_count(val, i as nat),
            c <= i,
        decreases 32 - i,
    {
        let b = (val >> i) & 1;
        proof {
            lemma_low_masks(val >> i);
        }
        c += b;
        i += 1;
    }
    c
}

/// Entry `i` of the prefix table of the unsigned variable-length code: bits 0-1 the
/// prefix length, bits 2-4 the suffix length, bits 5-7 the value of the prefix.
pub open spec fn uvlc_entry(i: u32) -> u32 {
    if i == 0 {
        0xb3
    } else if i == 4 {
        0x67
    } else if i == 2 || i == 6 {
        0x42
    } else {
        0x21
    }
}

fn uvlc_dec(i: u32) -> (r: u32)
    requires
        i < 8,
    ensures
        r == uvlc_entry(i),
        r < 256,
{
    if i == 0 {
        0xB3
    } else if i == 4 {
        0x67
    } else if i == 2 || i == 6 {
        0x42
    } else {
        0x21
    }
}

/// Prefix length of the codeword at the bottom of `vlc`.
pub open spec fn pfx_len(vlc: u32) -> u32 {
    uvlc_entry(vlc & 7) & 3
}

/// Suffix length of the codeword whose prefix is at the bottom of `vlc`.
pub open spec fn sfx_len(vlc: u32) -> u32 {
    (uvlc_entry(vlc & 7) >> 2) & 7
}

/// Value of the prefix at the bottom of `vlc`.
pub open spec fn pfx_val(vlc: u32) -> u32 {
    uvlc_entry(vlc & 7) >> 5
}

/// The `n` low bits of `v`.
pub open spec fn low_bits(v: u32, n: u32) -> u32 {
    v & (((1u32 << n) - 1) as u32)
}

/// Bits consumed and value of one codeword (prefix then suffix) at the bottom of `vlc`.
pub open spec fn one_symbol(vlc: u32) -> (u32, u32) {
    (
        (pfx_len(vlc) + sfx_len(vlc)) as u32,
        (pfx_val(vlc) + low_bits(vlc >> pfx_len(vlc), sfx_len(vlc))) as u32,
    )
}

/// Bits consumed and values of two codewords whose prefixes come first, then their
/// suffixes.
pub open spec fn two_symbols(vlc: u32) -> (u32, u32, u32) {
    let p1 = pfx_len(vlc);
    let v1 = vlc >> p1;
    let p2 = pfx_len(v1);
    let v2 = v1 >> p2;
    let s1 = sfx_len(vlc);
    let s2 = sfx_len(v1);
    let d1 = pfx_val(vlc) + low_bits(v2, s1);
    let d2 = pfx_val(v1) + low_bits(v2 >> s1, s2);
    ((p1 + p2 + s1 + s2) as u32, d1 as u32, d2 as u32)
}

/// The first codeword's prefix is long (`000`): the second one's is a single bit, then the
/// first suffix follows.
pub open spec fn short_second(vlc: u32) -> (u32, u32, u32) {
    let p1 = pfx_len(vlc);
    let v1 = vlc >> p1;
    let u1 = ((v1 & 1) + 2) as u32;
    let v2 = v1 >> 1u32;
    let s1 = sfx_len(vlc);
    let d1 = pfx_val(vlc) + low_bits(v2, s1);
    ((p1 + 1 + s1) as u32, d1 as u32, u1)
}

/// The initial-row decode of the unsigned code: `(consumed bits, [u0, u1])`.
pub open spec fn init_uvlc(vlc: u32, mode: u32) -> (u32, [u32; 2]) {
    if mode == 0 {
        (0, [1u32, 1u32])
    } else if mode <= 2 {
        let (c, d) = one_symbol(vlc);
        if mode == 1 { (c, [(d + 1) as u32, 1u32]) } else { (c, [1u32, (d + 1) as u32]) }
    } else if mode == 3 {
        if pfx_len(vlc) > 2 {
            let (c, d1, u1) = short_second(vlc);
            (c, [(d1 + 1) as u32, u1])
        } else {
            let (c, d1, d2) = two_symbols(vlc);
            (c, [(d1 + 1) as u32, (d2 + 1) as u32])
        }
    } else if mode == 4 {
        let (c, d1, d2) = two_symbols(vlc);
        (c, [(d1 + 3) as u32, (d2 + 3) as u32])
    } else {
        (0, [1u32, 1u32])
    }
}

/// The non-initial-row decode of the unsigned code: `(consumed bits, [u0, u1])`.
pub open spec fn noninit_uvlc(vlc: u32, mode: u32) -> (u32, [u32; 2]) {
    if mode == 0 {
        (0, [1u32, 1u32])
    } else if mode <= 2 {
        let (c, d) = one_symbol(vlc);
        if mode == 1 { (c, [(d + 1) as u32, 1u32]) } else { (c, [1u32, (d + 1) as u32]) }
    } else if mode == 3 {
        let (c, d1, d2) = two_symbols(vlc);
        (c, [(d1 + 1) as u32, (d2 + 1) as u32])
    } else {
        (0, [1u32, 1u32])
    }
}

proof fn lemma_entry_fields(i: u32)
    requires
        i < 8,
    ensures
        uvlc_entry(i) & 3 <= 3,
        (uvlc_entry(i) >> 2) & 7 <= 5,
        uvlc_entry(i) >> 5 <= 5,
        uvlc_entry(i) & 3 >= 1,
{
    let e = uvlc_entry(i);
    assert(e == 0xb3 || e == 0x67 || e == 0x42 || e == 0x21);
    assert((e == 0xb3u32 || e == 0x67u32 || e == 0x42u32 || e == 0x21u32) ==> (e & 3 <= 3 && e & 3 >= 1 && (e >> 2)
        & 7 <= 5 && e >> 5 <= 5)) by (bit_vector);
}

proof fn lemma_low_bits_small(v: u32, n: u32)
    requires
        n <= 7,
    ensures
        low_bits(v, n) < 128,
        1u32 << n >= 1,
{
    assert(v & (((1u32 << n) - 1) as u32) < 128 && 1u32 << n >= 1) by (bit_vector)
        requires
            n <= 7,
    ;
}

/// The later-row decode of the unsigned code agrees with the initial-row decode in modes
/// 0 to 2; in mode 3 it decodes two separate codewords, which the initial-row mode 4
/// decodes to the same consumed length and to values larger by 2.
pub proof fn lemma_noninit_uvlc_matches_init(vlc: u32)
    ensures
        noninit_uvlc(vlc, 0) == init_uvlc(vlc, 0),
        noninit_uvlc(vlc, 1) == init_uvlc(vlc, 1),
        noninit_uvlc(vlc, 2) == init_uvlc(vlc, 2),
        init_uvlc(vlc, 4).0 == noninit_uvlc(vlc, 3).0,
        init_uvlc(vlc, 4).1[0] == noninit_uvlc(vlc, 3).1[0] + 2,
        init_uvlc(vlc, 4).1[1] == noninit_uvlc(vlc, 3).1[1] + 2,
{
    let p1 = pfx_len(vlc);
    let v1 = vlc >> p1;
    let v2 = v1 >> pfx_len(v1);
    lemma_low_masks(vlc);
    lemma_low_masks(v1);
    lemma_entry_fields(vlc & 7);
    lemma_entry_fields(v1 & 7);
    lemma_low_bits_small(v2, sfx_len(vlc));
    lemma_low_bits_small(v2 >> sfx_len(vlc), sfx_len(v1));
}

/// Decodes the unsigned variable-length code of a quad pair in the initial row pair;
/// the mode says which of the two quads carry a code and, for both, the MEL event.
pub fn decode_init_uvlc(vlc: u32, mode: u32) -> (r: (u32, [u32; 2]))
    ensures
        r == init_uvlc(vlc, mode),
{
    let mut consumed_bits = 0u32;
    let mut u = [1u32, 1u32];
    if mode == 0 {
    } else if mode <= 2 {
        proof {
            lemma_low_masks(vlc);
            lemma_entry_fields(vlc & 7);
        }
        let d = uvlc_dec(vlc & 0x7);
        let prefix_len = d & 0x3;
        let suffix_len = (d >> 2) & 0x7;
        consumed_bits = prefix_len + suffix_len;
        proof {
            lemma_low_bits_small(vlc >> prefix_len, suffix_len);
        }
        let d_val = (d >> 5) + ((vlc >> prefix_len) & ((1u32 << suffix_len) - 1));
        if mode == 1 {
            u = [d_val + 1, 1];
        } else {
            u = [1, d_val + 1];
        }
    } else if mode == 3 {
        proof {
            lemma_low_masks(vlc);
            lemma_entry_fields(vlc & 7);
        }
        let d1 = uvlc_dec(vlc & 0x7);
        let prefix_len1 = d1 & 0x3;
        let mut v = vlc >> prefix_len1;
        consumed_bits += prefix_len1;
        if prefix_len1 > 2 {
            proof {
                lemma_low_masks(v);
            }
            let u1 = (v & 1) + 1 + 1;
            consumed_bits += 1;
            v >>= 1;
            let suffix_len1 = (d1 >> 2) & 0x7;
            consumed_bits += suffix_len1;
            proof {
                lemma_low_bits_small(v, suffix_len1);
                lemma_low_masks(v);
            }
            let d1_val = (d1 >> 5) + (v & ((1u32 << suffix_len1) - 1));
            u = [d1_val + 1, u1];
        } else {
            proof {
                lemma_low_masks(v);
                lemma_entry_fields(v & 7);
            }
            let d2 = uvlc_dec(v & 0x7);
            let prefix_len2 = d2 & 0x3;
            v >>= prefix_len2;
            consumed_bits += prefix_len2;
            let suffix_len1 = (d1 >> 2) & 0x7;
            consumed_bits += suffix_len1;
            proof {
                lemma_low_bits_small(v, suffix_len1);
            }
            let d1_val = (d1 >> 5) + (v & ((1u32 << suffix_len1) - 1));
            v >>= suffix_len1;
            let suffix_len2 = (d2 >> 2) & 0x7;
            consumed_bits += suffix_len2;
            proof {
                lemma_low_bits_small(v, suffix_len2);
            }
            let d2_val = (d2 >> 5) + (v & ((1u32 << suffix_len2) - 1));
            u = [d1_val + 1, d2_val + 1];
        }
    } else if mode == 4 {
        proof {
            lemma_low_masks(vlc);
            lemma_entry_fields(vlc & 7);
        }
        let d1 = uvlc_dec(vlc & 0x7);
        let prefix_len1 = d1 & 0x3;
        let mut v = vlc >> prefix_len1;
        consumed_bits += prefix_len1;
        proof {
            lemma_low_masks(v);
            lemma_entry_fields(v & 7);
        }
        let d2 = uvlc_dec(v & 0x7);
        let prefix_len2 = d2 & 0x3;
        v >>= prefix_len2;
        consumed_bits += prefix_len2;
        let suffix_len1 = (d1 >> 2) & 0x7;
        consumed_bits += suffix_len1;
        proof {
            lemma_low_bits_small(v, suffix_len1);
        }
        let d1_val = (d1 >> 5) + (v & ((1u32 << suffix_len1) - 1));
        v >>= suffix_len1;
        let suffix_len2 = (d2 >> 2) & 0x7;
        consumed_bits += suffix_len2;
        proof {
            lemma_low_bits_small(v, suffix_len2);
        }
        let d2_val = (d2 >> 5) + (v & ((1u32 << suffix_len2) - 1));
        u = [d1_val + 3, d2_val + 3];
    }
    (consumed_bits, u)
}

/// Decodes the unsigned variable-length code of a quad pair in a later row pair.
pub fn decode_noninit_uvlc(vlc: u32, mode: u32) -> (r: (u32, [u32; 2]))
    ensures
        r == noninit_uvlc(vlc, mode),
{
    let mut consumed_bits = 0u32;
    let mut u = [1u32, 1u32];
    if mode == 0 {
    } else if mode <= 2 {
        proof {
            lemma_low_masks(vlc);
            lemma_entry_fields(vlc & 7);
        }
        let d = uvlc_dec(vlc & 0x7);
        let prefix_len = d & 0x3;
        let suffix_len = (d >> 2) & 0x7;
        consumed_bits = prefix_len + suffix_len;
        proof {
            lemma_low_bits_small(vlc >> prefix_len, suffix_len);
        }
        let d_val = (d >> 5) + ((vlc >> prefix_len) & ((1u32 << suffix_len) - 1));
        if mode == 1 {
            u = [d_val + 1, 1];
        } else {
            u = [1, d_val + 1];
        }
    } else if mode == 3 {
        proof {
            lemma_low_masks(vlc);
            lemma_entry_fields(vlc & 7);
        }
        let d1 = uvlc_dec(vlc & 0x7);
        let prefix_len1 = d1 & 0x3;
        let mut v = vlc >> prefix_len1;
        consumed_bits += prefix_len1;
        proof {
            lemma_low_masks(v);
            lemma_entry_fields(v & 7);
        }
        let d2 = uvlc_dec(v & 0x7);
        let prefix_len2 = d2 & 0x3;
        v >>= prefix_len2;
        consumed_bits += prefix_len2;
        let suffix_len1 = (d1 >> 2) & 0x7;
        consumed_bits += suffix_len1;
        proof {
            lemma_low_bits_small(v, suffix_len1);
        }
        let d1_val = (d1 >> 5) + (v & ((1u32 << suffix_len1) - 1));
        v >>= suffix_len1;
        let suffix_len2 = (d2 >> 2) & 0x7;
        consumed_bits += suffix_len2;
        proof {
            lemma_low_bits_small(v, suffix_len2);
        }
        let d2_val = (d2 >> 5) + (v & ((1u32 << suffix_len2) - 1));
        u = [d1_val + 1, d2_val + 1];
    }
    (consumed_bits, u)
}

/// Run-length exponent of each state of the MEL decoder.
pub open spec fn mel_exp(k: u32) -> u32 {
    if k <= 2 {
        0
    } else if k <= 5 {
        1
    } else if k <= 8 {
        2
    } else if k <= 10 {
        3
    } else if k == 11 {
        4
    } else {
        5
    }
}

fn mel_exp_of(k: u32) -> (r: u32)
    ensures
        r == mel_exp(k),
        r <= 5,
{
    if k <= 2 {
        0
    } else if k <= 5 {
        1
    } else if k <= 8 {
        2
    } else if k <= 10 {
        3
    } else if k == 11 {
        4
    } else {
        5
    }
}

fn flag(b: bool) -> (r: u32)
    ensures
        r == (if b { 1u32 } else { 0u32 }),
{
    if b { 1 } else { 0 }
}

/// The run that the MEL decoder in state `k` reads from the top of its bit buffer `tmp`: a
/// 1 bit is a full run of `2^e - 1` zero quads with no event (coded as that count doubled);
/// a 0 bit is followed by `e` bits giving the count of zero quads before an event (coded
/// as that count doubled plus one), where `e` is the state's run-length exponent.
pub open spec fn mel_run(tmp: u64, k: u32) -> u64 {
    let e = mel_exp(k);
    if tmp >= 0x8000_0000_0000_0000 {
        (2 * (pow2(e as nat) - 1)) as u64
    } else {
        (2 * (((tmp as nat) / pow2((63 - e) as nat)) % pow2(e as nat)) + 1) as u64
    }
}

/// The state after that run: one up after a full run (at most 12), one down after an event
/// (at least 0).
pub open spec fn mel_next_state(tmp: u64, k: u32) -> u32 {
    if tmp >= 0x8000_0000_0000_0000 {
        if k + 1 < 12 { (k + 1) as u32 } else { 12 }
    } else {
        if k > 0 { (k - 1) as u32 } else { 0 }
    }
}

/// The first `n` bytes of `d` read as a big-endian number.
pub open spec fn be_bytes(d: Seq<u8>, n: int) -> int
    decreases n,
{
    if n <= 0 {
        0
    } else {
        be_bytes(d, n - 1) * 256 + d[n - 1]
    }
}

/// Writing a 7-bit run into slot 0 of the queue sets its low 7 bits; writing into a later
/// slot keeps them.
proof fn lemma_run_slots(a: u64, run: u64, s: u64)
    requires
        run < 128,
        7 <= s < 64,
    ensures
        ((a & !(0x7Fu64 << 0u64)) | (run << 0u64)) & 0x7f == run,
        ((a & !(0x7Fu64 << s)) | (run << s)) & 0x7f == a & 0x7f,
{
    assert(((a & !(0x7Fu64 << 0u64)) | (run << 0u64)) & 0x7f == run && ((a & !(0x7Fu64 << s)) | (run << s)) & 0x7f
        == a & 0x7f) by (bit_vector)
        requires
            run < 128,
            7 <= s < 64,
    ;
}

/// Decoder of the MEL (magnitude event limiter) stream: a 13-state adaptive run-length
/// code read forward with byte unstuffing.
pub struct MelDecoder<'a> {
    /// MEL bitstream data.
    pub data: &'a [u8],
    /// Current byte position.
    pub pos: usize,
    /// Bit buffer, most significant bit first.
    pub tmp: u64,
    /// Number of valid bits in `tmp`.
    pub bits: u32,
    /// Whether the next byte loses its top bit (it follows a 0xFF byte).
    pub unstuff: bool,
    /// State of the run-length code (0 to 12).
    pub k: u32,
    /// Queue of decoded runs, 7 bits each, first run lowest.
    pub runs: u64,
    /// Number of runs in the queue.
    pub num_runs: u32,
}

impl<'a> MelDecoder<'a> {
    /// Well-formed decoder state.
    pub open spec fn wf(&self) -> bool {
        &&& self.pos <= self.data@.len()
        &&& self.bits <= 64
        &&& self.k <= 12
        &&& self.num_runs <= 8
    }

    /// A decoder at the start of `data`, with its first bytes (at most four) buffered.
    pub fn new(data: &'a [u8]) -> (r: Self)
        ensures
            r.wf(),
            r.data@ == data@,
            r.pos == (if data@.len() < 4 { data@.len() } else { 4 }),
            r.k == 0,
            r.runs == 0,
            r.num_runs == 0,
            no_stuffing(data@, r.pos - 1) ==> r.bits == 8 * r.pos && r.tmp == (if r.pos == 0 {
                0
            } else {
                be_bytes(data@, r.pos as int) * pow2((64 - 8 * r.pos) as nat)
            }),
    {
        let mut dec = MelDecoder { data, pos: 0, tmp: 0, bits: 0, unstuff: false, k: 0, runs: 0, num_runs: 0 };
        let num = if data.len() < 4 { data.len() } else { 4 };
        let mut i: usize = 0;
        proof {
            vstd::arithmetic::power2::lemma2_to64();
        }
        while i < num
            invariant
                num <= 4,
                num <= data@.len(),
                i <= num,
                dec.data@ == data@,
                dec.pos == i,
                dec.bits <= 8 * i,
                dec.k == 0 && dec.runs == 0 && dec.num_runs == 0,
                i == 0 ==> !dec.unstuff,
                i > 0 ==> dec.unstuff == (data@[i - 1] == 0xFF),
                no_stuffing(data@, i - 1) ==> dec.bits == 8 * i && dec.tmp == be_bytes(data@, i as int) && dec.tmp
                    < pow2((8 * i) as nat),
            decreases num - i,
        {
            let ghost clean = no_stuffing(data@, i as int);
            let ghost t0 = dec.tmp;
            let d = dec.data[dec.pos] as u64;
            proof {
                vstd::arithmetic::power2::lemma2_to64();
                if clean {
                    assert(no_stuffing(data@, i - 1)) by {
                        assert forall|k: int| 0 <= k < i - 1 implies #[trigger] data@[k] != 0xFF by {
                            assert(data@[k] != 0xFF);
                        }
                    }
                    if i > 0 {
                        assert(data@[i - 1] != 0xFF);
                    }
                    assert(t0 < 0x100_0000);
                    vstd::bits::lemma_u64_shl_is_mul(t0, 8);
                    vstd::bits::lemma_u64_shl_is_mul(1u64, 8);
                    lemma_or_above(d, t0, 8);
                }
            }
            dec.pos += 1;
            let d_bits = 8 - flag(dec.unstuff);
            dec.tmp = d | (dec.tmp << d_bits);
            dec.bits += d_bits;
            dec.unstuff = (d & 0xFF) == 0xFF;
            proof {
                assert(d & 0xFF == d) by {
                    vstd::bits::lemma_u64_low_bits_mask_is_mod(d, 8);
                    vstd::bits::lemma_low_bits_mask_values();
                    vstd::arithmetic::power2::lemma2_to64();
                }
                vstd::arithmetic::power2::lemma2_to64();
                if clean {
                    assert(dec.tmp == t0 * 256 + d);
                    assert(be_bytes(data@, i as int + 1) == be_bytes(data@, i as int) * 256 + data@[i as int]);
                    assert(pow2((8 * (i + 1)) as nat) == pow2((8 * i) as nat) * 256);
                }
            }
            i += 1;
        }
        if dec.bits > 0 {
            let ghost t1 = dec.tmp;
            proof {
                if no_stuffing(data@, num - 1) {
                    vstd::arithmetic::power2::lemma2_to64();
                    vstd::arithmetic::power2::lemma_pow2_adds((8 * num) as nat, (64 - 8 * num) as nat);
                    vstd::arithmetic::power2::lemma_pow2_pos((64 - 8 * num) as nat);
                    vstd::arithmetic::mul::lemma_mul_strict_inequality(
                        t1 as int,
                        pow2((8 * num) as nat) as int,
                        pow2((64 - 8 * num) as nat) as int,
                    );
                    vstd::bits::lemma_u64_shl_is_mul(t1, (64 - dec.bits) as u64);
                }
            }
            dec.tmp = dec.tmp << (64 - dec.bits);
        }
        dec
    }

    /// Reads and unstuffs up to four more bytes into the bit buffer.
    fn mel_read(&mut self)
        requires
            old(self).wf(),
        ensures
            final(self).wf(),
            final(self).data == old(self).data,
            final(self).k == old(self).k,
            final(self).runs == old(self).runs,
            final(self).num_runs == old(self).num_runs,
            final(self).bits >= old(self).bits,
            old(self).bits <= 32 ==> final(self).bits >= old(self).bits + 28,
    {
        if self.bits > 32 {
            return;
        }
        let mut val: u32 = 0xFFFF_FFFF;
        let remaining = self.data.len() - self.pos;
        if remaining >= 4 {
            let b0 = self.data[self.pos] as u32;
            let b1 = self.data[self.pos + 1] as u32;
            let b2 = self.data[self.pos + 2] as u32;
            let b3 = self.data[self.pos + 3] as u32;
            val = b0 | (b1 << 8) | (b2 << 16) | (b3 << 24);
            self.pos += 4;
        } else if remaining > 0 {
            let mut i: usize = 0;
            while i < remaining
                invariant
                    remaining < 4,
                    i <= remaining,
                    self.pos + remaining - i == self.data@.len(),
                    self.data == old(self).data,
                    self.bits == old(self).bits,
                    self.k == old(self).k,
                    self.runs == old(self).runs,
                    self.num_runs == old(self).num_runs,
                decreases remaining - i,
            {
                let v = self.data[self.pos] as u32;
                let sh = (i * 8) as u32;
                let m = !(0xFFu32 << sh);
                val = (val & m) | (v << sh);
                self.pos += 1;
                i += 1;
            }
        }
        let mut bits = 32u32 - flag(self.unstuff);
        let mut t: u32 = val & 0xFF;
        let mut unstuff = (val & 0xFF) == 0xFF;
        bits -= flag(unstuff);
        t <<= 8 - flag(unstuff);
        t |= (val >> 8) & 0xFF;
        unstuff = ((val >> 8) & 0xFF) == 0xFF;
        bits -= flag(unstuff);
        t <<= 8 - flag(unstuff);
        t |= (val >> 16) & 0xFF;
        unstuff = ((val >> 16) & 0xFF) == 0xFF;
        bits -= flag(unstuff);
        t <<= 8 - flag(unstuff);
        t |= (val >> 24) & 0xFF;
        self.unstuff = ((val >> 24) & 0xFF) == 0xFF;
        self.tmp = self.tmp | ((t as u64) << (64 - bits - self.bits));
        self.bits += bits;
    }

    /// Decodes runs into the queue until it holds eight or the buffer runs low.
    fn mel_decode(&mut self)
        requires
            old(self).wf(),
        ensures
            final(self).wf(),
            final(self).data == old(self).data,
            final(self).num_runs >= old(self).num_runs,
            old(self).num_runs == 0 && old(self).bits >= 6 ==> final(self).num_runs >= 1 && final(self).runs & 0x7f
                == mel_run(old(self).tmp, old(self).k),
    {
        if self.bits < 6 {
            self.mel_read();
        }
        let ghost first = old(self).num_runs == 0 && old(self).bits >= 6;
        while self.bits >= 6 && self.num_runs < 8
            invariant
                self.wf(),
                self.data == old(self).data,
                self.num_runs >= old(self).num_runs,
                first == (old(self).num_runs == 0 && old(self).bits >= 6),
                first && self.num_runs == 0 ==> self.tmp == old(self).tmp && self.k == old(self).k && self.bits
                    == old(self).bits,
                first && self.num_runs >= 1 ==> self.runs & 0x7f == mel_run(old(self).tmp, old(self).k),
            ensures
                first ==> self.num_runs >= 1,
            decreases 8 - self.num_runs,
        {
            let ghost tmp0 = self.tmp;
            let ghost k0 = self.k;
            let ghost runs0 = self.runs;
            let eval = mel_exp_of(self.k);
            let run: u64;
            proof {
                vstd::arithmetic::power2::lemma2_to64();
                vstd::bits::lemma_u32_pow2_no_overflow(eval as nat);
                vstd::bits::lemma_u32_shl_is_mul(1u32, eval);
                assert(pow2(eval as nat) <= 32);
            }
            if self.tmp >= 0x8000_0000_0000_0000 {
                let m = (1u32 << eval) - 1;
                proof {
                    vstd::bits::lemma_u32_shl_is_mul(m, 1u32);
                }
                run = (m << 1) as u64;
                self.k = if self.k + 1 < 12 { self.k + 1 } else { 12 };
                self.tmp = self.tmp << 1;
                self.bits -= 1;
            } else {
                let t = self.tmp;
                let m = (1u32 << eval) - 1;
                let sh = t >> (63 - eval);
                proof {
                    vstd::bits::lemma_u64_shr_is_div(t, (63 - eval) as u64);
                    vstd::arithmetic::power2::lemma_pow2_adds((63 - eval) as nat, eval as nat);
                    vstd::arithmetic::power2::lemma_pow2_pos((63 - eval) as nat);
                    vstd::arithmetic::power2::lemma2_to64_rest();
                    assert(pow2(63) == 0x8000_0000_0000_0000);
                    vstd::arithmetic::div_mod::lemma_multiply_divide_lt(
                        t as int,
                        pow2((63 - eval) as nat) as int,
                        pow2(eval as nat) as int,
                    );
                    assert(sh < 64);
                }
                let bits = sh as u32;
                let r = bits & m;
                proof {
                    vstd::bits::lemma_u32_low_bits_mask_is_mod(bits, eval as nat);
                    assert(r == bits % (pow2(eval as nat) as u32));
                    assert(r < 32);
                }
                proof {
                    vstd::arithmetic::power2::lemma2_to64();
                    vstd::bits::lemma_u32_shl_is_mul(r, 1u32);
                }
                run = ((r << 1) + 1) as u64;
                self.k = if self.k > 0 { self.k - 1 } else { 0 };
                self.tmp = self.tmp << (eval + 1);
                self.bits -= eval + 1;
            }
            let shift = (self.num_runs * 7) as u64;
            proof {
                if shift >= 7 {
                    lemma_run_slots(runs0, run, shift);
                } else {
                    lemma_run_slots(runs0, run, 7);
                    assert(run == mel_run(tmp0, k0));
                }
            }
            self.runs = self.runs & !(0x7Fu64 << shift);
            self.runs = self.runs | (run << shift);
            self.num_runs += 1;
        }
    }

    /// The next run of the MEL stream: the number of all-zero quads before the next event.
    pub fn decode_run(&mut self) -> (r: Result<u32>)
        requires
            old(self).wf(),
        ensures
            final(self).wf(),
            final(self).data == old(self).data,
            r matches Ok(t) && t < 128,
            old(self).num_runs > 0 ==> r == Ok::<u32, Error>((old(self).runs & 0x7f) as u32)
                && final(self).runs == old(self).runs >> 7u64 && final(self).num_runs == old(self).num_runs - 1,
            old(self).num_runs == 0 && old(self).bits >= 6 ==> r == Ok::<u32, Error>(
                mel_run(old(self).tmp, old(self).k) as u32,
            ),
    {
        if self.num_runs == 0 {
            self.mel_decode();
        }
        let t = (self.runs & 0x7F) as u32;
        let q = self.runs;
        proof {
            vstd::bits::lemma_u64_low_bits_mask_is_mod(q, 7);
            vstd::bits::lemma_low_bits_mask_values();
            vstd::arithmetic::power2::lemma2_to64();
        }
        self.runs = self.runs >> 7;
        self.num_runs = if self.num_runs > 0 { self.num_runs - 1 } else { 0 };
        Ok(t)
    }
}

/// The `k` low bits of `x`.
pub open spec fn low64(x: u64, k: u32) -> u64 {
    if k >= 64 { x } else { x & (((1u64 << k as u64) - 1) as u64) }
}

proof fn lemma_or_above_keeps_low(a: u64, b: u64, s: u32)
    requires
        s < 64,
    ensures
        low64(a | (b << s as u64), s) == low64(a, s),
{
    assert((a | (b << s as u64)) & (((1u64 << s as u64) - 1) as u64) == a & (((1u64 << s as u64) - 1) as u64))
        by (bit_vector)
        requires
            s < 64,
    ;
}

proof fn lemma_low64_mono(a: u64, b: u64, s: u32, t: u32)
    requires
        t <= s,
        low64(a, s) == low64(b, s),
    ensures
        low64(a, t) == low64(b, t),
{
    if s >= 64 {
        if t < 64 {
            assert(a == b);
        }
    } else {
        assert(a & (((1u64 << s as u64) - 1) as u64) == b & (((1u64 << s as u64) - 1) as u64) ==> a & (((1u64
            << t as u64) - 1) as u64) == b & (((1u64 << t as u64) - 1) as u64)) by (bit_vector)
            requires
                t <= s,
                s < 64,
        ;
    }
}

/// Backward bit reader with unstuffing (the VLC and refinement streams): bytes are read
/// from the end of the data toward its start, bits accumulate from the bottom of the
/// buffer.
pub struct RevReader<'a> {
    /// Source data.
    pub data: &'a [u8],
    /// Position of the next byte to read; -1 once the start is passed.
    pub pos: isize,
    /// Bit buffer, first bit lowest.
    pub tmp: u64,
    /// Number of valid bits in `tmp`.
    pub bits: u32,
    /// Whether the next byte may lose its top bit (the previous one was above 0x8F).
    pub unstuff: bool,
}

impl<'a> RevReader<'a> {
    /// Well-formed reader state.
    pub open spec fn wf(&self) -> bool {
        &&& -1 <= self.pos < self.data@.len()
        &&& self.data@.len() <= isize::MAX
        &&& self.bits <= 64
    }

    /// A reader starting at the last byte of `data`, whose low four bits are skipped.
    pub fn new(data: &'a [u8]) -> (r: Self)
        requires
            data@.len() <= isize::MAX,
        ensures
            r.wf(),
            r.data@ == data@,
            data@.len() == 0 ==> r.bits == 0 && r.tmp == 0,
    {
        let mut reader = RevReader { data, pos: 0, tmp: 0, bits: 0, unstuff: false };
        if data.len() == 0 {
            reader.pos = -1;
            return reader;
        }
        let last = data.len() - 1;
        reader.pos = last as isize;
        let d = data[last] as u64;
        reader.tmp = d >> 4;
        reader.bits = 4 - flag((reader.tmp & 7) == 7);
        reader.unstuff = (d | 0xF) > 0x8F;
        reader.pos = reader.pos - 1;
        let num: isize = if reader.pos + 1 < 4 { reader.pos + 1 } else { 4 };
        let mut i: isize = 0;
        while i < num && reader.pos >= 0
            invariant
                0 <= i <= num <= 4,
                reader.data@ == data@,
                data@.len() <= isize::MAX,
                -1 <= reader.pos < data@.len(),
                reader.bits <= 4 + 8 * i,
            decreases num - i,
        {
            let d = data[reader.pos as usize] as u64;
            let d_bits = 8u32 - flag(reader.unstuff && ((d & 0x7F) == 0x7F));
            reader.tmp = reader.tmp | (d << reader.bits);
            reader.bits += d_bits;
            reader.unstuff = d > 0x8F;
            reader.pos = reader.pos - 1;
            i += 1;
        }
        reader.read();
        reader
    }

    /// Reads and unstuffs up to four more bytes, backward, into the bit buffer.
    fn read(&mut self)
        requires
            old(self).wf(),
        ensures
            final(self).wf(),
            final(self).data == old(self).data,
            final(self).bits >= old(self).bits,
            low64(final(self).tmp, old(self).bits) == low64(old(self).tmp, old(self).bits),
    {
        if self.bits > 32 {
            return;
        }
        let mut val: u32 = 0;
        let remaining = (self.pos + 1) as usize;
        if remaining >= 4 {
            let p = self.pos as usize;
            let b0 = self.data[p - 3] as u32;
            let b1 = self.data[p - 2] as u32;
            let b2 = self.data[p - 1] as u32;
            let b3 = self.data[p] as u32;
            val = (b0 << 24) | (b1 << 16) | (b2 << 8) | b3;
            self.pos = self.pos - 4;
        } else if remaining > 0 {
            let mut r = remaining;
            while r > 0
                invariant
                    r <= 3,
                    self.pos + 1 == r,
                    remaining <= 3,
                    r <= remaining,
                    self.data == old(self).data,
                    self.bits == old(self).bits,
                    self.tmp == old(self).tmp,
                    self.data@.len() <= isize::MAX,
                    -1 <= self.pos < self.data@.len(),
                decreases r,
            {
                let v = self.data[self.pos as usize] as u32;
                let i = (24 - 8 * (remaining - r)) as u32;
                val = val | (v << i);
                self.pos = self.pos - 1;
                r -= 1;
            }
        }
        let mut tmp: u32 = val >> 24;
        let mut bits = 8u32 - flag(self.unstuff && (((val >> 24) & 0x7F) == 0x7F));
        let mut unstuff = (val >> 24) > 0x8F;
        tmp = tmp | (((val >> 16) & 0xFF) << bits);
        bits += 8u32 - flag(unstuff && (((val >> 16) & 0x7F) == 0x7F));
        unstuff = ((val >> 16) & 0xFF) > 0x8F;
        tmp = tmp | (((val >> 8) & 0xFF) << bits);
        bits += 8u32 - flag(unstuff && (((val >> 8) & 0x7F) == 0x7F));
        unstuff = ((val >> 8) & 0xFF) > 0x8F;
        tmp = tmp | ((val & 0xFF) << bits);
        bits += 8u32 - flag(unstuff && ((val & 0x7F) == 0x7F));
        unstuff = (val & 0xFF) > 0x8F;
        proof {
            lemma_or_above_keeps_low(self.tmp, tmp as u64, self.bits);
        }
        self.tmp = self.tmp | ((tmp as u64) << self.bits);
        self.bits += bits;
        self.unstuff = unstuff;
    }

    /// The next 32 bits of the stream, without consuming them.
    pub fn fetch(&self) -> (r: u32)
        ensures
            r == self.tmp as u32,
    {
        self.tmp as u32
    }

    /// Consumes `num_bits` bits; fails, changing nothing, when fewer bits are buffered or
    /// `num_bits` is 64 or more.
    pub fn advance(&mut self, num_bits: u32) -> (r: Result<()>)
        requires
            old(self).wf(),
        ensures
            final(self).wf(),
            final(self).data == old(self).data,
            r is Err <==> (num_bits > old(self).bits || num_bits >= 64),
            r is Err ==> *final(self) == *old(self),
            r is Ok ==> final(self).bits >= old(self).bits - num_bits,
            r is Ok ==> low64(final(self).tmp, (old(self).bits - num_bits) as u32) == low64(
                old(self).tmp >> num_bits as u64,
                (old(self).bits - num_bits) as u32,
            ),
    {
        if num_bits > self.bits || num_bits >= 64 {
            return Err(invalid("backward reader: more bits asked than buffered"));
        }
        self.tmp = self.tmp >> num_bits;
        self.bits -= num_bits;
        let ghost t1 = self.tmp;
        let ghost b1 = self.bits;
        if self.bits < 32 {
            self.read();
            let ghost t2 = self.tmp;
            let ghost b2 = self.bits;
            if self.bits < 32 {
                self.read();
                proof {
                    lemma_low64_mono(self.tmp, t2, b2, b1);
                }
            }
        }
        Ok(())
    }
}

/// The first `n` bytes of `d` read as a little-endian number.
pub open spec fn le_bytes(d: Seq<u8>, n: int) -> int
    decreases n,
{
    if n <= 0 {
        0
    } else {
        le_bytes(d, n - 1) + d[n - 1] * pow2((8 * (n - 1)) as nat)
    }
}

/// None of the first `n` bytes of `d` is 0xFF, so none of them is followed by a stuffed bit.
pub open spec fn no_stuffing(d: Seq<u8>, n: int) -> bool {
    forall|k: int| 0 <= k < n ==> #[trigger] d[k] != 0xFF
}

/// An OR with a value shifted above the bits of `a` is an addition.
proof fn lemma_or_above(a: u64, b: u64, s: u64)
    requires
        s < 64,
        a < (1u64 << s),
    ensures
        a | (b << s) == a + (b << s),
{
    assert(a | (b << s) == a + (b << s)) by (bit_vector)
        requires
            s < 64,
            a < (1u64 << s),
    ;
}

/// The low bits of `x` below `k` are its remainder by `2^k`.
proof fn lemma_low64_mod(x: u64, k: u32)
    requires
        k < 64,
    ensures
        low64(x, k) == x % (pow2(k as nat) as u64),
{
    vstd::bits::lemma_u64_pow2_no_overflow(k as nat);
    vstd::bits::lemma_u64_shl_is_mul(1u64, k as u64);
    vstd::bits::lemma_u64_low_bits_mask_is_mod(x, k as nat);
}

/// Forward bit reader with unstuffing (the magnitude-sign and significance-propagation
/// streams): bytes are read from the start of the data, bits accumulate from the bottom of
/// the buffer, and `fill_byte` stands in for bytes past the end.
pub struct FrwdReader<'a> {
    /// Source data.
    pub data: &'a [u8],
    /// Position of the next byte to read.
    pub pos: usize,
    /// Bit buffer, first bit lowest.
    pub tmp: u64,
    /// Number of valid bits in `tmp`.
    pub bits: u32,
    /// Whether the next byte loses its top bit (it follows a 0xFF byte).
    pub unstuff: bool,
    /// Byte read past the end of the data (0xFF or 0x00).
    pub fill_byte: u8,
}

impl<'a> FrwdReader<'a> {
    /// Well-formed reader state.
    pub open spec fn wf(&self) -> bool {
        &&& self.pos <= self.data@.len()
        &&& self.bits <= 64
    }

    /// A reader at the start of `data`.
    /// When none of its first (up to four) bytes but the last of them is 0xFF, so that none
    /// of them loses a stuffed bit, these bytes are buffered whole, the first one lowest.
    pub fn new(data: &'a [u8], fill_byte: u8) -> (r: Self)
        ensures
            r.wf(),
            r.data@ == data@,
            r.fill_byte == fill_byte,
            ({
                let num = if data@.len() < 4 { data@.len() as int } else { 4 };
                no_stuffing(data@, num - 1) ==> r.bits >= 8 * num && r.tmp % (pow2((8 * num) as nat) as u64)
                    == le_bytes(data@, num)
            }),
    {
        let mut reader = FrwdReader { data, pos: 0, tmp: 0, bits: 0, unstuff: false, fill_byte };
        let num = if data.len() < 4 { data.len() } else { 4 };
        let mut i: usize = 0;
        proof {
            vstd::arithmetic::power2::lemma2_to64();
        }
        while i < num
            invariant
                num <= 4,
                num <= data@.len(),
                i <= num,
                reader.data@ == data@,
                reader.pos == i,
                reader.bits <= 8 * i,
                reader.fill_byte == fill_byte,
                i == 0 ==> !reader.unstuff,
                i > 0 ==> reader.unstuff == (data@[i - 1] == 0xFF),
                no_stuffing(data@, i - 1) ==> reader.bits == 8 * i && reader.tmp == le_bytes(data@, i as int)
                    && reader.tmp < pow2((8 * i) as nat),
            decreases num - i,
        {
            let d = reader.data[reader.pos] as u64;
            let ghost t0 = reader.tmp;
            let ghost clean = no_stuffing(data@, i as int);
            proof {
                vstd::arithmetic::power2::lemma2_to64();
                if clean {
                    assert(no_stuffing(data@, i - 1)) by {
                        assert forall|k: int| 0 <= k < i - 1 implies #[trigger] data@[k] != 0xFF by {
                            assert(data@[k] != 0xFF);
                        }
                    }
                    if i > 0 {
                        assert(data@[i - 1] != 0xFF);
                    }
                    let b = reader.bits;
                    assert(b == 0 || b == 8 || b == 16 || b == 24);
                    vstd::bits::lemma_u64_shl_is_mul(1u64, b as u64);
                    vstd::bits::lemma_u64_shl_is_mul(d, b as u64);
                    lemma_or_above(t0, d, b as u64);
                }
            }
            reader.pos += 1;
            reader.tmp = reader.tmp | (d << reader.bits);
            reader.bits += 8 - flag(reader.unstuff);
            reader.unstuff = (d & 0xFF) == 0xFF;
            proof {
                assert(d & 0xFF == d) by {
                    vstd::bits::lemma_u64_low_bits_mask_is_mod(d, 8);
                    vstd::bits::lemma_low_bits_mask_values();
                    vstd::arithmetic::power2::lemma2_to64();
                }
                if clean {
                    assert(le_bytes(data@, i as int + 1) == le_bytes(data@, i as int) + d * pow2((8 * i) as nat));
                }
            }
            i += 1;
        }
        let ghost t1 = reader.tmp;
        let ghost b1 = reader.bits;
        reader.read();
        proof {
            vstd::arithmetic::power2::lemma2_to64();
            if no_stuffing(data@, num - 1) {
                lemma_low64_mod(t1, b1);
                lemma_low64_mod(reader.tmp, b1);
                vstd::arithmetic::div_mod::lemma_small_mod(t1 as nat, pow2(b1 as nat));
            }
        }
        reader
    }

    /// Reads and unstuffs up to four more bytes into the bit buffer.
    fn read(&mut self)
        requires
            old(self).wf(),
        ensures
            final(self).wf(),
            final(self).data == old(self).data,
            final(self).fill_byte == old(self).fill_byte,
            final(self).bits >= old(self).bits,
            old(self).bits <= 32 ==> final(self).bits >= old(self).bits + 28,
            low64(final(self).tmp, old(self).bits) == low64(old(self).tmp, old(self).bits),
    {
        if self.bits > 32 {
            return;
        }
        let fill: u32 = if self.fill_byte != 0 { 0xFFFF_FFFF } else { 0 };
        let remaining = self.data.len() - self.pos;
        let mut val: u32 = fill;
        if remaining >= 4 {
            let b0 = self.data[self.pos] as u32;
            let b1 = self.data[self.pos + 1] as u32;
            let b2 = self.data[self.pos + 2] as u32;
            let b3 = self.data[self.pos + 3] as u32;
            val = b0 | (b1 << 8) | (b2 << 16) | (b3 << 24);
            self.pos += 4;
        } else if remaining > 0 {
            let mut i: usize = 0;
            while i < remaining
                invariant
                    remaining < 4,
                    i <= remaining,
                    self.pos + remaining - i == self.data@.len(),
                    self.data == old(self).data,
                    self.bits == old(self).bits,
                    self.tmp == old(self).tmp,
                    self.fill_byte == old(self).fill_byte,
                decreases remaining - i,
            {
                let b = self.data[self.pos] as u32;
                let sh = (i * 8) as u32;
                let m = !(0xFFu32 << sh);
                val = (val & m) | (b << sh);
                self.pos += 1;
                i += 1;
            }
        }
        let mut bits = 8u32 - flag(self.unstuff);
        let mut t: u32 = val & 0xFF;
        let mut unstuff = (val & 0xFF) == 0xFF;
        t = t | (((val >> 8) & 0xFF) << bits);
        bits += 8u32 - flag(unstuff);
        unstuff = ((val >> 8) & 0xFF) == 0xFF;
        t = t | (((val >> 16) & 0xFF) << bits);
        bits += 8u32 - flag(unstuff);
        unstuff = ((val >> 16) & 0xFF) == 0xFF;
        t = t | (((val >> 24) & 0xFF) << bits);
        bits += 8u32 - flag(unstuff);
        self.unstuff = ((val >> 24) & 0xFF) == 0xFF;
        proof {
            lemma_or_above_keeps_low(self.tmp, t as u64, self.bits);
        }
        self.tmp = self.tmp | ((t as u64) << self.bits);
        self.bits += bits;
    }

    /// The next 32 bits of the stream, without consuming them.
    pub fn fetch(&self) -> (r: u32)
        ensures
            r == self.tmp as u32,
            r as int == self.tmp % 0x1_0000_0000,
    {
        let t = self.tmp;
        assert(t as u32 == t % 0x1_0000_0000) by (bit_vector);
        self.tmp as u32
    }

    /// Consumes `num_bits` bits; fails, changing nothing, when fewer bits are buffered or
    /// `num_bits` is 64 or more. The bits after the consumed ones stay at the bottom of the
    /// buffer.
    pub fn advance(&mut self, num_bits: u32) -> (r: Result<()>)
        requires
            old(self).wf(),
        ensures
            final(self).wf(),
            final(self).data == old(self).data,
            final(self).fill_byte == old(self).fill_byte,
            r is Err <==> (num_bits > old(self).bits || num_bits >= 64),
            r is Err ==> *final(self) == *old(self),
            r is Ok ==> final(self).bits >= old(self).bits - num_bits,
            r is Ok ==> final(self).bits >= 32,
            r is Ok ==> low64(final(self).tmp, (old(self).bits - num_bits) as u32) == low64(
                old(self).tmp >> num_bits as u64,
                (old(self).bits - num_bits) as u32,
            ),
    {
        if num_bits > self.bits || num_bits >= 64 {
            return Err(invalid("forward reader: more bits asked than buffered"));
        }
        self.tmp = self.tmp >> num_bits;
        self.bits -= num_bits;
        let ghost b1 = self.bits;
        if self.bits < 32 {
            self.read();
            let ghost t2 = self.tmp;
            let ghost b2 = self.bits;
            if self.bits < 32 {
                self.read();
                proof {
                    lemma_low64_mono(self.tmp, t2, b2, b1);
                }
            }
        }
        Ok(())
    }
}

/// Magnitude bits of one magnitude-sign sample: the `m_n` low bits of `ms_val`, the EMB bit
/// `emb_1_bit` just above them, and the bin-centre bit.
pub open spec fn sample_mag(ms_val: u32, m_n: u32, emb_1_bit: u32) -> u32 {
    (ms_val & (((1u32 << m_n) - 1) as u32)) | (emb_1_bit << m_n) | 1u32
}

/// Decoded coefficient of one magnitude-sign sample: bit 0 of `ms_val` as the sign in bit 31,
/// and the magnitude bits plus 2 shifted up by `p - 1`.
pub open spec fn sample_value(ms_val: u32, m_n: u32, emb_1_bit: u32, p: u32) -> u32 {
    (ms_val << 31u32) | (((sample_mag(ms_val, m_n, emb_1_bit) + 2) as u32) << ((p - 1) as u32))
}

/// Decodes one magnitude-sign sample: takes the next `u_q - emb_k_bit` bits of `magsgn` and
/// returns the coefficient. Fails, leaving the reader unchanged, when fewer bits are buffered.
pub fn decode_one_sample(magsgn: &mut FrwdReader<'_>, u_q: u32, emb_k_bit: u32, emb_1_bit: u32, p: u32) -> (r:
    Result<u32>)
    requires
        old(magsgn).wf(),
        emb_k_bit <= u_q,
        u_q - emb_k_bit < 32,
        1 <= p <= 32,
        sample_mag(old(magsgn).tmp as u32, (u_q - emb_k_bit) as u32, emb_1_bit) + 2 <= u32::MAX,
    ensures
        final(magsgn).wf(),
        final(magsgn).data == old(magsgn).data,
        r is Err <==> u_q - emb_k_bit > old(magsgn).bits,
        r is Err ==> *final(magsgn) == *old(magsgn),
        r is Ok ==> r->Ok_0 == sample_value(old(magsgn).tmp as u32, (u_q - emb_k_bit) as u32, emb_1_bit, p),
        r is Ok ==> final(magsgn).bits >= old(magsgn).bits - (u_q - emb_k_bit),
        r is Ok ==> low64(final(magsgn).tmp, (old(magsgn).bits - (u_q - emb_k_bit)) as u32) == low64(
            old(magsgn).tmp >> (u_q - emb_k_bit) as u64,
            (old(magsgn).bits - (u_q - emb_k_bit)) as u32,
        ),
{
    let ms_val = magsgn.fetch();
    let m_n = u_q - emb_k_bit;
    magsgn.advance(m_n)?;
    proof {
        vstd::bits::lemma_u32_pow2_no_overflow(m_n as nat);
        vstd::bits::lemma_u32_shl_is_mul(1u32, m_n);
    }
    let v_n = (ms_val & ((1u32 << m_n) - 1)) | (emb_1_bit << m_n) | 1u32;
    Ok((ms_val << 31u32) | ((v_n + 2) << (p - 1)))
}

} // verus!

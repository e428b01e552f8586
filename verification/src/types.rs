//! Common constants, enumerations and integer helpers of the codec.
use vstd::prelude::*;
use vstd::arithmetic::power2::{pow2, lemma_pow2_pos};
use crate::arith::{trunc_div, lemma_i64_shr_floor, lemma_i32_shr_floor, lemma_i64_shl_pow2, lemma_u64_shl_pow2};

verus! {

/// Maximum number of resolution levels.
pub const J2K_MAXRLVLS: usize = 33;
/// Maximum number of sub-bands.
pub const J2K_MAXBANDS: usize = 3 * J2K_MAXRLVLS - 2;
/// Maximum number of quality layers.
pub const J2K_MAXLAYERS: usize = 100;
/// Maximum number of progression order changes.
pub const J2K_MAX_POCS: usize = 32;
/// Default number of segments.
pub const J2K_DEFAULT_NB_SEGS: u32 = 10;
/// Default stream chunk size: 1 MB.
pub const J2K_STREAM_CHUNK_SIZE: usize = 0x100000;
/// Maximum path length.
pub const PATH_LEN: usize = 4096;
/// Basic image information flag.
pub const IMG_INFO: u32 = 1;
/// Main header info flag.
pub const J2K_MH_INFO: u32 = 2;
/// Tile header info flag.
pub const J2K_TH_INFO: u32 = 4;
/// Tile/component info flag.
pub const J2K_TCH_INFO: u32 = 8;
/// Main header index flag.
pub const J2K_MH_IND: u32 = 16;
/// Tile header index flag.
pub const J2K_TH_IND: u32 = 32;
/// JP2 info flag.
pub const JP2_INFO: u32 = 128;
/// JP2 index flag.
pub const JP2_IND: u32 = 256;
/// Margin kept after code-block data for the decoder's sentinel bytes.
pub const COMMON_CBLK_DATA_EXTRA: usize = 2;
/// Default code block width.
pub const COMP_PARAM_DEFAULT_CBLOCKW: u32 = 64;
/// Default code block height.
pub const COMP_PARAM_DEFAULT_CBLOCKH: u32 = 64;
/// Default number of resolution levels.
pub const COMP_PARAM_DEFAULT_NUMRESOLUTION: u32 = 6;

/// Coding style: precinct sizes are given explicitly.
pub const J2K_CCP_CSTY_PRT: u32 = 0x01;
/// Code-block style: selective arithmetic coding bypass.
pub const J2K_CCP_CBLKSTY_LAZY: u32 = 0x01;
/// Code-block style: reset of context probabilities on each pass.
pub const J2K_CCP_CBLKSTY_RESET: u32 = 0x02;
/// Code-block style: termination on each coding pass.
pub const J2K_CCP_CBLKSTY_TERMALL: u32 = 0x04;
/// Code-block style: vertically causal context.
pub const J2K_CCP_CBLKSTY_VSC: u32 = 0x08;
/// Code-block style: predictable termination.
pub const J2K_CCP_CBLKSTY_PTERM: u32 = 0x10;
/// Code-block style: segmentation symbols.
pub const J2K_CCP_CBLKSTY_SEGSYM: u32 = 0x20;
/// Code-block style: high-throughput block coder.
pub const J2K_CCP_CBLKSTY_HT: u32 = 0x40;
/// Quantization style: none.
pub const J2K_CCP_QNTSTY_NOQNT: u32 = 0;
/// Quantization style: scalar derived.
pub const J2K_CCP_QNTSTY_SIQNT: u32 = 1;
/// Quantization style: scalar expounded.
pub const J2K_CCP_QNTSTY_SEQNT: u32 = 2;

/// Bits of the distortion-decrease tables' index.
pub const T1_NMSEDEC_BITS: u32 = 7;
/// Fractional bits of coefficients during tier-1 coding.
pub const T1_NMSEDEC_FRACBITS: u32 = 6;
/// Number of zero-coding contexts.
pub const T1_NUMCTXS_ZC: usize = 9;
/// Number of sign-coding contexts.
pub const T1_NUMCTXS_SC: usize = 5;
/// Number of magnitude-refinement contexts.
pub const T1_NUMCTXS_MAG: usize = 3;
/// Number of aggregation contexts.
pub const T1_NUMCTXS_AGG: usize = 1;
/// Number of uniform contexts.
pub const T1_NUMCTXS_UNI: usize = 1;
/// First zero-coding context.
pub const T1_CTXNO_ZC: usize = 0;
/// First sign-coding context.
pub const T1_CTXNO_SC: usize = 9;
/// First magnitude-refinement context.
pub const T1_CTXNO_MAG: usize = 14;
/// The aggregation context.
pub const T1_CTXNO_AGG: usize = 17;
/// The uniform context.
pub const T1_CTXNO_UNI: usize = 18;
/// Number of tier-1 contexts.
pub const T1_NUMCTXS: usize = 19;
/// Pass coded with the arithmetic coder.
pub const T1_TYPE_MQ: u8 = 0;
/// Pass coded raw (arithmetic coding bypass).
pub const T1_TYPE_RAW: u8 = 1;
/// Significance of neighbour position 0 of the 3x6 window around a column of four samples.
pub const T1_SIGMA_0: u32 = 0x1;
/// Significance of neighbour position 1 of the 3x6 window around a column of four samples.
pub const T1_SIGMA_1: u32 = 0x2;
/// Significance of neighbour position 2 of the 3x6 window around a column of four samples.
pub const T1_SIGMA_2: u32 = 0x4;
/// Significance of neighbour position 3 of the 3x6 window around a column of four samples.
pub const T1_SIGMA_3: u32 = 0x8;
/// Significance of neighbour position 4 of the 3x6 window around a column of four samples.
pub const T1_SIGMA_4: u32 = 0x10;
/// Significance of neighbour position 5 of the 3x6 window around a column of four samples.
pub const T1_SIGMA_5: u32 = 0x20;
/// Significance of neighbour position 6 of the 3x6 window around a column of four samples.
pub const T1_SIGMA_6: u32 = 0x40;
/// Significance of neighbour position 7 of the 3x6 window around a column of four samples.
pub const T1_SIGMA_7: u32 = 0x80;
/// Significance of neighbour position 8 of the 3x6 window around a column of four samples.
pub const T1_SIGMA_8: u32 = 0x100;
/// Significance of neighbour position 9 of the 3x6 window around a column of four samples.
pub const T1_SIGMA_9: u32 = 0x200;
/// Significance of neighbour position 10 of the 3x6 window around a column of four samples.
pub const T1_SIGMA_10: u32 = 0x400;
/// Significance of neighbour position 11 of the 3x6 window around a column of four samples.
pub const T1_SIGMA_11: u32 = 0x800;
/// Significance of neighbour position 12 of the 3x6 window around a column of four samples.
pub const T1_SIGMA_12: u32 = 0x1000;
/// Significance of neighbour position 13 of the 3x6 window around a column of four samples.
pub const T1_SIGMA_13: u32 = 0x2000;
/// Significance of neighbour position 14 of the 3x6 window around a column of four samples.
pub const T1_SIGMA_14: u32 = 0x4000;
/// Significance of neighbour position 15 of the 3x6 window around a column of four samples.
pub const T1_SIGMA_15: u32 = 0x8000;
/// Significance of neighbour position 16 of the 3x6 window around a column of four samples.
pub const T1_SIGMA_16: u32 = 0x10000;
/// Significance of neighbour position 17 of the 3x6 window around a column of four samples.
pub const T1_SIGMA_17: u32 = 0x20000;
/// Sign of the sample above the column.
pub const T1_CHI_0: u32 = 0x40000;
/// Bit index of `T1_CHI_0`.
pub const T1_CHI_0_I: u32 = 18;
/// Sign of the first sample of the column.
pub const T1_CHI_1: u32 = 0x80000;
/// Bit index of `T1_CHI_1`.
pub const T1_CHI_1_I: u32 = 19;
/// Refinement done for the first sample of the column.
pub const T1_MU_0: u32 = 0x100000;
/// First sample of the column visited in this bit-plane.
pub const T1_PI_0: u32 = 0x200000;
/// Sign of the second sample of the column.
pub const T1_CHI_2: u32 = 0x400000;
/// Bit index of `T1_CHI_2`.
pub const T1_CHI_2_I: u32 = 22;
/// Refinement done for the second sample of the column.
pub const T1_MU_1: u32 = 0x800000;
/// Second sample of the column visited in this bit-plane.
pub const T1_PI_1: u32 = 0x1000000;
/// Sign of the third sample of the column.
pub const T1_CHI_3: u32 = 0x2000000;
/// Refinement done for the third sample of the column.
pub const T1_MU_2: u32 = 0x4000000;
/// Third sample of the column visited in this bit-plane.
pub const T1_PI_2: u32 = 0x8000000;
/// Sign of the fourth sample of the column.
pub const T1_CHI_4: u32 = 0x10000000;
/// Refinement done for the fourth sample of the column.
pub const T1_MU_3: u32 = 0x20000000;
/// Fourth sample of the column visited in this bit-plane.
pub const T1_PI_3: u32 = 0x40000000;
/// Sign of the sample below the column.
pub const T1_CHI_5: u32 = 0x80000000;
/// Bit index of `T1_CHI_5`.
pub const T1_CHI_5_I: u32 = 31;
/// North-west neighbour significant.
pub const T1_SIGMA_NW: u32 = 0x1;
/// North neighbour significant.
pub const T1_SIGMA_N: u32 = 0x2;
/// North-east neighbour significant.
pub const T1_SIGMA_NE: u32 = 0x4;
/// West neighbour significant.
pub const T1_SIGMA_W: u32 = 0x8;
/// The sample itself significant.
pub const T1_SIGMA_THIS: u32 = 0x10;
/// East neighbour significant.
pub const T1_SIGMA_E: u32 = 0x20;
/// South-west neighbour significant.
pub const T1_SIGMA_SW: u32 = 0x40;
/// South neighbour significant.
pub const T1_SIGMA_S: u32 = 0x80;
/// South-east neighbour significant.
pub const T1_SIGMA_SE: u32 = 0x100;
/// Any of the eight neighbours significant.
pub const T1_SIGMA_NEIGHBOURS: u32 = 0x1ef;
/// Sign of the sample itself.
pub const T1_CHI_THIS: u32 = 0x80000;
/// Bit index of `T1_CHI_THIS`.
pub const T1_CHI_THIS_I: u32 = 19;
/// Refinement done for the sample itself.
pub const T1_MU_THIS: u32 = 0x100000;
/// The sample itself visited in this bit-plane.
pub const T1_PI_THIS: u32 = 0x200000;
/// Sign-context index bit: west sign.
pub const T1_LUT_SGN_W: u32 = 0x1;
/// Sign-context index bit: north significant.
pub const T1_LUT_SIG_N: u32 = 0x2;
/// Sign-context index bit: east sign.
pub const T1_LUT_SGN_E: u32 = 0x4;
/// Sign-context index bit: west significant.
pub const T1_LUT_SIG_W: u32 = 0x8;
/// Sign-context index bit: north sign.
pub const T1_LUT_SGN_N: u32 = 0x10;
/// Sign-context index bit: east significant.
pub const T1_LUT_SIG_E: u32 = 0x20;
/// Sign-context index bit: south sign.
pub const T1_LUT_SGN_S: u32 = 0x40;
/// Sign-context index bit: south significant.
pub const T1_LUT_SIG_S: u32 = 0x80;

/// Progression order.
#[derive(Debug, Clone, Copy, PartialEq, Eq, Structural)]
pub enum ProgressionOrder {
    Lrcp,
    Rlcp,
    Rpcl,
    Pcrl,
    Cprl,
}

/// Color space.
#[derive(Debug, Clone, Copy, PartialEq, Eq, Structural)]
pub enum ColorSpace {
    Unknown,
    Unspecified,
    Srgb,
    Gray,
    Sycc,
    Eycc,
    Cmyk,
}

impl ColorSpace {
    /// The numeric code of the colour space (`Unknown` is -1, `Unspecified` 0, then 1 to 5).
    pub fn to_i32(self) -> (r: i32)
        ensures
            r == match self {
                ColorSpace::Unknown => -1i32,
                ColorSpace::Unspecified => 0,
                ColorSpace::Srgb => 1,
                ColorSpace::Gray => 2,
                ColorSpace::Sycc => 3,
                ColorSpace::Eycc => 4,
                ColorSpace::Cmyk => 5,
            },
    {
        match self {
            ColorSpace::Unknown => -1,
            ColorSpace::Unspecified => 0,
            ColorSpace::Srgb => 1,
            ColorSpace::Gray => 2,
            ColorSpace::Sycc => 3,
            ColorSpace::Eycc => 4,
            ColorSpace::Cmyk => 5,
        }
    }
}

/// Codec format.
#[derive(Debug, Clone, Copy, PartialEq, Eq, Structural)]
pub enum CodecFormat {
    Unknown,
    J2k,
    Jpt,
    Jp2,
}

impl CodecFormat {
    /// The numeric code of the format (`Unknown` is -1, then 0 to 2).
    pub fn to_i32(self) -> (r: i32)
        ensures
            r == match self {
                CodecFormat::Unknown => -1i32,
                CodecFormat::J2k => 0,
                CodecFormat::Jpt => 1,
                CodecFormat::Jp2 => 2,
            },
    {
        match self {
            CodecFormat::Unknown => -1,
            CodecFormat::J2k => 0,
            CodecFormat::Jpt => 1,
            CodecFormat::Jp2 => 2,
        }
    }
}

/// Ceiling division for signed integers: `(a + b - 1) / b`, the division rounding toward zero.
pub fn int_ceildiv(a: i32, b: i32) -> (r: i32)
    requires
        b != 0,
    ensures
        r == trunc_div(a + b - 1, b as int) as i32,
{
    let x: i64 = a as i64 + b as i64 - 1;
    // Rust's division rounds toward zero, so a negative divisor negates the quotient.
    let q: i64 = if b > 0 { x / b as i64 } else { -(x / (-(b as i64))) };
    q as i32
}

/// Ceiling division for unsigned integers.
pub fn uint_ceildiv(a: u32, b: u32) -> (r: u32)
    requires
        b != 0,
    ensures
        r as int == (a + b - 1) / (b as int),
{
    let x: u64 = a as u64 + b as u64 - 1;
    let q: u64 = x / b as u64;
    proof {
        if a == 0 {
            vstd::arithmetic::div_mod::lemma_basic_div(x as int, b as int);
        } else {
            assert(x < (b as int) * (a + 1)) by (nonlinear_arith)
                requires
                    x == a + b - 1,
                    b >= 1,
                    a >= 1,
            ;
            vstd::arithmetic::div_mod::lemma_multiply_divide_lt(x as int, b as int, a + 1);
        }
    }
    q as u32
}

/// Ceiling division of two `u64` values, truncated to `u32`.
pub fn uint64_ceildiv_as_u32(a: u64, b: u64) -> (r: u32)
    requires
        b != 0,
    ensures
        r == ((a + b - 1) / (b as int)) as u32,
{
    let q: u64 = a / b;
    let m: u64 = a % b;
    proof {
        vstd::arithmetic::div_mod::lemma_fundamental_div_mod(a as int, b as int);
        vstd::arithmetic::div_mod::lemma_mod_bound(a as int, b as int);
        if m == 0 {
            vstd::arithmetic::div_mod::lemma_div_multiples_vanish_fancy(q as int, b - 1, b as int);
        } else {
            assert(a + b - 1 == (q + 1) * b + (m - 1)) by (nonlinear_arith)
                requires
                    a == b * q + m,
            ;
            vstd::arithmetic::div_mod::lemma_div_multiples_vanish_fancy(q + 1, m - 1, b as int);
        }
    }
    if m != 0 {
        assert(q < u64::MAX) by (nonlinear_arith)
            requires
                a == b * q + m,
                m > 0,
                b > m,
        ;
        (q + 1) as u32
    } else {
        q as u32
    }
}

/// Ceiling division by `2^b` for signed integers.
pub fn int_ceildivpow2(a: i32, b: i32) -> (r: i32)
    requires
        0 <= b < 31,
    ensures
        r as int == (a + pow2(b as nat) - 1) / (pow2(b as nat) as int),
{
    proof {
        lemma_i64_shl_pow2(b as u64);
        vstd::arithmetic::power2::lemma_pow2_strictly_increases(b as nat, 31);
        vstd::arithmetic::power2::lemma2_to64();
    }
    let x: i64 = a as i64 + (1i64 << b) - 1;
    let r = x >> b;
    proof {
        lemma_i64_shr_floor(x, b as u64);
        let d = pow2(b as nat) as int;
        lemma_pow2_pos(b as nat);
        assert(x < d * 0x8000_0000) by (nonlinear_arith)
            requires
                1 <= d <= 0x4000_0000,
                x == a + d - 1,
                a < 0x8000_0000,
        ;
        vstd::arithmetic::div_mod::lemma_multiply_divide_lt(x as int, d, 0x8000_0000);
        assert(x >= d * (-0x8000_0000)) by (nonlinear_arith)
            requires
                1 <= d,
                x == a + d - 1,
                a >= -0x8000_0000,
        ;
        vstd::arithmetic::div_mod::lemma_div_is_ordered(d * (-0x8000_0000), x as int, d);
        vstd::arithmetic::mul::lemma_mul_is_commutative(d, -0x8000_0000);
        vstd::arithmetic::div_mod::lemma_div_multiples_vanish(-0x8000_0000, d);
    }
    r as i32
}

/// Ceiling division by `2^b` of an `i64`, truncated to `i32`.
pub fn int64_ceildivpow2(a: i64, b: i32) -> (r: i32)
    requires
        0 <= b < 63,
        a + pow2(b as nat) <= i64::MAX,
    ensures
        r == ((a + pow2(b as nat) - 1) / (pow2(b as nat) as int)) as i32,
{
    proof {
        lemma_i64_shl_pow2(b as u64);
        lemma_pow2_pos(b as nat);
    }
    let x: i64 = a + (1i64 << b) - 1;
    proof {
        lemma_i64_shr_floor(x, b as u64);
    }
    (x >> b) as i32
}

/// Ceiling division by `2^b` for unsigned integers.
pub fn uint_ceildivpow2(a: u32, b: u32) -> (r: u32)
    requires
        b < 32,
    ensures
        r as int == (a + pow2(b as nat) - 1) / (pow2(b as nat) as int),
{
    proof {
        lemma_u64_shl_pow2(b as u64);
        lemma_pow2_pos(b as nat);
        vstd::arithmetic::power2::lemma_pow2_strictly_increases(b as nat, 32);
        vstd::arithmetic::power2::lemma2_to64();
    }
    let x: u64 = a as u64 + (1u64 << b) - 1;
    let r = x >> b;
    proof {
        vstd::bits::lemma_u64_shr_is_div(x, b as u64);
        let d = pow2(b as nat) as int;
        if a == 0 {
            vstd::arithmetic::div_mod::lemma_basic_div(x as int, d);
        } else {
            assert(x < d * (a + 1)) by (nonlinear_arith)
                requires
                    1 <= d,
                    x == a + d - 1,
                    a >= 1,
            ;
            vstd::arithmetic::div_mod::lemma_multiply_divide_lt(x as int, d, a + 1);
        }
    }
    r as u32
}

/// Floor division by `2^b` for signed integers.
pub fn int_floordivpow2(a: i32, b: i32) -> (r: i32)
    requires
        0 <= b < 32,
    ensures
        r as int == (a as int) / (pow2(b as nat) as int),
{
    proof {
        lemma_i32_shr_floor(a, b as u32);
    }
    a >> b
}

/// The exponent of the highest set bit of a positive `u32`: `2^r <= a < 2^(r+1)`.
pub open spec fn is_floorlog2(a: int, r: int) -> bool {
    0 <= r && pow2(r as nat) <= a < pow2((r + 1) as nat)
}

/// Relates `leading_zeros` to the position of the highest set bit.
pub proof fn lemma_leading_zeros_floorlog2(a: u32)
    requires
        a > 0,
    ensures
        a.leading_zeros() < 32,
        is_floorlog2(a as int, 31 - a.leading_zeros()),
{
    let lz = a.leading_zeros();
    vstd::std_specs::bits::axiom_u32_leading_zeros(a);
    let k = (31 - lz) as u32;
    vstd::bits::lemma_u32_shr_is_div(a, k);
    assert((a >> k) & 1 != 0);
    assert(a >> k >= 1) by (bit_vector)
        requires
            (a >> k) & 1 != 0,
    ;
    lemma_pow2_pos(k as nat);
    vstd::arithmetic::div_mod::lemma_fundamental_div_mod(a as int, pow2(k as nat) as int);
    vstd::arithmetic::div_mod::lemma_mod_bound(a as int, pow2(k as nat) as int);
    let ai = a as int;
    let d = pow2(k as nat) as int;
    assert(ai >= d) by (nonlinear_arith)
        requires
            ai == d * (ai / d) + ai % d,
            ai / d >= 1,
            ai % d >= 0,
            d > 0,
    ;
    if k < 31 {
        let k1 = (k + 1) as u32;
        assert(a >> k1 == 0);
        vstd::bits::lemma_u32_shr_is_div(a, k1);
        lemma_pow2_pos(k1 as nat);
        vstd::arithmetic::div_mod::lemma_fundamental_div_mod(a as int, pow2(k1 as nat) as int);
        vstd::arithmetic::div_mod::lemma_mod_bound(a as int, pow2(k1 as nat) as int);
    } else {
        vstd::arithmetic::power2::lemma2_to64();
    }
}

/// Floor of log2 for positive signed integers.
pub fn int_floorlog2(a: i32) -> (r: i32)
    requires
        a > 0,
    ensures
        is_floorlog2(a as int, r as int),
{
    let lz = (a as u32).leading_zeros();
    proof {
        lemma_leading_zeros_floorlog2(a as u32);
    }
    31 - lz as i32
}

/// Floor of log2 for positive unsigned integers.
pub fn uint_floorlog2(a: u32) -> (r: u32)
    requires
        a > 0,
    ensures
        is_floorlog2(a as int, r as int),
{
    proof {
        lemma_leading_zeros_floorlog2(a);
    }
    31 - a.leading_zeros()
}

/// Fixed-point multiplication with 13 fractional bits, rounded to nearest.
pub fn int_fix_mul(a: i32, b: i32) -> (r: i32)
    ensures
        r == ((a * b + 4096) / 8192) as i32,
{
    assert(-0x4000_0000_0000_0000 <= (a as int) * (b as int) <= 0x4000_0000_0000_0000) by (nonlinear_arith)
        requires
            -0x8000_0000 <= a < 0x8000_0000,
            -0x8000_0000 <= b < 0x8000_0000,
    ;
    let temp: i64 = a as i64 * b as i64 + 4096;
    proof {
        lemma_i64_shr_floor(temp, 13);
        vstd::arithmetic::power2::lemma2_to64();
    }
    (temp >> 13) as i32
}

} // verus!

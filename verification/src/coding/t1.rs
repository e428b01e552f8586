//! Tier-1 coding of code blocks: the workspace of coefficients and state flags, and the
//! context helpers of the three coding passes.
use vstd::prelude::*;
use crate::error::{Error, Result, invalid};
use crate::bits::lemma_low_masks;
use crate::coding::t1_luts::{
    LUT_CTXNO_SC, LUT_CTXNO_ZC, LUT_NMSEDEC_REF, LUT_NMSEDEC_REF0, LUT_NMSEDEC_SIG, LUT_NMSEDEC_SIG0, LUT_SPB,
};
use crate::types::{
    J2K_CCP_CBLKSTY_LAZY, J2K_CCP_CBLKSTY_TERMALL, T1_CHI_0_I, T1_CHI_1_I, T1_CHI_2_I, T1_CHI_5_I, T1_CTXNO_MAG,
    T1_MU_0, T1_PI_0, T1_PI_1, T1_PI_2, T1_PI_3, T1_SIGMA_0, T1_SIGMA_1, T1_SIGMA_15, T1_SIGMA_16, T1_SIGMA_17,
    T1_SIGMA_2, T1_SIGMA_3, T1_SIGMA_4, T1_SIGMA_5, T1_SIGMA_7, T1_SIGMA_NEIGHBOURS,
};

verus! {

/// A segment of code-block data to decode.
pub struct DecodeSegment<'a> {
    pub data: &'a [u8],
    pub num_passes: u32,
}

/// Tier-1 workspace of one code block: coefficients and per-column state flags.
///
/// The flags hold one word per column of four rows (a stripe), with a border column on
/// each side and a border stripe above and below.
pub struct T1 {
    /// Coefficient data (`w * h` elements).
    pub data: Vec<i32>,
    /// Significance, sign, refinement and visit flags.
    pub flags: Vec<u32>,
    pub w: u32,
    pub h: u32,
    pub encoder: bool,
    /// Offset of the current orientation in the zero-coding context table: `orient << 9`.
    pub lut_ctxno_zc_orient_offset: usize,
}

/// All four "visited" bits of a column.
pub open spec fn pi_all() -> u32 {
    T1_PI_0 | T1_PI_1 | T1_PI_2 | T1_PI_3
}

/// The visited bits that mark the unused rows of a last stripe holding `rem` rows.
pub open spec fn partial_pi(rem: u32) -> u32 {
    if rem == 1 {
        T1_PI_1 | T1_PI_2 | T1_PI_3
    } else if rem == 2 {
        T1_PI_2 | T1_PI_3
    } else {
        T1_PI_3
    }
}

/// Initial flag word `i` of a `w` by `h` code block: border stripes fully visited, unused
/// rows of a partial last stripe visited, every other word clear.
pub open spec fn initial_flag(w: u32, h: u32, i: int) -> u32 {
    let stride = w + 2;
    let fh = (h + 3) / 4;
    let row = i / stride;
    if row == 0 || row == fh + 1 {
        pi_all()
    } else if h % 4 != 0 && row == fh {
        partial_pi((h % 4) as u32)
    } else {
        0
    }
}

impl T1 {
    /// Whether the workspace's buffers have the sizes of a code block of at most 1024
    /// columns, 1024 rows and 4096 samples.
    pub open spec fn buffers_ready(&self) -> bool {
        &&& self.w <= 1024 && self.h <= 1024 && self.w * self.h <= 4096
        &&& self.data@.len() == self.w * self.h
        &&& self.flags@.len() == ((self.h + 3) / 4 + 2) * (self.w + 2)
    }

    /// A workspace with no code block yet.
    pub fn new(is_encoder: bool) -> (r: Self)
        ensures
            r.data@.len() == 0,
            r.flags@.len() == 0,
            r.w == 0 && r.h == 0,
            r.encoder == is_encoder,
            r.lut_ctxno_zc_orient_offset == 0,
    {
        T1 { data: Vec::new(), flags: Vec::new(), w: 0, h: 0, encoder: is_encoder, lut_ctxno_zc_orient_offset: 0 }
    }

    /// Sets the workspace up for a `w` by `h` code block: coefficients zero, flags as
    /// `initial_flag` gives them. Blocks wider or higher than 1024, or of more than 4096
    /// samples, are refused and leave the workspace as it was.
    #[verifier::spinoff_prover]
    pub fn allocate_buffers(&mut self, w: u32, h: u32) -> (r: Result<()>)
        ensures
            r is Err <==> (w > 1024 || h > 1024 || w * h > 4096),
            r is Err ==> r matches Err(Error::InvalidInput(_)),
            r is Err ==> *final(self) == *old(self),
            r is Ok ==> final(self).buffers_ready(),
            r is Ok ==> {
                &&& final(self).w == w && final(self).h == h
                &&& final(self).encoder == old(self).encoder
                &&& final(self).lut_ctxno_zc_orient_offset == old(self).lut_ctxno_zc_orient_offset
                &&& final(self).data@ == Seq::new((w * h) as nat, |i: int| 0i32)
                &&& final(self).flags@.len() == ((h + 3) / 4 + 2) * (w + 2)
                &&& forall|i: int| 0 <= i < final(self).flags@.len() ==> #[trigger] final(self).flags@[i] == initial_flag(w, h, i)
            },
    {
        if w > 1024 || h > 1024 {
            return Err(invalid("code-block dimensions out of range (max 1024x1024, w*h <= 4096)"));
        }
        proof {
            assert(w * h <= 1024 * 1024) by (nonlinear_arith)
                requires
                    w <= 1024,
                    h <= 1024,
            ;
        }
        if w * h > 4096 {
            return Err(invalid("code-block dimensions out of range (max 1024x1024, w*h <= 4096)"));
        }
        let datasize = (w * h) as usize;
        let flags_stride = w as usize + 2;
        let flags_height = ((h + 3) / 4) as usize;
        proof {
            assert((flags_height + 2) * flags_stride <= 258 * 1026) by (nonlinear_arith)
                requires
                    flags_height <= 256,
                    flags_stride <= 1026,
            ;
        }
        let flagssize = (flags_height + 2) * flags_stride;
        self.data.clear();
        self.data.resize(datasize, 0);
        self.flags.clear();
        self.flags.resize(flagssize, 0);
        let pi_every = T1_PI_0 | T1_PI_1 | T1_PI_2 | T1_PI_3;
        let partial: u32 = if h % 4 == 1 {
            T1_PI_1 | T1_PI_2 | T1_PI_3
        } else if h % 4 == 2 {
            T1_PI_2 | T1_PI_3
        } else {
            T1_PI_3
        };
        let ghost stride = flags_stride as int;
        let ghost fh = flags_height as int;
        proof {
            assert(flagssize == (fh + 2) * stride) by (nonlinear_arith)
                requires
                    flagssize == (flags_height + 2) * flags_stride,
                    fh == flags_height,
                    stride == flags_stride,
            ;
        }
        let mut i: usize = 0;
        while i < flagssize
            invariant
                flagssize == self.flags@.len(),
                flagssize == (fh + 2) * stride,
                stride == w + 2,
                stride == flags_stride,
                fh == flags_height,
                fh == (h + 3) / 4,
                pi_every == pi_all(),
                partial == partial_pi((h % 4) as u32),
                h <= 1024,
                w <= 1024,
                self.data@ == Seq::new((w * h) as nat, |k: int| 0i32),
                self.encoder == old(self).encoder,
                self.lut_ctxno_zc_orient_offset == old(self).lut_ctxno_zc_orient_offset,
                i <= flagssize,
                forall|k: int| 0 <= k < i ==> #[trigger] self.flags@[k] == initial_flag(w, h, k),
            decreases flagssize - i,
        {
            let row = i / flags_stride;
            let v = if row == 0 || row == flags_height + 1 {
                pi_every
            } else if h % 4 != 0 && row == flags_height {
                partial
            } else {
                0
            };
            self.flags.set(i, v);
            i += 1;
        }
        self.w = w;
        self.h = h;
        Ok(())
    }

    /// Stride of the flags: the width plus a border column on each side.
    pub fn flags_stride(&self) -> (r: usize)
        requires
            self.w + 2 <= usize::MAX,
        ensures
            r == self.w + 2,
    {
        self.w as usize + 2
    }

    /// Index of the flag word of column `x`, row `y`.
    pub fn flags_index(&self, x: u32, y: u32) -> (r: usize)
        requires
            x + 1 + (y / 4 + 1) * (self.w + 2) <= usize::MAX,
        ensures
            r == x + 1 + (y / 4 + 1) * (self.w + 2),
    {
        proof {
            assert((y / 4 + 1) * (self.w + 2) <= x + 1 + (y / 4 + 1) * (self.w + 2)) by (nonlinear_arith)
                requires
                    x >= 0,
            ;
            assert(self.w + 2 <= (y / 4 + 1) * (self.w + 2)) by (nonlinear_arith)
                requires
                    self.w >= 0,
                    y >= 0,
            ;
        }
        x as usize + 1 + ((y as usize / 4) + 1) * (self.w as usize + 2)
    }

    /// Selects the zero-coding contexts of orientation `orient`.
    pub fn set_orient(&mut self, orient: u32)
        ensures
            final(self).lut_ctxno_zc_orient_offset == (orient as usize) << 9usize,
            final(self).data == old(self).data,
            final(self).flags == old(self).flags,
            final(self).w == old(self).w && final(self).h == old(self).h,
            final(self).encoder == old(self).encoder,
    {
        self.lut_ctxno_zc_orient_offset = (orient as usize) << 9usize;
    }

    /// Whether the coding pass of type `passtype` (0 significance, 1 refinement, 2
    /// clean-up) at bit-plane `bpno` ends with a termination of the coder: the last
    /// clean-up pass, every pass with termination on each pass, and with the arithmetic
    /// coding bypass the fourth clean-up pass and every later refinement and clean-up
    /// pass.
    pub fn is_term_pass(numbps: u32, cblksty: u32, bpno: i32, passtype: u32) -> (r: bool)
        requires
            (numbps as i32) - 4 >= i32::MIN,
        ensures
            r == (passtype == 2 && bpno == 0 || cblksty & J2K_CCP_CBLKSTY_TERMALL != 0 || (cblksty
                & J2K_CCP_CBLKSTY_LAZY != 0 && (bpno == (numbps as i32) - 4 && passtype == 2 || bpno < (numbps as i32)
                - 4 && passtype > 0))),
    {
        if passtype == 2 && bpno == 0 {
            return true;
        }
        if (cblksty & J2K_CCP_CBLKSTY_TERMALL) != 0 {
            return true;
        }
        if (cblksty & J2K_CCP_CBLKSTY_LAZY) != 0 {
            if bpno == (numbps as i32 - 4) && passtype == 2 {
                return true;
            }
            if bpno < (numbps as i32 - 4) && passtype > 0 {
                return true;
            }
        }
        false
    }
}

/// Zero-coding context of a sample whose flag word, shifted to its row, is `f`.
#[verifier::spinoff_prover]
pub fn getctxno_zc(orient_offset: usize, f: u32) -> (r: u8)
    requires
        orient_offset + (f & T1_SIGMA_NEIGHBOURS) < 2048,
    ensures
        r == LUT_CTXNO_ZC@[orient_offset + (f & T1_SIGMA_NEIGHBOURS)],
{
    LUT_CTXNO_ZC[orient_offset + (f & T1_SIGMA_NEIGHBOURS) as usize]
}

/// The zero-coding context depends on the neighbours' significance alone: for each of the
/// four orientations, the table index stays below 2048, the context of a flag word is that
/// of its neighbour-significance bits, and with no significant neighbour it is context 0.
pub proof fn lemma_zc_neighbours_only(o: usize, f: u32)
    requires
        o <= 3,
    ensures
        o * 512 + (f & T1_SIGMA_NEIGHBOURS) < 2048,
        LUT_CTXNO_ZC@[o * 512 + (f & T1_SIGMA_NEIGHBOURS)] == LUT_CTXNO_ZC@[o * 512 + ((f & T1_SIGMA_NEIGHBOURS)
            & T1_SIGMA_NEIGHBOURS)],
        f & T1_SIGMA_NEIGHBOURS == 0 ==> LUT_CTXNO_ZC@[o * 512 + (f & T1_SIGMA_NEIGHBOURS)] == 0,
{
    assert(f & 0x1ef < 512 && (f & 0x1ef) & 0x1ef == f & 0x1ef) by (bit_vector);
    assert(LUT_CTXNO_ZC@[0] == 0 && LUT_CTXNO_ZC@[512] == 0 && LUT_CTXNO_ZC@[1024] == 0 && LUT_CTXNO_ZC@[1536] == 0);
}

/// The sign-context index of row `ci` of a column: the significance of its four direct
/// neighbours and the signs of those neighbours, gathered from the column's flag word
/// `fx` and those of its west (`pfx`) and east (`nfx`) neighbours.
pub open spec fn sc_index(fx: u32, pfx: u32, nfx: u32, ci: u32) -> u32 {
    let sig = (fx >> (ci * 3) as u32) & 0xaau32;
    let w = (pfx >> (T1_CHI_1_I + ci * 3) as u32) & 1u32;
    let e = (nfx >> (T1_CHI_1_I - 2 + ci * 3) as u32) & 4u32;
    let n = if ci == 0 {
        (fx >> (T1_CHI_0_I - 4) as u32) & 16u32
    } else {
        (fx >> (T1_CHI_1_I - 4 + (ci - 1) * 3) as u32) & 16u32
    };
    let so = (fx >> (T1_CHI_2_I - 6 + ci * 3) as u32) & 64u32;
    sig | w | e | n | so
}

/// Sign-context and sign-prediction index of row `ci` of a column.
pub fn getctxtno_sc_or_spb_index(fx: u32, pfx: u32, nfx: u32, ci: u32) -> (r: u32)
    requires
        ci <= 4,
    ensures
        r == sc_index(fx, pfx, nfx, ci),
        r < 256,
{
    let t0 = fx >> (ci * 3);
    let t1 = pfx >> (T1_CHI_1_I + ci * 3);
    let t2 = nfx >> (T1_CHI_1_I - 2 + ci * 3);
    let t3 = if ci == 0 {
        fx >> (T1_CHI_0_I - 4)
    } else {
        fx >> (T1_CHI_1_I - 4 + (ci - 1) * 3)
    };
    let t4 = fx >> (T1_CHI_2_I - 6 + ci * 3);
    let lu = (t0 & 0xaa) | (t1 & 1) | (t2 & 4) | (t3 & 16) | (t4 & 64);
    assert(((t0 & 0xaa) | (t1 & 1) | (t2 & 4) | (t3 & 16) | (t4 & 64)) < 256) by (bit_vector);
    lu
}

/// Sign-coding context of index `lu`.
#[verifier::spinoff_prover]
pub fn getctxno_sc(lu: u32) -> (r: u8)
    requires
        lu < 256,
    ensures
        r == LUT_CTXNO_SC@[lu as int],
{
    LUT_CTXNO_SC[lu as usize]
}

/// Magnitude-refinement context: the third one for a sample already refined, the second
/// one for a sample with a significant neighbour, the first one otherwise.
pub fn getctxno_mag(f: u32) -> (r: u32)
    ensures
        r == (if f & T1_MU_0 != 0 {
            T1_CTXNO_MAG + 2
        } else if f & T1_SIGMA_NEIGHBOURS != 0 {
            T1_CTXNO_MAG + 1
        } else {
            T1_CTXNO_MAG as int
        }),
{
    if (f & T1_MU_0) != 0 {
        T1_CTXNO_MAG as u32 + 2
    } else if (f & T1_SIGMA_NEIGHBOURS) != 0 {
        T1_CTXNO_MAG as u32 + 1
    } else {
        T1_CTXNO_MAG as u32
    }
}

/// Sign prediction bit of index `lu`.
#[verifier::spinoff_prover]
pub fn getspb(lu: u32) -> (r: u8)
    requires
        lu < 256,
    ensures
        r == LUT_SPB@[lu as int],
{
    LUT_SPB[lu as usize]
}

/// Distortion decrease when a sample of magnitude `x` becomes significant at bit
/// position `bitpos`.
#[verifier::spinoff_prover]
pub fn getnmsedec_sig(x: u32, bitpos: u32) -> (r: i16)
    requires
        bitpos < 32,
    ensures
        r == (if bitpos > 0 {
            LUT_NMSEDEC_SIG@[((x >> bitpos) & 127u32) as int]
        } else {
            LUT_NMSEDEC_SIG0@[(x & 127u32) as int]
        }),
        r == nmsedec_sig(x, bitpos),
{
    if bitpos > 0 {
        let i = (x >> bitpos) & 127;
        proof {
            lemma_low_masks(x >> bitpos);
        }
        LUT_NMSEDEC_SIG[i as usize]
    } else {
        let i = x & 127;
        proof {
            lemma_low_masks(x);
        }
        LUT_NMSEDEC_SIG0[i as usize]
    }
}

/// The distortion table entry of a sample of magnitude `x` that becomes significant at
/// bit position `bitpos`: indexed by the seven bits from `bitpos` on, in the table of bit
/// position 0 for `bitpos` 0.
pub closed spec fn nmsedec_sig(x: u32, bitpos: u32) -> int {
    if bitpos > 0 {
        LUT_NMSEDEC_SIG@[((x >> bitpos) & 127u32) as int] as int
    } else {
        LUT_NMSEDEC_SIG0@[(x & 127u32) as int] as int
    }
}

/// The distortion table entry of the refinement of a sample of magnitude `x` at bit
/// position `bitpos`: indexed by the seven bits from `bitpos` on, in the table of bit
/// position 0 for `bitpos` 0.
pub closed spec fn nmsedec_ref(x: u32, bitpos: u32) -> int {
    if bitpos > 0 {
        LUT_NMSEDEC_REF@[((x >> bitpos) & 127u32) as int] as int
    } else {
        LUT_NMSEDEC_REF0@[(x & 127u32) as int] as int
    }
}

/// Distortion decrease when a sample of magnitude `x` is refined at bit position
/// `bitpos`.
#[verifier::spinoff_prover]
pub fn getnmsedec_ref(x: u32, bitpos: u32) -> (r: i16)
    requires
        bitpos < 32,
    ensures
        r == (if bitpos > 0 {
            LUT_NMSEDEC_REF@[((x >> bitpos) & 127u32) as int]
        } else {
            LUT_NMSEDEC_REF0@[(x & 127u32) as int]
        }),
        r == nmsedec_ref(x, bitpos),
{
    if bitpos > 0 {
        let i = (x >> bitpos) & 127;
        proof {
            lemma_low_masks(x >> bitpos);
        }
        LUT_NMSEDEC_REF[i as usize]
    } else {
        let i = x & 127;
        proof {
            lemma_low_masks(x);
        }
        LUT_NMSEDEC_REF0[i as usize]
    }
}

/// Magnitude of a value in sign-magnitude form: its low 31 bits.
pub fn smr_abs(x: i32) -> (r: u32)
    ensures
        r == (x as u32) & 0x7fff_ffffu32,
{
    (x as u32) & 0x7FFF_FFFF
}

/// Sign of a value in sign-magnitude form: its top bit (1 for negative).
pub fn smr_sign(x: i32) -> (r: u32)
    ensures
        r == (x as u32) >> 31u32,
        r <= 1,
{
    let u = x as u32;
    assert(u >> 31u32 <= 1) by (bit_vector);
    u >> 31
}

/// Sign-magnitude form of `x`: the magnitude in the low 31 bits, the sign in the top bit.
pub fn to_smr(x: i32) -> (r: i32)
    requires
        x != i32::MIN,
    ensures
        x >= 0 ==> r == x,
        x < 0 ==> r == (((-x) as u32) | 0x8000_0000u32) as i32,
{
    if x >= 0 {
        x
    } else {
        #[verifier::truncate] (((-x) as u32 | 0x8000_0000) as i32)
    }
}

/// Sign-magnitude form keeps magnitude and sign: for every `x` but the smallest `i32`,
/// the magnitude of `to_smr(x)` is `|x|` and its sign bit says whether `x` is negative.
pub proof fn lemma_smr_roundtrip(x: i32)
    requires
        x != i32::MIN,
    ensures
        ({
            let v = if x >= 0 { x } else { (((-x) as u32) | 0x8000_0000u32) as i32 };
            &&& ((v as u32) & 0x7fff_ffffu32) as int == (if x >= 0 { x as int } else { -x })
            &&& (v as u32) >> 31u32 == (if x < 0 { 1u32 } else { 0u32 })
        }),
{
    let v = if x >= 0 { x } else { (((-x) as u32) | 0x8000_0000u32) as i32 };
    if x >= 0 {
        assert(((x as u32) & 0x7fff_ffffu32) == x as u32 && (x as u32) >> 31u32 == 0u32) by (bit_vector)
            requires
                x >= 0,
        ;
    } else {
        let m = (-x) as u32;
        assert(m as int == -x);
        assert((((m | 0x8000_0000u32) as i32) as u32) & 0x7fff_ffffu32 == m && (((m | 0x8000_0000u32) as i32) as u32)
            >> 31u32 == 1u32) by (bit_vector)
            requires
                1 <= m <= 0x7fff_ffffu32,
        ;
    }
}

/// Flag word `v` at index `i` after OR-ing `m` into the word at index `p`.
pub open spec fn or_at(v: u32, i: int, p: int, m: u32) -> u32 {
    if i == p { v | m } else { v }
}

/// Flag word `i` after sample `ci` of the column at `fp` becomes significant with sign
/// `s`: the sample gets its significance and sign bits, its west and east neighbours
/// learn of it, and so do the columns of the stripe above (first row, unless vertically
/// causal) or below (last row).
pub open spec fn updated_flag(old: u32, i: int, fp: int, ci: u32, s: u32, stride: int, vsc: bool) -> u32 {
    let sh = (3 * ci) as u32;
    let v1 = or_at(old, i, fp - 1, T1_SIGMA_5 << sh);
    let v2 = or_at(v1, i, fp, ((s << T1_CHI_1_I) | T1_SIGMA_4) << sh);
    let v3 = or_at(v2, i, fp + 1, T1_SIGMA_3 << sh);
    let north = fp - stride;
    let v6 = if ci == 0 && !vsc {
        let v4 = or_at(v3, i, north, (s << T1_CHI_5_I) | T1_SIGMA_16);
        let v5 = or_at(v4, i, north - 1, T1_SIGMA_17);
        or_at(v5, i, north + 1, T1_SIGMA_15)
    } else {
        v3
    };
    let south = fp + stride;
    if ci == 3 {
        let v7 = or_at(v6, i, south, (s << T1_CHI_0_I) | T1_SIGMA_1);
        let v8 = or_at(v7, i, south - 1, T1_SIGMA_2);
        or_at(v8, i, south + 1, T1_SIGMA_0)
    } else {
        v6
    }
}

#[verifier::spinoff_prover]
fn or_into(flags: &mut [u32], p: usize, m: u32)
    requires
        p < old(flags)@.len(),
    ensures
        final(flags)@.len() == old(flags)@.len(),
        forall|i: int| 0 <= i < old(flags)@.len() ==> #[trigger] final(flags)@[i] == or_at(old(flags)@[i], i, p as int, m),
{
    flags[p] = flags[p] | m;
}

/// Records that sample `ci` of the column at `flagsp` became significant with sign `s`
/// (see `updated_flag`).
#[verifier::spinoff_prover]
pub fn update_flags(flags: &mut [u32], flagsp: usize, ci: u32, s: u32, stride: usize, vsc: bool)
    requires
        ci <= 10,
        1 <= flagsp,
        flagsp + 1 < old(flags)@.len(),
        ci == 0 && !vsc ==> flagsp >= stride + 1,
        ci == 3 ==> flagsp + stride + 1 < old(flags)@.len(),
    ensures
        final(flags)@.len() == old(flags)@.len(),
        forall|i: int|
            0 <= i < old(flags)@.len() ==> #[trigger] final(flags)@[i] == updated_flag(
                old(flags)@[i],
                i,
                flagsp as int,
                ci,
                s,
                stride as int,
                vsc,
            ),
{
    let n = flags.len();
    let sh = 3 * ci;
    let west = flagsp - 1;
    let east = flagsp + 1;
    or_into(flags, west, T1_SIGMA_5 << sh);
    or_into(flags, flagsp, ((s << T1_CHI_1_I) | T1_SIGMA_4) << sh);
    or_into(flags, east, T1_SIGMA_3 << sh);
    if ci == 0 && !vsc {
        let north = flagsp - stride;
        or_into(flags, north, (s << T1_CHI_5_I) | T1_SIGMA_16);
        or_into(flags, north - 1, T1_SIGMA_17);
        or_into(flags, north + 1, T1_SIGMA_15);
    }
    if ci == 3 {
        assert(flagsp + stride + 1 < flags@.len());
        let south = flagsp + stride;
        or_into(flags, south, (s << T1_CHI_0_I) | T1_SIGMA_1);
        or_into(flags, south - 1, T1_SIGMA_2);
        or_into(flags, south + 1, T1_SIGMA_0);
    }
}

} // verus!

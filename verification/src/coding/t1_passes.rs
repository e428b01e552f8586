//! The coding passes of tier-1: significance propagation, magnitude refinement and
//! clean-up, for encoding and decoding.
use vstd::prelude::*;
use crate::coding::mqc::{MQC_NUMCTXS, Mqc, enc_all, enc_one, lemma_enc_all_append, lemma_encode_model};
use crate::coding::t1::{
    T1, getctxno_mag, getctxno_sc, getctxno_zc, getctxtno_sc_or_spb_index, getnmsedec_ref, getnmsedec_sig, getspb,
    nmsedec_ref, nmsedec_sig, sc_index, smr_abs, smr_sign, update_flags, updated_flag,
};
use crate::coding::t1_luts::{LUT_CTXNO_SC, LUT_CTXNO_ZC, LUT_SPB};
use crate::types::{
    J2K_CCP_CBLKSTY_VSC, T1_CTXNO_AGG, T1_CTXNO_MAG, T1_MU_0, T1_CTXNO_UNI, T1_MU_THIS, T1_NMSEDEC_FRACBITS, T1_PI_0, T1_PI_1, T1_PI_2,
    T1_PI_3, T1_PI_THIS, T1_SIGMA_10, T1_SIGMA_13, T1_SIGMA_4, T1_SIGMA_7, T1_SIGMA_NEIGHBOURS, T1_SIGMA_THIS,
    T1_TYPE_RAW,
};

verus! {

/// Whether row `j` of a column whose flag word is `f` takes part in the refinement pass:
/// significant, and not coded in this bit-plane's significance pass.
pub open spec fn refinable(f: u32, j: u32) -> bool {
    (f & ((T1_SIGMA_THIS | T1_PI_THIS) << (3 * j) as u32)) == (T1_SIGMA_THIS << (3 * j) as u32)
}

/// Whether row `ci` of a column whose flag word is `f` is coded in the significance
/// pass: not significant, not yet visited, and with a significant neighbour.
pub open spec fn sig_coded(f: u32, ci: u32) -> bool {
    &&& (f & ((T1_SIGMA_THIS | T1_PI_THIS) << (3 * ci) as u32)) == 0
    &&& (f & (T1_SIGMA_NEIGHBOURS << (3 * ci) as u32)) != 0
}

/// The zero-coding context of flag word `f` in the orientation whose table starts at
/// `offset`.
pub open spec fn zc_context(offset: usize, f: u32) -> int {
    LUT_CTXNO_ZC@[offset + (f & T1_SIGMA_NEIGHBOURS)] as int
}

/// A column word with no significant row, or with all four rows visited, has no row that
/// takes part in the refinement pass.
proof fn lemma_refpass_skip(f: u32, j: u32)
    requires
        j <= 3,
    ensures
        (f & (T1_SIGMA_4 | T1_SIGMA_7 | T1_SIGMA_10 | T1_SIGMA_13)) == 0 ==> !refinable(f, j),
        (f & (T1_PI_0 | T1_PI_1 | T1_PI_2 | T1_PI_3)) == (T1_PI_0 | T1_PI_1 | T1_PI_2 | T1_PI_3) ==> !refinable(f, j),
{
    lemma_column_word(f, 0, j);
}

/// Flags `fl` once row `ci` of the column whose flag word is at `fp` has become
/// significant with sign `s` (see `updated_flag`).
#[verifier::opaque]
pub open spec fn flags_after_significance(fl: Seq<u32>, fp: int, ci: u32, s: u32, stride: int, vsc: bool) -> Seq<u32> {
    Seq::new(fl.len(), |i: int| updated_flag(fl[i], i, fp, ci, s, stride, vsc))
}

/// The encoder's significance pass over sample `x`, row `ci` of the column whose flag word
/// is at `fp`, from flags `fl` and distortion `dist`. A sample that the pass codes (see
/// `sig_coded`) becomes significant when its bit of the plane (`one`) is set: its sign is
/// recorded in the flags and its table entry added to the distortion. A coded sample is
/// then marked visited.
#[verifier::opaque]
pub open spec fn sig_step(
    fl: Seq<u32>,
    dist: int,
    x: i32,
    fp: int,
    ci: u32,
    bpno: int,
    one: u32,
    stride: int,
    vsc: bool,
) -> (Seq<u32>, int) {
    if sig_coded(fl[fp], ci) {
        let mag = (x as u32) & 0x7fff_ffffu32;
        let fl2 = if mag & one != 0 {
            flags_after_significance(fl, fp, ci, (x as u32) >> 31u32, stride, vsc)
        } else {
            fl
        };
        let d2 = if mag & one != 0 {
            dist + nmsedec_sig(mag, bpno as u32)
        } else {
            dist
        };
        (fl2.update(fp, fl2[fp] | (T1_PI_THIS << (3 * ci) as u32)), d2)
    } else {
        (fl, dist)
    }
}

/// The significance pass over the first `j` rows of the column whose samples start at
/// `datap` in `data` and whose flag word is at `fp`; the stripe-causal mode `vsc0` applies
/// to its first row.
#[verifier::opaque]
pub open spec fn sig_col(
    fl: Seq<u32>,
    dist: int,
    data: Seq<i32>,
    datap: int,
    fp: int,
    j: int,
    bpno: int,
    one: u32,
    stride: int,
    vsc0: bool,
) -> (Seq<u32>, int)
    decreases j,
{
    if j <= 0 {
        (fl, dist)
    } else {
        let prev = sig_col(fl, dist, data, datap, fp, j - 1, bpno, one, stride, vsc0);
        sig_step(prev.0, prev.1, data[datap + j - 1], fp, (j - 1) as u32, bpno, one, stride, vsc0 && j == 1)
    }
}

/// The significance pass over the first `i` columns of stripe `s` of a `w` by `h` code
/// block, whose samples the encoder holds column by column.
#[verifier::opaque]
pub open spec fn sig_stripe(
    fl: Seq<u32>,
    dist: int,
    data: Seq<i32>,
    w: int,
    h: int,
    s: int,
    i: int,
    bpno: int,
    one: u32,
    vsc0: bool,
) -> (Seq<u32>, int)
    decreases i,
{
    if i <= 0 {
        (fl, dist)
    } else {
        let prev = sig_stripe(fl, dist, data, w, h, s, i - 1, bpno, one, vsc0);
        let n = stripe_rows(h, s);
        sig_col(prev.0, prev.1, data, 4 * s * w + n * (i - 1), (s + 1) * (w + 2) + i, n, bpno, one, w + 2, vsc0)
    }
}

/// The significance pass over the first `s` stripes of a `w` by `h` code block: the flags
/// it leaves and the distortion it accumulates from `dist`.
#[verifier::opaque]
pub open spec fn sig_pass(
    fl: Seq<u32>,
    dist: int,
    data: Seq<i32>,
    w: int,
    h: int,
    s: int,
    bpno: int,
    one: u32,
    vsc0: bool,
) -> (Seq<u32>, int)
    decreases s,
{
    if s <= 0 {
        (fl, dist)
    } else {
        let prev = sig_pass(fl, dist, data, w, h, s - 1, bpno, one, vsc0);
        sig_stripe(prev.0, prev.1, data, w, h, s - 1, w, bpno, one, vsc0)
    }
}

/// The symbols, each a context and a bit, that the encoder's significance pass codes for
/// sample `x`, row `ci` of the column whose flag word is at `fp`, from flags `fl`: none
/// when the pass does not code the sample; otherwise its bit of the plane (`one`) in its
/// zero-coding context and, when that bit is set, its sign in its sign context, against
/// the sign prediction (in raw mode the sign itself).
pub open spec fn sig_step_syms(fl: Seq<u32>, x: i32, fp: int, ci: u32, one: u32, zoff: usize, raw: bool) -> Seq<(int, u32)> {
    let f = fl[fp];
    if sig_coded(f, ci) {
        let mag = (x as u32) & 0x7fff_ffffu32;
        let v: u32 = if mag & one != 0 { 1 } else { 0 };
        let first = seq![(zc_context(zoff, f >> (3 * ci) as u32), v)];
        if v != 0 {
            let lu = sc_index(f, fl[fp - 1], fl[fp + 1], ci);
            let sign = (x as u32) >> 31u32;
            first.push((LUT_CTXNO_SC@[lu as int] as int, if raw { sign } else { sign ^ (LUT_SPB@[lu as int] as u32) }))
        } else {
            first
        }
    } else {
        seq![]
    }
}

/// The symbols that the encoder's significance pass codes over the first `j` rows of a
/// column (see `sig_col`), in order.
#[verifier::opaque]
pub open spec fn sig_col_syms(
    fl: Seq<u32>,
    dist: int,
    data: Seq<i32>,
    datap: int,
    fp: int,
    j: int,
    bpno: int,
    one: u32,
    stride: int,
    vsc0: bool,
    zoff: usize,
    raw: bool,
) -> Seq<(int, u32)>
    decreases j,
{
    if j <= 0 {
        seq![]
    } else {
        let prev = sig_col(fl, dist, data, datap, fp, j - 1, bpno, one, stride, vsc0);
        sig_col_syms(fl, dist, data, datap, fp, j - 1, bpno, one, stride, vsc0, zoff, raw) + sig_step_syms(
            prev.0,
            data[datap + j - 1],
            fp,
            (j - 1) as u32,
            one,
            zoff,
            raw,
        )
    }
}

/// The symbols that the encoder's significance pass codes over the first `i` columns of
/// stripe `s` (see `sig_stripe`), in order.
#[verifier::opaque]
pub open spec fn sig_stripe_syms(
    fl: Seq<u32>,
    dist: int,
    data: Seq<i32>,
    w: int,
    h: int,
    s: int,
    i: int,
    bpno: int,
    one: u32,
    vsc0: bool,
    zoff: usize,
    raw: bool,
) -> Seq<(int, u32)>
    decreases i,
{
    if i <= 0 {
        seq![]
    } else {
        let prev = sig_stripe(fl, dist, data, w, h, s, i - 1, bpno, one, vsc0);
        let n = stripe_rows(h, s);
        sig_stripe_syms(fl, dist, data, w, h, s, i - 1, bpno, one, vsc0, zoff, raw) + sig_col_syms(
            prev.0,
            prev.1,
            data,
            4 * s * w + n * (i - 1),
            (s + 1) * (w + 2) + i,
            n,
            bpno,
            one,
            w + 2,
            vsc0,
            zoff,
            raw,
        )
    }
}

/// The symbols that the encoder's significance pass codes over the first `s` stripes (see
/// `sig_pass`), in order.
#[verifier::opaque]
pub open spec fn sig_pass_syms(
    fl: Seq<u32>,
    dist: int,
    data: Seq<i32>,
    w: int,
    h: int,
    s: int,
    bpno: int,
    one: u32,
    vsc0: bool,
    zoff: usize,
    raw: bool,
) -> Seq<(int, u32)>
    decreases s,
{
    if s <= 0 {
        seq![]
    } else {
        let prev = sig_pass(fl, dist, data, w, h, s - 1, bpno, one, vsc0);
        sig_pass_syms(fl, dist, data, w, h, s - 1, bpno, one, vsc0, zoff, raw) + sig_stripe_syms(
            prev.0,
            prev.1,
            data,
            w,
            h,
            s - 1,
            w,
            bpno,
            one,
            vsc0,
            zoff,
            raw,
        )
    }
}

/// A column whose flag word is clear gives no symbol in the significance pass.
proof fn lemma_sig_col_syms_clear(
    fl: Seq<u32>,
    dist: int,
    data: Seq<i32>,
    datap: int,
    fp: int,
    j: int,
    bpno: int,
    one: u32,
    stride: int,
    vsc0: bool,
    zoff: usize,
    raw: bool,
)
    requires
        0 <= fp < fl.len(),
        fl[fp] == 0,
        j <= 4,
    ensures
        sig_col_syms(fl, dist, data, datap, fp, j, bpno, one, stride, vsc0, zoff, raw) =~= Seq::<(int, u32)>::empty(),
    decreases j,
{
    reveal(sig_col_syms);
    if j > 0 {
        lemma_sig_col_syms_clear(fl, dist, data, datap, fp, j - 1, bpno, one, stride, vsc0, zoff, raw);
        lemma_sig_col_clear(fl, dist, data, datap, fp, j - 1, bpno, one, stride, vsc0);
        lemma_column_word(0u32, 0, (j - 1) as u32);
    }
}

/// The magnitude-refinement context of the flag bits `f` of a sample: the third for a
/// sample already refined, the second for one with a significant neighbour, the first
/// otherwise.
pub open spec fn mag_context(f: u32) -> int {
    if f & T1_MU_0 != 0 {
        T1_CTXNO_MAG + 2
    } else if f & T1_SIGMA_NEIGHBOURS != 0 {
        T1_CTXNO_MAG + 1
    } else {
        T1_CTXNO_MAG as int
    }
}

/// Marking an earlier row of a column as refined leaves the flag bits that decide a later
/// row's refinement context unchanged.
proof fn lemma_mu_keeps_mag_context(f: u32, j: u32, ci: u32)
    requires
        j < ci <= 3,
    ensures
        mag_context((f | (T1_MU_THIS << (3 * j) as u32)) >> (3 * ci) as u32) == mag_context(f >> (3 * ci) as u32),
{
    assert(((f | (T1_MU_THIS << (3 * j) as u32)) >> (3 * ci) as u32) & T1_MU_0 == (f >> (3 * ci) as u32) & T1_MU_0 && ((f
        | (T1_MU_THIS << (3 * j) as u32)) >> (3 * ci) as u32) & T1_SIGMA_NEIGHBOURS == (f >> (3 * ci) as u32)
        & T1_SIGMA_NEIGHBOURS) by (bit_vector)
        requires
            j < ci <= 3,
    ;
}

/// The refinement bit of sample `x` at the plane bit `one`.
pub open spec fn ref_bit(x: i32, one: u32) -> u32 {
    if ((x as u32) & 0x7fff_ffffu32) & one != 0 {
        1
    } else {
        0
    }
}

/// The symbols that the encoder's refinement pass codes for row `ci` of a column whose
/// flag word was `f` when the pass began, the sample being `x`: its bit in its refinement
/// context when it takes part, none otherwise.
pub open spec fn ref_row_syms(f: u32, x: i32, ci: u32, one: u32) -> Seq<(int, u32)> {
    if refinable(f, ci) {
        seq![(mag_context(f >> (3 * ci) as u32), ref_bit(x, one))]
    } else {
        seq![]
    }
}

/// The symbols that the encoder's refinement pass codes over the first `j` rows of the
/// column whose samples start at `datap` and whose flag word was `f`, in order.
#[verifier::opaque]
pub open spec fn ref_col_syms(f: u32, data: Seq<i32>, datap: int, j: int, one: u32) -> Seq<(int, u32)>
    decreases j,
{
    if j <= 0 {
        seq![]
    } else {
        ref_col_syms(f, data, datap, j - 1, one) + ref_row_syms(f, data[datap + j - 1], (j - 1) as u32, one)
    }
}

/// The symbols that the encoder's refinement pass codes over the first `i` columns of
/// stripe `s`, from the flags `fl` that the pass began with.
#[verifier::opaque]
pub open spec fn ref_stripe_syms(fl: Seq<u32>, data: Seq<i32>, w: int, h: int, s: int, i: int, one: u32) -> Seq<(int, u32)>
    decreases i,
{
    if i <= 0 {
        seq![]
    } else {
        let n = stripe_rows(h, s);
        ref_stripe_syms(fl, data, w, h, s, i - 1, one) + ref_col_syms(fl[(s + 1) * (w + 2) + i], data, 4 * s * w + n * (i - 1), n, one)
    }
}

/// The symbols that the encoder's refinement pass codes over the first `s` stripes, from
/// the flags `fl` that the pass began with, in order.
#[verifier::opaque]
pub open spec fn ref_pass_syms(fl: Seq<u32>, data: Seq<i32>, w: int, h: int, s: int, one: u32) -> Seq<(int, u32)>
    decreases s,
{
    if s <= 0 {
        seq![]
    } else {
        ref_pass_syms(fl, data, w, h, s - 1, one) + ref_stripe_syms(fl, data, w, h, s - 1, w, one)
    }
}

/// A column with no row that takes part gives no symbol in the refinement pass.
proof fn lemma_ref_col_syms_none(f: u32, data: Seq<i32>, datap: int, j: int, one: u32)
    requires
        j <= 4,
        forall|jb: u32| jb <= 3 ==> !#[trigger] refinable(f, jb),
    ensures
        ref_col_syms(f, data, datap, j, one) =~= Seq::<(int, u32)>::empty(),
    decreases j,
{
    reveal(ref_col_syms);
    if j > 0 {
        lemma_ref_col_syms_none(f, data, datap, j - 1, one);
        assert(!refinable(f, (j - 1) as u32));
    }
}

/// The bit of bit-plane `bpno` in the encoder's samples, which carry fractional bits.
pub open spec fn plane_bit(bpno: i32) -> u32 {
    1u32 << (bpno as u32 + T1_NMSEDEC_FRACBITS) as u32
}

/// A column whose flag word is clear is left as it was by the significance pass.
#[verifier::spinoff_prover]
proof fn lemma_sig_col_clear(
    fl: Seq<u32>,
    dist: int,
    data: Seq<i32>,
    datap: int,
    fp: int,
    j: int,
    bpno: int,
    one: u32,
    stride: int,
    vsc0: bool,
)
    requires
        0 <= fp < fl.len(),
        fl[fp] == 0,
        j <= 4,
    ensures
        sig_col(fl, dist, data, datap, fp, j, bpno, one, stride, vsc0) == (fl, dist),
    decreases j,
{
    reveal(sig_col);
    reveal(sig_step);
    if j > 0 {
        lemma_sig_col_clear(fl, dist, data, datap, fp, j - 1, bpno, one, stride, vsc0);
        lemma_column_word(0u32, 0, (j - 1) as u32);
    }
}

/// The distortion decrease that refining sample `p` at bit-plane `bpno` contributes, the
/// sample being row `j` of the column whose flag word is `fw`: its table entry when it
/// takes part in the refinement pass, 0 otherwise.
pub open spec fn ref_term(t: &T1, p: int, fw: int, j: int, bpno: int) -> int {
    if refinable(t.flags@[fw], j as u32) {
        nmsedec_ref((t.data@[p] as u32) & 0x7fff_ffffu32, bpno as u32)
    } else {
        0
    }
}

/// The refinement distortion of the first `n` rows of the column whose samples start at
/// `datap` and whose flag word is `fw`.
#[verifier::opaque]
pub open spec fn ref_disto_col(t: &T1, datap: int, fw: int, n: int, bpno: int) -> int
    decreases n,
{
    if n <= 0 {
        0
    } else {
        ref_disto_col(t, datap, fw, n - 1, bpno) + ref_term(t, datap + n - 1, fw, n - 1, bpno)
    }
}

/// Number of rows of stripe `s` of a code block `h` rows high.
pub open spec fn stripe_rows(h: int, s: int) -> int {
    if 4 * s + 4 <= h {
        4
    } else {
        h - 4 * s
    }
}

/// The refinement distortion of the first `i` columns of stripe `s`, whose samples the
/// encoder holds column by column.
#[verifier::opaque]
pub open spec fn ref_disto_stripe(t: &T1, s: int, i: int, bpno: int) -> int
    decreases i,
{
    if i <= 0 {
        0
    } else {
        let n = stripe_rows(t.h as int, s);
        ref_disto_stripe(t, s, i - 1, bpno) + ref_disto_col(t, 4 * s * t.w + n * (i - 1), (s + 1) * (t.w + 2) + i, n, bpno)
    }
}

/// The refinement distortion of the first `s` stripes of the code block: the sum, over
/// its samples that take part in the refinement pass, of their table entries.
#[verifier::opaque]
pub open spec fn ref_disto(t: &T1, s: int, bpno: int) -> int
    decreases s,
{
    if s <= 0 {
        0
    } else {
        ref_disto(t, s - 1, bpno) + ref_disto_stripe(t, s - 1, t.w as int, bpno)
    }
}

/// The refinement distortion of a column depends only on the samples and on which rows
/// take part.
#[verifier::spinoff_prover]
proof fn lemma_ref_disto_col_same(a: &T1, b: &T1, datap: int, fw: int, n: int, bpno: int)
    requires
        a.data@ == b.data@,
        n <= 4,
        forall|jb: u32| jb <= 3 ==> #[trigger] refinable(b.flags@[fw], jb) == refinable(a.flags@[fw], jb),
    ensures
        ref_disto_col(a, datap, fw, n, bpno) == ref_disto_col(b, datap, fw, n, bpno),
    decreases n,
{
    reveal(ref_disto_col);
    if n > 0 {
        lemma_ref_disto_col_same(a, b, datap, fw, n - 1, bpno);
        assert(refinable(b.flags@[fw], (n - 1) as u32) == refinable(a.flags@[fw], (n - 1) as u32));
    }
}

/// A column with no row that takes part has no refinement distortion.
#[verifier::spinoff_prover]
proof fn lemma_ref_disto_col_zero(t: &T1, datap: int, fw: int, n: int, bpno: int)
    requires
        n <= 4,
        forall|jb: u32| jb <= 3 ==> !#[trigger] refinable(t.flags@[fw], jb),
    ensures
        ref_disto_col(t, datap, fw, n, bpno) == 0,
    decreases n,
{
    reveal(ref_disto_col);
    if n > 0 {
        lemma_ref_disto_col_zero(t, datap, fw, n - 1, bpno);
        assert(!refinable(t.flags@[fw], (n - 1) as u32));
    }
}

/// Marking a row as refined leaves which rows take part in the refinement pass unchanged,
/// and a clear flag word has none.
pub proof fn lemma_mu_keeps_refinable(f: u32, ci: u32, j: u32)
    requires
        ci <= 3,
        j <= 3,
    ensures
        refinable(f | (T1_MU_THIS << (3 * ci) as u32), j) == refinable(f, j),
        !refinable(0u32, j),
{
    lemma_column_word(f, ci, j);
}

/// Facts on the rows of a column flag word: marking row `ci` as refined leaves which rows
/// take part in the refinement pass unchanged; a word with no significant row, or with
/// all four rows visited, has no row that takes part; and a clear word has no row that
/// takes part in the refinement pass or is coded in the significance pass.
pub proof fn lemma_column_word(f: u32, ci: u32, j: u32)
    requires
        ci <= 3,
        j <= 3,
    ensures
        refinable(f | (T1_MU_THIS << (3 * ci) as u32), j) == refinable(f, j),
        !refinable(0u32, j),
        (f & (T1_SIGMA_4 | T1_SIGMA_7 | T1_SIGMA_10 | T1_SIGMA_13)) == 0 ==> !refinable(f, j),
        (f & (T1_PI_0 | T1_PI_1 | T1_PI_2 | T1_PI_3)) == (T1_PI_0 | T1_PI_1 | T1_PI_2 | T1_PI_3) ==> !refinable(f, j),
        !sig_coded(0u32, j),
{
    assert({
        &&& refinable(f | (T1_MU_THIS << (3 * ci) as u32), j) == refinable(f, j)
        &&& !refinable(0u32, j)
        &&& (f & (T1_SIGMA_4 | T1_SIGMA_7 | T1_SIGMA_10 | T1_SIGMA_13)) == 0 ==> !refinable(f, j)
        &&& (f & (T1_PI_0 | T1_PI_1 | T1_PI_2 | T1_PI_3)) == (T1_PI_0 | T1_PI_1 | T1_PI_2 | T1_PI_3) ==> !refinable(f, j)
        &&& !sig_coded(0u32, j)
    }) by (bit_vector)
        requires
            ci <= 3,
            j <= 3,
    ;
}

#[verifier::spinoff_prover]
proof fn lemma_zc_contexts_0()
    ensures
        forall|i: int| 0 <= i < 256 ==> #[trigger] LUT_CTXNO_ZC@[i] < 9,
{
    assert forall|i: int| 0 <= i < 256 implies #[trigger] LUT_CTXNO_ZC@[i] < 9 by {
        assert(0 <= i < 256);
    }
}

#[verifier::spinoff_prover]
proof fn lemma_zc_contexts_1()
    ensures
        forall|i: int| 256 <= i < 512 ==> #[trigger] LUT_CTXNO_ZC@[i] < 9,
{
    assert forall|i: int| 256 <= i < 512 implies #[trigger] LUT_CTXNO_ZC@[i] < 9 by {
        assert(256 <= i < 512);
    }
}

#[verifier::spinoff_prover]
proof fn lemma_zc_contexts_2()
    ensures
        forall|i: int| 512 <= i < 768 ==> #[trigger] LUT_CTXNO_ZC@[i] < 9,
{
    assert forall|i: int| 512 <= i < 768 implies #[trigger] LUT_CTXNO_ZC@[i] < 9 by {
        assert(512 <= i < 768);
    }
}

#[verifier::spinoff_prover]
proof fn lemma_zc_contexts_3()
    ensures
        forall|i: int| 768 <= i < 1024 ==> #[trigger] LUT_CTXNO_ZC@[i] < 9,
{
    assert forall|i: int| 768 <= i < 1024 implies #[trigger] LUT_CTXNO_ZC@[i] < 9 by {
        assert(768 <= i < 1024);
    }
}

#[verifier::spinoff_prover]
proof fn lemma_zc_contexts_4()
    ensures
        forall|i: int| 1024 <= i < 1280 ==> #[trigger] LUT_CTXNO_ZC@[i] < 9,
{
    assert forall|i: int| 1024 <= i < 1280 implies #[trigger] LUT_CTXNO_ZC@[i] < 9 by {
        assert(1024 <= i < 1280);
    }
}

#[verifier::spinoff_prover]
proof fn lemma_zc_contexts_5()
    ensures
        forall|i: int| 1280 <= i < 1536 ==> #[trigger] LUT_CTXNO_ZC@[i] < 9,
{
    assert forall|i: int| 1280 <= i < 1536 implies #[trigger] LUT_CTXNO_ZC@[i] < 9 by {
        assert(1280 <= i < 1536);
    }
}

#[verifier::spinoff_prover]
proof fn lemma_zc_contexts_6()
    ensures
        forall|i: int| 1536 <= i < 1792 ==> #[trigger] LUT_CTXNO_ZC@[i] < 9,
{
    assert forall|i: int| 1536 <= i < 1792 implies #[trigger] LUT_CTXNO_ZC@[i] < 9 by {
        assert(1536 <= i < 1792);
    }
}

#[verifier::spinoff_prover]
proof fn lemma_zc_contexts_7()
    ensures
        forall|i: int| 1792 <= i < 2048 ==> #[trigger] LUT_CTXNO_ZC@[i] < 9,
{
    assert forall|i: int| 1792 <= i < 2048 implies #[trigger] LUT_CTXNO_ZC@[i] < 9 by {
        assert(1792 <= i < 2048);
    }
}

/// Every zero-coding context of the table is below 9.
proof fn lemma_zc_contexts()
    ensures
        forall|i: int| 0 <= i < 2048 ==> #[trigger] LUT_CTXNO_ZC@[i] < 9,
{
    lemma_zc_contexts_0();
    lemma_zc_contexts_1();
    lemma_zc_contexts_2();
    lemma_zc_contexts_3();
    lemma_zc_contexts_4();
    lemma_zc_contexts_5();
    lemma_zc_contexts_6();
    lemma_zc_contexts_7();
}

/// Every sign-coding context of the table lies between 9 and 13, and every sign
/// prediction bit is 0 or 1.
#[verifier::spinoff_prover]
pub(crate) proof fn lemma_sc_contexts()
    ensures
        forall|i: int| 0 <= i < 256 ==> 9 <= #[trigger] LUT_CTXNO_SC@[i] <= 13,
        forall|i: int| 0 <= i < 256 ==> #[trigger] LUT_SPB@[i] <= 1,
{
    assert forall|i: int| 0 <= i < 256 implies 9 <= #[trigger] LUT_CTXNO_SC@[i] <= 13 by {
        assert(0 <= i < 256);
    }
    assert forall|i: int| 0 <= i < 256 implies #[trigger] LUT_SPB@[i] <= 1 by {
        assert(0 <= i < 256);
    }
}

/// Whether the coder is ready to code in the pass's mode: bypass (raw) or arithmetic.
pub open spec fn mq_ready(mqc: &Mqc, raw: bool) -> bool {
    if raw {
        mqc.bypass_wf()
    } else {
        mqc.enc_wf()
    }
}

/// Whether `after` is the coder `before` after coding in the pass's mode with at most
/// `n` more bytes.
pub open spec fn mq_advanced(before: &Mqc, after: &Mqc, raw: bool, n: int) -> bool {
    &&& mq_ready(after, raw)
    &&& after.buf@.len() == before.buf@.len()
    &&& after.bp <= before.bp + n
}

/// Position and bounds of the flag word of column `i` of stripe `s`.
#[verifier::spinoff_prover]
pub(crate) proof fn lemma_column(w: int, h: int, s: int, i: int)
    requires
        0 <= s < (h + 3) / 4,
        0 <= i <= w,
        0 <= w <= 1024,
        0 <= h <= 1024,
    ensures
        (w + 2) + 1 <= (s + 1) * (w + 2) + i + 1,
        i < w ==> (s + 1) * (w + 2) + i + 1 + (w + 2) + 1 < ((h + 3) / 4 + 2) * (w + 2),
        (s + 1) * (w + 2) + i + 1 + 2 <= ((h + 3) / 4 + 2) * (w + 2),
        ((h + 3) / 4 + 2) * (w + 2) <= 300 * 1026,
{
    assert((s + 1) * (w + 2) >= w + 2) by (nonlinear_arith)
        requires
            s >= 0,
            w >= 0,
    ;
    assert((s + 2) * (w + 2) + w + 2 <= ((h + 3) / 4 + 2) * (w + 2)) by (nonlinear_arith)
        requires
            s + 1 <= (h + 3) / 4,
            w >= 0,
    ;
    assert((s + 2) * (w + 2) == (s + 1) * (w + 2) + (w + 2)) by (nonlinear_arith);
    assert(((h + 3) / 4 + 2) * (w + 2) <= 300 * 1026) by (nonlinear_arith)
        requires
            0 <= (h + 3) / 4 <= 257,
            0 <= w <= 1024,
    ;
}

impl T1 {
    /// Whether the workspace holds a code block as `allocate_buffers` sets it up, with the
    /// zero-coding contexts of an orientation selected.
    pub open spec fn pass_ready(&self) -> bool {
        &&& self.buffers_ready()
        &&& self.lut_ctxno_zc_orient_offset <= 1536
    }

    /// Whether `other` is a workspace for the same code block: same size, orientation and
    /// buffer lengths.
    pub open spec fn same_block(&self, other: &Self) -> bool {
        &&& other.w == self.w && other.h == self.h
        &&& other.lut_ctxno_zc_orient_offset == self.lut_ctxno_zc_orient_offset
        &&& other.encoder == self.encoder
        &&& other.data@.len() == self.data@.len()
        &&& other.flags@.len() == self.flags@.len()
    }

    /// Zero-coding context of flag word `f`.
    pub(crate) fn zc_ctx(&self, f: u32) -> (r: usize)
        requires
            self.lut_ctxno_zc_orient_offset <= 1536,
        ensures
            r < MQC_NUMCTXS,
            r == zc_context(self.lut_ctxno_zc_orient_offset, f),
    {
        proof {
            assert(f & 0x1efu32 <= 0x1ef) by (bit_vector);
            lemma_zc_contexts();
        }
        getctxno_zc(self.lut_ctxno_zc_orient_offset, f) as usize
    }

    /// Codes sample `datap` (row `ci` of the column at `fp`) in the significance pass:
    /// when it is not significant, not yet visited and has a significant neighbour, its
    /// significance bit, and its sign when it becomes significant.
    #[verifier::spinoff_prover]
    #[verifier::rlimit(40)]
    fn enc_sigpass_step(
        &mut self,
        mqc: &mut Mqc,
        fp: usize,
        datap: usize,
        bpno: i32,
        one: u32,
        nmsedec: &mut i32,
        pass_type: u8,
        ci: u32,
        vsc: bool,
    )
        requires
            old(self).pass_ready(),
            old(self).w + 2 + 1 <= fp,
            fp + old(self).w + 2 + 1 < old(self).flags@.len(),
            datap < old(self).data@.len(),
            ci <= 3,
            0 <= bpno <= 25,
            mq_ready(old(mqc), pass_type == T1_TYPE_RAW),
            old(mqc).bp + 6 <= old(mqc).buf@.len(),
            -0x1000_0000 <= *old(nmsedec) <= 0x1000_0000,
        ensures
            final(self).pass_ready(),
            old(self).same_block(&*final(self)),
            final(self).data == old(self).data,
            mq_advanced(&*old(mqc), &*final(mqc), pass_type == T1_TYPE_RAW, 6),
            *old(nmsedec) - 0x8000 <= *final(nmsedec) <= *old(nmsedec) + 0x8000,
            final(self).flags@ == sig_step(
                old(self).flags@,
                *old(nmsedec) as int,
                old(self).data@[datap as int],
                fp as int,
                ci,
                bpno as int,
                one,
                old(self).w + 2,
                vsc,
            ).0,
            *final(nmsedec) == sig_step(
                old(self).flags@,
                *old(nmsedec) as int,
                old(self).data@[datap as int],
                fp as int,
                ci,
                bpno as int,
                one,
                old(self).w + 2,
                vsc,
            ).1,
            pass_type != T1_TYPE_RAW ==> final(mqc).enc_model() == enc_all(
                old(mqc).enc_model(),
                sig_step_syms(
                    old(self).flags@,
                    old(self).data@[datap as int],
                    fp as int,
                    ci,
                    one,
                    old(self).lut_ctxno_zc_orient_offset,
                    false,
                ),
            ),
    {
        let _nf = self.flags.len();
        let flags = self.flags[fp];
        let shift = ci * 3;
        proof {
            reveal(sig_step);
            reveal(flags_after_significance);
        }
        if (flags & ((T1_SIGMA_THIS | T1_PI_THIS) << shift)) == 0 && (flags & (T1_SIGMA_NEIGHBOURS << shift)) != 0 {
            let ctxt1 = self.zc_ctx(flags >> shift);
            let v: u32 = if (smr_abs(self.data[datap]) & one) != 0 { 1 } else { 0 };
            mqc.set_curctx(ctxt1);
            let ghost m1 = *mqc;
            if pass_type == T1_TYPE_RAW {
                mqc.bypass_enc(v);
            } else {
                mqc.encode(v);
                proof {
                    lemma_encode_model(&m1, &*mqc, v);
                }
            }
            let ghost s1 = seq![(ctxt1 as int, v)];
            proof {
                assert(s1.drop_last() =~= Seq::<(int, u32)>::empty());
                assert(s1.len() == 1 && s1.last() == (ctxt1 as int, v));
                assert(enc_all(old(mqc).enc_model(), Seq::<(int, u32)>::empty()) == old(mqc).enc_model());
                assert(enc_all(old(mqc).enc_model(), s1) == enc_one(old(mqc).enc_model(), ctxt1 as int, v as int));
            }
            if v != 0 {
                let lu = getctxtno_sc_or_spb_index(self.flags[fp], self.flags[fp - 1], self.flags[fp + 1], ci);
                proof {
                    lemma_sc_contexts();
                }
                let ctxt2 = getctxno_sc(lu) as usize;
                let sign = smr_sign(self.data[datap]);
                let nm = getnmsedec_sig(smr_abs(self.data[datap]), bpno as u32) as i32;
                *nmsedec = *nmsedec + nm;
                mqc.set_curctx(ctxt2);
                let ghost m2 = *mqc;
                if pass_type == T1_TYPE_RAW {
                    mqc.bypass_enc(sign);
                } else {
                    let spb = getspb(lu) as u32;
                    mqc.encode(sign ^ spb);
                    proof {
                        lemma_encode_model(&m2, &*mqc, sign ^ spb);
                        let s2 = s1.push((ctxt2 as int, sign ^ spb));
                        assert(s2.drop_last() =~= s1);
                        assert(s2.len() == 2 && s2.last() == (ctxt2 as int, sign ^ spb));
                        assert(enc_all(old(mqc).enc_model(), s2) == enc_one(
                            enc_all(old(mqc).enc_model(), s1),
                            ctxt2 as int,
                            (sign ^ spb) as int,
                        ));
                    }
                }
                let stride = self.flags_stride();
                update_flags(self.flags.as_mut_slice(), fp, ci, sign, stride, vsc);
                proof {
                    assert(self.flags@ =~= flags_after_significance(
                        old(self).flags@,
                        fp as int,
                        ci,
                        sign,
                        stride as int,
                        vsc,
                    ));
                }
            }
            let f = self.flags[fp];
            self.flags.set(fp, f | (T1_PI_THIS << shift));
        }
    }

    /// Significance pass over the first `n` rows of the column at `fp`, whose samples
    /// start at `datap`: nothing when the column's flags are all clear.
    #[verifier::spinoff_prover]
    fn enc_sigpass_column(
        &mut self,
        mqc: &mut Mqc,
        fp: usize,
        datap: usize,
        n: usize,
        bpno: i32,
        one: u32,
        nmsedec: &mut i32,
        pass_type: u8,
        vsc0: bool,
    )
        requires
            old(self).pass_ready(),
            old(self).w + 2 + 1 <= fp,
            fp + old(self).w + 2 + 1 < old(self).flags@.len(),
            1 <= n <= 4,
            datap + n <= old(self).data@.len(),
            0 <= bpno <= 25,
            mq_ready(old(mqc), pass_type == T1_TYPE_RAW),
            old(mqc).bp + 6 * n <= old(mqc).buf@.len(),
            -0x0800_0000 <= *old(nmsedec) <= 0x0800_0000,
        ensures
            final(self).pass_ready(),
            old(self).same_block(&*final(self)),
            final(self).data == old(self).data,
            mq_advanced(&*old(mqc), &*final(mqc), pass_type == T1_TYPE_RAW, 6 * n),
            *old(nmsedec) - 0x8000 * n <= *final(nmsedec) <= *old(nmsedec) + 0x8000 * n,
            final(self).flags@ == sig_col(
                old(self).flags@,
                *old(nmsedec) as int,
                old(self).data@,
                datap as int,
                fp as int,
                n as int,
                bpno as int,
                one,
                old(self).w + 2,
                vsc0,
            ).0,
            *final(nmsedec) == sig_col(
                old(self).flags@,
                *old(nmsedec) as int,
                old(self).data@,
                datap as int,
                fp as int,
                n as int,
                bpno as int,
                one,
                old(self).w + 2,
                vsc0,
            ).1,
            pass_type != T1_TYPE_RAW ==> final(mqc).enc_model() == enc_all(
                old(mqc).enc_model(),
                sig_col_syms(
                    old(self).flags@,
                    *old(nmsedec) as int,
                    old(self).data@,
                    datap as int,
                    fp as int,
                    n as int,
                    bpno as int,
                    one,
                    old(self).w + 2,
                    vsc0,
                    old(self).lut_ctxno_zc_orient_offset,
                    false,
                ),
            ),
    {
        let _nf = self.flags.len();
        if self.flags[fp] != 0 {
            proof {
                reveal(sig_col);
                reveal(sig_col_syms);
            }
            let mut j: usize = 0;
            while j < n
                invariant
                    self.pass_ready(),
                    old(self).same_block(&*self),
                    self.data == old(self).data,
                    self.w + 2 + 1 <= fp,
                    fp + self.w + 2 + 1 < self.flags@.len(),
                    1 <= n <= 4,
                    j <= n,
                    datap + n <= self.data@.len(),
                    0 <= bpno <= 25,
                    mq_advanced(&*old(mqc), &*mqc, pass_type == T1_TYPE_RAW, 6 * j),
                    old(mqc).bp + 6 * n <= old(mqc).buf@.len(),
                    *old(nmsedec) - 0x8000 * j <= *nmsedec <= *old(nmsedec) + 0x8000 * j,
                    -0x0800_0000 <= *old(nmsedec) <= 0x0800_0000,
                    self.flags@ == sig_col(
                        old(self).flags@,
                        *old(nmsedec) as int,
                        old(self).data@,
                        datap as int,
                        fp as int,
                        j as int,
                        bpno as int,
                        one,
                        old(self).w + 2,
                        vsc0,
                    ).0,
                    *nmsedec == sig_col(
                        old(self).flags@,
                        *old(nmsedec) as int,
                        old(self).data@,
                        datap as int,
                        fp as int,
                        j as int,
                        bpno as int,
                        one,
                        old(self).w + 2,
                        vsc0,
                    ).1,
                    self.lut_ctxno_zc_orient_offset == old(self).lut_ctxno_zc_orient_offset,
                    pass_type != T1_TYPE_RAW ==> mqc.enc_model() == enc_all(
                        old(mqc).enc_model(),
                        sig_col_syms(
                            old(self).flags@,
                            *old(nmsedec) as int,
                            old(self).data@,
                            datap as int,
                            fp as int,
                            j as int,
                            bpno as int,
                            one,
                            old(self).w + 2,
                            vsc0,
                            old(self).lut_ctxno_zc_orient_offset,
                            false,
                        ),
                    ),
                decreases n - j,
            {
                let vsc = j == 0 && vsc0;
                let ghost pre_syms = sig_col_syms(
                    old(self).flags@,
                    *old(nmsedec) as int,
                    old(self).data@,
                    datap as int,
                    fp as int,
                    j as int,
                    bpno as int,
                    one,
                    old(self).w + 2,
                    vsc0,
                    old(self).lut_ctxno_zc_orient_offset,
                    false,
                );
                let ghost pre_flags = self.flags@;
                self.enc_sigpass_step(mqc, fp, datap + j, bpno, one, nmsedec, pass_type, j as u32, vsc);
                proof {
                    reveal(sig_col);
                    reveal(sig_col_syms);
                    lemma_enc_all_append(
                        old(mqc).enc_model(),
                        pre_syms,
                        sig_step_syms(
                            pre_flags,
                            old(self).data@[datap + j],
                            fp as int,
                            j as u32,
                            one,
                            old(self).lut_ctxno_zc_orient_offset,
                            false,
                        ),
                    );
                }
                j += 1;
            }
        } else {
            proof {
                lemma_sig_col_syms_clear(
                    old(self).flags@,
                    *old(nmsedec) as int,
                    old(self).data@,
                    datap as int,
                    fp as int,
                    n as int,
                    bpno as int,
                    one,
                    old(self).w + 2,
                    vsc0,
                    old(self).lut_ctxno_zc_orient_offset,
                    false,
                );
                assert(enc_all(old(mqc).enc_model(), Seq::<(int, u32)>::empty()) == old(mqc).enc_model());
                lemma_sig_col_clear(
                    old(self).flags@,
                    *old(nmsedec) as int,
                    old(self).data@,
                    datap as int,
                    fp as int,
                    n as int,
                    bpno as int,
                    one,
                    old(self).w + 2,
                    vsc0,
                );
            }
        }
    }

    /// Significance propagation pass of the encoder at bit-plane `bpno`, in the given
    /// mode (raw or arithmetic), over the samples in stripe order; returns the distortion
    /// decrease, in the units of the distortion tables. The flags it leaves and the
    /// distortion are those of `sig_pass`; in arithmetic mode the coder is left as coding
    /// the symbols of `sig_pass_syms` in order gives it.
    #[verifier::spinoff_prover]
    pub fn enc_sigpass(&mut self, mqc: &mut Mqc, bpno: i32, pass_type: u8, cblksty: u32) -> (r: i32)
        requires
            old(self).pass_ready(),
            0 <= bpno <= 25,
            mq_ready(old(mqc), pass_type == T1_TYPE_RAW),
            old(mqc).bp + 6 * (old(self).w * old(self).h) <= old(mqc).buf@.len(),
        ensures
            final(self).pass_ready(),
            old(self).same_block(&*final(self)),
            final(self).data == old(self).data,
            mq_advanced(&*old(mqc), &*final(mqc), pass_type == T1_TYPE_RAW, 6 * (old(self).w * old(self).h)),
            final(self).flags@ == sig_pass(
                old(self).flags@,
                0,
                old(self).data@,
                old(self).w as int,
                old(self).h as int,
                (old(self).h + 3) / 4,
                bpno as int,
                plane_bit(bpno),
                cblksty & J2K_CCP_CBLKSTY_VSC != 0,
            ).0,
            r == sig_pass(
                old(self).flags@,
                0,
                old(self).data@,
                old(self).w as int,
                old(self).h as int,
                (old(self).h + 3) / 4,
                bpno as int,
                plane_bit(bpno),
                cblksty & J2K_CCP_CBLKSTY_VSC != 0,
            ).1,
            pass_type != T1_TYPE_RAW ==> final(mqc).enc_model() == enc_all(
                old(mqc).enc_model(),
                sig_pass_syms(
                    old(self).flags@,
                    0,
                    old(self).data@,
                    old(self).w as int,
                    old(self).h as int,
                    (old(self).h + 3) / 4,
                    bpno as int,
                    plane_bit(bpno),
                    cblksty & J2K_CCP_CBLKSTY_VSC != 0,
                    old(self).lut_ctxno_zc_orient_offset,
                    false,
                ),
            ),
    {
        proof {
            reveal(sig_pass_syms);
            assert(enc_all(old(mqc).enc_model(), Seq::<(int, u32)>::empty()) == old(mqc).enc_model());
        }
        let mut nmsedec: i32 = 0;
        proof {
            reveal(sig_pass);
        }
        let one = 1u32 << (bpno as u32 + T1_NMSEDEC_FRACBITS);
        let w = self.w as usize;
        let h = self.h as usize;
        let stride = w + 2;
        let vsc0 = (cblksty & J2K_CCP_CBLKSTY_VSC) != 0;
        let full = h / 4;
        let k = full * 4;
        let rows_last: usize = if k < h { h - k } else { 0 };
        let stripes = if k < h { full + 1 } else { full };
        let mut datap: usize = 0;
        let mut fp: usize = stride + 1;
        let mut s: usize = 0;
        while s < stripes
            invariant
                self.pass_ready(),
                old(self).same_block(&*self),
                self.data == old(self).data,
                w == self.w && h == self.h && stride == w + 2 && full == h / 4 && k == 4 * full,
                rows_last == (if k < h { h - k } else { 0 }),
                stripes == (if k < h { full + 1 } else { full as int }),
                stripes == (h + 3) / 4,
                0 <= bpno <= 25,
                s <= stripes,
                datap == (if 4 * s <= h { 4 * s * w } else { w * h }),
                datap <= w * h,
                fp == (s + 1) * stride + 1,
                mq_advanced(&*old(mqc), &*mqc, pass_type == T1_TYPE_RAW, 6 * datap),
                old(mqc).bp + 6 * (w * h) <= old(mqc).buf@.len(),
                -0x8000 * datap <= nmsedec <= 0x8000 * datap,
                one == plane_bit(bpno),
                vsc0 == (cblksty & J2K_CCP_CBLKSTY_VSC != 0),
                self.flags@ == sig_pass(old(self).flags@, 0, old(self).data@, w as int, h as int, s as int, bpno as int, one, vsc0).0,
                nmsedec == sig_pass(old(self).flags@, 0, old(self).data@, w as int, h as int, s as int, bpno as int, one, vsc0).1,
                self.lut_ctxno_zc_orient_offset == old(self).lut_ctxno_zc_orient_offset,
                pass_type != T1_TYPE_RAW ==> mqc.enc_model() == enc_all(
                    old(mqc).enc_model(),
                    sig_pass_syms(old(self).flags@, 0, old(self).data@, w as int, h as int, s as int, bpno as int, one, vsc0, self.lut_ctxno_zc_orient_offset, false),
                ),
            decreases stripes - s,
        {
            let n = if s < full { 4 } else { rows_last };
            let ghost base = sig_pass(old(self).flags@, 0, old(self).data@, w as int, h as int, s as int, bpno as int, one, vsc0);
            proof {
                reveal(sig_stripe);
                reveal(sig_stripe_syms);
                assert(n == stripe_rows(h as int, s as int));
                let pp = sig_pass_syms(old(self).flags@, 0, old(self).data@, w as int, h as int, s as int, bpno as int, one, vsc0, self.lut_ctxno_zc_orient_offset, false);
                assert(pp + Seq::<(int, u32)>::empty() =~= pp);
            }
            let mut i: usize = 0;
            while i < w
                invariant
                    self.pass_ready(),
                    old(self).same_block(&*self),
                    self.data == old(self).data,
                    w == self.w && h == self.h && stride == w + 2 && full == h / 4 && k == 4 * full,
                    rows_last == (if k < h { h - k } else { 0 }),
                    stripes == (h + 3) / 4,
                    n == (if s < full { 4 } else { rows_last }),
                    1 <= n <= 4,
                    0 <= bpno <= 25,
                    s < stripes,
                    i <= w,
                    datap == 4 * s * w + n * i,
                    fp == (s + 1) * stride + i + 1,
                    mq_advanced(&*old(mqc), &*mqc, pass_type == T1_TYPE_RAW, 6 * datap),
                    old(mqc).bp + 6 * (w * h) <= old(mqc).buf@.len(),
                    -0x8000 * datap <= nmsedec <= 0x8000 * datap,
                    n == stripe_rows(h as int, s as int),
                    self.flags@ == sig_stripe(base.0, base.1, old(self).data@, w as int, h as int, s as int, i as int, bpno as int, one, vsc0).0,
                    nmsedec == sig_stripe(base.0, base.1, old(self).data@, w as int, h as int, s as int, i as int, bpno as int, one, vsc0).1,
                    self.lut_ctxno_zc_orient_offset == old(self).lut_ctxno_zc_orient_offset,
                    base == sig_pass(old(self).flags@, 0, old(self).data@, w as int, h as int, s as int, bpno as int, one, vsc0),
                    pass_type != T1_TYPE_RAW ==> mqc.enc_model() == enc_all(
                        old(mqc).enc_model(),
                        sig_pass_syms(old(self).flags@, 0, old(self).data@, w as int, h as int, s as int, bpno as int, one, vsc0, self.lut_ctxno_zc_orient_offset, false)
                            + sig_stripe_syms(base.0, base.1, old(self).data@, w as int, h as int, s as int, i as int, bpno as int, one, vsc0, self.lut_ctxno_zc_orient_offset, false),
                    ),
                decreases w - i,
            {
                proof {
                    lemma_column(w as int, h as int, s as int, i as int);
                    lemma_stripe_data(w as int, h as int, s as int, n as int, i as int);
                }
                let ghost pre_fl = self.flags@;
                let ghost pre_d = nmsedec as int;
                self.enc_sigpass_column(mqc, fp, datap, n, bpno, one, &mut nmsedec, pass_type, vsc0);
                proof {
                    reveal(sig_stripe);
                    reveal(sig_stripe_syms);
                    let zoff = self.lut_ctxno_zc_orient_offset;
                    let pp = sig_pass_syms(old(self).flags@, 0, old(self).data@, w as int, h as int, s as int, bpno as int, one, vsc0, zoff, false);
                    let ss = sig_stripe_syms(base.0, base.1, old(self).data@, w as int, h as int, s as int, i as int, bpno as int, one, vsc0, zoff, false);
                    let cc = sig_col_syms(pre_fl, pre_d, old(self).data@, datap as int, fp as int, n as int, bpno as int, one, (w + 2) as int, vsc0, zoff, false);
                    lemma_enc_all_append(old(mqc).enc_model(), pp + ss, cc);
                    assert((pp + ss) + cc =~= pp + (ss + cc));
                }
                datap += n;
                fp += 1;
                i += 1;
            }
            proof {
                lemma_column(w as int, h as int, s as int, w as int);
                lemma_stripe_end(w as int, h as int, s as int, n as int);
                reveal(sig_pass);
                reveal(sig_pass_syms);
            }
            fp += 2;
            s += 1;
        }
        nmsedec
    }

    /// Codes sample `datap` (row `ci` of the column at `fp`) in the refinement pass: when
    /// it is significant and was not coded in this bit-plane's significance pass, its bit
    /// of the bit-plane.
    #[verifier::spinoff_prover]
    fn enc_refpass_step(
        &mut self,
        mqc: &mut Mqc,
        fp: usize,
        datap: usize,
        bpno: i32,
        one: u32,
        nmsedec: &mut i32,
        pass_type: u8,
        ci: u32,
    )
        requires
            old(self).pass_ready(),
            fp < old(self).flags@.len(),
            datap < old(self).data@.len(),
            ci <= 3,
            0 <= bpno <= 25,
            mq_ready(old(mqc), pass_type == T1_TYPE_RAW),
            old(mqc).bp + 3 <= old(mqc).buf@.len(),
            -0x1000_0000 <= *old(nmsedec) <= 0x1000_0000,
        ensures
            final(self).pass_ready(),
            old(self).same_block(&*final(self)),
            final(self).data == old(self).data,
            mq_advanced(&*old(mqc), &*final(mqc), pass_type == T1_TYPE_RAW, 3),
            *old(nmsedec) - 0x8000 <= *final(nmsedec) <= *old(nmsedec) + 0x8000,
            *final(nmsedec) == *old(nmsedec) + ref_term(&*old(self), datap as int, fp as int, ci as int, bpno as int),
            forall|q: int, j: u32|
                0 <= q < old(self).flags@.len() && j <= 3 ==> #[trigger] refinable(final(self).flags@[q], j)
                    == refinable(old(self).flags@[q], j),
            forall|q: int| 0 <= q < old(self).flags@.len() && q != fp ==> #[trigger] final(self).flags@[q] == old(self).flags@[q],
            forall|cj: u32|
                ci < cj <= 3 ==> #[trigger] mag_context(final(self).flags@[fp as int] >> (3 * cj) as u32) == mag_context(
                    old(self).flags@[fp as int] >> (3 * cj) as u32,
                ),
            pass_type != T1_TYPE_RAW ==> final(mqc).enc_model() == enc_all(
                old(mqc).enc_model(),
                ref_row_syms(old(self).flags@[fp as int], old(self).data@[datap as int], ci, one),
            ),
    {
        let flags = self.flags[fp];
        proof {
            assert forall|cj: u32| ci < cj <= 3 implies #[trigger] mag_context((flags | (T1_MU_THIS << (3 * ci) as u32)) >> (3 * cj) as u32)
                == mag_context(flags >> (3 * cj) as u32) by {
                lemma_mu_keeps_mag_context(flags, ci, cj);
            }
            assert(enc_all(old(mqc).enc_model(), Seq::<(int, u32)>::empty()) == old(mqc).enc_model());
        }
        let shift = ci * 3;
        proof {
            assert forall|j: u32| j <= 3 implies refinable(flags | (T1_MU_THIS << (3 * ci) as u32), j) == refinable(flags, j) by {
                lemma_mu_keeps_refinable(flags, ci, j);
            }
        }
        if (flags & ((T1_SIGMA_THIS | T1_PI_THIS) << shift)) == (T1_SIGMA_THIS << shift) {
            let ctxt = getctxno_mag(flags >> shift) as usize;
            let abs_data = smr_abs(self.data[datap]);
            let nm = getnmsedec_ref(abs_data, bpno as u32) as i32;
            *nmsedec = *nmsedec + nm;
            let v: u32 = if (abs_data & one) != 0 { 1 } else { 0 };
            mqc.set_curctx(ctxt);
            let ghost m1 = *mqc;
            if pass_type == T1_TYPE_RAW {
                mqc.bypass_enc(v);
            } else {
                mqc.encode(v);
                proof {
                    lemma_encode_model(&m1, &*mqc, v);
                    let s1 = seq![(ctxt as int, v)];
                    assert(s1.drop_last() =~= Seq::<(int, u32)>::empty());
                    assert(s1.len() == 1 && s1.last() == (ctxt as int, v));
                    assert(enc_all(old(mqc).enc_model(), s1) == enc_one(old(mqc).enc_model(), ctxt as int, v as int));
                }
            }
            self.flags.set(fp, flags | (T1_MU_THIS << shift));
        }
    }

    /// Refinement pass over the first `n` rows of the column at `fp`, whose samples start
    /// at `datap`: nothing when none of the column's samples is significant, or, in a full
    /// stripe, when all of them were coded in the significance pass.
    #[verifier::spinoff_prover]
    fn enc_refpass_column(
        &mut self,
        mqc: &mut Mqc,
        fp: usize,
        datap: usize,
        n: usize,
        bpno: i32,
        one: u32,
        nmsedec: &mut i32,
        pass_type: u8,
    )
        requires
            old(self).pass_ready(),
            fp < old(self).flags@.len(),
            1 <= n <= 4,
            datap + n <= old(self).data@.len(),
            0 <= bpno <= 25,
            mq_ready(old(mqc), pass_type == T1_TYPE_RAW),
            old(mqc).bp + 3 * n <= old(mqc).buf@.len(),
            -0x0800_0000 <= *old(nmsedec) <= 0x0800_0000,
        ensures
            final(self).pass_ready(),
            old(self).same_block(&*final(self)),
            final(self).data == old(self).data,
            mq_advanced(&*old(mqc), &*final(mqc), pass_type == T1_TYPE_RAW, 3 * n),
            *old(nmsedec) - 0x8000 * n <= *final(nmsedec) <= *old(nmsedec) + 0x8000 * n,
            *final(nmsedec) == *old(nmsedec) + ref_disto_col(&*old(self), datap as int, fp as int, n as int, bpno as int),
            forall|q: int, j: u32|
                0 <= q < old(self).flags@.len() && j <= 3 ==> #[trigger] refinable(final(self).flags@[q], j)
                    == refinable(old(self).flags@[q], j),
            forall|q: int| 0 <= q < old(self).flags@.len() && q != fp ==> #[trigger] final(self).flags@[q] == old(self).flags@[q],
            pass_type != T1_TYPE_RAW ==> final(mqc).enc_model() == enc_all(
                old(mqc).enc_model(),
                ref_col_syms(old(self).flags@[fp as int], old(self).data@, datap as int, n as int, one),
            ),
    {
        proof {
            reveal(ref_col_syms);
            assert(enc_all(old(mqc).enc_model(), Seq::<(int, u32)>::empty()) == old(mqc).enc_model());
        }
        let any_sigma = T1_SIGMA_4 | T1_SIGMA_7 | T1_SIGMA_10 | T1_SIGMA_13;
        let all_pi = T1_PI_0 | T1_PI_1 | T1_PI_2 | T1_PI_3;
        let flags = self.flags[fp];
        if (flags & any_sigma) != 0 && !(n == 4 && (flags & all_pi) == all_pi) {
            proof {
                reveal(ref_disto_col);
            }
            let mut j: usize = 0;
            while j < n
                invariant
                    self.pass_ready(),
                    old(self).same_block(&*self),
                    self.data == old(self).data,
                    fp < self.flags@.len(),
                    1 <= n <= 4,
                    j <= n,
                    datap + n <= self.data@.len(),
                    0 <= bpno <= 25,
                    mq_advanced(&*old(mqc), &*mqc, pass_type == T1_TYPE_RAW, 3 * j),
                    old(mqc).bp + 3 * n <= old(mqc).buf@.len(),
                    *old(nmsedec) - 0x8000 * j <= *nmsedec <= *old(nmsedec) + 0x8000 * j,
                    -0x0800_0000 <= *old(nmsedec) <= 0x0800_0000,
                    *nmsedec == *old(nmsedec) + ref_disto_col(&*old(self), datap as int, fp as int, j as int, bpno as int),
                    forall|q: int, jb: u32|
                        0 <= q < old(self).flags@.len() && jb <= 3 ==> #[trigger] refinable(self.flags@[q], jb)
                            == refinable(old(self).flags@[q], jb),
                    forall|q: int| 0 <= q < old(self).flags@.len() && q != fp ==> #[trigger] self.flags@[q] == old(self).flags@[q],
                    forall|cj: u32|
                        j <= cj <= 3 ==> #[trigger] mag_context(self.flags@[fp as int] >> (3 * cj) as u32) == mag_context(
                            old(self).flags@[fp as int] >> (3 * cj) as u32,
                        ),
                    pass_type != T1_TYPE_RAW ==> mqc.enc_model() == enc_all(
                        old(mqc).enc_model(),
                        ref_col_syms(old(self).flags@[fp as int], old(self).data@, datap as int, j as int, one),
                    ),
                decreases n - j,
            {
                let ghost pre_syms = ref_col_syms(old(self).flags@[fp as int], old(self).data@, datap as int, j as int, one);
                let ghost pre_flags_fp = self.flags@[fp as int];
                proof {
                    assert(refinable(self.flags@[fp as int], j as u32) == refinable(old(self).flags@[fp as int], j as u32));
                }
                self.enc_refpass_step(mqc, fp, datap + j, bpno, one, nmsedec, pass_type, j as u32);
                proof {
                    reveal(ref_col_syms);
                    assert(mag_context(pre_flags_fp >> (3 * j) as u32) == mag_context(old(self).flags@[fp as int] >> (3 * j) as u32));
                    lemma_enc_all_append(
                        old(mqc).enc_model(),
                        pre_syms,
                        ref_row_syms(old(self).flags@[fp as int], old(self).data@[datap + j], j as u32, one),
                    );
                    reveal(ref_disto_col);
                    assert(ref_disto_col(&*old(self), datap as int, fp as int, j + 1, bpno as int) == ref_disto_col(
                        &*old(self),
                        datap as int,
                        fp as int,
                        j as int,
                        bpno as int,
                    ) + ref_term(&*old(self), datap + j, fp as int, j as int, bpno as int));
                }
                j += 1;
            }
        } else {
            proof {
                assert forall|jb: u32| jb <= 3 implies !#[trigger] refinable(old(self).flags@[fp as int], jb) by {
                    lemma_refpass_skip(flags, jb);
                }
                lemma_ref_disto_col_zero(&*old(self), datap as int, fp as int, n as int, bpno as int);
                lemma_ref_col_syms_none(old(self).flags@[fp as int], old(self).data@, datap as int, n as int, one);
            }
        }
    }

    /// Magnitude refinement pass of the encoder at bit-plane `bpno`, in the given mode
    /// (raw or arithmetic), over the samples in stripe order: codes the bit of each sample
    /// that is significant and was not coded in this bit-plane's significance pass, and
    /// returns the distortion decrease, in the units of the distortion tables: the sum of
    /// those samples' refinement table entries (`ref_disto`). In arithmetic mode the coder
    /// is left as coding the symbols of `ref_pass_syms` in order gives it.
    #[verifier::spinoff_prover]
    pub fn enc_refpass(&mut self, mqc: &mut Mqc, bpno: i32, pass_type: u8) -> (r: i32)
        requires
            old(self).pass_ready(),
            0 <= bpno <= 25,
            mq_ready(old(mqc), pass_type == T1_TYPE_RAW),
            old(mqc).bp + 3 * (old(self).w * old(self).h) <= old(mqc).buf@.len(),
        ensures
            final(self).pass_ready(),
            old(self).same_block(&*final(self)),
            final(self).data == old(self).data,
            mq_advanced(&*old(mqc), &*final(mqc), pass_type == T1_TYPE_RAW, 3 * (old(self).w * old(self).h)),
            r == ref_disto(&*old(self), (old(self).h + 3) / 4, bpno as int),
            forall|q: int, j: u32|
                0 <= q < old(self).flags@.len() && j <= 3 ==> #[trigger] refinable(final(self).flags@[q], j)
                    == refinable(old(self).flags@[q], j),
            pass_type != T1_TYPE_RAW ==> final(mqc).enc_model() == enc_all(
                old(mqc).enc_model(),
                ref_pass_syms(
                    old(self).flags@,
                    old(self).data@,
                    old(self).w as int,
                    old(self).h as int,
                    (old(self).h + 3) / 4,
                    plane_bit(bpno),
                ),
            ),
    {
        proof {
            reveal(ref_pass_syms);
            assert(enc_all(old(mqc).enc_model(), Seq::<(int, u32)>::empty()) == old(mqc).enc_model());
        }
        let mut nmsedec: i32 = 0;
        proof {
            reveal(ref_disto);
        }
        let one = 1u32 << (bpno as u32 + T1_NMSEDEC_FRACBITS);
        let w = self.w as usize;
        let h = self.h as usize;
        let stride = w + 2;
        let full = h / 4;
        let k = full * 4;
        let rows_last: usize = if k < h { h - k } else { 0 };
        let stripes = if k < h { full + 1 } else { full };
        let mut datap: usize = 0;
        let mut fp: usize = stride + 1;
        let mut s: usize = 0;
        while s < stripes
            invariant
                self.pass_ready(),
                old(self).same_block(&*self),
                self.data == old(self).data,
                w == self.w && h == self.h && stride == w + 2 && full == h / 4 && k == 4 * full,
                rows_last == (if k < h { h - k } else { 0 }),
                stripes == (h + 3) / 4,
                0 <= bpno <= 25,
                s <= stripes,
                datap == (if 4 * s <= h { 4 * s * w } else { w * h }),
                datap <= w * h,
                fp == (s + 1) * stride + 1,
                mq_advanced(&*old(mqc), &*mqc, pass_type == T1_TYPE_RAW, 3 * datap),
                old(mqc).bp + 3 * (w * h) <= old(mqc).buf@.len(),
                -0x8000 * datap <= nmsedec <= 0x8000 * datap,
                nmsedec == ref_disto(&*old(self), s as int, bpno as int),
                one == plane_bit(bpno),
                forall|q: int| fp <= q < old(self).flags@.len() ==> #[trigger] self.flags@[q] == old(self).flags@[q],
                pass_type != T1_TYPE_RAW ==> mqc.enc_model() == enc_all(
                    old(mqc).enc_model(),
                    ref_pass_syms(old(self).flags@, old(self).data@, w as int, h as int, s as int, one),
                ),
                forall|q: int, jb: u32|
                    0 <= q < old(self).flags@.len() && jb <= 3 ==> #[trigger] refinable(self.flags@[q], jb)
                        == refinable(old(self).flags@[q], jb),
            decreases stripes - s,
        {
            let n = if s < full { 4 } else { rows_last };
            proof {
                reveal(ref_disto_stripe);
                reveal(ref_stripe_syms);
                assert(n == stripe_rows(h as int, s as int));
                let pp = ref_pass_syms(old(self).flags@, old(self).data@, w as int, h as int, s as int, one);
                assert(pp + Seq::<(int, u32)>::empty() =~= pp);
            }
            let mut i: usize = 0;
            while i < w
                invariant
                    self.pass_ready(),
                    old(self).same_block(&*self),
                    self.data == old(self).data,
                    w == self.w && h == self.h && stride == w + 2 && full == h / 4 && k == 4 * full,
                    rows_last == (if k < h { h - k } else { 0 }),
                    stripes == (h + 3) / 4,
                    n == (if s < full { 4 } else { rows_last }),
                    1 <= n <= 4,
                    0 <= bpno <= 25,
                    s < stripes,
                    i <= w,
                    datap == 4 * s * w + n * i,
                    fp == (s + 1) * stride + i + 1,
                    mq_advanced(&*old(mqc), &*mqc, pass_type == T1_TYPE_RAW, 3 * datap),
                    old(mqc).bp + 3 * (w * h) <= old(mqc).buf@.len(),
                    -0x8000 * datap <= nmsedec <= 0x8000 * datap,
                    n == stripe_rows(h as int, s as int),
                    nmsedec == ref_disto(&*old(self), s as int, bpno as int) + ref_disto_stripe(
                        &*old(self),
                        s as int,
                        i as int,
                        bpno as int,
                    ),
                    forall|q: int, jb: u32|
                        0 <= q < old(self).flags@.len() && jb <= 3 ==> #[trigger] refinable(self.flags@[q], jb)
                            == refinable(old(self).flags@[q], jb),
                    one == plane_bit(bpno),
                    forall|q: int| fp <= q < old(self).flags@.len() ==> #[trigger] self.flags@[q] == old(self).flags@[q],
                    pass_type != T1_TYPE_RAW ==> mqc.enc_model() == enc_all(
                        old(mqc).enc_model(),
                        ref_pass_syms(old(self).flags@, old(self).data@, w as int, h as int, s as int, one) + ref_stripe_syms(
                            old(self).flags@,
                            old(self).data@,
                            w as int,
                            h as int,
                            s as int,
                            i as int,
                            one,
                        ),
                    ),
                decreases w - i,
            {
                proof {
                    lemma_column(w as int, h as int, s as int, i as int);
                    lemma_stripe_data(w as int, h as int, s as int, n as int, i as int);
                }
                let ghost mid: T1 = *self;
                self.enc_refpass_column(mqc, fp, datap, n, bpno, one, &mut nmsedec, pass_type);
                proof {
                    assert forall|jb: u32| jb <= 3 implies #[trigger] refinable(mid.flags@[fp as int], jb) == refinable(
                        old(self).flags@[fp as int],
                        jb,
                    ) by {}
                    lemma_ref_disto_col_same(&*old(self), &mid, datap as int, fp as int, n as int, bpno as int);
                    reveal(ref_stripe_syms);
                    let pp = ref_pass_syms(old(self).flags@, old(self).data@, w as int, h as int, s as int, one);
                    let ss = ref_stripe_syms(old(self).flags@, old(self).data@, w as int, h as int, s as int, i as int, one);
                    let cc = ref_col_syms(old(self).flags@[fp as int], old(self).data@, datap as int, n as int, one);
                    lemma_enc_all_append(old(mqc).enc_model(), pp + ss, cc);
                    assert((pp + ss) + cc =~= pp + (ss + cc));
                    reveal(ref_disto_stripe);
                    assert(ref_disto_stripe(&*old(self), s as int, i + 1, bpno as int) == ref_disto_stripe(
                        &*old(self),
                        s as int,
                        i as int,
                        bpno as int,
                    ) + ref_disto_col(&*old(self), datap as int, fp as int, n as int, bpno as int));
                }
                datap += n;
                fp += 1;
                i += 1;
            }
            proof {
                lemma_column(w as int, h as int, s as int, w as int);
                lemma_stripe_end(w as int, h as int, s as int, n as int);
                reveal(ref_disto);
                reveal(ref_pass_syms);
                assert(ref_disto(&*old(self), s + 1, bpno as int) == ref_disto(&*old(self), s as int, bpno as int)
                    + ref_disto_stripe(&*old(self), s as int, w as int, bpno as int));
            }
            fp += 2;
            s += 1;
        }
        nmsedec
    }

    /// Clean-up pass over rows `runlen..lim` of the column at `fp`, whose row `runlen`
    /// is sample `datap`. When all four samples of the column are significant and were
    /// visited, only the visited marks from row `runlen` on are cleared. Otherwise each
    /// row not yet significant nor visited has its significance bit coded (except row
    /// `runlen` after a run, which is known to be significant), a newly significant sample
    /// has its sign coded, and every row's visited mark is cleared.
    #[verifier::spinoff_prover]
    fn enc_clnpass_step(
        &mut self,
        mqc: &mut Mqc,
        fp: usize,
        datap: usize,
        bpno: i32,
        one: u32,
        nmsedec: &mut i32,
        agg: bool,
        runlen: u32,
        lim: u32,
        cblksty: u32,
    )
        requires
            old(self).pass_ready(),
            old(self).w + 2 + 1 <= fp,
            fp + old(self).w + 2 + 1 < old(self).flags@.len(),
            runlen <= lim <= 4,
            datap + (lim - runlen) <= old(self).data@.len(),
            0 <= bpno <= 25,
            old(mqc).enc_wf(),
            old(mqc).bp + 6 * (lim - runlen) <= old(mqc).buf@.len(),
            -0x0800_0000 <= *old(nmsedec) <= 0x0800_0000,
        ensures
            final(self).pass_ready(),
            old(self).same_block(&*final(self)),
            final(self).data == old(self).data,
            mq_advanced(&*old(mqc), &*final(mqc), false, 6 * (lim - runlen)),
            *old(nmsedec) - 0x8000 * (lim - runlen) <= *final(nmsedec) <= *old(nmsedec) + 0x8000 * (lim - runlen),
    {
        let nf = self.flags.len();
        let check = T1_SIGMA_4 | T1_SIGMA_7 | T1_SIGMA_10 | T1_SIGMA_13 | T1_PI_0 | T1_PI_1 | T1_PI_2 | T1_PI_3;
        let f0 = self.flags[fp];
        if (f0 & check) == check {
            if runlen == 0 {
                self.flags.set(fp, f0 & !(T1_PI_0 | T1_PI_1 | T1_PI_2 | T1_PI_3));
            } else if runlen == 1 {
                self.flags.set(fp, f0 & !(T1_PI_1 | T1_PI_2 | T1_PI_3));
            } else if runlen == 2 {
                self.flags.set(fp, f0 & !(T1_PI_2 | T1_PI_3));
            } else if runlen == 3 {
                self.flags.set(fp, f0 & !T1_PI_3);
            }
            return;
        }
        let mut l_datap = datap;
        let mut ci = runlen;
        while ci < lim
            invariant
                self.pass_ready(),
                old(self).same_block(&*self),
                self.data == old(self).data,
                self.w + 2 + 1 <= fp,
                fp + self.w + 2 + 1 < self.flags@.len(),
                self.flags@.len() == nf,
                runlen <= ci <= lim <= 4,
                l_datap == datap + (ci - runlen),
                datap + (lim - runlen) <= self.data@.len(),
                0 <= bpno <= 25,
                mq_advanced(&*old(mqc), &*mqc, false, 6 * (ci - runlen)),
                old(mqc).bp + 6 * (lim - runlen) <= old(mqc).buf@.len(),
                *old(nmsedec) - 0x8000 * (ci - runlen) <= *nmsedec <= *old(nmsedec) + 0x8000 * (ci - runlen),
                -0x0800_0000 <= *old(nmsedec) <= 0x0800_0000,
            decreases lim - ci,
        {
            let mut partial = false;
            if agg && ci == runlen {
                partial = true;
            } else if (self.flags[fp] & ((T1_SIGMA_THIS | T1_PI_THIS) << (ci * 3))) == 0 {
                let ctxt1 = self.zc_ctx(self.flags[fp] >> (ci * 3));
                let v: u32 = if (smr_abs(self.data[l_datap]) & one) != 0 { 1 } else { 0 };
                mqc.set_curctx(ctxt1);
                mqc.encode(v);
                if v != 0 {
                    partial = true;
                }
            }
            if partial {
                let lu = getctxtno_sc_or_spb_index(self.flags[fp], self.flags[fp - 1], self.flags[fp + 1], ci);
                let nm = getnmsedec_sig(smr_abs(self.data[l_datap]), bpno as u32) as i32;
                *nmsedec = *nmsedec + nm;
                proof {
                    lemma_sc_contexts();
                }
                let ctxt2 = getctxno_sc(lu) as usize;
                mqc.set_curctx(ctxt2);
                let sign = smr_sign(self.data[l_datap]);
                let spb = getspb(lu) as u32;
                mqc.encode(sign ^ spb);
                let vsc = (cblksty & J2K_CCP_CBLKSTY_VSC) != 0 && ci == 0;
                let stride = self.flags_stride();
                update_flags(self.flags.as_mut_slice(), fp, ci, sign, stride, vsc);
            }
            let f = self.flags[fp];
            self.flags.set(fp, f & !(T1_PI_THIS << (3 * ci)));
            l_datap += 1;
            ci += 1;
        }
    }

    /// Clean-up pass of the encoder at bit-plane `bpno`, over the samples in stripe order,
    /// with run-length coding of the full-stripe columns whose flags are all clear;
    /// returns the distortion decrease, in the units of the distortion tables.
    #[verifier::spinoff_prover]
    pub fn enc_clnpass(&mut self, mqc: &mut Mqc, bpno: i32, cblksty: u32) -> (r: i32)
        requires
            old(self).pass_ready(),
            0 <= bpno <= 25,
            old(mqc).enc_wf(),
            old(mqc).bp + 9 * (old(self).w * old(self).h) <= old(mqc).buf@.len(),
        ensures
            final(self).pass_ready(),
            old(self).same_block(&*final(self)),
            final(self).data == old(self).data,
            mq_advanced(&*old(mqc), &*final(mqc), false, 9 * (old(self).w * old(self).h)),
    {
        let mut nmsedec: i32 = 0;
        let one = 1u32 << (bpno as u32 + T1_NMSEDEC_FRACBITS);
        let w = self.w as usize;
        let h = self.h as usize;
        let stride = w + 2;
        let full = h / 4;
        let k = full * 4;
        let rows_last: usize = if k < h { h - k } else { 0 };
        let stripes = if k < h { full + 1 } else { full };
        let mut datap: usize = 0;
        let mut fp: usize = stride + 1;
        let mut s: usize = 0;
        while s < stripes
            invariant
                self.pass_ready(),
                old(self).same_block(&*self),
                self.data == old(self).data,
                w == self.w && h == self.h && stride == w + 2 && full == h / 4 && k == 4 * full,
                rows_last == (if k < h { h - k } else { 0 }),
                stripes == (h + 3) / 4,
                0 <= bpno <= 25,
                s <= stripes,
                datap == (if 4 * s <= h { 4 * s * w } else { w * h }),
                datap <= w * h,
                fp == (s + 1) * stride + 1,
                mq_advanced(&*old(mqc), &*mqc, false, 9 * datap),
                old(mqc).bp + 9 * (w * h) <= old(mqc).buf@.len(),
                -0x8000 * datap <= nmsedec <= 0x8000 * datap,
            decreases stripes - s,
        {
            let n = if s < full { 4 } else { rows_last };
            let mut i: usize = 0;
            while i < w
                invariant
                    self.pass_ready(),
                    old(self).same_block(&*self),
                    self.data == old(self).data,
                    w == self.w && h == self.h && stride == w + 2 && full == h / 4 && k == 4 * full,
                    rows_last == (if k < h { h - k } else { 0 }),
                    stripes == (h + 3) / 4,
                    n == (if s < full { 4 } else { rows_last }),
                    1 <= n <= 4,
                    0 <= bpno <= 25,
                    s < stripes,
                    i <= w,
                    datap == 4 * s * w + n * i,
                    fp == (s + 1) * stride + i + 1,
                    mq_advanced(&*old(mqc), &*mqc, false, 9 * datap),
                    old(mqc).bp + 9 * (w * h) <= old(mqc).buf@.len(),
                    -0x8000 * datap <= nmsedec <= 0x8000 * datap,
                decreases w - i,
            {
                proof {
                    lemma_column(w as int, h as int, s as int, i as int);
                    lemma_stripe_data(w as int, h as int, s as int, n as int, i as int);
                }
                if n == 4 {
                    self.enc_clnpass_column(mqc, fp, datap, bpno, one, &mut nmsedec, cblksty);
                } else {
                    self.enc_clnpass_step(mqc, fp, datap, bpno, one, &mut nmsedec, false, 0, n as u32, cblksty);
                }
                datap += n;
                fp += 1;
                i += 1;
            }
            proof {
                lemma_column(w as int, h as int, s as int, w as int);
                lemma_stripe_end(w as int, h as int, s as int, n as int);
            }
            fp += 2;
            s += 1;
        }
        nmsedec
    }

    /// Clean-up pass over the full-stripe column at `fp`, whose four samples start at
    /// `datap`: when its flags are all clear, a run-length symbol says whether any sample
    /// becomes significant in this bit-plane and, if one does, two uniform symbols give
    /// the row of the first; the rows from there on are then coded one by one.
    #[verifier::spinoff_prover]
    fn enc_clnpass_column(
        &mut self,
        mqc: &mut Mqc,
        fp: usize,
        datap: usize,
        bpno: i32,
        one: u32,
        nmsedec: &mut i32,
        cblksty: u32,
    )
        requires
            old(self).pass_ready(),
            old(self).w + 2 + 1 <= fp,
            fp + old(self).w + 2 + 1 < old(self).flags@.len(),
            datap + 4 <= old(self).data@.len(),
            0 <= bpno <= 25,
            old(mqc).enc_wf(),
            old(mqc).bp + 36 <= old(mqc).buf@.len(),
            -0x0800_0000 <= *old(nmsedec) <= 0x0800_0000,
        ensures
            final(self).pass_ready(),
            old(self).same_block(&*final(self)),
            final(self).data == old(self).data,
            mq_advanced(&*old(mqc), &*final(mqc), false, 36),
            *old(nmsedec) - 0x8000 * 4 <= *final(nmsedec) <= *old(nmsedec) + 0x8000 * 4,
    {
        let agg = self.flags[fp] == 0;
        let mut runlen: u32 = 0;
        if agg {
            let nd = self.data.len();
            while runlen < 4 && (smr_abs(self.data[datap + runlen as usize]) & one) == 0
                invariant
                    runlen <= 4,
                    datap + 4 <= nd,
                    nd == self.data@.len(),
                decreases 4 - runlen,
            {
                runlen += 1;
            }
            mqc.set_curctx(T1_CTXNO_AGG);
            mqc.encode(if runlen != 4 { 1 } else { 0 });
            if runlen == 4 {
                return;
            }
            mqc.set_curctx(T1_CTXNO_UNI);
            mqc.encode(runlen >> 1);
            mqc.encode(runlen & 1);
        }
        self.enc_clnpass_step(mqc, fp, datap + runlen as usize, bpno, one, nmsedec, agg, runlen, 4, cblksty);
    }
}

/// Where the samples of column `i` of stripe `s`, which holds `n` rows, lie in the
/// encoder's stripe-ordered data.
#[verifier::spinoff_prover]
proof fn lemma_stripe_data(w: int, h: int, s: int, n: int, i: int)
    requires
        0 <= s,
        0 <= i < w,
        w <= 1024,
        1 <= n <= 4,
        n == (if s < h / 4 { 4 } else { h - 4 * (h / 4) }),
        s < (h + 3) / 4,
    ensures
        4 * s * w + n * i + n <= w * h,
        n * (i + 1) == n * i + n,
        0 <= 4 * s * w + n * i,
{
    assert(4 * s * w + n * i + n <= 4 * s * w + n * w) by (nonlinear_arith)
        requires
            i + 1 <= w,
            n >= 0,
    ;
    assert(4 * s + n <= h);
    assert(4 * s * w + n * w == (4 * s + n) * w) by (nonlinear_arith);
    assert((4 * s + n) * w <= w * h) by (nonlinear_arith)
        requires
            4 * s + n <= h,
            w >= 0,
    ;
    assert(n * (i + 1) == n * i + n) by (nonlinear_arith);
    assert(0 <= 4 * s * w + n * i) by (nonlinear_arith)
        requires
            s >= 0,
            w >= 0,
            i >= 0,
            n >= 0,
    ;
}

/// After the last column of stripe `s`, the data position and flag word move on to the
/// next stripe.
#[verifier::spinoff_prover]
proof fn lemma_stripe_end(w: int, h: int, s: int, n: int)
    requires
        0 <= s < (h + 3) / 4,
        0 <= w,
        0 <= h,
        n == (if s < h / 4 { 4 } else { h - 4 * (h / 4) }),
    ensures
        4 * s * w + n * w == (if 4 * (s + 1) <= h { 4 * (s + 1) * w } else { w * h }),
        4 * s * w + n * w <= w * h,
        (s + 2) * (w + 2) == (s + 1) * (w + 2) + (w + 2),
{
    assert(4 * s * w + n * w == (4 * s + n) * w) by (nonlinear_arith);
    assert((s + 2) * (w + 2) == (s + 1) * (w + 2) + (w + 2)) by (nonlinear_arith);
    assert(4 * s + n <= h);
    assert((4 * s + n) * w <= h * w) by (nonlinear_arith)
        requires
            4 * s + n <= h,
            w >= 0,
    ;
    assert(h * w == w * h) by (nonlinear_arith);
    if s < h / 4 {
        assert((4 * s + 4) * w == 4 * (s + 1) * w) by (nonlinear_arith);
    } else {
        assert(4 * s + n == h);
    }
}

} // verus!

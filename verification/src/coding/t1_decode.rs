//! The decoding passes of tier-1: significance propagation and magnitude refinement, in
//! arithmetic or raw mode, and clean-up. The decoder's coefficients are kept row by row.
use vstd::prelude::*;
use crate::coding::mqc::{
    DecModel, MQC_NUMCTXS, Mqc, bytein_at, dec_step, lemma_decode_model, lemma_raw_decode_model, raw_step,
};
use crate::coding::t1::{DecodeSegment, T1, getctxno_mag, getctxno_sc, getctxtno_sc_or_spb_index, getspb, sc_index, update_flags};
use crate::coding::t1_luts::{LUT_CTXNO_SC, LUT_SPB};
use crate::coding::t1_passes::{
    flags_after_significance, lemma_column, lemma_column_word, lemma_mu_keeps_refinable, lemma_sc_contexts, mag_context, refinable,
    sig_coded,
    stripe_rows, zc_context,
};
use crate::error::{Result, invalid};
use crate::types::{
    COMMON_CBLK_DATA_EXTRA, J2K_CCP_CBLKSTY_LAZY, J2K_CCP_CBLKSTY_RESET, J2K_CCP_CBLKSTY_SEGSYM, J2K_CCP_CBLKSTY_VSC, T1_CTXNO_AGG, T1_CTXNO_UNI, T1_CTXNO_ZC, T1_MU_THIS, T1_PI_0, T1_PI_1,
    T1_PI_2, T1_PI_3, T1_PI_THIS, T1_SIGMA_NEIGHBOURS, T1_SIGMA_THIS,
};

verus! {

/// Whether the decoder is ready to decode in the pass's mode: raw or arithmetic.
pub open spec fn dec_ready(mqc: &Mqc, raw: bool) -> bool {
    if raw {
        mqc.raw_wf()
    } else {
        mqc.dec_wf()
    }
}

/// Whether `after` is the decoder `before` after decoding in the pass's mode: still
/// ready, over the same input.
pub open spec fn dec_kept(before: &Mqc, after: &Mqc, raw: bool) -> bool {
    &&& dec_ready(after, raw)
    &&& after.start == before.start
    &&& after.end == before.end
    &&& after.buf@ == before.buf@
}

/// Index of the sample `j` rows below sample `datap` in data of width `w`.
pub open spec fn sample_at(datap: int, j: int, w: int) -> int {
    datap + j * w
}

/// Where row `j` of column `i` of stripe `s`, which holds `n` rows, lies in the decoder's
/// row-ordered data.
#[verifier::spinoff_prover]
proof fn lemma_dec_sample(w: int, h: int, s: int, n: int, i: int, j: int)
    requires
        0 <= s,
        0 <= i < w,
        0 <= j < n,
        4 * s + n <= h,
        w <= 1024,
    ensures
        0 <= 4 * s * w + i + j * w < w * h,
        0 <= j * w <= 3 * 1024 || j > 3,
{
    assert(4 * s * w + i + j * w == (4 * s + j) * w + i) by (nonlinear_arith);
    assert((4 * s + j) * w + i < (4 * s + j + 1) * w) by (nonlinear_arith)
        requires
            i < w,
    ;
    assert((4 * s + j + 1) * w <= h * w) by (nonlinear_arith)
        requires
            4 * s + j + 1 <= h,
            w >= 0,
    ;
    assert(h * w == w * h) by (nonlinear_arith);
    assert(0 <= (4 * s + j) * w + i) by (nonlinear_arith)
        requires
            s >= 0,
            j >= 0,
            w >= 0,
            i >= 0,
    ;
    assert(j <= 3 ==> 0 <= j * w <= 3 * 1024) by (nonlinear_arith)
        requires
            0 <= j,
            0 <= w <= 1024,
    ;
}

/// The next stripe of the decoder's data starts four rows further on.
#[verifier::spinoff_prover]
proof fn lemma_dec_stripe_end(w: int, h: int, s: int)
    requires
        0 <= s < (h + 3) / 4,
        0 <= w <= 1024,
        0 <= h,
        w * h <= 4096,
    ensures
        4 * s * w + w + 3 * w == 4 * (s + 1) * w,
        4 * (s + 1) * w <= 8192,
        (s + 2) * (w + 2) == (s + 1) * (w + 2) + (w + 2),
{
    assert(4 * s * w + w + 3 * w == 4 * (s + 1) * w) by (nonlinear_arith);
    assert((s + 2) * (w + 2) == (s + 1) * (w + 2) + (w + 2)) by (nonlinear_arith);
    assert(4 * (s + 1) <= h + 3);
    assert(4 * (s + 1) * w <= (h + 3) * w) by (nonlinear_arith)
        requires
            4 * (s + 1) <= h + 3,
            w >= 0,
    ;
    assert((h + 3) * w == w * h + 3 * w) by (nonlinear_arith);
}

/// Whether `after` is `before` moved by `step` up or down, with 32-bit wrap-around.
pub open spec fn half_step(before: i32, after: i32, step: i32) -> bool {
    after == before.wrapping_add(step) || after == before.wrapping_add((-step) as i32)
}

/// What the clean-up pass works on: the flags, the coefficients and the decoder.
pub type ClnState = (Seq<u32>, Seq<i32>, DecModel);

/// The clean-up pass over sample `datap`, row `ci` of the column whose flag word is at
/// `fp`, reading the input of `base`. With `check_flags`, a sample already significant or
/// visited is left alone. Unless `partial` (the sample is known to be significant after a
/// run), its significance bit is decoded in its zero-coding context; a significant sample
/// then has its sign decoded in its sign context (against the sign prediction), which
/// sets it to `oph` or its opposite and records it in the flags.
#[verifier::opaque]
pub open spec fn cln_sample(
    bytes: Seq<u8>,
    end: int,
    st: ClnState,
    fp: int,
    datap: int,
    ci: u32,
    oph: i32,
    check_flags: bool,
    partial: bool,
    vsc: bool,
    zoff: usize,
    stride: int,
) -> ClnState {
    let f = st.0[fp];
    if check_flags && (f & ((T1_SIGMA_THIS | T1_PI_THIS) << (3 * ci) as u32)) != 0 {
        st
    } else {
        let first = dec_step(bytes, end, st.2, zc_context(zoff, f >> (3 * ci) as u32));
        if !partial && first.0 == 0 {
            (st.0, st.1, first.1)
        } else {
            let m1 = if partial { st.2 } else { first.1 };
            let lu = sc_index(f, st.0[fp - 1], st.0[fp + 1], ci);
            let sgn = dec_step(bytes, end, m1, LUT_CTXNO_SC@[lu as int] as int);
            let v = sgn.0 ^ (LUT_SPB@[lu as int] as u32);
            (
                flags_after_significance(st.0, fp, ci, v, stride, vsc),
                st.1.update(datap, if v != 0 { (0 - oph) as i32 } else { oph }),
                sgn.1,
            )
        }
    }
}

/// The significance pass over sample `datap`, row `ci` of the column whose flag word is
/// at `fp`, reading the input of `base` raw or through the arithmetic decoder. A sample
/// that the pass decodes (see `sig_coded`) has its significance bit read, in its
/// zero-coding context unless raw; a significant sample then has its sign read (in its
/// sign context, against the sign prediction, unless raw), which sets it to `oph` or its
/// opposite and records it in the flags. A decoded sample is then marked visited.
#[verifier::opaque]
pub open spec fn sig_sample(
    bytes: Seq<u8>,
    end: int,
    st: ClnState,
    fp: int,
    datap: int,
    ci: u32,
    oph: i32,
    vsc: bool,
    raw: bool,
    zoff: usize,
    stride: int,
) -> ClnState {
    let f = st.0[fp];
    if sig_coded(f, ci) {
        let bit = if raw { raw_step(bytes, end, st.2) } else { dec_step(bytes, end, st.2, zc_context(zoff, f >> (3 * ci) as u32)) };
        let after: ClnState = if bit.0 == 0 {
            (st.0, st.1, bit.1)
        } else {
            let lu = sc_index(f, st.0[fp - 1], st.0[fp + 1], ci);
            let sgn = if raw { raw_step(bytes, end, bit.1) } else { dec_step(bytes, end, bit.1, LUT_CTXNO_SC@[lu as int] as int) };
            let v = if raw { sgn.0 } else { sgn.0 ^ (LUT_SPB@[lu as int] as u32) };
            (
                flags_after_significance(st.0, fp, ci, v, stride, vsc),
                st.1.update(datap, if v != 0 { (0 - oph) as i32 } else { oph }),
                sgn.1,
            )
        };
        (after.0.update(fp, after.0[fp] | (T1_PI_THIS << (3 * ci) as u32)), after.1, after.2)
    } else {
        st
    }
}

/// The significance pass over the first `j` rows of the column whose flag word is at `fp`
/// and whose row 0 is sample `datap`, rows `w` samples apart; the stripe-causal mode
/// `vsc0` applies to row 0.
#[verifier::opaque]
pub open spec fn sig_rows(
    bytes: Seq<u8>,
    end: int,
    st: ClnState,
    fp: int,
    datap: int,
    w: int,
    j: int,
    oph: i32,
    vsc0: bool,
    raw: bool,
    zoff: usize,
) -> ClnState
    decreases j,
{
    if j <= 0 {
        st
    } else {
        let prev = sig_rows(bytes, end, st, fp, datap, w, j - 1, oph, vsc0, raw, zoff);
        sig_sample(bytes, end, prev, fp, datap + (j - 1) * w, (j - 1) as u32, oph, vsc0 && j == 1, raw, zoff, w + 2)
    }
}

/// The significance pass over the first `i` columns of stripe `s` of a `w` by `h` code
/// block, whose coefficients the decoder holds row by row.
#[verifier::opaque]
pub open spec fn sig_dec_stripe(
    bytes: Seq<u8>,
    end: int,
    st: ClnState,
    w: int,
    h: int,
    s: int,
    i: int,
    oph: i32,
    vsc0: bool,
    raw: bool,
    zoff: usize,
) -> ClnState
    decreases i,
{
    if i <= 0 {
        st
    } else {
        let prev = sig_dec_stripe(bytes, end, st, w, h, s, i - 1, oph, vsc0, raw, zoff);
        sig_rows(bytes, end, prev, (s + 1) * (w + 2) + i, 4 * s * w + i - 1, w, stripe_rows(h, s), oph, vsc0, raw, zoff)
    }
}

/// The decoder's significance pass over the first `s` stripes of a `w` by `h` code block.
#[verifier::opaque]
pub open spec fn sig_dec_pass(
    bytes: Seq<u8>,
    end: int,
    st: ClnState,
    w: int,
    h: int,
    s: int,
    oph: i32,
    vsc0: bool,
    raw: bool,
    zoff: usize,
) -> ClnState
    decreases s,
{
    if s <= 0 {
        st
    } else {
        let prev = sig_dec_pass(bytes, end, st, w, h, s - 1, oph, vsc0, raw, zoff);
        sig_dec_stripe(bytes, end, prev, w, h, s - 1, w, oph, vsc0, raw, zoff)
    }
}

/// A column whose flag word is clear is left as it was by the significance pass.
proof fn lemma_sig_rows_clear(
    bytes: Seq<u8>,
    end: int,
    st: ClnState,
    fp: int,
    datap: int,
    w: int,
    j: int,
    oph: i32,
    vsc0: bool,
    raw: bool,
    zoff: usize,
)
    requires
        0 <= fp < st.0.len(),
        st.0[fp] == 0,
        j <= 4,
    ensures
        sig_rows(bytes, end, st, fp, datap, w, j, oph, vsc0, raw, zoff) == st,
    decreases j,
{
    reveal(sig_rows);
    reveal(sig_sample);
    if j > 0 {
        lemma_sig_rows_clear(bytes, end, st, fp, datap, w, j - 1, oph, vsc0, raw, zoff);
        lemma_column_word(0u32, 0, (j - 1) as u32);
    }
}

/// The refinement pass over sample `datap`, row `ci` of the column whose flag word is at
/// `fp`, reading the input of `base` raw or through the arithmetic decoder (in its
/// magnitude-refinement context): a sample that takes part (see `refinable`) has its bit
/// read, which moves it `step` away from zero when set and towards zero otherwise (with
/// 32-bit wrap-around), and is marked refined.
#[verifier::opaque]
pub open spec fn ref_sample(bytes: Seq<u8>, end: int, st: ClnState, fp: int, datap: int, ci: u32, step: i32, raw: bool) -> ClnState {
    let f = st.0[fp];
    if refinable(f, ci) {
        let bit = if raw { raw_step(bytes, end, st.2) } else { dec_step(bytes, end, st.2, mag_context(f >> (3 * ci) as u32)) };
        let cur = st.1[datap];
        let neg: u32 = if cur < 0 { 1 } else { 0 };
        let delta = if (bit.0 ^ neg) != 0 { step } else { (0 - step) as i32 };
        (st.0.update(fp, f | (T1_MU_THIS << (3 * ci) as u32)), st.1.update(datap, cur.wrapping_add(delta)), bit.1)
    } else {
        st
    }
}

/// The refinement pass over the first `j` rows of the column whose flag word is at `fp`
/// and whose row 0 is sample `datap`, rows `w` samples apart.
#[verifier::opaque]
pub open spec fn ref_rows(bytes: Seq<u8>, end: int, st: ClnState, fp: int, datap: int, w: int, j: int, step: i32, raw: bool) -> ClnState
    decreases j,
{
    if j <= 0 {
        st
    } else {
        let prev = ref_rows(bytes, end, st, fp, datap, w, j - 1, step, raw);
        ref_sample(bytes, end, prev, fp, datap + (j - 1) * w, (j - 1) as u32, step, raw)
    }
}

/// The refinement pass over the first `i` columns of stripe `s` of a `w` by `h` code block.
#[verifier::opaque]
pub open spec fn ref_dec_stripe(bytes: Seq<u8>, end: int, st: ClnState, w: int, h: int, s: int, i: int, step: i32, raw: bool) -> ClnState
    decreases i,
{
    if i <= 0 {
        st
    } else {
        let prev = ref_dec_stripe(bytes, end, st, w, h, s, i - 1, step, raw);
        ref_rows(bytes, end, prev, (s + 1) * (w + 2) + i, 4 * s * w + i - 1, w, stripe_rows(h, s), step, raw)
    }
}

/// The decoder's refinement pass over the first `s` stripes of a `w` by `h` code block.
#[verifier::opaque]
pub open spec fn ref_dec_pass(bytes: Seq<u8>, end: int, st: ClnState, w: int, h: int, s: int, step: i32, raw: bool) -> ClnState
    decreases s,
{
    if s <= 0 {
        st
    } else {
        let prev = ref_dec_pass(bytes, end, st, w, h, s - 1, step, raw);
        ref_dec_stripe(bytes, end, prev, w, h, s - 1, w, step, raw)
    }
}

/// A column whose flag word is clear is left as it was by the refinement pass.
proof fn lemma_ref_rows_clear(bytes: Seq<u8>, end: int, st: ClnState, fp: int, datap: int, w: int, j: int, step: i32, raw: bool)
    requires
        0 <= fp < st.0.len(),
        st.0[fp] == 0,
        j <= 4,
    ensures
        ref_rows(bytes, end, st, fp, datap, w, j, step, raw) == st,
    decreases j,
{
    reveal(ref_rows);
    reveal(ref_sample);
    if j > 0 {
        lemma_ref_rows_clear(bytes, end, st, fp, datap, w, j - 1, step, raw);
        lemma_column_word(0u32, 0, (j - 1) as u32);
    }
}

/// The clean-up pass over rows `start..j` of the column whose flag word is at `fp` and
/// whose row 0 is sample `datap`, rows `w` samples apart; `partial0` marks the first of
/// these rows as known to be significant, and the stripe-causal mode `vsc0` applies to
/// row 0.
#[verifier::opaque]
pub open spec fn cln_rows(
    bytes: Seq<u8>,
    end: int,
    st: ClnState,
    fp: int,
    datap: int,
    w: int,
    start: int,
    j: int,
    oph: i32,
    check_flags: bool,
    partial0: bool,
    vsc0: bool,
    zoff: usize,
) -> ClnState
    decreases j - start,
{
    if j <= start {
        st
    } else {
        let prev = cln_rows(bytes, end, st, fp, datap, w, start, j - 1, oph, check_flags, partial0, vsc0, zoff);
        cln_sample(
            bytes,
            end,
            prev,
            fp,
            datap + (j - 1) * w,
            (j - 1) as u32,
            oph,
            check_flags,
            partial0 && j - 1 == start,
            vsc0 && j - 1 == 0,
            zoff,
            w + 2,
        )
    }
}

/// The visited marks of all four rows of a column.
pub open spec fn pi_rows() -> u32 {
    T1_PI_0 | T1_PI_1 | T1_PI_2 | T1_PI_3
}

/// The clean-up pass over the first `n` rows of the column whose flag word is at `fp`
/// and whose row 0 is sample `datap`, rows `w` samples apart. A full column whose flags
/// are all clear starts with a run-length symbol in the aggregation context: 0 leaves
/// the column as it was; otherwise two symbols in the uniform context give the row of
/// the first significant sample, whose sign follows, and the rows after it are decoded
/// one by one. Any other column has each row decoded. The column's visited marks are
/// then cleared.
#[verifier::opaque]
pub open spec fn cln_col(
    bytes: Seq<u8>,
    end: int,
    st: ClnState,
    fp: int,
    datap: int,
    n: int,
    w: int,
    oph: i32,
    vsc0: bool,
    zoff: usize,
) -> ClnState {
    if n == 4 && st.0[fp] == 0 {
        let agg = dec_step(bytes, end, st.2, T1_CTXNO_AGG as int);
        if agg.0 == 0 {
            (st.0, st.1, agg.1)
        } else {
            let hi = dec_step(bytes, end, agg.1, T1_CTXNO_UNI as int);
            let lo = dec_step(bytes, end, hi.1, T1_CTXNO_UNI as int);
            let r = cln_rows(bytes, end, (st.0, st.1, lo.1), fp, datap, w, 2 * hi.0 + lo.0, n, oph, false, true, vsc0, zoff);
            (r.0.update(fp, r.0[fp] & !pi_rows()), r.1, r.2)
        }
    } else {
        let r = cln_rows(bytes, end, st, fp, datap, w, 0, n, oph, true, false, vsc0, zoff);
        (r.0.update(fp, r.0[fp] & !pi_rows()), r.1, r.2)
    }
}

/// The clean-up pass over the first `i` columns of stripe `s` of a `w` by `h` code block,
/// whose coefficients the decoder holds row by row.
#[verifier::opaque]
pub open spec fn cln_stripe(bytes: Seq<u8>, end: int, st: ClnState, w: int, h: int, s: int, i: int, oph: i32, vsc0: bool, zoff: usize) -> ClnState
    decreases i,
{
    if i <= 0 {
        st
    } else {
        let prev = cln_stripe(bytes, end, st, w, h, s, i - 1, oph, vsc0, zoff);
        cln_col(bytes, end, prev, (s + 1) * (w + 2) + i, 4 * s * w + i - 1, stripe_rows(h, s), w, oph, vsc0, zoff)
    }
}

/// The clean-up pass over the first `s` stripes of a `w` by `h` code block.
#[verifier::opaque]
pub open spec fn cln_stripes(bytes: Seq<u8>, end: int, st: ClnState, w: int, h: int, s: int, oph: i32, vsc0: bool, zoff: usize) -> ClnState
    decreases s,
{
    if s <= 0 {
        st
    } else {
        let prev = cln_stripes(bytes, end, st, w, h, s - 1, oph, vsc0, zoff);
        cln_stripe(bytes, end, prev, w, h, s - 1, w, oph, vsc0, zoff)
    }
}

/// The decoder after the segmentation marker: four symbols in the uniform context.
pub open spec fn segsym_read(bytes: Seq<u8>, end: int, m: DecModel) -> DecModel {
    let u = T1_CTXNO_UNI as int;
    dec_step(bytes, end, dec_step(bytes, end, dec_step(bytes, end, dec_step(bytes, end, m, u).1, u).1, u).1, u).1
}

/// The whole clean-up pass of a `w` by `h` code block: its stripes from the top, then,
/// with `segsym`, the segmentation marker.
pub open spec fn cln_pass(bytes: Seq<u8>, end: int, st: ClnState, w: int, h: int, oph: i32, vsc0: bool, segsym: bool, zoff: usize) -> ClnState {
    let done = cln_stripes(bytes, end, st, w, h, (h + 3) / 4, oph, vsc0, zoff);
    if segsym {
        (done.0, done.1, segsym_read(bytes, end, done.2))
    } else {
        done
    }
}

/// The value that a sample newly significant in the bit-plane below `bpno_plus_one`
/// takes: the plane's bit and half of it.
pub open spec fn significance_value(bpno_plus_one: i32) -> i32 {
    (1i32 << (bpno_plus_one - 1) as u32) | ((1i32 << (bpno_plus_one - 1) as u32) >> 1u32)
}

/// Whether a sample that was `before` is `after` once the refinement pass has been over it,
/// its column's flag word being `f` and its row in the stripe `j`: moved by `step` up or
/// down when it takes part, unchanged otherwise.
pub open spec fn ref_outcome(before: i32, after: i32, f: u32, j: u32, step: i32) -> bool {
    if refinable(f, j) {
        half_step(before, after, step)
    } else {
        after == before
    }
}

/// The half step of a refinement of the bit-plane below `bpno_plus_one`: half the plane's
/// bit, `2^(bpno_plus_one - 2)`, and 0 for the lowest plane.
pub open spec fn refinement_step(bpno_plus_one: i32) -> i32 {
    (1i32 << (bpno_plus_one - 1) as u32) >> 1u32
}

/// Index, in the decoder's flags, of the word of the column that holds sample row `r`,
/// column `c` of a code block `w` samples wide.
pub open spec fn flag_word(w: int, r: int, c: int) -> int {
    (r / 4 + 1) * (w + 2) + c + 1
}

/// Whether the scan of the decoding passes has reached sample row `r`, column `c` before
/// column `i` of stripe `s`.
pub open spec fn scanned_before(r: int, c: int, s: int, i: int) -> bool {
    r / 4 < s || (r / 4 == s && c < i)
}

/// Distinct rows and columns give distinct row-ordered indices.
proof fn lemma_row_col_unique(w: int, r1: int, c1: int, r2: int, c2: int)
    requires
        w >= 1,
        0 <= c1 < w,
        0 <= c2 < w,
        r1 >= 0,
        r2 >= 0,
        r1 * w + c1 == r2 * w + c2,
    ensures
        r1 == r2 && c1 == c2,
{
    if r1 < r2 {
        assert(r1 * w + c1 < r2 * w + c2) by (nonlinear_arith)
            requires
                r1 < r2,
                0 <= c1 < w,
                0 <= c2,
        ;
    } else if r2 < r1 {
        assert(r2 * w + c2 < r1 * w + c1) by (nonlinear_arith)
            requires
                r2 < r1,
                0 <= c2 < w,
                0 <= c1,
        ;
    }
}

/// Sample row `r`, column `c` lies within row-ordered data of `h` rows of `w` samples.
proof fn lemma_row_col_index(w: int, h: int, r: int, c: int)
    requires
        0 <= r < h,
        0 <= c < w,
    ensures
        0 <= r * w + c < w * h,
{
    assert(0 <= r * w + c < w * h) by (nonlinear_arith)
        requires
            0 <= r < h,
            0 <= c < w,
    ;
}

/// The refinement pass over column `i` of stripe `s`, which holds `n` rows, takes the
/// samples scanned so far one column further.
#[verifier::spinoff_prover]
proof fn lemma_refpass_column(before: &T1, mid: &T1, after: &T1, s: int, i: int, n: int, step: i32)
    requires
        before.pass_ready(),
        before.same_block(mid),
        before.same_block(after),
        0 <= i < before.w,
        0 <= s,
        1 <= n <= 4,
        4 * s + n <= before.h,
        n == 4 || 4 * s + n == before.h,
        forall|r: int, c: int|
            0 <= r < before.h && 0 <= c < before.w ==> #[trigger] mid.refined_at(before, r, c, step, scanned_before(r, c, s, i)),
        forall|q: int, jb: u32|
            0 <= q < before.flags@.len() && jb <= 3 ==> #[trigger] refinable(mid.flags@[q], jb) == refinable(before.flags@[q], jb),
        forall|j: int|
            0 <= j < n ==> ref_outcome(
                mid.data@[sample_at(4 * s * before.w + i, j, before.w as int)],
                after.data@[#[trigger] sample_at(4 * s * before.w + i, j, before.w as int)],
                mid.flags@[(s + 1) * (before.w + 2) + i + 1],
                j as u32,
                step,
            ),
        forall|k: int|
            0 <= k < mid.data@.len() && (forall|j: int| 0 <= j < n ==> k != #[trigger] sample_at(4 * s * before.w + i, j, before.w as int))
                ==> #[trigger] after.data@[k] == mid.data@[k],
    ensures
        forall|r: int, c: int|
            0 <= r < before.h && 0 <= c < before.w ==> #[trigger] after.refined_at(before, r, c, step, scanned_before(r, c, s, i + 1)),
{
    let w = before.w as int;
    let h = before.h as int;
    let datap = 4 * s * w + i;
    let fp = (s + 1) * (w + 2) + i + 1;
    assert forall|r: int, c: int| 0 <= r < h && 0 <= c < w implies #[trigger] after.refined_at(
        before,
        r,
        c,
        step,
        scanned_before(r, c, s, i + 1),
    ) by {
        let k = r * w + c;
        lemma_row_col_index(w, h, r, c);
        assert(mid.refined_at(before, r, c, step, scanned_before(r, c, s, i)));
        if r / 4 == s && c == i {
            let j = r - 4 * s;
            assert(sample_at(datap, j, w) == k) by (nonlinear_arith)
                requires
                    datap == 4 * s * w + i,
                    j == r - 4 * s,
                    k == r * w + c,
                    c == i,
            ;
            assert(s + 1 <= (h + 3) / 4);
            assert(fp < before.flags@.len()) by (nonlinear_arith)
                requires
                    fp == (s + 1) * (w + 2) + i + 1,
                    0 <= i < w,
                    s + 1 <= (h + 3) / 4,
                    before.flags@.len() == ((h + 3) / 4 + 2) * (w + 2),
            ;
            assert(0 <= j <= 3);
            assert(refinable(mid.flags@[fp], j as u32) == refinable(before.flags@[fp], j as u32));
            assert(flag_word(w, r, c) == fp);
        } else {
            assert forall|j: int| 0 <= j < n implies k != #[trigger] sample_at(datap, j, w) by {
                if k == sample_at(datap, j, w) {
                    assert(sample_at(datap, j, w) == (4 * s + j) * w + i) by (nonlinear_arith)
                        requires
                            datap == 4 * s * w + i,
                    ;
                    lemma_row_col_unique(w, r, c, 4 * s + j, i);
                }
            }
            assert(after.data@[k] == mid.data@[k]);
        }
    }
}

/// The magnitudes of a bit-plane: the reconstruction value of a newly significant sample
/// (the plane's bit and half of it), and the half step that a refinement adds or takes.
fn plane_magnitudes(bpno_plus_one: i32) -> (r: (i32, i32))
    requires
        1 <= bpno_plus_one <= 30,
    ensures
        1 <= r.0 <= 0x3000_0000,
        0 <= r.1 <= 0x1000_0000,
        r.1 == refinement_step(bpno_plus_one),
        r.0 == significance_value(bpno_plus_one),
{
    let k = (bpno_plus_one - 1) as u32;
    let one = 1i32 << k;
    let half = one >> 1u32;
    assert(1 <= (one | half) <= 0x3000_0000 && 0 <= half <= 0x1000_0000) by (bit_vector)
        requires
            one == 1i32 << k,
            half == one >> 1u32,
            k < 30,
    ;
    (one | half, half)
}

impl T1 {
    /// Whether sample row `r`, column `c` of `self` is that of `before` once the refinement
    /// pass with half step `step` has been over it (`done`), or is unchanged (not `done`).
    pub open spec fn refined_at(&self, before: &Self, r: int, c: int, step: i32, done: bool) -> bool {
        let k = r * before.w + c;
        if done {
            ref_outcome(before.data@[k], self.data@[k], before.flags@[flag_word(before.w as int, r, c)], (r % 4) as u32, step)
        } else {
            self.data@[k] == before.data@[k]
        }
    }

    /// Decodes sample `datap` (row `ci` of the column at `fp`) in the significance pass:
    /// when it is not significant, not yet visited and has a significant neighbour, its
    /// significance bit and, when it becomes significant, its sign, which sets it to
    /// `oneplushalf` or its opposite.
    #[verifier::spinoff_prover]
    fn dec_sigpass_step(
        &mut self,
        mqc: &mut Mqc,
        Ghost(base): Ghost<Mqc>,
        fp: usize,
        datap: usize,
        oneplushalf: i32,
        ci: u32,
        vsc: bool,
        raw: bool,
    )
        requires
            old(self).pass_ready(),
            old(self).w + 2 + 1 <= fp,
            fp + old(self).w + 2 + 1 < old(self).flags@.len(),
            datap < old(self).data@.len(),
            ci <= 3,
            1 <= oneplushalf <= 0x3000_0000,
            dec_ready(old(mqc), raw),
            base.buf@ == old(mqc).buf@,
            base.end == old(mqc).end,
        ensures
            final(self).pass_ready(),
            old(self).same_block(&*final(self)),
            dec_kept(&*old(mqc), &*final(mqc), raw),
            (final(self).flags@, final(self).data@, final(mqc).dec_model()) == sig_sample(
                base.bytes(),
                base.end as int,
                (old(self).flags@, old(self).data@, old(mqc).dec_model()),
                fp as int,
                datap as int,
                ci,
                oneplushalf,
                vsc,
                raw,
                old(self).lut_ctxno_zc_orient_offset,
                old(self).w + 2,
            ),
    {
        proof {
            reveal(sig_sample);
            reveal(flags_after_significance);
        }
        let nf = self.flags.len();
        let flags = self.flags[fp];
        let shift = ci * 3;
        if (flags & ((T1_SIGMA_THIS | T1_PI_THIS) << shift)) == 0 && (flags & (T1_SIGMA_NEIGHBOURS << shift)) != 0 {
            if raw {
                let ghost r0 = *mqc;
                let b = mqc.raw_decode();
                proof {
                    lemma_raw_decode_model(&r0, &*mqc, b);
                }
                if b != 0 {
                    let ghost r1 = *mqc;
                    let v = mqc.raw_decode();
                    proof {
                        lemma_raw_decode_model(&r1, &*mqc, v);
                    }
                    self.data.set(datap, if v != 0 { -oneplushalf } else { oneplushalf });
                    let stride = self.flags_stride();
                    update_flags(self.flags.as_mut_slice(), fp, ci, v, stride, vsc);
                    proof {
                        assert(self.flags@ =~= flags_after_significance(old(self).flags@, fp as int, ci, v, stride as int, vsc));
                    }
                }
            } else {
                let ctxt1 = self.zc_ctx(flags >> shift);
                mqc.set_curctx(ctxt1);
                let ghost m1 = *mqc;
                let v = mqc.decode();
                proof {
                    lemma_decode_model(&m1, &*mqc, v);
                }
                if v != 0 {
                    let lu = getctxtno_sc_or_spb_index(self.flags[fp], self.flags[fp - 1], self.flags[fp + 1], ci);
                    proof {
                        lemma_sc_contexts();
                    }
                    let ctxt2 = getctxno_sc(lu) as usize;
                    let spb = getspb(lu) as u32;
                    mqc.set_curctx(ctxt2);
                    let ghost m2 = *mqc;
                    let d2 = mqc.decode();
                    proof {
                        lemma_decode_model(&m2, &*mqc, d2);
                    }
                    let sign = d2 ^ spb;
                    self.data.set(datap, if sign != 0 { -oneplushalf } else { oneplushalf });
                    let stride = self.flags_stride();
                    update_flags(self.flags.as_mut_slice(), fp, ci, sign, stride, vsc);
                    proof {
                        assert(self.flags@ =~= flags_after_significance(old(self).flags@, fp as int, ci, sign, stride as int, vsc));
                    }
                }
            }
            let f = self.flags[fp];
            self.flags.set(fp, f | (T1_PI_THIS << shift));
        }
    }

    /// Decodes sample `datap` (row `ci` of the column at `fp`) in the refinement pass: when
    /// it is significant and was not decoded in this bit-plane's significance pass, its bit
    /// of the bit-plane, which moves its magnitude half a step up or down.
    #[verifier::spinoff_prover]
    fn dec_refpass_step(
        &mut self,
        mqc: &mut Mqc,
        Ghost(base): Ghost<Mqc>,
        fp: usize,
        datap: usize,
        poshalf: i32,
        ci: u32,
        raw: bool,
    )
        requires
            old(self).pass_ready(),
            fp < old(self).flags@.len(),
            datap < old(self).data@.len(),
            ci <= 3,
            0 <= poshalf <= 0x1000_0000,
            dec_ready(old(mqc), raw),
            base.buf@ == old(mqc).buf@,
            base.end == old(mqc).end,
        ensures
            (final(self).flags@, final(self).data@, final(mqc).dec_model()) == ref_sample(
                base.bytes(),
                base.end as int,
                (old(self).flags@, old(self).data@, old(mqc).dec_model()),
                fp as int,
                datap as int,
                ci,
                poshalf,
                raw,
            ),
            final(self).pass_ready(),
            old(self).same_block(&*final(self)),
            dec_kept(&*old(mqc), &*final(mqc), raw),
            refinable(old(self).flags@[fp as int], ci) ==> half_step(
                old(self).data@[datap as int],
                final(self).data@[datap as int],
                poshalf,
            ),
            !refinable(old(self).flags@[fp as int], ci) ==> final(self).data@[datap as int] == old(
                self,
            ).data@[datap as int],
            forall|k: int| 0 <= k < old(self).data@.len() && k != datap ==> #[trigger] final(self).data@[k] == old(
                self,
            ).data@[k],
            forall|q: int, j: u32|
                0 <= q < old(self).flags@.len() && j <= 3 ==> #[trigger] refinable(final(self).flags@[q], j)
                    == refinable(old(self).flags@[q], j),
    {
        let flags = self.flags[fp];
        let shift = ci * 3;
        proof {
            assert forall|j: u32| j <= 3 implies refinable(flags | (T1_MU_THIS << (3 * ci) as u32), j) == refinable(flags, j) by {
                lemma_mu_keeps_refinable(flags, ci, j);
            }
        }
        proof {
            reveal(ref_sample);
        }
        if (flags & ((T1_SIGMA_THIS | T1_PI_THIS) << shift)) == (T1_SIGMA_THIS << shift) {
            let v;
            if raw {
                let ghost r0 = *mqc;
                v = mqc.raw_decode();
                proof {
                    lemma_raw_decode_model(&r0, &*mqc, v);
                }
            } else {
                let ctxt = getctxno_mag(flags >> shift) as usize;
                mqc.set_curctx(ctxt);
                let ghost m0 = *mqc;
                v = mqc.decode();
                proof {
                    lemma_decode_model(&m0, &*mqc, v);
                }
            }
            let cur = self.data[datap];
            let negative: u32 = if cur < 0 { 1 } else { 0 };
            let step = if (v ^ negative) != 0 { poshalf } else { -poshalf };
            self.data.set(datap, cur.wrapping_add(step));
            self.flags.set(fp, flags | (T1_MU_THIS << shift));
        }
    }

    /// Significance pass over the first `n` rows of the column at `fp`, whose row 0 is
    /// sample `datap` and whose rows lie `w` samples apart: nothing when the column's
    /// flags are all clear.
    #[verifier::spinoff_prover]
    fn dec_sigpass_column(
        &mut self,
        mqc: &mut Mqc,
        Ghost(base): Ghost<Mqc>,
        fp: usize,
        datap: usize,
        n: usize,
        w: usize,
        oneplushalf: i32,
        vsc0: bool,
        raw: bool,
    )
        requires
            old(self).pass_ready(),
            old(self).w + 2 + 1 <= fp,
            fp + old(self).w + 2 + 1 < old(self).flags@.len(),
            1 <= n <= 4,
            w == old(self).w,
            forall|j: int| 0 <= j < n ==> #[trigger] sample_at(datap as int, j, w as int) < old(self).data@.len(),
            1 <= oneplushalf <= 0x3000_0000,
            dec_ready(old(mqc), raw),
            base.buf@ == old(mqc).buf@,
            base.end == old(mqc).end,
        ensures
            final(self).pass_ready(),
            old(self).same_block(&*final(self)),
            dec_kept(&*old(mqc), &*final(mqc), raw),
            (final(self).flags@, final(self).data@, final(mqc).dec_model()) == sig_rows(
                base.bytes(),
                base.end as int,
                (old(self).flags@, old(self).data@, old(mqc).dec_model()),
                fp as int,
                datap as int,
                w as int,
                n as int,
                oneplushalf,
                vsc0,
                raw,
                old(self).lut_ctxno_zc_orient_offset,
            ),
    {
        let ghost st0: ClnState = (self.flags@, self.data@, mqc.dec_model());
        if self.flags[fp] != 0 {
            proof {
                reveal(sig_rows);
            }
            let mut j: usize = 0;
            while j < n
                invariant
                    self.pass_ready(),
                    old(self).same_block(&*self),
                    self.w + 2 + 1 <= fp,
                    fp + self.w + 2 + 1 < self.flags@.len(),
                    1 <= n <= 4,
                    j <= n,
                    w == self.w,
                    forall|j: int| 0 <= j < n ==> #[trigger] sample_at(datap as int, j, w as int) < self.data@.len(),
                    1 <= oneplushalf <= 0x3000_0000,
                    dec_kept(&*old(mqc), &*mqc, raw),
                    base.buf@ == old(mqc).buf@,
                    base.end == old(mqc).end,
                    self.lut_ctxno_zc_orient_offset == old(self).lut_ctxno_zc_orient_offset,
                    (self.flags@, self.data@, mqc.dec_model()) == sig_rows(
                        base.bytes(),
                        base.end as int,
                        st0,
                        fp as int,
                        datap as int,
                        w as int,
                        j as int,
                        oneplushalf,
                        vsc0,
                        raw,
                        self.lut_ctxno_zc_orient_offset,
                    ),
                decreases n - j,
            {
                let vsc = j == 0 && vsc0;
                assert(sample_at(datap as int, j as int, w as int) < self.data@.len());
                assert(j * w <= 3 * 1024) by (nonlinear_arith)
                    requires
                        j <= 3,
                        w <= 1024,
                ;
                self.dec_sigpass_step(mqc, Ghost(base), fp, datap + j * w, oneplushalf, j as u32, vsc, raw);
                proof {
                    reveal(sig_rows);
                }
                j += 1;
            }
        } else {
            proof {
                lemma_sig_rows_clear(
                    base.bytes(),
                    base.end as int,
                    st0,
                    fp as int,
                    datap as int,
                    w as int,
                    n as int,
                    oneplushalf,
                    vsc0,
                    raw,
                    self.lut_ctxno_zc_orient_offset,
                );
            }
        }
    }

    /// Refinement pass over the first `n` rows of the column at `fp`, whose row 0 is
    /// sample `datap` and whose rows lie `w` samples apart: nothing when the column's
    /// flags are all clear.
    #[verifier::spinoff_prover]
    fn dec_refpass_column(
        &mut self,
        mqc: &mut Mqc,
        Ghost(base): Ghost<Mqc>,
        fp: usize, datap: usize, n: usize, w: usize, poshalf: i32, raw: bool)
        requires
            old(self).pass_ready(),
            fp < old(self).flags@.len(),
            1 <= n <= 4,
            w == old(self).w,
            forall|j: int| 0 <= j < n ==> #[trigger] sample_at(datap as int, j, w as int) < old(self).data@.len(),
            0 <= poshalf <= 0x1000_0000,
            dec_ready(old(mqc), raw),
            w >= 1,
            base.buf@ == old(mqc).buf@,
            base.end == old(mqc).end,
        ensures
            (final(self).flags@, final(self).data@, final(mqc).dec_model()) == ref_rows(
                base.bytes(),
                base.end as int,
                (old(self).flags@, old(self).data@, old(mqc).dec_model()),
                fp as int,
                datap as int,
                w as int,
                n as int,
                poshalf,
                raw,
            ),
            final(self).pass_ready(),
            old(self).same_block(&*final(self)),
            dec_kept(&*old(mqc), &*final(mqc), raw),
            forall|j: int|
                0 <= j < n ==> ref_outcome(
                    old(self).data@[sample_at(datap as int, j, w as int)],
                    final(self).data@[#[trigger] sample_at(datap as int, j, w as int)],
                    old(self).flags@[fp as int],
                    j as u32,
                    poshalf,
                ),
            forall|k: int|
                0 <= k < old(self).data@.len() && (forall|j: int| 0 <= j < n ==> k != #[trigger] sample_at(datap as int, j, w as int))
                    ==> #[trigger] final(self).data@[k] == old(self).data@[k],
            forall|q: int, j: u32|
                0 <= q < old(self).flags@.len() && j <= 3 ==> #[trigger] refinable(final(self).flags@[q], j)
                    == refinable(old(self).flags@[q], j),
    {
        let ghost st0: ClnState = (self.flags@, self.data@, mqc.dec_model());
        if self.flags[fp] != 0 {
            proof {
                reveal(ref_rows);
            }
            let mut j: usize = 0;
            while j < n
                invariant
                    self.pass_ready(),
                    old(self).same_block(&*self),
                    fp < self.flags@.len(),
                    1 <= n <= 4,
                    j <= n,
                    w == self.w,
                    w >= 1,
                    forall|j: int| 0 <= j < n ==> #[trigger] sample_at(datap as int, j, w as int) < self.data@.len(),
                    0 <= poshalf <= 0x1000_0000,
                    dec_kept(&*old(mqc), &*mqc, raw),
                    forall|jj: int|
                        0 <= jj < j ==> ref_outcome(
                            old(self).data@[sample_at(datap as int, jj, w as int)],
                            self.data@[#[trigger] sample_at(datap as int, jj, w as int)],
                            old(self).flags@[fp as int],
                            jj as u32,
                            poshalf,
                        ),
                    forall|k: int|
                        0 <= k < old(self).data@.len() && (forall|jj: int| 0 <= jj < j ==> k != #[trigger] sample_at(datap as int, jj, w as int))
                            ==> #[trigger] self.data@[k] == old(self).data@[k],
                    forall|q: int, jb: u32|
                        0 <= q < old(self).flags@.len() && jb <= 3 ==> #[trigger] refinable(self.flags@[q], jb)
                            == refinable(old(self).flags@[q], jb),
                    base.buf@ == old(mqc).buf@,
                    base.end == old(mqc).end,
                    (self.flags@, self.data@, mqc.dec_model()) == ref_rows(
                        base.bytes(),
                        base.end as int,
                        st0,
                        fp as int,
                        datap as int,
                        w as int,
                        j as int,
                        poshalf,
                        raw,
                    ),
                decreases n - j,
            {
                let ghost k = sample_at(datap as int, j as int, w as int);
                assert(k < self.data@.len());
                assert(j * w <= 3 * 1024) by (nonlinear_arith)
                    requires
                        j <= 3,
                        w <= 1024,
                ;
                proof {
                    assert forall|jj: int| 0 <= jj < j implies #[trigger] sample_at(datap as int, jj, w as int) != k by {
                        assert(jj * w < (j as int) * w) by (nonlinear_arith)
                            requires
                                jj < j,
                                w >= 1,
                        ;
                    }
                    assert(self.data@[k] == old(self).data@[k]);
                }
                self.dec_refpass_step(mqc, Ghost(base), fp, datap + j * w, poshalf, j as u32, raw);
                proof {
                    reveal(ref_rows);
                }
                j += 1;
            }
        } else {
            proof {
                assert forall|jj: u32| jj <= 3 implies !refinable(self.flags@[fp as int], jj) by {
                    lemma_mu_keeps_refinable(0u32, 0, jj);
                }
                lemma_ref_rows_clear(base.bytes(), base.end as int, st0, fp as int, datap as int, w as int, n as int, poshalf, raw);
            }
        }
    }

    /// Significance pass of the decoder for the bit-plane below `bpno_plus_one`, in the
    /// given mode, over the columns of each stripe in turn.
    #[verifier::spinoff_prover]
    fn dec_sigpass(&mut self, mqc: &mut Mqc, bpno_plus_one: i32, cblksty: u32, raw: bool)
        requires
            old(self).pass_ready(),
            1 <= bpno_plus_one <= 30,
            dec_ready(old(mqc), raw),
        ensures
            final(self).pass_ready(),
            old(self).same_block(&*final(self)),
            dec_kept(&*old(mqc), &*final(mqc), raw),
            (final(self).flags@, final(self).data@, final(mqc).dec_model()) == sig_dec_pass(
                old(mqc).buf@,
                old(mqc).end as int,
                (old(self).flags@, old(self).data@, old(mqc).dec_model()),
                old(self).w as int,
                old(self).h as int,
                (old(self).h + 3) / 4,
                significance_value(bpno_plus_one),
                cblksty & J2K_CCP_CBLKSTY_VSC != 0,
                raw,
                old(self).lut_ctxno_zc_orient_offset,
            ),
    {
        let ghost base = *mqc;
        let ghost st0: ClnState = (self.flags@, self.data@, mqc.dec_model());
        proof {
            reveal(sig_dec_pass);
        }
        let (oneplushalf, _half) = plane_magnitudes(bpno_plus_one);
        let w = self.w as usize;
        let h = self.h as usize;
        let stride = w + 2;
        let vsc0 = (cblksty & J2K_CCP_CBLKSTY_VSC) != 0;
        let full = h / 4;
        let k = full * 4;
        let rows_last: usize = if k < h { h - k } else { 0 };
        let stripes = if k < h { full + 1 } else { full };
        let mut datap: usize = 0;
        let mut fp: usize = stride + 1;
        let mut s: usize = 0;
        proof {
            assert(datap == 4 * s * w && fp == (s + 1) * stride + 1) by (nonlinear_arith)
                requires
                    s == 0,
                    datap == 0,
                    fp == stride + 1,
            ;
        }
        while s < stripes
            invariant
                self.pass_ready(),
                old(self).same_block(&*self),
                w == self.w && h == self.h && stride == w + 2 && full == h / 4 && k == 4 * full,
                rows_last == (if k < h { h - k } else { 0 }),
                stripes == (h + 3) / 4,
                1 <= oneplushalf <= 0x3000_0000,
                s <= stripes,
                datap == 4 * s * w,
                fp == (s + 1) * stride + 1,
                dec_kept(&*old(mqc), &*mqc, raw),
                base == *old(mqc),
                vsc0 == (cblksty & J2K_CCP_CBLKSTY_VSC != 0),
                oneplushalf == significance_value(bpno_plus_one),
                (self.flags@, self.data@, mqc.dec_model()) == sig_dec_pass(
                    base.bytes(),
                    base.end as int,
                    st0,
                    w as int,
                    h as int,
                    s as int,
                    oneplushalf,
                    vsc0,
                    raw,
                    old(self).lut_ctxno_zc_orient_offset,
                ),
            decreases stripes - s,
        {
            let n = if s < full { 4 } else { rows_last };
            let ghost stripe_start: ClnState = (self.flags@, self.data@, mqc.dec_model());
            proof {
                reveal(sig_dec_stripe);
                assert(n == stripe_rows(h as int, s as int));
            }
            let mut i: usize = 0;
            while i < w
                invariant
                    self.pass_ready(),
                    old(self).same_block(&*self),
                    w == self.w && h == self.h && stride == w + 2 && full == h / 4 && k == 4 * full,
                    rows_last == (if k < h { h - k } else { 0 }),
                    stripes == (h + 3) / 4,
                    n == (if s < full { 4 } else { rows_last }),
                    1 <= n <= 4,
                    4 * s + n <= h,
                    1 <= oneplushalf <= 0x3000_0000,
                    s < stripes,
                    i <= w,
                    datap == 4 * s * w + i,
                    fp == (s + 1) * stride + i + 1,
                    dec_kept(&*old(mqc), &*mqc, raw),
                    base == *old(mqc),
                    n == stripe_rows(h as int, s as int),
                    (self.flags@, self.data@, mqc.dec_model()) == sig_dec_stripe(
                        base.bytes(),
                        base.end as int,
                        stripe_start,
                        w as int,
                        h as int,
                        s as int,
                        i as int,
                        oneplushalf,
                        vsc0,
                        raw,
                        old(self).lut_ctxno_zc_orient_offset,
                    ),
                    stripe_start == sig_dec_pass(
                        base.bytes(),
                        base.end as int,
                        st0,
                        w as int,
                        h as int,
                        s as int,
                        oneplushalf,
                        vsc0,
                        raw,
                        old(self).lut_ctxno_zc_orient_offset,
                    ),
                decreases w - i,
            {
                proof {
                    lemma_column(w as int, h as int, s as int, i as int);
                    lemma_dec_sample(w as int, h as int, s as int, n as int, i as int, 0);
                    assert forall|j: int| 0 <= j < n implies #[trigger] sample_at(datap as int, j, w as int) < self.data@.len() by {
                        lemma_dec_sample(w as int, h as int, s as int, n as int, i as int, j);
                    }
                }
                self.dec_sigpass_column(mqc, Ghost(base), fp, datap, n, w, oneplushalf, vsc0, raw);
                proof {
                    reveal(sig_dec_stripe);
                }
                datap += 1;
                fp += 1;
                i += 1;
            }
            proof {
                lemma_column(w as int, h as int, s as int, w as int);
                lemma_dec_stripe_end(w as int, h as int, s as int);
                reveal(sig_dec_pass);
            }
            datap += 3 * w;
            fp += 2;
            s += 1;
        }
    }

    /// Significance propagation pass of the decoder, arithmetic mode, for the bit-plane
    /// below `bpno_plus_one`: the flags, coefficients and decoder that it leaves are those
    /// of `sig_dec_pass`, sample by sample in stripe order over the decoder's input.
    pub fn dec_sigpass_mqc(&mut self, mqc: &mut Mqc, bpno_plus_one: i32, cblksty: u32)
        requires
            old(self).pass_ready(),
            1 <= bpno_plus_one <= 30,
            old(mqc).dec_wf(),
        ensures
            final(self).pass_ready(),
            old(self).same_block(&*final(self)),
            dec_kept(&*old(mqc), &*final(mqc), false),
            (final(self).flags@, final(self).data@, final(mqc).dec_model()) == sig_dec_pass(
                old(mqc).buf@,
                old(mqc).end as int,
                (old(self).flags@, old(self).data@, old(mqc).dec_model()),
                old(self).w as int,
                old(self).h as int,
                (old(self).h + 3) / 4,
                significance_value(bpno_plus_one),
                cblksty & J2K_CCP_CBLKSTY_VSC != 0,
                false,
                old(self).lut_ctxno_zc_orient_offset,
            ),
    {
        self.dec_sigpass(mqc, bpno_plus_one, cblksty, false);
    }

    /// Significance propagation pass of the decoder, raw mode, for the bit-plane below
    /// `bpno_plus_one`: the flags, coefficients and decoder that it leaves are those of
    /// `sig_dec_pass`, sample by sample in stripe order over the decoder's input.
    pub fn dec_sigpass_raw(&mut self, mqc: &mut Mqc, bpno_plus_one: i32, cblksty: u32)
        requires
            old(self).pass_ready(),
            1 <= bpno_plus_one <= 30,
            old(mqc).raw_wf(),
        ensures
            final(self).pass_ready(),
            old(self).same_block(&*final(self)),
            dec_kept(&*old(mqc), &*final(mqc), true),
            (final(self).flags@, final(self).data@, final(mqc).dec_model()) == sig_dec_pass(
                old(mqc).buf@,
                old(mqc).end as int,
                (old(self).flags@, old(self).data@, old(mqc).dec_model()),
                old(self).w as int,
                old(self).h as int,
                (old(self).h + 3) / 4,
                significance_value(bpno_plus_one),
                cblksty & J2K_CCP_CBLKSTY_VSC != 0,
                true,
                old(self).lut_ctxno_zc_orient_offset,
            ),
    {
        self.dec_sigpass(mqc, bpno_plus_one, cblksty, true);
    }

    /// Magnitude refinement pass of the decoder for the bit-plane below `bpno_plus_one`,
    /// in the given mode, over the columns of each stripe in turn.
    #[verifier::spinoff_prover]
    fn dec_refpass(&mut self, mqc: &mut Mqc, bpno_plus_one: i32, raw: bool)
        requires
            old(self).pass_ready(),
            1 <= bpno_plus_one <= 30,
            dec_ready(old(mqc), raw),
        ensures
            final(self).pass_ready(),
            old(self).same_block(&*final(self)),
            dec_kept(&*old(mqc), &*final(mqc), raw),
            forall|r: int, c: int|
                0 <= r < old(self).h && 0 <= c < old(self).w ==> #[trigger] final(self).refined_at(
                    &*old(self),
                    r,
                    c,
                    refinement_step(bpno_plus_one),
                    true,
                ),
            (final(self).flags@, final(self).data@, final(mqc).dec_model()) == ref_dec_pass(
                old(mqc).buf@,
                old(mqc).end as int,
                (old(self).flags@, old(self).data@, old(mqc).dec_model()),
                old(self).w as int,
                old(self).h as int,
                (old(self).h + 3) / 4,
                refinement_step(bpno_plus_one),
                raw,
            ),
    {
        let ghost base = *mqc;
        let ghost st0: ClnState = (self.flags@, self.data@, mqc.dec_model());
        proof {
            reveal(ref_dec_pass);
        }
        let (_oneplushalf, poshalf) = plane_magnitudes(bpno_plus_one);
        let w = self.w as usize;
        let h = self.h as usize;
        let stride = w + 2;
        let full = h / 4;
        let k = full * 4;
        let rows_last: usize = if k < h { h - k } else { 0 };
        let stripes = if k < h { full + 1 } else { full };
        let mut datap: usize = 0;
        let mut fp: usize = stride + 1;
        let mut s: usize = 0;
        proof {
            assert(datap == 4 * s * w && fp == (s + 1) * stride + 1) by (nonlinear_arith)
                requires
                    s == 0,
                    datap == 0,
                    fp == stride + 1,
            ;
        }
        while s < stripes
            invariant
                self.pass_ready(),
                old(self).same_block(&*self),
                w == self.w && h == self.h && stride == w + 2 && full == h / 4 && k == 4 * full,
                rows_last == (if k < h { h - k } else { 0 }),
                stripes == (h + 3) / 4,
                0 <= poshalf <= 0x1000_0000,
                s <= stripes,
                datap == 4 * s * w,
                fp == (s + 1) * stride + 1,
                dec_kept(&*old(mqc), &*mqc, raw),
                poshalf == refinement_step(bpno_plus_one),
                forall|r: int, c: int|
                    0 <= r < h && 0 <= c < w ==> #[trigger] self.refined_at(
                        &*old(self),
                        r,
                        c,
                        poshalf,
                        scanned_before(r, c, s as int, 0),
                    ),
                forall|q: int, jb: u32|
                    0 <= q < old(self).flags@.len() && jb <= 3 ==> #[trigger] refinable(self.flags@[q], jb)
                        == refinable(old(self).flags@[q], jb),
                base == *old(mqc),
                (self.flags@, self.data@, mqc.dec_model()) == ref_dec_pass(
                    base.bytes(),
                    base.end as int,
                    st0,
                    w as int,
                    h as int,
                    s as int,
                    poshalf,
                    raw,
                ),
            decreases stripes - s,
        {
            let n = if s < full { 4 } else { rows_last };
            let ghost stripe_start: ClnState = (self.flags@, self.data@, mqc.dec_model());
            proof {
                reveal(ref_dec_stripe);
                assert(n == stripe_rows(h as int, s as int));
            }
            let mut i: usize = 0;
            while i < w
                invariant
                    self.pass_ready(),
                    old(self).same_block(&*self),
                    w == self.w && h == self.h && stride == w + 2 && full == h / 4 && k == 4 * full,
                    rows_last == (if k < h { h - k } else { 0 }),
                    stripes == (h + 3) / 4,
                    n == (if s < full { 4 } else { rows_last }),
                    1 <= n <= 4,
                    4 * s + n <= h,
                    0 <= poshalf <= 0x1000_0000,
                    s < stripes,
                    i <= w,
                    datap == 4 * s * w + i,
                    fp == (s + 1) * stride + i + 1,
                    dec_kept(&*old(mqc), &*mqc, raw),
                    forall|r: int, c: int|
                        0 <= r < h && 0 <= c < w ==> #[trigger] self.refined_at(
                            &*old(self),
                            r,
                            c,
                            poshalf,
                            scanned_before(r, c, s as int, i as int),
                        ),
                    forall|q: int, jb: u32|
                        0 <= q < old(self).flags@.len() && jb <= 3 ==> #[trigger] refinable(self.flags@[q], jb)
                            == refinable(old(self).flags@[q], jb),
                    base == *old(mqc),
                    n == stripe_rows(h as int, s as int),
                    (self.flags@, self.data@, mqc.dec_model()) == ref_dec_stripe(
                        base.bytes(),
                        base.end as int,
                        stripe_start,
                        w as int,
                        h as int,
                        s as int,
                        i as int,
                        poshalf,
                        raw,
                    ),
                    stripe_start == ref_dec_pass(base.bytes(), base.end as int, st0, w as int, h as int, s as int, poshalf, raw),
                decreases w - i,
            {
                proof {
                    lemma_column(w as int, h as int, s as int, i as int);
                    lemma_dec_sample(w as int, h as int, s as int, n as int, i as int, 0);
                    assert forall|j: int| 0 <= j < n implies #[trigger] sample_at(datap as int, j, w as int) < self.data@.len() by {
                        lemma_dec_sample(w as int, h as int, s as int, n as int, i as int, j);
                    }
                }
                let ghost mid: T1 = *self;
                self.dec_refpass_column(mqc, Ghost(base), fp, datap, n, w, poshalf, raw);
                proof {
                    reveal(ref_dec_stripe);
                }
                proof {
                    assert(datap == 4 * s * w + i);
                    lemma_refpass_column(&*old(self), &mid, &*self, s as int, i as int, n as int, poshalf);
                }
                datap += 1;
                fp += 1;
                i += 1;
            }
            proof {
                lemma_column(w as int, h as int, s as int, w as int);
                lemma_dec_stripe_end(w as int, h as int, s as int);
                reveal(ref_dec_pass);
                assert forall|r: int, c: int| 0 <= r < h && 0 <= c < w implies #[trigger] self.refined_at(
                    &*old(self),
                    r,
                    c,
                    poshalf,
                    scanned_before(r, c, s + 1, 0),
                ) by {
                    assert(self.refined_at(&*old(self), r, c, poshalf, scanned_before(r, c, s as int, w as int)));
                }
            }
            datap += 3 * w;
            fp += 2;
            s += 1;
        }
        proof {
            assert forall|r: int, c: int| 0 <= r < old(self).h && 0 <= c < old(self).w implies #[trigger] self.refined_at(
                &*old(self),
                r,
                c,
                refinement_step(bpno_plus_one),
                true,
            ) by {
                assert(self.refined_at(&*old(self), r, c, poshalf, scanned_before(r, c, s as int, 0)));
            }
        }
    }

    /// Magnitude refinement pass of the decoder, arithmetic mode, for the bit-plane below
    /// `bpno_plus_one`: each sample that is significant and was not decoded in this
    /// bit-plane's significance pass moves half a step (`refinement_step`) up or down,
    /// by the bit decoded for it; every other sample stays as it was. Exactly, the flags,
    /// coefficients and decoder that it leaves are those of `ref_dec_pass`.
    pub fn dec_refpass_mqc(&mut self, mqc: &mut Mqc, bpno_plus_one: i32)
        requires
            old(self).pass_ready(),
            1 <= bpno_plus_one <= 30,
            old(mqc).dec_wf(),
        ensures
            final(self).pass_ready(),
            old(self).same_block(&*final(self)),
            dec_kept(&*old(mqc), &*final(mqc), false),
            (final(self).flags@, final(self).data@, final(mqc).dec_model()) == ref_dec_pass(
                old(mqc).buf@,
                old(mqc).end as int,
                (old(self).flags@, old(self).data@, old(mqc).dec_model()),
                old(self).w as int,
                old(self).h as int,
                (old(self).h + 3) / 4,
                refinement_step(bpno_plus_one),
                false,
            ),
            forall|r: int, c: int|
                0 <= r < old(self).h && 0 <= c < old(self).w ==> #[trigger] final(self).refined_at(
                    &*old(self),
                    r,
                    c,
                    refinement_step(bpno_plus_one),
                    true,
                ),
    {
        self.dec_refpass(mqc, bpno_plus_one, false);
    }

    /// Magnitude refinement pass of the decoder, raw mode, for the bit-plane below
    /// `bpno_plus_one`: each sample that is significant and was not decoded in this
    /// bit-plane's significance pass moves half a step (`refinement_step`) up or down,
    /// by the raw bit read for it; every other sample stays as it was. Exactly, the flags,
    /// coefficients and decoder that it leaves are those of `ref_dec_pass`.
    pub fn dec_refpass_raw(&mut self, mqc: &mut Mqc, bpno_plus_one: i32)
        requires
            old(self).pass_ready(),
            1 <= bpno_plus_one <= 30,
            old(mqc).raw_wf(),
        ensures
            final(self).pass_ready(),
            old(self).same_block(&*final(self)),
            dec_kept(&*old(mqc), &*final(mqc), true),
            (final(self).flags@, final(self).data@, final(mqc).dec_model()) == ref_dec_pass(
                old(mqc).buf@,
                old(mqc).end as int,
                (old(self).flags@, old(self).data@, old(mqc).dec_model()),
                old(self).w as int,
                old(self).h as int,
                (old(self).h + 3) / 4,
                refinement_step(bpno_plus_one),
                true,
            ),
            forall|r: int, c: int|
                0 <= r < old(self).h && 0 <= c < old(self).w ==> #[trigger] final(self).refined_at(
                    &*old(self),
                    r,
                    c,
                    refinement_step(bpno_plus_one),
                    true,
                ),
    {
        self.dec_refpass(mqc, bpno_plus_one, true);
    }

    /// Decodes sample `datap` (row `ci` of the column at `fp`) in the clean-up pass. With
    /// `check_flags`, a sample already significant or visited is left alone. Unless
    /// `partial` (the sample is known to be significant after a run), its significance
    /// bit is decoded first; a significant sample then has its sign decoded, which sets
    /// it to `oneplushalf` or its opposite.
    #[verifier::spinoff_prover]
    fn dec_clnpass_step(
        &mut self,
        mqc: &mut Mqc,
        Ghost(base): Ghost<Mqc>,
        fp: usize,
        datap: usize,
        oneplushalf: i32,
        ci: u32,
        check_flags: bool,
        partial: bool,
        vsc: bool,
    )
        requires
            old(self).pass_ready(),
            old(self).w + 2 + 1 <= fp,
            fp + old(self).w + 2 + 1 < old(self).flags@.len(),
            datap < old(self).data@.len(),
            ci <= 3,
            1 <= oneplushalf <= 0x3000_0000,
            old(mqc).dec_wf(),
            base.buf@ == old(mqc).buf@,
            base.end == old(mqc).end,
        ensures
            final(self).pass_ready(),
            old(self).same_block(&*final(self)),
            dec_kept(&*old(mqc), &*final(mqc), false),
            (final(self).flags@, final(self).data@, final(mqc).dec_model()) == cln_sample(
                base.bytes(),
                base.end as int,
                (old(self).flags@, old(self).data@, old(mqc).dec_model()),
                fp as int,
                datap as int,
                ci,
                oneplushalf,
                check_flags,
                partial,
                vsc,
                old(self).lut_ctxno_zc_orient_offset,
                old(self).w + 2,
            ),
    {
        proof {
            reveal(cln_sample);
            reveal(flags_after_significance);
        }
        let nf = self.flags.len();
        if check_flags && (self.flags[fp] & ((T1_SIGMA_THIS | T1_PI_THIS) << (ci * 3))) != 0 {
            return;
        }
        if !partial {
            let ctxt1 = self.zc_ctx(self.flags[fp] >> (ci * 3));
            mqc.set_curctx(ctxt1);
            let ghost m1 = *mqc;
            let v = mqc.decode();
            proof {
                lemma_decode_model(&m1, &*mqc, v);
            }
            if v == 0 {
                return;
            }
        }
        let lu = getctxtno_sc_or_spb_index(self.flags[fp], self.flags[fp - 1], self.flags[fp + 1], ci);
        proof {
            lemma_sc_contexts();
        }
        let ctxt2 = getctxno_sc(lu) as usize;
        mqc.set_curctx(ctxt2);
        let ghost m2 = *mqc;
        let d2 = mqc.decode();
        proof {
            lemma_decode_model(&m2, &*mqc, d2);
        }
        let v = d2 ^ getspb(lu) as u32;
        self.data.set(datap, if v != 0 { -oneplushalf } else { oneplushalf });
        let stride = self.flags_stride();
        update_flags(self.flags.as_mut_slice(), fp, ci, v, stride, vsc);
        proof {
            assert(self.flags@ =~= flags_after_significance(old(self).flags@, fp as int, ci, v, stride as int, vsc));
        }
    }

    /// Clean-up pass over the first `n` rows of the column at `fp`, whose row 0 is sample
    /// `datap` and whose rows lie `w` samples apart. A full column whose flags are all
    /// clear starts with a run-length symbol: when it is 0 the column stays clear;
    /// otherwise two uniform symbols give the row of the first significant sample, whose
    /// sign follows, and the rows after it are decoded one by one. Any other column has
    /// each row decoded. The column's visited marks are then cleared.
    #[verifier::spinoff_prover]
    fn dec_clnpass_column(
        &mut self,
        mqc: &mut Mqc,
        Ghost(base): Ghost<Mqc>,
        fp: usize,
        datap: usize,
        n: usize,
        w: usize,
        oneplushalf: i32,
        vsc0: bool,
    )
        requires
            old(self).pass_ready(),
            old(self).w + 2 + 1 <= fp,
            fp + old(self).w + 2 + 1 < old(self).flags@.len(),
            1 <= n <= 4,
            w == old(self).w,
            forall|j: int| 0 <= j < n ==> #[trigger] sample_at(datap as int, j, w as int) < old(self).data@.len(),
            1 <= oneplushalf <= 0x3000_0000,
            old(mqc).dec_wf(),
            base.buf@ == old(mqc).buf@,
            base.end == old(mqc).end,
        ensures
            final(self).pass_ready(),
            old(self).same_block(&*final(self)),
            dec_kept(&*old(mqc), &*final(mqc), false),
            (final(self).flags@, final(self).data@, final(mqc).dec_model()) == cln_col(
                base.bytes(),
                base.end as int,
                (old(self).flags@, old(self).data@, old(mqc).dec_model()),
                fp as int,
                datap as int,
                n as int,
                w as int,
                oneplushalf,
                vsc0,
                old(self).lut_ctxno_zc_orient_offset,
            ),
    {
        proof {
            reveal(cln_col);
            reveal(cln_rows);
        }
        let ghost st0: ClnState = (self.flags@, self.data@, mqc.dec_model());
        let mut start: usize = 0;
        let mut partial = false;
        let check_flags = !(n == 4 && self.flags[fp] == 0);
        let ghost mut rows_from: ClnState = st0;
        if !check_flags {
            mqc.set_curctx(T1_CTXNO_AGG);
            let ghost ma = *mqc;
            let v = mqc.decode();
            proof {
                lemma_decode_model(&ma, &*mqc, v);
            }
            if v == 0 {
                return;
            }
            mqc.set_curctx(T1_CTXNO_UNI);
            let ghost mh = *mqc;
            let rl_hi = mqc.decode();
            proof {
                lemma_decode_model(&mh, &*mqc, rl_hi);
            }
            let ghost ml = *mqc;
            let rl_lo = mqc.decode();
            proof {
                lemma_decode_model(&ml, &*mqc, rl_lo);
            }
            start = (2 * rl_hi + rl_lo) as usize;
            partial = true;
            proof {
                rows_from = (self.flags@, self.data@, mqc.dec_model());
            }
        }
        let mut j: usize = start;
        while j < n
            invariant
                self.pass_ready(),
                old(self).same_block(&*self),
                self.w + 2 + 1 <= fp,
                fp + self.w + 2 + 1 < self.flags@.len(),
                1 <= n <= 4,
                j <= n || start == j,
                start <= 3,
                w == self.w,
                forall|j: int| 0 <= j < n ==> #[trigger] sample_at(datap as int, j, w as int) < self.data@.len(),
                1 <= oneplushalf <= 0x3000_0000,
                dec_kept(&*old(mqc), &*mqc, false),
                base.buf@ == old(mqc).buf@,
                base.end == old(mqc).end,
                self.lut_ctxno_zc_orient_offset == old(self).lut_ctxno_zc_orient_offset,
                check_flags == !(n == 4 && st0.0[fp as int] == 0),
                start <= j,
                partial == (!check_flags && j == start),
                (self.flags@, self.data@, mqc.dec_model()) == cln_rows(
                    base.bytes(),
                    base.end as int,
                    rows_from,
                    fp as int,
                    datap as int,
                    w as int,
                    start as int,
                    j as int,
                    oneplushalf,
                    check_flags,
                    !check_flags,
                    vsc0,
                    self.lut_ctxno_zc_orient_offset,
                ),
            decreases n - j,
        {
            assert(sample_at(datap as int, j as int, w as int) < self.data@.len());
            assert(j * w <= 3 * 1024) by (nonlinear_arith)
                requires
                    j <= 3,
                    w <= 1024,
            ;
            let vsc = vsc0 && j == 0;
            self.dec_clnpass_step(mqc, Ghost(base), fp, datap + j * w, oneplushalf, j as u32, check_flags, partial, vsc);
            proof {
                reveal(cln_rows);
            }
            partial = false;
            j += 1;
        }
        let f = self.flags[fp];
        self.flags.set(fp, f & !(T1_PI_0 | T1_PI_1 | T1_PI_2 | T1_PI_3));
    }

    /// Clean-up pass of the decoder for the bit-plane below `bpno_plus_one`, over the
    /// columns of each stripe in turn, followed, with the segmentation symbol code-block
    /// style, by the four symbols of the segmentation marker. The flags, coefficients and
    /// decoder that it leaves are those of `cln_pass` over the decoder's input.
    #[verifier::spinoff_prover]
    pub fn dec_clnpass(&mut self, mqc: &mut Mqc, bpno_plus_one: i32, cblksty: u32)
        requires
            old(self).pass_ready(),
            1 <= bpno_plus_one <= 30,
            old(mqc).dec_wf(),
        ensures
            final(self).pass_ready(),
            old(self).same_block(&*final(self)),
            dec_kept(&*old(mqc), &*final(mqc), false),
            (final(self).flags@, final(self).data@, final(mqc).dec_model()) == cln_pass(
                old(mqc).buf@,
                old(mqc).end as int,
                (old(self).flags@, old(self).data@, old(mqc).dec_model()),
                old(self).w as int,
                old(self).h as int,
                significance_value(bpno_plus_one),
                cblksty & J2K_CCP_CBLKSTY_VSC != 0,
                cblksty & J2K_CCP_CBLKSTY_SEGSYM != 0,
                old(self).lut_ctxno_zc_orient_offset,
            ),
    {
        let ghost base = *mqc;
        let ghost st0: ClnState = (self.flags@, self.data@, mqc.dec_model());
        proof {
            reveal(cln_stripes);
        }
        let (oneplushalf, _half) = plane_magnitudes(bpno_plus_one);
        let w = self.w as usize;
        let h = self.h as usize;
        let stride = w + 2;
        let vsc0 = (cblksty & J2K_CCP_CBLKSTY_VSC) != 0;
        let full = h / 4;
        let k = full * 4;
        let rows_last: usize = if k < h { h - k } else { 0 };
        let stripes = if k < h { full + 1 } else { full };
        let mut datap: usize = 0;
        let mut fp: usize = stride + 1;
        let mut s: usize = 0;
        proof {
            assert(datap == 4 * s * w && fp == (s + 1) * stride + 1) by (nonlinear_arith)
                requires
                    s == 0,
                    datap == 0,
                    fp == stride + 1,
            ;
        }
        while s < stripes
            invariant
                self.pass_ready(),
                old(self).same_block(&*self),
                w == self.w && h == self.h && stride == w + 2 && full == h / 4 && k == 4 * full,
                rows_last == (if k < h { h - k } else { 0 }),
                stripes == (h + 3) / 4,
                1 <= oneplushalf <= 0x3000_0000,
                s <= stripes,
                datap == 4 * s * w,
                fp == (s + 1) * stride + 1,
                dec_kept(&*old(mqc), &*mqc, false),
                base == *old(mqc),
                vsc0 == (cblksty & J2K_CCP_CBLKSTY_VSC != 0),
                oneplushalf == significance_value(bpno_plus_one),
                (self.flags@, self.data@, mqc.dec_model()) == cln_stripes(
                    base.bytes(),
                    base.end as int,
                    st0,
                    w as int,
                    h as int,
                    s as int,
                    oneplushalf,
                    vsc0,
                    old(self).lut_ctxno_zc_orient_offset,
                ),
            decreases stripes - s,
        {
            let n = if s < full { 4 } else { rows_last };
            let ghost stripe_start: ClnState = (self.flags@, self.data@, mqc.dec_model());
            proof {
                reveal(cln_stripe);
                assert(n == stripe_rows(h as int, s as int));
            }
            let mut i: usize = 0;
            while i < w
                invariant
                    self.pass_ready(),
                    old(self).same_block(&*self),
                    w == self.w && h == self.h && stride == w + 2 && full == h / 4 && k == 4 * full,
                    rows_last == (if k < h { h - k } else { 0 }),
                    stripes == (h + 3) / 4,
                    n == (if s < full { 4 } else { rows_last }),
                    1 <= n <= 4,
                    4 * s + n <= h,
                    1 <= oneplushalf <= 0x3000_0000,
                    s < stripes,
                    i <= w,
                    datap == 4 * s * w + i,
                    fp == (s + 1) * stride + i + 1,
                    dec_kept(&*old(mqc), &*mqc, false),
                    base == *old(mqc),
                    n == stripe_rows(h as int, s as int),
                    (self.flags@, self.data@, mqc.dec_model()) == cln_stripe(
                        base.bytes(),
                        base.end as int,
                        stripe_start,
                        w as int,
                        h as int,
                        s as int,
                        i as int,
                        oneplushalf,
                        vsc0,
                        old(self).lut_ctxno_zc_orient_offset,
                    ),
                    stripe_start == cln_stripes(
                        base.bytes(),
                        base.end as int,
                        st0,
                        w as int,
                        h as int,
                        s as int,
                        oneplushalf,
                        vsc0,
                        old(self).lut_ctxno_zc_orient_offset,
                    ),
                decreases w - i,
            {
                proof {
                    lemma_column(w as int, h as int, s as int, i as int);
                    lemma_dec_sample(w as int, h as int, s as int, n as int, i as int, 0);
                    assert forall|j: int| 0 <= j < n implies #[trigger] sample_at(datap as int, j, w as int) < self.data@.len() by {
                        lemma_dec_sample(w as int, h as int, s as int, n as int, i as int, j);
                    }
                }
                self.dec_clnpass_column(mqc, Ghost(base), fp, datap, n, w, oneplushalf, vsc0);
                proof {
                    reveal(cln_stripe);
                }
                datap += 1;
                fp += 1;
                i += 1;
            }
            proof {
                lemma_column(w as int, h as int, s as int, w as int);
                lemma_dec_stripe_end(w as int, h as int, s as int);
                reveal(cln_stripes);
            }
            datap += 3 * w;
            fp += 2;
            s += 1;
        }
        if (cblksty & J2K_CCP_CBLKSTY_SEGSYM) != 0 {
            mqc.set_curctx(T1_CTXNO_UNI);
            let ghost m0 = *mqc;
            let _b0 = mqc.decode();
            proof {
                lemma_decode_model(&m0, &*mqc, _b0);
            }
            let ghost m1 = *mqc;
            let _b1 = mqc.decode();
            proof {
                lemma_decode_model(&m1, &*mqc, _b1);
            }
            let ghost m2 = *mqc;
            let _b2 = mqc.decode();
            proof {
                lemma_decode_model(&m2, &*mqc, _b2);
            }
            let ghost m3 = *mqc;
            let _b3 = mqc.decode();
            proof {
                lemma_decode_model(&m3, &*mqc, _b3);
            }
        }
    }

    /// Decodes a code block from its segments: for each segment, a decoder over its
    /// bytes, with the tier-1 initial contexts, runs the segment's coding passes in the
    /// cycle significance, refinement, clean-up that starts with a clean-up pass at the
    /// most significant bit-plane, `roishift + numbps - 1`, one bit-plane lower after each
    /// clean-up, until the last bit-plane. A segment is raw in the lazy code-block style
    /// when it starts with a significance or refinement pass from the fifth bit-plane on;
    /// with the reset style the contexts go back to their initial states after each
    /// arithmetic pass. A most significant bit-plane of 30 or more is refused, and so is a
    /// raw segment that reaches a clean-up pass. On success the flags and coefficients are
    /// those of `cblk_segs`.
    #[verifier::spinoff_prover]
    pub fn decode_cblk(
        &mut self,
        segments: &[DecodeSegment],
        orient: u32,
        roishift: u32,
        numbps: u32,
        cblksty: u32,
    ) -> (r: Result<()>)
        requires
            old(self).buffers_ready(),
            orient <= 3,
            roishift + numbps <= u32::MAX,
            numbps <= i32::MAX,
        ensures
            r is Err <==> ((roishift + numbps) as i32) >= 31 || raw_cleanup(
                segment_passes(segments@),
                0,
                2,
                ((roishift + numbps) as i32) as int,
                numbps - 4,
                (cblksty & J2K_CCP_CBLKSTY_LAZY) != 0,
            ),
            final(self).lut_ctxno_zc_orient_offset == (orient as usize) << 9usize,
            final(self).pass_ready(),
            old(self).w == final(self).w && old(self).h == final(self).h,
            old(self).encoder == final(self).encoder,
            old(self).data@.len() == final(self).data@.len(),
            old(self).flags@.len() == final(self).flags@.len(),
            ((roishift + numbps) as i32) >= 31 ==> final(self).data == old(self).data && final(self).flags
                == old(self).flags,
            r is Ok ==> (final(self).flags@, final(self).data@) == cblk_segs(
                segments@,
                0,
                old(self).flags@,
                old(self).data@,
                2,
                ((roishift + numbps) as i32) as int,
                numbps - 4,
                old(self).w as int,
                old(self).h as int,
                cblksty,
                (orient as usize) << 9usize,
            ),
    {
        self.set_orient(orient);
        proof {
            lemma_orient_offset(orient);
        }
        let mut bpno_plus_one = (roishift + numbps) as i32;
        if bpno_plus_one >= 31 {
            return Err(invalid("code-block decoding: most significant bit-plane out of range"));
        }
        let lazy_from = numbps as i32 - 4;
        let lazy = (cblksty & J2K_CCP_CBLKSTY_LAZY) != 0;
        let ghost passes = segment_passes(segments@);
        let ghost top = bpno_plus_one as int;
        let mut passtype: u32 = 2;
        let mut si: usize = 0;
        while si < segments.len()
            invariant
                self.pass_ready(),
                self.lut_ctxno_zc_orient_offset == (orient as usize) << 9usize,
                old(self).w == self.w && old(self).h == self.h,
                old(self).encoder == self.encoder,
                old(self).data@.len() == self.data@.len(),
                old(self).flags@.len() == self.flags@.len(),
                passes == segment_passes(segments@),
                top == ((roishift + numbps) as i32) as int,
                top <= 30,
                lazy_from == numbps - 4,
                lazy == ((cblksty & J2K_CCP_CBLKSTY_LAZY) != 0),
                bpno_plus_one <= 30,
                passtype <= 2,
                si <= segments.len(),
                raw_cleanup(passes, 0, 2, top, lazy_from as int, lazy) == raw_cleanup(
                    passes,
                    si as int,
                    passtype as int,
                    bpno_plus_one as int,
                    lazy_from as int,
                    lazy,
                ),
                cblk_segs(
                    segments@,
                    0,
                    old(self).flags@,
                    old(self).data@,
                    2,
                    top,
                    lazy_from as int,
                    old(self).w as int,
                    old(self).h as int,
                    cblksty,
                    (orient as usize) << 9usize,
                ) == cblk_segs(
                    segments@,
                    si as int,
                    self.flags@,
                    self.data@,
                    passtype as int,
                    bpno_plus_one as int,
                    lazy_from as int,
                    self.w as int,
                    self.h as int,
                    cblksty,
                    (orient as usize) << 9usize,
                ),
            decreases segments.len() - si,
        {
            let seg = &segments[si];
            let seg_len = seg.data.len();
            let n = seg.num_passes;
            let raw = bpno_plus_one <= lazy_from && passtype < 2 && lazy;
            let ghost p0 = passtype as int;
            let ghost b0 = bpno_plus_one as int;
            let mut buf = vstd::slice::slice_to_vec(seg.data);
            let mut e: usize = 0;
            while e < COMMON_CBLK_DATA_EXTRA
                invariant
                    buf@.len() == seg_len + e,
                    e <= COMMON_CBLK_DATA_EXTRA,
                    buf@ =~= seg.data@ + Seq::new(e as nat, |k: int| 0u8),
                decreases COMMON_CBLK_DATA_EXTRA - e,
            {
                buf.push(0u8);
                e += 1;
                assert(buf@ =~= seg.data@ + Seq::new(e as nat, |k: int| 0u8));
            }
            let _blen = buf.len();
            let ghost bytes = seg.data@ + seq![0u8, 0u8];
            proof {
                assert(buf@ =~= bytes);
            }
            let ghost seg_fl = self.flags@;
            let ghost seg_data = self.data@;
            let mut mqc = Mqc::new(buf.as_mut_slice());
            init_t1_contexts(&mut mqc);
            if raw {
                mqc.raw_init_dec(seg_len);
            } else {
                mqc.init_dec(seg_len);
            }
            proof {
                reveal(cblk_segs);
                assert(mqc.dec_model() == seg_start(bytes, seg_len as int, raw));
            }
            let mut passno: u32 = 0;
            while passno < n && bpno_plus_one >= 1
                invariant
                    self.pass_ready(),
                    self.lut_ctxno_zc_orient_offset == (orient as usize) << 9usize,
                    old(self).w == self.w && old(self).h == self.h,
                    old(self).encoder == self.encoder,
                    old(self).data@.len() == self.data@.len(),
                    old(self).flags@.len() == self.flags@.len(),
                    bpno_plus_one <= b0 <= 30,
                    passtype <= 2,
                    passno <= n,
                    0 <= p0 <= 2,
                    b0 >= 1 ==> bpno_plus_one >= 0,
                    b0 < 1 ==> passno == 0 && bpno_plus_one == b0 && passtype == p0,
                    passtype + 3 * (b0 - bpno_plus_one) == p0 + passno,
                    raw ==> passtype == p0 + passno && bpno_plus_one == b0,
                    raw == (b0 <= lazy_from && p0 < 2 && lazy),
                    b0 >= 1 && bpno_plus_one == 0 ==> passtype == 0,
                    top == ((roishift + numbps) as i32) as int,
                    top <= 30,
                    lazy_from == numbps - 4,
                    lazy == ((cblksty & J2K_CCP_CBLKSTY_LAZY) != 0),
                    raw_cleanup(passes, 0, 2, top, lazy_from as int, lazy) == raw_cleanup(
                        passes,
                        si as int,
                        p0,
                        b0,
                        lazy_from as int,
                        lazy,
                    ),
                    passes == segment_passes(segments@),
                    si < segments@.len(),
                    n == segments@[si as int].num_passes,
                    dec_ready(&mqc, raw),
                    mqc.bytes() == bytes,
                    mqc.end == seg_len,
                    bytes == segments@[si as int].data@ + seq![0u8, 0u8],
                    seg_len == segments@[si as int].data@.len(),
                    seg_run(
                        bytes,
                        seg_len as int,
                        (seg_fl, seg_data, seg_start(bytes, seg_len as int, raw)),
                        n as int,
                        p0,
                        b0,
                        raw,
                        self.w as int,
                        self.h as int,
                        cblksty,
                        self.lut_ctxno_zc_orient_offset,
                    ) == seg_run(
                        bytes,
                        seg_len as int,
                        (self.flags@, self.data@, mqc.dec_model()),
                        n - passno,
                        passtype as int,
                        bpno_plus_one as int,
                        raw,
                        self.w as int,
                        self.h as int,
                        cblksty,
                        self.lut_ctxno_zc_orient_offset,
                    ),
                decreases n - passno,
            {
                let ghost pre: ClnState = (self.flags@, self.data@, mqc.dec_model());
                proof {
                    reveal(seg_run);
                }
                if passtype == 0 {
                    if raw {
                        self.dec_sigpass_raw(&mut mqc, bpno_plus_one, cblksty);
                    } else {
                        self.dec_sigpass_mqc(&mut mqc, bpno_plus_one, cblksty);
                    }
                } else if passtype == 1 {
                    if raw {
                        self.dec_refpass_raw(&mut mqc, bpno_plus_one);
                    } else {
                        self.dec_refpass_mqc(&mut mqc, bpno_plus_one);
                    }
                } else {
                    if raw {
                        proof {
                            assert(raw_cleanup(passes, si as int, p0, b0, lazy_from as int, lazy)) by {
                                assert(passes[si as int] == n);
                            }
                        }
                        return Err(invalid("code-block decoding: clean-up pass in a raw segment"));
                    }
                    self.dec_clnpass(&mut mqc, bpno_plus_one, cblksty);
                }
                let ghost mid: ClnState = (self.flags@, self.data@, mqc.dec_model());
                proof {
                    assert(mid == dec_pass(
                        bytes,
                        seg_len as int,
                        pre,
                        passtype as int,
                        bpno_plus_one as int,
                        raw,
                        self.w as int,
                        self.h as int,
                        cblksty,
                        self.lut_ctxno_zc_orient_offset,
                    ));
                }
                if (cblksty & J2K_CCP_CBLKSTY_RESET) != 0 && !raw {
                    init_t1_contexts(&mut mqc);
                }
                passtype += 1;
                if passtype == 3 {
                    passtype = 0;
                    bpno_plus_one -= 1;
                }
                passno += 1;
            }
            proof {
                assert(passes[si as int] == n);
                let m = seg_passes_run(n as int, p0, b0);
                if b0 >= 1 {
                    if bpno_plus_one < 1 {
                        assert(passno == 3 * b0 - p0);
                    } else {
                        assert(passno == n);
                        assert(n <= 3 * b0 - p0 - 1);
                    }
                }
                assert(passno == m);
                vstd::arithmetic::div_mod::lemma_fundamental_div_mod_converse(
                    p0 + m,
                    3,
                    b0 - bpno_plus_one,
                    passtype as int,
                );
                assert(!(raw && m > 2 - p0));
            }
            proof {
                reveal(seg_run);
            }
            mqc.finish_dec();
            si += 1;
        }
        proof {
            reveal(cblk_segs);
        }
        Ok(())
    }
}

/// The decoder at the start of a segment whose input is `bytes`, ending at `end`, with the
/// tier-1 initial contexts: in raw mode positioned on the first byte with no bit loaded;
/// in arithmetic mode with the interval at 0x8000 and the first bytes loaded into the
/// code register.
pub open spec fn seg_start(bytes: Seq<u8>, end: int, raw: bool) -> DecModel {
    if raw {
        (0u32, 0u32, 0u32, 1, t1_initial_ctxs(), t1_initial_mps())
    } else {
        let first: u32 = if end == 0 { 0xff } else { bytes[0] as u32 };
        let r = bytein_at(bytes, end, first << 16u32, 1);
        (0x8000u32, r.0 << 7u32, (r.1 - 7) as u32, r.2, t1_initial_ctxs(), t1_initial_mps())
    }
}

/// One coding pass of type `p` (0 significance, 1 refinement, 2 clean-up) for the
/// bit-plane below `b` over a `w` by `h` code block, reading the input `bytes` that ends
/// at `end`, raw or through the arithmetic decoder.
pub open spec fn dec_pass(
    bytes: Seq<u8>,
    end: int,
    st: ClnState,
    p: int,
    b: int,
    raw: bool,
    w: int,
    h: int,
    cblksty: u32,
    zoff: usize,
) -> ClnState {
    if p == 0 {
        sig_dec_pass(bytes, end, st, w, h, (h + 3) / 4, significance_value(b as i32), cblksty & J2K_CCP_CBLKSTY_VSC != 0, raw, zoff)
    } else if p == 1 {
        ref_dec_pass(bytes, end, st, w, h, (h + 3) / 4, refinement_step(b as i32), raw)
    } else {
        cln_pass(
            bytes,
            end,
            st,
            w,
            h,
            significance_value(b as i32),
            cblksty & J2K_CCP_CBLKSTY_VSC != 0,
            cblksty & J2K_CCP_CBLKSTY_SEGSYM != 0,
            zoff,
        )
    }
}

/// The first `n` passes of a segment, starting with pass type `p` at the bit-plane below
/// `b`, stopping after the clean-up pass of the last bit-plane: the state they leave, and
/// the pass type and bit-plane that come next. In the reset style, the contexts return to
/// their initial states after each arithmetic pass.
#[verifier::opaque]
pub open spec fn seg_run(
    bytes: Seq<u8>,
    end: int,
    st: ClnState,
    n: int,
    p: int,
    b: int,
    raw: bool,
    w: int,
    h: int,
    cblksty: u32,
    zoff: usize,
) -> (ClnState, int, int)
    decreases n,
{
    if n <= 0 || b < 1 {
        (st, p, b)
    } else {
        let st1 = dec_pass(bytes, end, st, p, b, raw, w, h, cblksty, zoff);
        let st2: ClnState = if cblksty & J2K_CCP_CBLKSTY_RESET != 0 && !raw {
            (st1.0, st1.1, (st1.2.0, st1.2.1, st1.2.2, st1.2.3, t1_initial_ctxs(), t1_initial_mps()))
        } else {
            st1
        };
        seg_run(
            bytes,
            end,
            st2,
            n - 1,
            if p == 2 { 0 } else { p + 1 },
            if p == 2 { b - 1 } else { b },
            raw,
            w,
            h,
            cblksty,
            zoff,
        )
    }
}

/// The flags and coefficients that decoding segments `i..` of a code block leaves, from
/// flags `fl` and coefficients `data`, the next pass being of type `p` at the bit-plane
/// below `b`. Each segment is read from its bytes followed by two zero bytes; it is raw in
/// the lazy style when it starts with a significance or refinement pass at or below the
/// bit-plane `lazy_from`.
#[verifier::opaque]
pub open spec fn cblk_segs(
    segs: Seq<DecodeSegment>,
    i: int,
    fl: Seq<u32>,
    data: Seq<i32>,
    p: int,
    b: int,
    lazy_from: int,
    w: int,
    h: int,
    cblksty: u32,
    zoff: usize,
) -> (Seq<u32>, Seq<i32>)
    decreases segs.len() - i,
{
    if i < 0 || i >= segs.len() {
        (fl, data)
    } else {
        let raw = b <= lazy_from && p < 2 && cblksty & J2K_CCP_CBLKSTY_LAZY != 0;
        let bytes = segs[i].data@ + seq![0u8, 0u8];
        let end = segs[i].data@.len() as int;
        let r = seg_run(bytes, end, (fl, data, seg_start(bytes, end, raw)), segs[i].num_passes as int, p, b, raw, w, h, cblksty, zoff);
        cblk_segs(segs, i + 1, r.0.0, r.0.1, r.1, r.2, lazy_from, w, h, cblksty, zoff)
    }
}

/// The number of coding passes of each segment.
pub open spec fn segment_passes(segments: Seq<DecodeSegment>) -> Seq<u32> {
    Seq::new(segments.len(), |i: int| segments[i].num_passes)
}

/// How many of its `n` passes a segment runs when it starts with pass type `p` (0
/// significance, 1 refinement, 2 clean-up) at bit-plane `b - 1`: passes stop after the
/// clean-up pass of the last bit-plane.
pub open spec fn seg_passes_run(n: int, p: int, b: int) -> int {
    if b < 1 {
        0
    } else if n <= 3 * b - p {
        n
    } else {
        3 * b - p
    }
}

/// Whether, from segment `i` on, starting with pass type `p` at bit-plane `b - 1`, some
/// segment is raw (it starts with a significance or refinement pass at or below bit-plane
/// `lazy_from - 1`, in the lazy style) and reaches a clean-up pass.
pub open spec fn raw_cleanup(passes: Seq<u32>, i: int, p: int, b: int, lazy_from: int, lazy: bool) -> bool
    decreases passes.len() - i,
{
    if i < 0 || i >= passes.len() {
        false
    } else {
        let m = seg_passes_run(passes[i] as int, p, b);
        let raw = b <= lazy_from && p < 2 && lazy;
        if raw && m > 2 - p {
            true
        } else {
            raw_cleanup(passes, i + 1, (p + m) % 3, b - (p + m) / 3, lazy_from, lazy)
        }
    }
}

/// The zero-coding contexts of an orientation up to 3 start at most at entry 1536.
pub(crate) proof fn lemma_orient_offset(orient: u32)
    requires
        orient <= 3,
    ensures
        (orient as usize) << 9usize <= 1536,
{
    assert((orient as usize) << 9usize <= 1536) by (bit_vector)
        requires
            orient <= 3,
    ;
}

/// Puts the decoder's contexts in the initial states of tier-1: every context in state 0
/// but the uniform context in state 46, the run-length context in state 3 and the first
/// zero-coding context in state 4.
pub(crate) fn init_t1_contexts(mqc: &mut Mqc)
    requires
        old(mqc).curctx < MQC_NUMCTXS,
    ensures
        final(mqc).ctxs_valid(),
        final(mqc).curctx == old(mqc).curctx,
        final(mqc).buf@ == old(mqc).buf@,
        final(mqc).bp == old(mqc).bp && final(mqc).c == old(mqc).c,
        final(mqc).a == old(mqc).a && final(mqc).ct == old(mqc).ct,
        final(mqc).start == old(mqc).start && final(mqc).end == old(mqc).end,
        final(mqc).ctxs@[T1_CTXNO_UNI as int] == 46 && final(mqc).ctxs@[T1_CTXNO_AGG as int] == 3,
        final(mqc).ctxs@[T1_CTXNO_ZC as int] == 4,
        forall|i: int| 0 <= i < MQC_NUMCTXS ==> #[trigger] final(mqc).ctxs_mps@[i] == 0,
        final(mqc).ctxs@ == t1_initial_ctxs(),
        final(mqc).ctxs_mps@ == t1_initial_mps(),
{
    mqc.reset_states();
    let ghost c0 = mqc.ctxs@;
    let ghost m0 = mqc.ctxs_mps@;
    mqc.set_state(T1_CTXNO_UNI, 0, 46);
    mqc.set_state(T1_CTXNO_AGG, 0, 3);
    mqc.set_state(T1_CTXNO_ZC, 0, 4);
    assert(mqc.ctxs_mps@ == m0.update(T1_CTXNO_UNI as int, 0u8).update(T1_CTXNO_AGG as int, 0u8).update(
        T1_CTXNO_ZC as int,
        0u8,
    ));
    assert forall|i: int| 0 <= i < MQC_NUMCTXS implies #[trigger] mqc.ctxs_mps@[i] == 0 by {
        assert(c0[i] == 0);
    }
    assert(mqc.ctxs@ =~= t1_initial_ctxs()) by {
        assert forall|i: int| 0 <= i < MQC_NUMCTXS implies #[trigger] mqc.ctxs@[i] == t1_initial_ctxs()[i] by {
            assert(c0[i] == 0);
        }
    }
    assert(mqc.ctxs_mps@ =~= t1_initial_mps());
}

/// The context states after the tier-1 initialisation: the uniform context in state 46,
/// the run-length context in state 3, the first zero-coding context in state 4, the
/// others in state 0.
pub open spec fn t1_initial_ctxs() -> Seq<usize> {
    Seq::new(
        MQC_NUMCTXS as nat,
        |i: int|
            if i == T1_CTXNO_UNI {
                46usize
            } else if i == T1_CTXNO_AGG {
                3usize
            } else if i == T1_CTXNO_ZC {
                4usize
            } else {
                0usize
            },
    )
}

/// The more probable symbols after the tier-1 initialisation: all 0.
pub open spec fn t1_initial_mps() -> Seq<u8> {
    Seq::new(MQC_NUMCTXS as nat, |i: int| 0u8)
}

} // verus!

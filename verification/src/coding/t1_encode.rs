//! Coding of a whole code block by tier-1: the samples in sign-magnitude form, then the
//! coding passes from the most significant bit-plane down, with the coder's terminations
//! and the byte count of each pass.
use vstd::prelude::*;
use vstd::arithmetic::power2::{lemma2_to64, lemma_pow2_strictly_increases, pow2};
use crate::coding::mqc::Mqc;
use crate::coding::t1::{T1, to_smr};
use crate::coding::t1_decode::{init_t1_contexts, lemma_orient_offset};
use crate::coding::t1_passes::mq_ready;
use crate::error::{Error, Result};
use crate::types::{
    J2K_CCP_CBLKSTY_LAZY, J2K_CCP_CBLKSTY_PTERM, J2K_CCP_CBLKSTY_RESET, J2K_CCP_CBLKSTY_SEGSYM,
    J2K_CCP_CBLKSTY_TERMALL, T1_TYPE_MQ, T1_TYPE_RAW, int_floorlog2, is_floorlog2,
};

verus! {

/// A coding pass of a code block, as the encoder produced it.
#[derive(Clone, Copy, Debug)]
pub struct CodedPass {
    /// Bit-plane of the pass.
    pub bpno: i32,
    /// Type of the pass: 0 significance, 1 refinement, 2 clean-up.
    pub passtype: u32,
    /// Bytes of the code block up to and including this pass.
    pub rate: u32,
    /// Bytes of this pass.
    pub len: u32,
    /// Whether the coder was terminated after this pass.
    pub term: bool,
    /// Distortion decrease of this pass, in the units of the distortion tables.
    pub nmsedec: i32,
}

/// Magnitude of sample `x`; the smallest `i32` counts as the largest.
pub open spec fn sample_mag(x: i32) -> int {
    if x >= 0 {
        x as int
    } else if x == i32::MIN {
        i32::MAX as int
    } else {
        -(x as int)
    }
}

/// Sign-magnitude form of sample `x`; the smallest `i32` counts as one more.
pub open spec fn smr_form(x: i32) -> i32 {
    if x >= 0 {
        x
    } else {
        let c: i32 = if x == i32::MIN { (i32::MIN + 1) as i32 } else { x };
        (((-c) as u32) | 0x8000_0000u32) as i32
    }
}

/// The samples of `data` in sign-magnitude form.
pub open spec fn smr_data(data: Seq<i32>) -> Seq<i32> {
    data.map_values(|x: i32| smr_form(x))
}

/// Largest magnitude of the first `n` samples of `data`.
pub open spec fn max_mag(data: Seq<i32>, n: nat) -> int
    decreases n,
{
    if n == 0 {
        0
    } else {
        let m = max_mag(data, (n - 1) as nat);
        let x = sample_mag(data[n - 1]);
        if x > m {
            x
        } else {
            m
        }
    }
}

/// Whether the pass of type `t` at bit-plane `b` of a block of `numbps` bit-planes is
/// coded raw: a significance or refinement pass below the fourth bit-plane, in the lazy
/// style.
pub open spec fn raw_pass(numbps: int, b: int, t: int, lazy: bool) -> bool {
    b < numbps - 4 && t < 2 && lazy
}

/// Whether the coder is terminated after the pass of type `t` at bit-plane `b`: the last
/// clean-up pass, every pass with termination on each pass, and in the lazy style the
/// fourth clean-up pass and every later refinement and clean-up pass.
pub open spec fn term_pass(numbps: int, b: int, t: int, termall: bool, lazy: bool) -> bool {
    (t == 2 && b == 0) || termall || (lazy && (b == numbps - 4 && t == 2 || b < numbps - 4 && t > 0))
}

/// Bit-plane of pass `k` of a block of `numbps` bit-planes: the first pass is the clean-up
/// pass of the most significant bit-plane, then each lower bit-plane has three passes.
pub open spec fn pass_bpno(numbps: int, k: int) -> int {
    numbps - 1 - (k + 2) / 3
}

/// Type of pass `k`: 2 for the first, then 0, 1, 2 in turn.
pub open spec fn pass_type(k: int) -> int {
    (k + 2) % 3
}

/// A coder that a pass may restart from after a termination.
pub open spec fn restartable(mqc: &Mqc) -> bool {
    &&& mqc.ctxs_valid()
    &&& mqc.start == 0
    &&& 1 <= mqc.bp <= mqc.buf@.len() + 1
    &&& mqc.buf@.len() < usize::MAX
}

/// Without a termination, the next pass is coded in the same mode.
proof fn lemma_mode_kept(numbps: int, b: int, t: int, termall: bool, lazy: bool)
    requires
        0 <= t <= 2,
        !term_pass(numbps, b, t, termall, lazy),
    ensures
        t == 2 ==> raw_pass(numbps, b, t, lazy) == raw_pass(numbps, b - 1, 0, lazy),
        t < 2 ==> raw_pass(numbps, b, t, lazy) == raw_pass(numbps, b, t + 1, lazy),
{
}

/// Bit-plane and type of the pass after pass `k`.
proof fn lemma_next_pass(numbps: int, k: int)
    requires
        k >= 0,
    ensures
        pass_type(k) < 2 ==> pass_type(k + 1) == pass_type(k) + 1 && pass_bpno(numbps, k + 1) == pass_bpno(numbps, k),
        pass_type(k) == 2 ==> pass_type(k + 1) == 0 && pass_bpno(numbps, k + 1) == pass_bpno(numbps, k) - 1,
        0 <= pass_type(k) <= 2,
{
    let q = (k + 2) / 3;
    let r = (k + 2) % 3;
    vstd::arithmetic::div_mod::lemma_fundamental_div_mod(k + 2, 3);
    if r < 2 {
        vstd::arithmetic::div_mod::lemma_fundamental_div_mod_converse(k + 3, 3, q, r + 1);
    } else {
        vstd::arithmetic::div_mod::lemma_fundamental_div_mod_converse(k + 3, 3, q + 1, 0);
    }
}

/// The number of bit-planes of a largest magnitude of at least 64, in the units of the
/// coefficients (whose 6 lowest bits are fractional).
proof fn lemma_plane_count(max: int, r: int)
    requires
        64 <= max <= i32::MAX,
        is_floorlog2(max, r),
    ensures
        6 <= r <= 30,
{
    lemma2_to64();
    if r < 6 {
        if r + 1 < 6 {
            lemma_pow2_strictly_increases((r + 1) as nat, 6);
        }
    }
    if r > 30 {
        lemma_pow2_strictly_increases(31, r as nat);
    }
}

impl T1 {
    /// Turns the samples into sign-magnitude form; returns their largest magnitude.
    fn smr_convert(&mut self) -> (max: i32)
        ensures
            final(self).data@ == smr_data(old(self).data@),
            max as int == max_mag(old(self).data@, old(self).data@.len()),
            0 <= max,
            final(self).w == old(self).w && final(self).h == old(self).h,
            final(self).encoder == old(self).encoder,
            final(self).flags == old(self).flags,
            final(self).lut_ctxno_zc_orient_offset == old(self).lut_ctxno_zc_orient_offset,
    {
        let ghost data0 = self.data@;
        let nd = self.data.len();
        let mut max: i32 = 0;
        let mut i: usize = 0;
        while i < nd
            invariant
                nd == self.data@.len(),
                nd == data0.len(),
                data0 == old(self).data@,
                self.w == old(self).w && self.h == old(self).h,
                self.encoder == old(self).encoder,
                self.flags == old(self).flags,
                self.lut_ctxno_zc_orient_offset == old(self).lut_ctxno_zc_orient_offset,
                i <= nd,
                forall|j: int| 0 <= j < i ==> #[trigger] self.data@[j] == smr_form(data0[j]),
                forall|j: int| i <= j < nd ==> #[trigger] self.data@[j] == data0[j],
                max as int == max_mag(data0, i as nat),
                0 <= max,
            decreases nd - i,
        {
            let tmp = self.data[i];
            if tmp < 0 {
                let clamped: i32 = if tmp == i32::MIN { i32::MIN + 1 } else { tmp };
                if -clamped > max {
                    max = -clamped;
                }
                let v = to_smr(clamped);
                self.data.set(i, v);
            } else {
                if tmp > max {
                    max = tmp;
                }
            }
            i += 1;
        }
        proof {
            assert(self.data@ =~= smr_data(data0));
        }
        max
    }

    /// Codes the pass of type `passtype` at bit-plane `bpno` of a block of `numbps`
    /// bit-planes: restarts the coder first when `restart` (after a termination), codes
    /// the pass raw or arithmetically, adds the segmentation symbol after a clean-up pass
    /// in that style, terminates the coder when `term_pass` says so, and records the
    /// pass with the bytes output so far (plus what a termination would add when it is
    /// not terminated).
    #[verifier::spinoff_prover]
    #[verifier::rlimit(30)]
    fn code_pass(
        &mut self,
        mqc: &mut Mqc,
        bpno: i32,
        passtype: u32,
        numbps: u32,
        cblksty: u32,
        restart: bool,
    ) -> (r: CodedPass)
        requires
            old(self).pass_ready(),
            0 <= bpno < numbps <= 25,
            passtype <= 2,
            restart ==> restartable(&*old(mqc)),
            !restart ==> mq_ready(
                &*old(mqc),
                raw_pass(numbps as int, bpno as int, passtype as int, cblksty & J2K_CCP_CBLKSTY_LAZY != 0),
            ),
            old(mqc).bp + 9 * (old(self).w * old(self).h) + 16 <= old(mqc).buf@.len(),
            old(mqc).buf@.len() + 4 <= u32::MAX,
        ensures
            final(self).pass_ready(),
            old(self).same_block(&*final(self)),
            final(self).data == old(self).data,
            final(self).lut_ctxno_zc_orient_offset == old(self).lut_ctxno_zc_orient_offset,
            r.bpno == bpno && r.passtype == passtype,
            r.term == term_pass(
                numbps as int,
                bpno as int,
                passtype as int,
                cblksty & J2K_CCP_CBLKSTY_TERMALL != 0,
                cblksty & J2K_CCP_CBLKSTY_LAZY != 0,
            ),
            r.len == 0,
            r.rate <= old(mqc).buf@.len() + 3,
            r.term ==> restartable(&*final(mqc)),
            !r.term ==> mq_ready(
                &*final(mqc),
                raw_pass(numbps as int, bpno as int, passtype as int, cblksty & J2K_CCP_CBLKSTY_LAZY != 0),
            ),
            final(mqc).buf@.len() == old(mqc).buf@.len(),
            final(mqc).bp <= old(mqc).bp + 9 * (old(self).w * old(self).h) + 15,
    {
        let lazy = (cblksty & J2K_CCP_CBLKSTY_LAZY) != 0;
        let pterm = (cblksty & J2K_CCP_CBLKSTY_PTERM) != 0;
        let raw = bpno < numbps as i32 - 4 && passtype < 2 && lazy;
        let pass_type_byte = if raw { T1_TYPE_RAW } else { T1_TYPE_MQ };
        if restart {
            if raw {
                mqc.bypass_init_enc();
            } else {
                mqc.restart_init_enc();
            }
        }
        let nmsedec = if passtype == 0 {
            self.enc_sigpass(mqc, bpno, pass_type_byte, cblksty)
        } else if passtype == 1 {
            self.enc_refpass(mqc, bpno, pass_type_byte)
        } else {
            let n = self.enc_clnpass(mqc, bpno, cblksty);
            if (cblksty & J2K_CCP_CBLKSTY_SEGSYM) != 0 {
                mqc.segmark_enc();
            }
            n
        };
        let term = T1::is_term_pass(numbps, cblksty, bpno, passtype);
        let rate: u32 = if term {
            if raw {
                let ghost before = *mqc;
                mqc.bypass_flush_enc(pterm);
                proof {
                    before.lemma_ctxs_valid_kept(&*mqc);
                }
            } else if pterm {
                mqc.erterm_enc();
            } else {
                mqc.flush();
            }
            mqc.num_bytes() as u32
        } else {
            let extra = if raw { mqc.bypass_get_extra_bytes(pterm) } else { 3 };
            mqc.num_bytes() as u32 + extra
        };
        CodedPass { bpno, passtype, rate, len: 0, term, nmsedec }
    }

    /// Makes the rates of `passes` non-decreasing from the last back, capped by
    /// `last_rate`.
    #[verifier::spinoff_prover]
    fn cap_rates(passes: &mut Vec<CodedPass>, last_rate: u32)
        ensures
            final(passes)@.len() == old(passes)@.len(),
            forall|k: int|
                0 <= k < old(passes)@.len() ==> {
                    &&& #[trigger] final(passes)@[k].bpno == old(passes)@[k].bpno
                    &&& final(passes)@[k].passtype == old(passes)@[k].passtype
                    &&& final(passes)@[k].term == old(passes)@[k].term
                },
            forall|k: int| 0 <= k < old(passes)@.len() ==> #[trigger] final(passes)@[k].rate <= last_rate,
            forall|k: int| 0 <= k < old(passes)@.len() - 1 ==> #[trigger] final(passes)@[k].rate <= final(passes)@[k + 1].rate,
    {
        let n = passes.len();
        let mut cur_max = last_rate;
        let mut j = n;
        while j > 0
            invariant
                n == passes@.len(),
                n == old(passes)@.len(),
                j <= n,
                cur_max <= last_rate,
                j < n ==> cur_max == passes@[j as int].rate,
                forall|q: int| j <= q < n ==> #[trigger] passes@[q].rate <= last_rate,
                forall|q: int| j <= q < n - 1 ==> #[trigger] passes@[q].rate <= passes@[q + 1].rate,
                forall|q: int|
                    0 <= q < n ==> {
                        &&& #[trigger] passes@[q].bpno == old(passes)@[q].bpno
                        &&& passes@[q].passtype == old(passes)@[q].passtype
                        &&& passes@[q].term == old(passes)@[q].term
                    },
            decreases j,
        {
            j -= 1;
            let mut p = passes[j];
            if p.rate > cur_max {
                p.rate = cur_max;
            } else {
                cur_max = p.rate;
            }
            let ghost before = passes@;
            passes.set(j, p);
            proof {
                assert(passes@ == before.update(j as int, p));
                assert forall|q: int| 0 <= q < n implies {
                    &&& #[trigger] passes@[q].bpno == old(passes)@[q].bpno
                    &&& passes@[q].passtype == old(passes)@[q].passtype
                    &&& passes@[q].term == old(passes)@[q].term
                } by {
                    if q != j {
                        assert(before[q].bpno == old(passes)@[q].bpno);
                    }
                }
                assert forall|q: int| j <= q < n implies #[trigger] passes@[q].rate <= last_rate by {
                    if q > j {
                        assert(before[q].rate <= last_rate);
                    }
                }
                assert forall|q: int| j <= q < n - 1 implies #[trigger] passes@[q].rate <= passes@[q + 1].rate by {
                    if q > j {
                        assert(before[q].rate <= before[q + 1].rate);
                    }
                }
            }
        }
    }

    /// Takes one off each rate of `passes` (non-decreasing, at most `bytes`' length) that
    /// would end on a 0xFF byte of `bytes`, and sets each pass's length.
    #[verifier::spinoff_prover]
    fn trim_rates(passes: &mut Vec<CodedPass>, bytes: &[u8])
        requires
            forall|k: int| 0 <= k < old(passes)@.len() ==> #[trigger] old(passes)@[k].rate <= bytes@.len(),
            forall|k: int| 0 <= k < old(passes)@.len() - 1 ==> #[trigger] old(passes)@[k].rate <= old(passes)@[k + 1].rate,
        ensures
            final(passes)@.len() == old(passes)@.len(),
            forall|k: int|
                0 <= k < old(passes)@.len() ==> {
                    &&& #[trigger] final(passes)@[k].bpno == old(passes)@[k].bpno
                    &&& final(passes)@[k].passtype == old(passes)@[k].passtype
                    &&& final(passes)@[k].term == old(passes)@[k].term
                    &&& final(passes)@[k].rate <= old(passes)@[k].rate
                    &&& final(passes)@[k].len == final(passes)@[k].rate - (if k == 0 {
                        0
                    } else {
                        final(passes)@[k - 1].rate as int
                    })
                },
            forall|k: int| 0 < k < old(passes)@.len() ==> #[trigger] final(passes)@[k - 1].rate <= final(passes)@[k].rate,
    {
        let n = passes.len();
        let ghost scanned = passes@;
        let mut q: usize = 0;
        while q < n
            invariant
                n == passes@.len(),
                n == scanned.len(),
                scanned == old(passes)@,
                q <= n,
                forall|t: int| 0 <= t < n ==> #[trigger] scanned[t].rate <= bytes@.len(),
                forall|t: int| 0 <= t < n - 1 ==> #[trigger] scanned[t].rate <= scanned[t + 1].rate,
                forall|t: int|
                    0 <= t < q ==> #[trigger] passes@[t].rate == scanned[t].rate - (if scanned[t].rate > 0
                        && bytes@[scanned[t].rate - 1] == 0xFF { 1int } else { 0int }),
                forall|t: int|
                    0 <= t < q ==> #[trigger] passes@[t].len == passes@[t].rate - (if t == 0 {
                        0
                    } else {
                        passes@[t - 1].rate as int
                    }),
                forall|t: int| q <= t < n ==> #[trigger] passes@[t] == scanned[t],
                forall|t: int|
                    0 <= t < n ==> {
                        &&& #[trigger] passes@[t].bpno == scanned[t].bpno
                        &&& passes@[t].passtype == scanned[t].passtype
                        &&& passes@[t].term == scanned[t].term
                    },
            decreases n - q,
        {
            let mut p = passes[q];
            if p.rate > 0 && bytes[(p.rate - 1) as usize] == 0xFF {
                p.rate = p.rate - 1;
            }
            let prev_rate: u32 = if q == 0 { 0 } else { passes[q - 1].rate };
            proof {
                if q > 0 {
                    assert(scanned[q - 1].rate <= scanned[q as int].rate);
                }
            }
            p.len = p.rate - prev_rate;
            let ghost before = passes@;
            passes.set(q, p);
            proof {
                assert(passes@ == before.update(q as int, p));
                assert forall|t: int| 0 <= t < n implies {
                    &&& #[trigger] passes@[t].bpno == scanned[t].bpno
                    &&& passes@[t].passtype == scanned[t].passtype
                    &&& passes@[t].term == scanned[t].term
                } by {
                    if t != q {
                        assert(before[t].bpno == scanned[t].bpno);
                    }
                }
            }
            q += 1;
        }
        proof {
            assert forall|k: int| 0 < k < n implies #[trigger] passes@[k - 1].rate <= passes@[k].rate by {
                assert(scanned[k - 1].rate <= scanned[k].rate);
            }
        }
    }

    /// Encodes the code block into `buf`: turns the samples (with 6 fractional bits) into
    /// sign-magnitude form, then, when the largest magnitude has at least one bit-plane
    /// above the fraction, runs the coding passes from the clean-up pass of the most
    /// significant bit-plane down to the clean-up pass of bit-plane 0: raw passes in the
    /// lazy style (see `raw_pass`), coder terminations as `term_pass` says (restarting the
    /// coder after each), the segmentation symbol after each clean-up pass in that style,
    /// and the contexts reset after each pass in the reset style. Gives the passes and the
    /// number of bit-planes. Each pass's rate is the bytes output by its end (plus what a
    /// termination would add when it is not terminated), made non-decreasing from the
    /// last pass back, less one when it would end on a 0xFF byte. A buffer that might not
    /// hold the next pass is refused with `BufferTooSmall`.
    #[verifier::spinoff_prover]
    #[verifier::rlimit(40)]
    pub fn encode_cblk(&mut self, buf: &mut [u8], orient: u32, cblksty: u32) -> (r: Result<(Vec<CodedPass>, u32)>)
        requires
            old(self).buffers_ready(),
            orient <= 3,
            old(buf)@.len() + 4 <= u32::MAX,
        ensures
            final(self).data@ == smr_data(old(self).data@),
            final(self).pass_ready(),
            final(self).w == old(self).w && final(self).h == old(self).h,
            final(self).encoder == old(self).encoder,
            final(self).lut_ctxno_zc_orient_offset == (orient as usize) << 9usize,
            r is Err ==> r matches Err(Error::BufferTooSmall),
            old(buf)@.len() >= 96 * (9 * (old(self).w * old(self).h) + 16) + 1 ==> r is Ok,
            r matches Ok((passes, numbps)) ==> {
                let mx = max_mag(old(self).data@, old(self).data@.len());
                let n = passes@.len();
                &&& (numbps == 0 <==> mx < 64)
                &&& numbps > 0 ==> is_floorlog2(mx, numbps + 5)
                &&& n == (if numbps == 0 { 0 } else { 3 * numbps - 2 })
                &&& forall|k: int|
                    0 <= k < n ==> {
                        &&& #[trigger] passes@[k].bpno == pass_bpno(numbps as int, k)
                        &&& passes@[k].passtype == pass_type(k)
                        &&& passes@[k].term == term_pass(
                            numbps as int,
                            passes@[k].bpno as int,
                            passes@[k].passtype as int,
                            cblksty & J2K_CCP_CBLKSTY_TERMALL != 0,
                            cblksty & J2K_CCP_CBLKSTY_LAZY != 0,
                        )
                        &&& passes@[k].len == passes@[k].rate - (if k == 0 { 0 } else { passes@[k - 1].rate as int })
                    }
                &&& forall|k: int| 0 < k < n ==> #[trigger] passes@[k - 1].rate <= passes@[k].rate
                &&& n > 0 ==> passes@[n - 1].rate <= old(buf)@.len()
            },
    {
        self.set_orient(orient);
        proof {
            lemma_orient_offset(orient);
        }
        let ghost pre = self.data@;
        let max = self.smr_convert();
        let ghost data1 = self.data@;
        proof {
            assert(pre == old(self).data@);
        }
        if max < 64 {
            return Ok((Vec::new(), 0));
        }
        let lg = int_floorlog2(max);
        proof {
            lemma_plane_count(max as int, lg as int);
        }
        let numbps: u32 = (lg + 1 - 6) as u32;
        let npix = self.data.len();
        let need = 9 * npix + 16;
        let buf_len = buf.len();
        let termall = (cblksty & J2K_CCP_CBLKSTY_TERMALL) != 0;
        let lazy = (cblksty & J2K_CCP_CBLKSTY_LAZY) != 0;
        let reset = (cblksty & J2K_CCP_CBLKSTY_RESET) != 0;
        let mut mqc = Mqc::new(buf);
        init_t1_contexts(&mut mqc);
        mqc.init_enc();
        let mut passes: Vec<CodedPass> = Vec::new();
        let mut bpno: i32 = numbps as i32 - 1;
        let mut passtype: u32 = 2;
        let mut prev_term = false;
        while bpno >= 0
            invariant
                self.pass_ready(),
                self.w == old(self).w && self.h == old(self).h,
                self.encoder == old(self).encoder,
                self.lut_ctxno_zc_orient_offset == (orient as usize) << 9usize,
                self.data@ == data1,
                buf_len == old(buf)@.len(),
                npix == self.w * self.h,
                need == 9 * npix + 16,
                1 <= numbps <= 25,
                mqc.buf@.len() == buf_len,
                buf_len + 4 <= u32::MAX,
                termall == (cblksty & J2K_CCP_CBLKSTY_TERMALL != 0),
                lazy == (cblksty & J2K_CCP_CBLKSTY_LAZY != 0),
                bpno == pass_bpno(numbps as int, passes@.len() as int),
                passtype == pass_type(passes@.len() as int),
                bpno >= -1,
                bpno == -1 ==> passtype == 0,
                forall|k: int|
                    0 <= k < passes@.len() ==> {
                        &&& #[trigger] passes@[k].bpno == pass_bpno(numbps as int, k)
                        &&& passes@[k].passtype == pass_type(k)
                        &&& passes@[k].term == term_pass(
                            numbps as int,
                            passes@[k].bpno as int,
                            passes@[k].passtype as int,
                            termall,
                            lazy,
                        )
                    },
                passes@.len() == 0 ==> mqc.enc_wf(),
                passes@.len() > 0 ==> prev_term == passes@[passes@.len() - 1].term,
                passes@.len() > 0 && prev_term ==> restartable(&mqc),
                passes@.len() > 0 && !prev_term ==> mq_ready(
                    &mqc,
                    raw_pass(
                        numbps as int,
                        passes@[passes@.len() - 1].bpno as int,
                        passes@[passes@.len() - 1].passtype as int,
                        lazy,
                    ),
                ),
                mqc.bp <= 1 + passes@.len() * need,
                mqc.bp <= buf_len + 1,
                mqc.start == 0,
                data1 == smr_data(old(self).data@),
            decreases 3 * (bpno + 1) + 2 - passtype,
        {
            let ghost k = passes@.len() as int;
            proof {
                lemma_next_pass(numbps as int, k);
                assert(k <= 72);
                assert(buf_len >= 96 * need + 1 ==> mqc.bp + need <= buf_len) by (nonlinear_arith)
                    requires
                        mqc.bp <= 1 + k * need,
                        0 <= k <= 72,
                        need >= 0,
                ;
                if k > 0 {
                    lemma_next_pass(numbps as int, k - 1);
                    if !prev_term {
                        lemma_mode_kept(numbps as int, pass_bpno(numbps as int, k - 1), pass_type(k - 1), termall, lazy);
                    }
                }
            }
            if mqc.bp > buf_len || buf_len - mqc.bp < need {
                return Err(Error::BufferTooSmall);
            }
            let restart = passes.len() > 0 && prev_term;
            let ghost bp0 = mqc.bp;
            let p = self.code_pass(&mut mqc, bpno, passtype, numbps, cblksty, restart);
            passes.push(p);
            prev_term = p.term;
            passtype += 1;
            if passtype == 3 {
                passtype = 0;
                bpno -= 1;
            }
            if reset {
                mqc.reset_enc();
            }
            proof {
                assert(mqc.bp <= 1 + passes@.len() * need) by (nonlinear_arith)
                    requires
                        mqc.bp <= bp0 + 9 * npix + 15,
                        bp0 <= 1 + (passes@.len() - 1) * need,
                        need == 9 * npix + 16,
                ;
            }
        }
        let nb = mqc.num_bytes();
        proof {
            assert(nb <= buf_len);
            assert(passes@.len() == 3 * numbps - 2);
        }
        let last_rate = nb as u32;
        let ghost coded = passes@;
        T1::cap_rates(&mut passes, last_rate);
        let ghost capped = passes@;
        T1::trim_rates(&mut passes, mqc.buf);
        proof {
            let n = passes@.len();
            assert forall|k: int| 0 <= k < n implies {
                &&& #[trigger] passes@[k].bpno == pass_bpno(numbps as int, k)
                &&& passes@[k].passtype == pass_type(k)
                &&& passes@[k].term == term_pass(
                    numbps as int,
                    passes@[k].bpno as int,
                    passes@[k].passtype as int,
                    cblksty & J2K_CCP_CBLKSTY_TERMALL != 0,
                    cblksty & J2K_CCP_CBLKSTY_LAZY != 0,
                )
                &&& passes@[k].len == passes@[k].rate - (if k == 0 { 0 } else { passes@[k - 1].rate as int })
            } by {
                assert(passes@[k].bpno == capped[k].bpno);
                assert(capped[k].bpno == coded[k].bpno);
                assert(coded[k].bpno == pass_bpno(numbps as int, k));
                assert(passes@[k].passtype == coded[k].passtype);
                assert(passes@[k].term == coded[k].term);
                assert(coded[k].term == term_pass(numbps as int, coded[k].bpno as int, coded[k].passtype as int, termall, lazy));
            }
            if n > 0 {
                assert(passes@[n - 1].bpno == capped[n - 1].bpno);
                assert(capped[n - 1].rate <= last_rate);
                assert(passes@[n - 1].rate <= old(buf)@.len());
            }
            assert(max_mag(old(self).data@, old(self).data@.len()) == max as int);
            assert(is_floorlog2(max as int, numbps + 5));
            assert(n == 3 * numbps - 2);
            assert(forall|k: int| 0 < k < n ==> #[trigger] passes@[k - 1].rate <= passes@[k].rate);
        }
        Ok((passes, numbps))
    }
}

} // verus!

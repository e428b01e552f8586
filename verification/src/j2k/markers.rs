//! Parsing of codestream marker segments: each function takes the payload that follows
//! a marker's 2-byte length field.
use vstd::prelude::*;
use crate::error::{Error, Result, invalid};
use crate::io::cio::{be_value, read_bytes_be};
use crate::jp2::write::{be16, be32, bpc_byte, encode_bpc, push_be16, push_be32};
use crate::image::{Image, ImageComp};
use crate::j2k::params::{
    CodingParameters, Stepsize, TileCodingParameters, TileCompCodingParameters, is_default_tccp,
};
use crate::types::{
    J2K_CCP_CSTY_PRT, J2K_CCP_QNTSTY_NOQNT, J2K_CCP_QNTSTY_SEQNT, J2K_CCP_QNTSTY_SIQNT, J2K_MAXBANDS,
    J2K_MAXRLVLS, ProgressionOrder,
};

verus! {

/// The big-endian number held by the `n` bytes of `d` from `pos` on.
pub open spec fn be_at(d: Seq<u8>, pos: int, n: int) -> nat {
    be_value(d.subrange(pos, pos + n))
}

/// The big-endian value of one byte is below 256, of two bytes below 65536.
pub proof fn lemma_be_value_bound(s: Seq<u8>)
    ensures
        s.len() == 1 ==> be_value(s) < 0x100,
        s.len() == 2 ==> be_value(s) < 0x1_0000,
{
    if s.len() == 2 {
        let t = s.drop_last();
        assert(t.drop_last().len() == 0);
        assert(be_value(t.drop_last()) == 0);
        assert(be_value(t) == t.last() as nat);
        assert(be_value(s) == be_value(t) * 256 + s.last() as nat);
    }
    if s.len() == 1 {
        assert(s.drop_last().len() == 0);
        assert(be_value(s.drop_last()) == 0);
        assert(be_value(s) == s.last() as nat);
    }
}

/// The `n`-byte big-endian number at `pos` in `data`.
pub(crate) fn be_at_exec(data: &[u8], pos: usize, n: usize) -> (r: u32)
    requires
        n <= 4,
        pos + n <= data@.len(),
    ensures
        r as nat == be_at(data@, pos as int, n as int),
        n == 2 ==> r < 0x1_0000,
{
    let _len = data.len();
    let s = vstd::slice::slice_subrange(data, pos, pos + n);
    let r = read_bytes_be(s, n);
    proof {
        assert(s@.take(n as int) =~= data@.subrange(pos as int, pos + n));
        lemma_be_value_bound(data@.subrange(pos as int, pos + n));
    }
    r
}

/// The fields of an SOT marker segment.
#[derive(Debug, Clone, Copy, PartialEq, Eq, Structural)]
pub struct SotInfo {
    /// Tile index (Isot).
    pub tile_no: u32,
    /// Length of the tile-part from the SOT marker on, 0 for "up to the end" (Psot).
    pub psot: u32,
    /// Tile-part index (TPsot).
    pub tp_idx: u8,
    /// Number of tile-parts of the tile, 0 when not given (TNsot).
    pub nb_parts: u8,
}

/// Parses an SOT payload: 2 bytes of tile index, 4 of tile-part length, then the
/// tile-part index and the number of tile-parts. Refused when shorter than 8 bytes.
pub fn read_sot(data: &[u8]) -> (r: Result<SotInfo>)
    ensures
        r is Ok <==> data@.len() >= 8,
        r matches Ok(s) ==> {
            &&& s.tile_no == be_at(data@, 0, 2)
            &&& s.psot == be_at(data@, 2, 4)
            &&& s.tp_idx == data@[6]
            &&& s.nb_parts == data@[7]
        },
{
    if data.len() < 8 {
        return Err(invalid("SOT marker too short"));
    }
    let tile_no = be_at_exec(data, 0, 2);
    let psot = be_at_exec(data, 2, 4);
    Ok(SotInfo { tile_no, psot, tp_idx: data[6], nb_parts: data[7] })
}

/// Parses a COM payload into its registration value (2 bytes) and the comment bytes
/// after it. Refused when shorter than 2 bytes.
pub fn read_com(data: &[u8]) -> (r: Result<(u16, Vec<u8>)>)
    ensures
        r is Ok <==> data@.len() >= 2,
        r matches Ok((rcom, comment)) ==> rcom == be_at(data@, 0, 2) && comment@ == data@.subrange(
            2,
            data@.len() as int,
        ),
{
    if data.len() < 2 {
        return Err(invalid("COM marker too short"));
    }
    let rcom = be_at_exec(data, 0, 2) as u16;
    let mut comment: Vec<u8> = Vec::new();
    let mut i: usize = 2;
    while i < data.len()
        invariant
            2 <= i <= data@.len(),
            comment@ == data@.subrange(2, i as int),
        decreases data@.len() - i,
    {
        comment.push(data[i]);
        i += 1;
    }
    Ok((rcom, comment))
}

/// Whether the five fixed bytes of an SPCod/SPCoc payload are present and acceptable:
/// at most 33 resolutions, code-block exponents of at most 10 each and 12 together,
/// and a wavelet filter of 0 or 1.
pub open spec fn spcod_fixed_ok(d: Seq<u8>) -> bool {
    &&& d.len() >= 5
    &&& d[0] + 1 <= J2K_MAXRLVLS
    &&& d[1] + 2 <= 10
    &&& d[2] + 2 <= 10
    &&& d[1] + d[2] + 4 <= 12
    &&& d[4] <= 1
}

/// Whether the precinct sizes that coding style `csty` asks for are present.
pub open spec fn spcod_precincts_ok(d: Seq<u8>, csty: u32) -> bool {
    csty & J2K_CCP_CSTY_PRT != 0 ==> d.len() - 5 >= d[0] + 1
}

/// `t` is `t0` with the fixed SPCod/SPCoc fields of `d` stored.
pub open spec fn spcod_fixed_stored(t0: TileCompCodingParameters, t: TileCompCodingParameters, d: Seq<u8>) -> bool {
    &&& t.numresolutions == d[0] + 1
    &&& t.cblkw == d[1] + 2
    &&& t.cblkh == d[2] + 2
    &&& t.cblksty == d[3]
    &&& t.qmfbid == d[4]
    &&& t.csty == t0.csty
    &&& t.qntsty == t0.qntsty
    &&& t.stepsizes == t0.stepsizes
    &&& t.numgbits == t0.numgbits
    &&& t.roishift == t0.roishift
    &&& t.m_dc_level_shift == t0.m_dc_level_shift
}

/// Precinct width exponent of resolution `i` after an SPCod/SPCoc payload `d`: the low
/// nibble of its byte when coding style `csty` gives precincts, else 15.
pub open spec fn spcod_prcw(d: Seq<u8>, csty: u32, i: int) -> u32 {
    if csty & J2K_CCP_CSTY_PRT != 0 {
        (d[5 + i] % 16) as u32
    } else {
        15
    }
}

/// Precinct height exponent of resolution `i`: the high nibble of its byte, or 15.
pub open spec fn spcod_prch(d: Seq<u8>, csty: u32, i: int) -> u32 {
    if csty & J2K_CCP_CSTY_PRT != 0 {
        (d[5 + i] / 16) as u32
    } else {
        15
    }
}

/// `t` is `t0` after an accepted SPCod/SPCoc payload `d` under coding style `csty`: the
/// fixed fields stored and the precinct exponents of the first `d[0] + 1` resolutions set.
pub open spec fn spcod_applied(t0: TileCompCodingParameters, t: TileCompCodingParameters, d: Seq<u8>, csty: u32) -> bool {
    &&& spcod_fixed_stored(t0, t, d)
    &&& forall|i: int| 0 <= i < d[0] + 1 ==> #[trigger] t.prcw@[i] == spcod_prcw(d, csty, i)
    &&& forall|i: int| 0 <= i < d[0] + 1 ==> #[trigger] t.prch@[i] == spcod_prch(d, csty, i)
    &&& forall|i: int| d[0] + 1 <= i < J2K_MAXRLVLS ==> #[trigger] t.prcw@[i] == t0.prcw@[i]
    &&& forall|i: int| d[0] + 1 <= i < J2K_MAXRLVLS ==> #[trigger] t.prch@[i] == t0.prch@[i]
}

/// Parses SPCod/SPCoc parameters into `tccp`: number of decomposition levels, code-block
/// size exponents, code-block style and wavelet filter, then one precinct byte per
/// resolution when `csty` has the precinct flag (else the maximum precinct size 15).
/// A payload that fails `spcod_fixed_ok` is refused with `tccp` unchanged; one that
/// lacks the precinct bytes is refused after the fixed fields were stored.
pub fn read_spcod_spcoc(data: &[u8], tccp: &mut TileCompCodingParameters, csty: u32) -> (r: Result<()>)
    ensures
        ({
            let d = data@;
            let t0 = *old(tccp);
            let t = *final(tccp);
            &&& r is Ok <==> spcod_fixed_ok(d) && spcod_precincts_ok(d, csty)
            &&& !spcod_fixed_ok(d) ==> r is Err && t == t0
            &&& spcod_fixed_ok(d) ==> spcod_fixed_stored(t0, t, d)
            &&& spcod_fixed_ok(d) && !spcod_precincts_ok(d, csty) ==> t.prcw == t0.prcw && t.prch == t0.prch
            &&& r is Ok ==> spcod_applied(t0, t, d, csty)
        }),
{
    if data.len() < 5 {
        return Err(invalid("SPCod/SPCoc too short"));
    }
    let num_decomp = data[0] as u32;
    let cblkw_raw = data[1] as u32;
    let cblkh_raw = data[2] as u32;
    let cblksty = data[3] as u32;
    let qmfbid = data[4] as u32;
    let numresolutions = num_decomp + 1;
    if numresolutions as usize > J2K_MAXRLVLS {
        return Err(invalid("SPCod: too many decomposition levels"));
    }
    let cblkw = cblkw_raw + 2;
    let cblkh = cblkh_raw + 2;
    if cblkw > 10 || cblkh > 10 || cblkw + cblkh > 12 {
        return Err(invalid("SPCod: invalid code-block size"));
    }
    if qmfbid > 1 {
        return Err(invalid("SPCod: invalid wavelet filter"));
    }
    tccp.numresolutions = numresolutions;
    tccp.cblkw = cblkw;
    tccp.cblkh = cblkh;
    tccp.cblksty = cblksty;
    tccp.qmfbid = qmfbid;
    let ghost t1 = *tccp;
    let nres = numresolutions as usize;
    let prt = csty & J2K_CCP_CSTY_PRT != 0;
    if prt && data.len() - 5 < nres {
        return Err(invalid("SPCod: not enough precinct data"));
    }
    let mut i: usize = 0;
    while i < nres
        invariant
            nres == data@[0] + 1,
            nres <= J2K_MAXRLVLS,
            prt == (csty & J2K_CCP_CSTY_PRT != 0),
            prt ==> data@.len() - 5 >= nres,
            i <= nres,
            spcod_fixed_stored(t1, *tccp, data@),
            spcod_fixed_stored(*old(tccp), t1, data@),
            forall|k: int| 0 <= k < i ==> #[trigger] tccp.prcw@[k] == spcod_prcw(data@, csty, k),
            forall|k: int| 0 <= k < i ==> #[trigger] tccp.prch@[k] == spcod_prch(data@, csty, k),
            forall|k: int| i <= k < J2K_MAXRLVLS ==> #[trigger] tccp.prcw@[k] == old(tccp).prcw@[k],
            forall|k: int| i <= k < J2K_MAXRLVLS ==> #[trigger] tccp.prch@[k] == old(tccp).prch@[k],
        decreases nres - i,
    {
        if prt {
            let byte = data[5 + i];
            tccp.prcw[i] = (byte % 16) as u32;
            tccp.prch[i] = (byte / 16) as u32;
        } else {
            tccp.prcw[i] = 15;
            tccp.prch[i] = 15;
        }
        i += 1;
    }
    Ok(())
}

/// The step size of band `i` after a SQcd/SQcc payload `d` whose style is stored, with
/// `s0` the step sizes before: the exponent of each byte for no quantization (for the
/// bands that have one), the first 2-byte entry with its exponent lowered by one per
/// decomposition level for scalar implicit, one 2-byte entry per band for scalar
/// explicit.
pub open spec fn sqcd_stepsize(s0: Seq<Stepsize>, d: Seq<u8>, i: int) -> Stepsize {
    let qntsty = d[0] % 32;
    let m = d.len() - 1;
    if qntsty == J2K_CCP_QNTSTY_NOQNT {
        if i < m {
            Stepsize { expn: (d[1 + i] / 8) as i32, mant: 0 }
        } else {
            s0[i]
        }
    } else if qntsty == J2K_CCP_QNTSTY_SIQNT {
        let e0 = be_at(d, 1, 2) / 2048;
        let m0 = be_at(d, 1, 2) % 2048;
        if i == 0 {
            Stepsize { expn: e0 as i32, mant: m0 as i32 }
        } else {
            let e = e0 - (i - 1) / 3;
            Stepsize { expn: (if e > 0 { e } else { 0 }) as i32, mant: m0 as i32 }
        }
    } else {
        if i < m / 2 {
            Stepsize { expn: (be_at(d, 1 + 2 * i, 2) / 2048) as i32, mant: (be_at(d, 1 + 2 * i, 2) % 2048) as i32 }
        } else {
            s0[i]
        }
    }
}

/// Whether a SQcd/SQcc payload is accepted: a style byte, then for scalar implicit at
/// least 2 bytes and for scalar explicit an even number of bytes; other styles than
/// these and no quantization are refused.
pub open spec fn sqcd_ok(d: Seq<u8>) -> bool {
    let qntsty = d[0] % 32;
    &&& d.len() >= 1
    &&& qntsty == J2K_CCP_QNTSTY_NOQNT || qntsty == J2K_CCP_QNTSTY_SIQNT || qntsty == J2K_CCP_QNTSTY_SEQNT
    &&& qntsty == J2K_CCP_QNTSTY_SIQNT ==> d.len() - 1 >= 2
    &&& qntsty == J2K_CCP_QNTSTY_SEQNT ==> (d.len() - 1) % 2 == 0
}

/// `t` is `t0` after an accepted SQcd/SQcc payload `d`: style and guard bits stored, the
/// step sizes set by `sqcd_stepsize`, the other fields unchanged.
pub open spec fn sqcd_applied(t0: TileCompCodingParameters, t: TileCompCodingParameters, d: Seq<u8>) -> bool {
    &&& t.qntsty == d[0] % 32
    &&& t.numgbits == d[0] / 32
    &&& t.csty == t0.csty && t.numresolutions == t0.numresolutions
    &&& t.cblkw == t0.cblkw && t.cblkh == t0.cblkh && t.cblksty == t0.cblksty
    &&& t.qmfbid == t0.qmfbid && t.roishift == t0.roishift
    &&& t.prcw == t0.prcw && t.prch == t0.prch
    &&& t.m_dc_level_shift == t0.m_dc_level_shift
    &&& forall|i: int| 0 <= i < J2K_MAXBANDS ==> #[trigger] t.stepsizes@[i] == sqcd_stepsize(t0.stepsizes@, d, i)
}

/// Parses SQcd/SQcc quantization parameters into `tccp`: the style (low 5 bits of the
/// first byte) and guard bits (high 3 bits) are stored whenever the payload is not
/// empty; the step sizes follow `sqcd_stepsize` when the payload is accepted and are
/// left unchanged when it is refused.
pub fn read_sqcd_sqcc(data: &[u8], tccp: &mut TileCompCodingParameters) -> (r: Result<()>)
    ensures
        ({
            let d = data@;
            let t0 = *old(tccp);
            let t = *final(tccp);
            &&& r is Ok <==> sqcd_ok(d)
            &&& d.len() == 0 ==> t == t0
            &&& d.len() >= 1 ==> {
                &&& t.qntsty == d[0] % 32
                &&& t.numgbits == d[0] / 32
                &&& t.csty == t0.csty && t.numresolutions == t0.numresolutions
                &&& t.cblkw == t0.cblkw && t.cblkh == t0.cblkh && t.cblksty == t0.cblksty
                &&& t.qmfbid == t0.qmfbid && t.roishift == t0.roishift
                &&& t.prcw == t0.prcw && t.prch == t0.prch
                &&& t.m_dc_level_shift == t0.m_dc_level_shift
            }
            &&& r is Err ==> t.stepsizes == t0.stepsizes
            &&& r is Ok ==> sqcd_applied(t0, t, d)
        }),
{
    if data.len() == 0 {
        return Err(invalid("SQcd/SQcc: empty data"));
    }
    let sqcx = data[0];
    let qntsty = (sqcx % 32) as u32;
    let numgbits = (sqcx / 32) as u32;
    tccp.qntsty = qntsty;
    tccp.numgbits = numgbits;
    let ghost s0 = old(tccp).stepsizes@;
    let m = data.len() - 1;
    if qntsty == J2K_CCP_QNTSTY_NOQNT {
        let nb = if m < J2K_MAXBANDS { m } else { J2K_MAXBANDS };
        let mut i: usize = 0;
        while i < nb
            invariant
                nb <= m,
                nb <= J2K_MAXBANDS,
                m == data@.len() - 1,
                data@[0] % 32 == J2K_CCP_QNTSTY_NOQNT,
                nb == m || nb == J2K_MAXBANDS,
                i <= nb,
                forall|k: int| 0 <= k < i ==> #[trigger] tccp.stepsizes@[k] == sqcd_stepsize(s0, data@, k),
                forall|k: int| i <= k < J2K_MAXBANDS ==> #[trigger] tccp.stepsizes@[k] == s0[k],
                tccp.qntsty == data@[0] % 32 && tccp.numgbits == data@[0] / 32,
                tccp.csty == old(tccp).csty && tccp.numresolutions == old(tccp).numresolutions,
                tccp.cblkw == old(tccp).cblkw && tccp.cblkh == old(tccp).cblkh && tccp.cblksty == old(tccp).cblksty,
                tccp.qmfbid == old(tccp).qmfbid && tccp.roishift == old(tccp).roishift,
                tccp.prcw == old(tccp).prcw && tccp.prch == old(tccp).prch,
                tccp.m_dc_level_shift == old(tccp).m_dc_level_shift,
            decreases nb - i,
        {
            let byte = data[1 + i];
            tccp.stepsizes[i] = Stepsize { expn: (byte / 8) as i32, mant: 0 };
            i += 1;
        }
        assert forall|k: int| 0 <= k < J2K_MAXBANDS implies #[trigger] tccp.stepsizes@[k] == sqcd_stepsize(
            s0,
            data@,
            k,
        ) by {
            if k >= nb {
                assert(k >= m);
            }
        }
        Ok(())
    } else if qntsty == J2K_CCP_QNTSTY_SIQNT {
        if m < 2 {
            return Err(invalid("SQcd: SIQNT needs at least 2 bytes"));
        }
        let val = be_at_exec(data, 1, 2);
        let expn0 = (val / 2048) as i32;
        let mant0 = (val % 2048) as i32;
        tccp.stepsizes[0] = Stepsize { expn: expn0, mant: mant0 };
        let mut i: usize = 1;
        while i < J2K_MAXBANDS
            invariant
                1 <= i <= J2K_MAXBANDS,
                m == data@.len() - 1,
                m >= 2,
                data@[0] % 32 == J2K_CCP_QNTSTY_SIQNT,
                val == be_at(data@, 1, 2),
                val < 0x1_0000,
                expn0 == val / 2048,
                mant0 == val % 2048,
                forall|k: int| 0 <= k < i ==> #[trigger] tccp.stepsizes@[k] == sqcd_stepsize(s0, data@, k),
                tccp.qntsty == data@[0] % 32 && tccp.numgbits == data@[0] / 32,
                tccp.csty == old(tccp).csty && tccp.numresolutions == old(tccp).numresolutions,
                tccp.cblkw == old(tccp).cblkw && tccp.cblkh == old(tccp).cblkh && tccp.cblksty == old(tccp).cblksty,
                tccp.qmfbid == old(tccp).qmfbid && tccp.roishift == old(tccp).roishift,
                tccp.prcw == old(tccp).prcw && tccp.prch == old(tccp).prch,
                tccp.m_dc_level_shift == old(tccp).m_dc_level_shift,
            decreases J2K_MAXBANDS - i,
        {
            let band_idx = ((i - 1) / 3) as i32;
            let e = if expn0 - band_idx > 0 { expn0 - band_idx } else { 0 };
            tccp.stepsizes[i] = Stepsize { expn: e, mant: mant0 };
            i += 1;
        }
        Ok(())
    } else if qntsty == J2K_CCP_QNTSTY_SEQNT {
        if m % 2 != 0 {
            return Err(invalid("SQcd: SEQNT data must be even length"));
        }
        let nb = if m / 2 < J2K_MAXBANDS { m / 2 } else { J2K_MAXBANDS };
        let mut i: usize = 0;
        while i < nb
            invariant
                nb <= m / 2,
                nb <= J2K_MAXBANDS,
                nb == m / 2 || nb == J2K_MAXBANDS,
                m == data@.len() - 1,
                data@[0] % 32 == J2K_CCP_QNTSTY_SEQNT,
                i <= nb,
                forall|k: int| 0 <= k < i ==> #[trigger] tccp.stepsizes@[k] == sqcd_stepsize(s0, data@, k),
                forall|k: int| i <= k < J2K_MAXBANDS ==> #[trigger] tccp.stepsizes@[k] == s0[k],
                tccp.qntsty == data@[0] % 32 && tccp.numgbits == data@[0] / 32,
                tccp.csty == old(tccp).csty && tccp.numresolutions == old(tccp).numresolutions,
                tccp.cblkw == old(tccp).cblkw && tccp.cblkh == old(tccp).cblkh && tccp.cblksty == old(tccp).cblksty,
                tccp.qmfbid == old(tccp).qmfbid && tccp.roishift == old(tccp).roishift,
                tccp.prcw == old(tccp).prcw && tccp.prch == old(tccp).prch,
                tccp.m_dc_level_shift == old(tccp).m_dc_level_shift,
            decreases nb - i,
        {
            let val = be_at_exec(data, 1 + i * 2, 2);
            tccp.stepsizes[i] = Stepsize { expn: (val / 2048) as i32, mant: (val % 2048) as i32 };
            i += 1;
        }
        assert forall|k: int| 0 <= k < J2K_MAXBANDS implies #[trigger] tccp.stepsizes@[k] == sqcd_stepsize(
            s0,
            data@,
            k,
        ) by {
            if k >= nb {
                assert(k >= m / 2);
            }
        }
        Ok(())
    } else {
        Err(invalid("SQcd: unsupported quantization style"))
    }
}

/// Number of component parameter sets after making room for `numcomps` components.
pub open spec fn grown_len(len: nat, numcomps: u32) -> nat {
    if len < numcomps { numcomps as nat } else { len }
}

/// Grows `tccps` with default parameters up to `numcomps` entries.
fn grow_tccps(tccps: &mut Vec<TileCompCodingParameters>, numcomps: u32)
    ensures
        final(tccps)@.len() == grown_len(old(tccps)@.len(), numcomps),
        forall|i: int| 0 <= i < old(tccps)@.len() ==> #[trigger] final(tccps)@[i] == old(tccps)@[i],
        forall|i: int| old(tccps)@.len() <= i < final(tccps)@.len() ==> is_default_tccp(#[trigger] final(tccps)@[i]),
{
    let n = numcomps as usize;
    while tccps.len() < n
        invariant
            old(tccps)@.len() <= tccps@.len(),
            tccps@.len() <= grown_len(old(tccps)@.len(), numcomps),
            n == numcomps,
            forall|i: int| 0 <= i < old(tccps)@.len() ==> #[trigger] tccps@[i] == old(tccps)@[i],
            forall|i: int| old(tccps)@.len() <= i < tccps@.len() ==> is_default_tccp(#[trigger] tccps@[i]),
        decreases n - tccps@.len(),
    {
        tccps.push(TileCompCodingParameters::default());
    }
}

/// The progression order of code `b` (0 to 4).
pub open spec fn prg_of(b: u8) -> ProgressionOrder {
    if b == 0 {
        ProgressionOrder::Lrcp
    } else if b == 1 {
        ProgressionOrder::Rlcp
    } else if b == 2 {
        ProgressionOrder::Rpcl
    } else if b == 3 {
        ProgressionOrder::Pcrl
    } else {
        ProgressionOrder::Cprl
    }
}

/// Whether the fixed part of a COD payload is present and acceptable: a progression
/// order of at most 4, at least one layer and a transform flag of 0 or 1.
pub open spec fn cod_fixed_ok(d: Seq<u8>) -> bool {
    &&& d.len() >= 5
    &&& d[1] <= 4
    &&& be_at(d, 2, 2) != 0
    &&& d[4] <= 1
}

/// Whether `t` is the default component parameters after the SPCod/SPCoc payload `d`.
pub open spec fn spcod_applied_to_default(t: TileCompCodingParameters, d: Seq<u8>, csty: u32) -> bool {
    exists|t0: TileCompCodingParameters| is_default_tccp(t0) && spcod_applied(t0, t, d, csty)
}

/// Whether `t` is the default component parameters after the SQcd/SQcc payload `d`.
pub open spec fn sqcd_applied_to_default(t: TileCompCodingParameters, d: Seq<u8>) -> bool {
    exists|t0: TileCompCodingParameters| is_default_tccp(t0) && sqcd_applied(t0, t, d)
}

/// The SPCod part of a COD payload.
pub open spec fn cod_rest(d: Seq<u8>) -> Seq<u8> {
    d.subrange(5, d.len() as int)
}

/// `t` is `t0` with the fixed COD fields of `d` stored: coding style, progression order,
/// layers (also as layers to decode) and transform flag.
pub open spec fn cod_fixed_stored(t0: TileCodingParameters, t: TileCodingParameters, d: Seq<u8>) -> bool {
    &&& t.csty == d[0] && t.prg == prg_of(d[1])
    &&& t.numlayers == be_at(d, 2, 2) && t.num_layers_to_decode == be_at(d, 2, 2)
    &&& t.mct == d[4]
    &&& t.numpocs == t0.numpocs && t.pocs == t0.pocs
    &&& t.cod == t0.cod && t.ppt == t0.ppt && t.poc == t0.poc
}

/// Parses a COD payload into `tcp`: coding style, progression order, number of layers
/// and transform flag, then the SPCod part after them into the parameters of every
/// component, first growing them with defaults to `numcomps` entries. Refused, with
/// `tcp` unchanged, when `cod_fixed_ok` fails; refused when a component's SPCod part is.
pub fn read_cod(data: &[u8], tcp: &mut TileCodingParameters, numcomps: u32) -> (r: Result<()>)
    ensures
        r is Ok <==> cod_fixed_ok(data@) && (grown_len(old(tcp).tccps@.len(), numcomps) == 0 || spcod_fixed_ok(
            cod_rest(data@),
        ) && spcod_precincts_ok(cod_rest(data@), data@[0] as u32)),
        !cod_fixed_ok(data@) ==> *final(tcp) == *old(tcp),
        cod_fixed_ok(data@) ==> cod_fixed_stored(*old(tcp), *final(tcp), data@),
        cod_fixed_ok(data@) ==> {
            &&& data@[1] == 0 ==> final(tcp).prg == ProgressionOrder::Lrcp
            &&& data@[1] == 1 ==> final(tcp).prg == ProgressionOrder::Rlcp
            &&& data@[1] == 2 ==> final(tcp).prg == ProgressionOrder::Rpcl
            &&& data@[1] == 3 ==> final(tcp).prg == ProgressionOrder::Pcrl
            &&& data@[1] == 4 ==> final(tcp).prg == ProgressionOrder::Cprl
        },
        r is Ok ==> final(tcp).tccps@.len() == grown_len(old(tcp).tccps@.len(), numcomps),
        r is Ok ==> forall|i: int|
            0 <= i < old(tcp).tccps@.len() ==> spcod_applied(
                old(tcp).tccps@[i],
                #[trigger] final(tcp).tccps@[i],
                cod_rest(data@),
                data@[0] as u32,
            ),
        r is Ok ==> forall|i: int|
            old(tcp).tccps@.len() <= i < final(tcp).tccps@.len() ==> spcod_applied_to_default(
                #[trigger] final(tcp).tccps@[i],
                cod_rest(data@),
                data@[0] as u32,
            ),
{
    if data.len() < 5 {
        return Err(invalid("COD marker too short"));
    }
    let scod = data[0];
    let prg_byte = data[1];
    let numlayers = be_at_exec(data, 2, 2);
    let mct = data[4];
    if prg_byte > 4 {
        return Err(invalid("COD: invalid progression order"));
    }
    if numlayers == 0 {
        return Err(invalid("COD: invalid number of layers"));
    }
    if mct > 1 {
        return Err(invalid("COD: invalid MCT value"));
    }
    assert(cod_fixed_ok(data@));
    tcp.csty = scod as u32;
    tcp.prg = if prg_byte == 0 {
        ProgressionOrder::Lrcp
    } else if prg_byte == 1 {
        ProgressionOrder::Rlcp
    } else if prg_byte == 2 {
        ProgressionOrder::Rpcl
    } else if prg_byte == 3 {
        ProgressionOrder::Pcrl
    } else {
        ProgressionOrder::Cprl
    };
    tcp.numlayers = numlayers;
    tcp.num_layers_to_decode = numlayers;
    tcp.mct = mct as u32;
    let ghost t_before = tcp.tccps@;
    grow_tccps(&mut tcp.tccps, numcomps);
    let ghost t_grown = tcp.tccps@;
    let rest = vstd::slice::slice_subrange(data, 5, data.len());
    assert(rest@ =~= data@.subrange(5, data@.len() as int));
    let n = tcp.tccps.len();
    let mut i: usize = 0;
    while i < n
        invariant
            n == tcp.tccps@.len(),
            n == t_grown.len(),
            t_grown.len() == grown_len(t_before.len(), numcomps),
            t_before == old(tcp).tccps@,
            rest@ == data@.subrange(5, data@.len() as int),
            scod == data@[0],
            cod_fixed_ok(data@),
            i <= n,
            i > 0 ==> spcod_fixed_ok(rest@) && spcod_precincts_ok(rest@, scod as u32),
            forall|k: int| 0 <= k < t_before.len() ==> #[trigger] t_grown[k] == t_before[k],
            forall|k: int| t_before.len() <= k < t_grown.len() ==> is_default_tccp(#[trigger] t_grown[k]),
            forall|k: int| 0 <= k < i ==> spcod_applied(t_grown[k], #[trigger] tcp.tccps@[k], rest@, scod as u32),
            forall|k: int| i <= k < n ==> #[trigger] tcp.tccps@[k] == t_grown[k],
            cod_fixed_stored(*old(tcp), *tcp, data@),
        decreases n - i,
    {
        let mut t = tcp.tccps[i];
        read_spcod_spcoc(rest, &mut t, scod as u32)?;
        tcp.tccps.set(i, t);
        i += 1;
    }
    assert forall|k: int| t_before.len() <= k < n implies spcod_applied_to_default(
        #[trigger] tcp.tccps@[k],
        rest@,
        scod as u32,
    ) by {
        assert(is_default_tccp(t_grown[k]) && spcod_applied(t_grown[k], tcp.tccps@[k], rest@, scod as u32));
    }
    Ok(())
}

/// `t` and `t0` agree but for their component parameters.
pub open spec fn same_except_tccps(t0: TileCodingParameters, t: TileCodingParameters) -> bool {
    &&& t.csty == t0.csty && t.prg == t0.prg
    &&& t.numlayers == t0.numlayers && t.num_layers_to_decode == t0.num_layers_to_decode
    &&& t.mct == t0.mct && t.numpocs == t0.numpocs && t.pocs == t0.pocs
    &&& t.cod == t0.cod && t.ppt == t0.ppt && t.poc == t0.poc
}

/// Parses a QCD payload into the parameters of every component, first growing them with
/// defaults to `numcomps` entries. Refused when the payload is (`sqcd_ok` fails) and
/// there is a component to apply it to.
pub fn read_qcd(data: &[u8], tcp: &mut TileCodingParameters, numcomps: u32) -> (r: Result<()>)
    ensures
        r is Ok <==> grown_len(old(tcp).tccps@.len(), numcomps) == 0 || sqcd_ok(data@),
        same_except_tccps(*old(tcp), *final(tcp)),
        r is Ok ==> final(tcp).tccps@.len() == grown_len(old(tcp).tccps@.len(), numcomps),
        r is Ok ==> forall|i: int|
            0 <= i < old(tcp).tccps@.len() ==> sqcd_applied(old(tcp).tccps@[i], #[trigger] final(tcp).tccps@[i], data@),
        r is Ok ==> forall|i: int|
            old(tcp).tccps@.len() <= i < final(tcp).tccps@.len() ==> sqcd_applied_to_default(
                #[trigger] final(tcp).tccps@[i],
                data@,
            ),
{
    let ghost t_before = tcp.tccps@;
    grow_tccps(&mut tcp.tccps, numcomps);
    let ghost t_grown = tcp.tccps@;
    let n = tcp.tccps.len();
    let mut i: usize = 0;
    while i < n
        invariant
            n == tcp.tccps@.len(),
            n == t_grown.len(),
            t_grown.len() == grown_len(t_before.len(), numcomps),
            t_before == old(tcp).tccps@,
            i <= n,
            i > 0 ==> sqcd_ok(data@),
            forall|k: int| 0 <= k < t_before.len() ==> #[trigger] t_grown[k] == t_before[k],
            forall|k: int| t_before.len() <= k < t_grown.len() ==> is_default_tccp(#[trigger] t_grown[k]),
            forall|k: int| 0 <= k < i ==> sqcd_applied(t_grown[k], #[trigger] tcp.tccps@[k], data@),
            forall|k: int| i <= k < n ==> #[trigger] tcp.tccps@[k] == t_grown[k],
            same_except_tccps(*old(tcp), *tcp),
        decreases n - i,
    {
        let mut t = tcp.tccps[i];
        read_sqcd_sqcc(data, &mut t)?;
        tcp.tccps.set(i, t);
        i += 1;
    }
    assert forall|k: int| t_before.len() <= k < n implies sqcd_applied_to_default(#[trigger] tcp.tccps@[k], data@) by {
        assert(is_default_tccp(t_grown[k]) && sqcd_applied(t_grown[k], tcp.tccps@[k], data@));
    }
    Ok(())
}

/// `a` divided by `b`, rounded up.
pub open spec fn ceil_div(a: int, b: int) -> int {
    a / b + if a % b != 0 { 1int } else { 0int }
}

proof fn lemma_ceil_div_monotonic(a: int, c: int, b: int)
    requires
        0 <= a <= c,
        b > 0,
    ensures
        ceil_div(a, b) <= ceil_div(c, b),
        0 <= ceil_div(a, b) <= a,
{
    vstd::arithmetic::div_mod::lemma_div_is_ordered(a, c, b);
    vstd::arithmetic::div_mod::lemma_fundamental_div_mod(a, b);
    vstd::arithmetic::div_mod::lemma_fundamental_div_mod(c, b);
    vstd::arithmetic::div_mod::lemma_div_pos_is_pos(a, b);
    vstd::arithmetic::div_mod::lemma_mod_bound(a, b);
    if a % b != 0 {
        assert(b >= 2);
        assert(a / b < a) by (nonlinear_arith)
            requires
                a == b * (a / b) + a % b,
                a % b >= 1,
                b >= 2,
                a / b >= 0,
        ;
    } else {
        vstd::arithmetic::div_mod::lemma_div_is_ordered_by_denominator(a, 1, b);
    }
}

/// `a` divided by `b`, rounded up.
fn div_ceil_u32(a: u32, b: u32) -> (r: u32)
    requires
        b > 0,
    ensures
        r == ceil_div(a as int, b as int),
{
    proof {
        lemma_ceil_div_monotonic(a as int, a as int, b as int);
    }
    a / b + if a % b != 0 { 1u32 } else { 0u32 }
}

/// Number of components declared by a SIZ payload.
pub open spec fn siz_numcomps(d: Seq<u8>) -> nat {
    be_at(d, 34, 2)
}

/// Whether the fixed part of a SIZ payload is present and acceptable: 1 to 16384
/// components, a non-empty image area, non-zero tile sizes and three bytes for each
/// component.
pub open spec fn siz_header_ok(d: Seq<u8>) -> bool {
    &&& d.len() >= 36
    &&& 1 <= siz_numcomps(d) <= 16384
    &&& be_at(d, 10, 4) < be_at(d, 2, 4)
    &&& be_at(d, 14, 4) < be_at(d, 6, 4)
    &&& be_at(d, 18, 4) != 0
    &&& be_at(d, 22, 4) != 0
    &&& d.len() >= 36 + 3 * siz_numcomps(d)
}

/// Whether a SIZ payload is accepted: its fixed part, a tile grid origin within the image
/// area's far corner and non-zero subsampling for every component.
pub open spec fn siz_ok(d: Seq<u8>) -> bool {
    &&& siz_header_ok(d)
    &&& be_at(d, 26, 4) <= be_at(d, 2, 4)
    &&& be_at(d, 30, 4) <= be_at(d, 6, 4)
    &&& forall|i: int| 0 <= i < siz_numcomps(d) ==> #[trigger] d[36 + 3 * i + 1] != 0 && d[36 + 3 * i + 2] != 0
}

/// Whether `c` is component `i` of a SIZ payload `d`: its subsampling, its area on the
/// reference grid divided by the subsampling (rounded up), and its precision and sign
/// from the Ssiz byte, with no samples.
pub open spec fn siz_comp(c: ImageComp, d: Seq<u8>, i: int) -> bool {
    let b = 36 + 3 * i;
    let dx = d[b + 1] as int;
    let dy = d[b + 2] as int;
    &&& c.dx == dx && c.dy == dy
    &&& c.x0 == ceil_div(be_at(d, 10, 4) as int, dx)
    &&& c.y0 == ceil_div(be_at(d, 14, 4) as int, dy)
    &&& c.w == ceil_div(be_at(d, 2, 4) as int, dx) - ceil_div(be_at(d, 10, 4) as int, dx)
    &&& c.h == ceil_div(be_at(d, 6, 4) as int, dy) - ceil_div(be_at(d, 14, 4) as int, dy)
    &&& c.prec == d[b] % 128 + 1
    &&& c.sgnd == (d[b] / 128 != 0)
    &&& c.resno_decoded == 0 && c.factor == 0 && c.alpha == 0
    &&& c.data@.len() == 0
}

/// Number of tiles needed to cover `extent` with tiles of size `size`, at least one.
pub open spec fn tiles_across(extent: int, size: int) -> int {
    if ceil_div(extent, size) > 1 { ceil_div(extent, size) } else { 1 }
}

/// Parses a SIZ payload: profile, image area, tile size and origin, then precision,
/// sign and subsampling of each component. Refused, with `image` and `cp` unchanged,
/// when the fixed part fails `siz_header_ok`; refused after storing the image area and
/// the tile grid's origin and size when the origin lies beyond the image area or a
/// component has a zero subsampling factor.
pub fn read_siz(data: &[u8], image: &mut Image, cp: &mut CodingParameters) -> (r: Result<()>)
    ensures
        r is Ok <==> siz_ok(data@),
        !siz_header_ok(data@) ==> *final(image) == *old(image) && *final(cp) == *old(cp),
        siz_header_ok(data@) ==> {
            &&& final(image).x1 == be_at(data@, 2, 4) && final(image).y1 == be_at(data@, 6, 4)
            &&& final(image).x0 == be_at(data@, 10, 4) && final(image).y0 == be_at(data@, 14, 4)
            &&& final(cp).rsiz == be_at(data@, 0, 2)
            &&& final(cp).tdx == be_at(data@, 18, 4) && final(cp).tdy == be_at(data@, 22, 4)
            &&& final(cp).tx0 == be_at(data@, 26, 4) && final(cp).ty0 == be_at(data@, 30, 4)
        },
        final(image).color_space == old(image).color_space,
        final(image).icc_profile == old(image).icc_profile,
        final(cp).tcps == old(cp).tcps && final(cp).mode == old(cp).mode,
        final(cp).strict == old(cp).strict && final(cp).ppm == old(cp).ppm,
        r is Ok ==> {
            &&& final(cp).tw == tiles_across(be_at(data@, 2, 4) - be_at(data@, 26, 4), be_at(data@, 18, 4) as int)
            &&& final(cp).th == tiles_across(be_at(data@, 6, 4) - be_at(data@, 30, 4), be_at(data@, 22, 4) as int)
            &&& final(image).comps@.len() == siz_numcomps(data@)
            &&& forall|i: int| 0 <= i < siz_numcomps(data@) ==> siz_comp(#[trigger] final(image).comps@[i], data@, i)
        },
{
    if data.len() < 36 {
        return Err(invalid("SIZ marker too short"));
    }
    let rsiz = be_at_exec(data, 0, 2) as u16;
    let x1 = be_at_exec(data, 2, 4);
    let y1 = be_at_exec(data, 6, 4);
    let x0 = be_at_exec(data, 10, 4);
    let y0 = be_at_exec(data, 14, 4);
    let tdx = be_at_exec(data, 18, 4);
    let tdy = be_at_exec(data, 22, 4);
    let tx0 = be_at_exec(data, 26, 4);
    let ty0 = be_at_exec(data, 30, 4);
    let numcomps = be_at_exec(data, 34, 2);
    if numcomps == 0 || numcomps > 16384 {
        return Err(invalid("SIZ: invalid number of components"));
    }
    if x1 <= x0 || y1 <= y0 {
        return Err(invalid("SIZ: invalid image dimensions"));
    }
    if tdx == 0 || tdy == 0 {
        return Err(invalid("SIZ: zero tile dimensions"));
    }
    let nc = numcomps as usize;
    let dlen = data.len();
    if dlen < 36 + nc * 3 {
        return Err(invalid("SIZ: not enough component data"));
    }
    image.x0 = x0;
    image.y0 = y0;
    image.x1 = x1;
    image.y1 = y1;
    cp.rsiz = rsiz;
    cp.tx0 = tx0;
    cp.ty0 = ty0;
    cp.tdx = tdx;
    cp.tdy = tdy;
    if tx0 > x1 || ty0 > y1 {
        return Err(invalid("SIZ: tile origin beyond image extent"));
    }
    let tw = div_ceil_u32(x1 - tx0, tdx);
    let th = div_ceil_u32(y1 - ty0, tdy);
    cp.tw = if tw > 1 { tw } else { 1 };
    cp.th = if th > 1 { th } else { 1 };
    image.comps = Vec::new();
    let mut i: usize = 0;
    while i < nc
        invariant
            nc == siz_numcomps(data@),
            36 + 3 * nc <= data@.len(),
            data@.len() <= usize::MAX,
            siz_header_ok(data@),
            cp.rsiz == be_at(data@, 0, 2),
            cp.tdx == be_at(data@, 18, 4) && cp.tdy == be_at(data@, 22, 4),
            cp.tx0 == be_at(data@, 26, 4) && cp.ty0 == be_at(data@, 30, 4),
            cp.tcps == old(cp).tcps && cp.mode == old(cp).mode,
            cp.strict == old(cp).strict && cp.ppm == old(cp).ppm,
            x1 == be_at(data@, 2, 4) && y1 == be_at(data@, 6, 4),
            x0 == be_at(data@, 10, 4) && y0 == be_at(data@, 14, 4),
            x0 < x1 && y0 < y1,
            i <= nc,
            image.comps@.len() == i,
            forall|k: int| 0 <= k < i ==> siz_comp(#[trigger] image.comps@[k], data@, k),
            forall|k: int| 0 <= k < i ==> #[trigger] data@[36 + 3 * k + 1] != 0 && data@[36 + 3 * k + 2] != 0,
            image.x0 == x0 && image.y0 == y0 && image.x1 == x1 && image.y1 == y1,
            image.color_space == old(image).color_space,
            image.icc_profile == old(image).icc_profile,
        decreases nc - i,
    {
        let b = 36 + 3 * i;
        let ssiz = data[b];
        let dx = data[b + 1] as u32;
        let dy = data[b + 2] as u32;
        if dx == 0 || dy == 0 {
            return Err(invalid("SIZ: zero subsampling factor"));
        }
        let prec = (ssiz % 128) as u32 + 1;
        let sgnd = ssiz / 128 != 0;
        proof {
            lemma_ceil_div_monotonic(x0 as int, x1 as int, dx as int);
            lemma_ceil_div_monotonic(y0 as int, y1 as int, dy as int);
        }
        let comp_x0 = div_ceil_u32(x0, dx);
        let comp_y0 = div_ceil_u32(y0, dy);
        let comp_x1 = div_ceil_u32(x1, dx);
        let comp_y1 = div_ceil_u32(y1, dy);
        image.comps.push(
            ImageComp {
                dx,
                dy,
                w: comp_x1 - comp_x0,
                h: comp_y1 - comp_y0,
                x0: comp_x0,
                y0: comp_y0,
                prec,
                sgnd,
                resno_decoded: 0,
                factor: 0,
                data: Vec::new(),
                alpha: 0,
            },
        );
        i += 1;
    }
    Ok(())
}

/// The SIZ bytes of one component: precision and sign, then subsampling.
pub open spec fn siz_comp_bytes(c: ImageComp) -> Seq<u8> {
    seq![bpc_byte(c.prec, c.sgnd), c.dx as u8, c.dy as u8]
}

/// The SIZ bytes of the components, in order.
pub open spec fn siz_comps_bytes(comps: Seq<ImageComp>) -> Seq<u8>
    decreases comps.len(),
{
    if comps.len() == 0 {
        Seq::empty()
    } else {
        siz_comps_bytes(comps.drop_last()) + siz_comp_bytes(comps.last())
    }
}

/// The fixed part of the SIZ payload for `image` on the tile grid of `cp`: profile, image
/// area, tile size and origin, number of components.
pub open spec fn siz_head(image: Image, cp: CodingParameters) -> Seq<u8> {
    be16(cp.rsiz) + be32(image.x1) + be32(image.y1) + be32(image.x0) + be32(image.y0) + be32(cp.tdx) + be32(
        cp.tdy,
    ) + be32(cp.tx0) + be32(cp.ty0) + be16(image.comps@.len() as u16)
}

/// The SIZ payload that describes `image` on the tile grid of `cp`.
pub open spec fn siz_payload(image: Image, cp: CodingParameters) -> Seq<u8> {
    siz_head(image, cp) + siz_comps_bytes(image.comps@)
}

/// Appends the SOC marker.
pub fn write_soc(out: &mut Vec<u8>)
    ensures
        final(out)@ == old(out)@ + be16(0xFF4F),
{
    push_be16(out, 0xFF4F);
}

/// Appends a SIZ marker segment describing `image` on the tile grid of `cp`; the
/// segment length is 38 plus 3 per component.
pub fn write_siz(out: &mut Vec<u8>, image: &Image, cp: &CodingParameters)
    requires
        image.comps@.len() <= 16384,
    ensures
        final(out)@ == old(out)@ + be16(0xFF51) + be16((38 + 3 * image.comps@.len()) as u16) + siz_payload(
            *image,
            *cp,
        ),
{
    let nc = image.comps.len();
    push_be16(out, 0xFF51);
    push_be16(out, (38 + 3 * nc) as u16);
    let ghost o1 = out@;
    push_be16(out, cp.rsiz);
    push_be32(out, image.x1);
    push_be32(out, image.y1);
    push_be32(out, image.x0);
    push_be32(out, image.y0);
    push_be32(out, cp.tdx);
    push_be32(out, cp.tdy);
    push_be32(out, cp.tx0);
    push_be32(out, cp.ty0);
    push_be16(out, nc as u16);
    let ghost o2 = out@;
    let mut i: usize = 0;
    while i < nc
        invariant
            nc == image.comps@.len(),
            i <= nc,
            out@ == o2 + siz_comps_bytes(image.comps@.take(i as int)),
        decreases nc - i,
    {
        let c = &image.comps[i];
        out.push(encode_bpc(c.prec, c.sgnd));
        out.push(c.dx as u8);
        out.push(c.dy as u8);
        proof {
            let t = image.comps@.take(i + 1);
            assert(t.drop_last() =~= image.comps@.take(i as int));
            assert(t.last() == image.comps@[i as int]);
        }
        i += 1;
    }
    assert(image.comps@.take(nc as int) =~= image.comps@);
}

/// The progression order code of `p`.
pub open spec fn prg_code(p: ProgressionOrder) -> u8 {
    match p {
        ProgressionOrder::Lrcp => 0,
        ProgressionOrder::Rlcp => 1,
        ProgressionOrder::Rpcl => 2,
        ProgressionOrder::Pcrl => 3,
        ProgressionOrder::Cprl => 4,
    }
}

/// The progression order codes of a COD segment: 0 LRCP, 1 RLCP, 2 RPCL, 3 PCRL and
/// 4 CPRL, both as read and as written; reading back the code that the COD writer emits
/// for an order gives that order.
pub proof fn lemma_progression_codes()
    ensures
        forall|p: ProgressionOrder| #[trigger] prg_of(prg_code(p)) == p,
        prg_of(0) == ProgressionOrder::Lrcp && prg_of(1) == ProgressionOrder::Rlcp,
        prg_of(2) == ProgressionOrder::Rpcl && prg_of(3) == ProgressionOrder::Pcrl,
        prg_of(4) == ProgressionOrder::Cprl,
        prg_code(ProgressionOrder::Lrcp) == 0 && prg_code(ProgressionOrder::Rlcp) == 1,
        prg_code(ProgressionOrder::Rpcl) == 2 && prg_code(ProgressionOrder::Pcrl) == 3,
        prg_code(ProgressionOrder::Cprl) == 4,
{
    assert forall|p: ProgressionOrder| #[trigger] prg_of(prg_code(p)) == p by {
        match p {
            ProgressionOrder::Lrcp => {},
            ProgressionOrder::Rlcp => {},
            ProgressionOrder::Rpcl => {},
            ProgressionOrder::Pcrl => {},
            ProgressionOrder::Cprl => {},
        }
    }
}

/// The precinct bytes of the first `n` resolutions of `t`: width exponent in the low
/// nibble, height exponent in the high one.
pub open spec fn precinct_bytes(t: TileCompCodingParameters, n: int) -> Seq<u8> {
    Seq::new(n as nat, |r: int| (t.prcw@[r] % 16 + (t.prch@[r] % 16) * 16) as u8)
}

/// The COD payload of `tcp`, with the code-block parameters of its first component.
pub open spec fn cod_payload(tcp: TileCodingParameters) -> Seq<u8> {
    let t = tcp.tccps@[0];
    seq![tcp.csty as u8, prg_code(tcp.prg)] + be16(tcp.numlayers as u16) + seq![
        tcp.mct as u8,
        (t.numresolutions - 1) as u8,
        (t.cblkw - 2) as u8,
        (t.cblkh - 2) as u8,
        t.cblksty as u8,
        t.qmfbid as u8,
    ] + (if tcp.csty & J2K_CCP_CSTY_PRT != 0 {
        precinct_bytes(t, t.numresolutions as int)
    } else {
        Seq::empty()
    })
}

/// Whether `tcp` can be written as a COD segment: a first component with 1 to 33
/// resolutions and code-block exponents of at least 2.
pub open spec fn cod_writable(tcp: TileCodingParameters) -> bool {
    &&& tcp.tccps@.len() >= 1
    &&& 1 <= tcp.tccps@[0].numresolutions <= J2K_MAXRLVLS
    &&& tcp.tccps@[0].cblkw >= 2
    &&& tcp.tccps@[0].cblkh >= 2
}

/// Appends a COD marker segment for `tcp`.
pub fn write_cod(out: &mut Vec<u8>, tcp: &TileCodingParameters)
    requires
        cod_writable(*tcp),
    ensures
        final(out)@ == old(out)@ + be16(0xFF52) + be16((2 + cod_payload(*tcp).len()) as u16) + cod_payload(*tcp),
{
    let t = &tcp.tccps[0];
    let prt = tcp.csty & J2K_CCP_CSTY_PRT != 0;
    let nres = t.numresolutions as usize;
    let len: u16 = if prt { 12 + nres as u16 } else { 12 };
    push_be16(out, 0xFF52);
    push_be16(out, len);
    let ghost o1 = out@;
    out.push(tcp.csty as u8);
    let code: u8 = match tcp.prg {
        ProgressionOrder::Lrcp => 0,
        ProgressionOrder::Rlcp => 1,
        ProgressionOrder::Rpcl => 2,
        ProgressionOrder::Pcrl => 3,
        ProgressionOrder::Cprl => 4,
    };
    out.push(code);
    push_be16(out, tcp.numlayers as u16);
    out.push(tcp.mct as u8);
    out.push((t.numresolutions - 1) as u8);
    out.push((t.cblkw - 2) as u8);
    out.push((t.cblkh - 2) as u8);
    out.push(t.cblksty as u8);
    out.push(t.qmfbid as u8);
    let ghost o2 = out@;
    if prt {
        let mut r: usize = 0;
        while r < nres
            invariant
                nres == t.numresolutions,
                nres <= J2K_MAXRLVLS,
                r <= nres,
                out@ == o2 + precinct_bytes(*t, r as int),
            decreases nres - r,
        {
            out.push((t.prcw[r] % 16 + (t.prch[r] % 16) * 16) as u8);
            proof {
                assert(precinct_bytes(*t, r + 1) =~= precinct_bytes(*t, r as int).push(
                    (t.prcw@[r as int] % 16 + (t.prch@[r as int] % 16) * 16) as u8,
                ));
            }
            r += 1;
        }
    }
    assert(out@.subrange(o1.len() as int, out@.len() as int) =~= cod_payload(*tcp));
    assert(out@ =~= o1 + cod_payload(*tcp));
}

/// Number of bands whose step size a QCD segment for `t` gives: one for scalar implicit
/// quantization, else three per decomposition level plus one.
pub open spec fn qcd_band_count(t: TileCompCodingParameters) -> int {
    if t.qntsty == J2K_CCP_QNTSTY_SIQNT {
        1
    } else {
        3 * t.numresolutions - 2
    }
}

/// The QCD bytes of step size `s`: the exponent alone without quantization, else the
/// exponent and mantissa in 16 bits.
pub open spec fn step_bytes(s: Stepsize, noqnt: bool) -> Seq<u8> {
    if noqnt {
        seq![(((s.expn as u32) % 32) * 8) as u8]
    } else {
        be16((((s.expn as u32) % 32) * 2048 + (s.mant as u32) % 2048) as u16)
    }
}

/// The QCD bytes of the first `n` step sizes of `t`.
pub open spec fn steps_bytes(t: TileCompCodingParameters, n: int) -> Seq<u8>
    decreases n,
{
    if n <= 0 {
        Seq::empty()
    } else {
        steps_bytes(t, n - 1) + step_bytes(t.stepsizes@[n - 1], t.qntsty == J2K_CCP_QNTSTY_NOQNT)
    }
}

/// The QCD payload of `tcp`, from its first component: style and guard bits, then the
/// step sizes.
pub open spec fn qcd_payload(tcp: TileCodingParameters) -> Seq<u8> {
    let t = tcp.tccps@[0];
    seq![(t.qntsty % 32 + (t.numgbits % 8) * 32) as u8] + steps_bytes(t, qcd_band_count(t))
}

/// Whether `tcp` can be written as a QCD segment: a first component with 1 to 33
/// resolutions.
pub open spec fn qcd_writable(tcp: TileCodingParameters) -> bool {
    &&& tcp.tccps@.len() >= 1
    &&& 1 <= tcp.tccps@[0].numresolutions <= J2K_MAXRLVLS
}

/// Appends a QCD marker segment for `tcp`.
pub fn write_qcd(out: &mut Vec<u8>, tcp: &TileCodingParameters)
    requires
        qcd_writable(*tcp),
    ensures
        final(out)@ == old(out)@ + be16(0xFF5C) + be16((2 + qcd_payload(*tcp).len()) as u16) + qcd_payload(*tcp),
{
    let t = &tcp.tccps[0];
    let noqnt = t.qntsty == J2K_CCP_QNTSTY_NOQNT;
    let nb: usize = if t.qntsty == J2K_CCP_QNTSTY_SIQNT { 1 } else { 3 * t.numresolutions as usize - 2 };
    let len: u16 = if noqnt { 3 + nb as u16 } else { 3 + 2 * nb as u16 };
    proof {
        lemma_steps_bytes_len(*t, nb as int);
    }
    push_be16(out, 0xFF5C);
    push_be16(out, len);
    let ghost o1 = out@;
    out.push((t.qntsty % 32 + (t.numgbits % 8) * 32) as u8);
    let ghost o2 = out@;
    let mut b: usize = 0;
    while b < nb
        invariant
            nb == qcd_band_count(*t),
            nb <= J2K_MAXBANDS,
            noqnt == (t.qntsty == J2K_CCP_QNTSTY_NOQNT),
            b <= nb,
            out@ == o2 + steps_bytes(*t, b as int),
        decreases nb - b,
    {
        let s = t.stepsizes[b];
        if noqnt {
            out.push((((s.expn as u32) % 32) * 8) as u8);
        } else {
            push_be16(out, (((s.expn as u32) % 32) * 2048 + (s.mant as u32) % 2048) as u16);
        }
        b += 1;
    }
    assert(out@ =~= o1 + qcd_payload(*tcp));
}

proof fn lemma_steps_bytes_len(t: TileCompCodingParameters, n: int)
    requires
        n >= 0,
    ensures
        steps_bytes(t, n).len() == (if t.qntsty == J2K_CCP_QNTSTY_NOQNT { n } else { 2 * n }),
    decreases n,
{
    if n > 0 {
        lemma_steps_bytes_len(t, n - 1);
    }
}

/// The SOT segment of a tile-part with its length still zero.
pub open spec fn sot_bytes(tile_no: u32, tp_idx: u8, nb_parts: u8) -> Seq<u8> {
    be16(0xFF90) + be16(10) + be16(tile_no as u16) + be32(0) + seq![tp_idx, nb_parts]
}

/// Appends an SOT marker segment with a zero tile-part length, to be set by
/// `patch_psot`; returns the position of that length.
pub fn write_sot(out: &mut Vec<u8>, tile_no: u32, tp_idx: u8, nb_parts: u8) -> (r: usize)
    requires
        old(out)@.len() + 12 <= usize::MAX,
    ensures
        final(out)@ == old(out)@ + sot_bytes(tile_no, tp_idx, nb_parts),
        r == old(out)@.len() + 6,
{
    let start = out.len();
    push_be16(out, 0xFF90);
    push_be16(out, 10);
    push_be16(out, tile_no as u16);
    push_be32(out, 0);
    out.push(tp_idx);
    out.push(nb_parts);
    assert(out@ =~= old(out)@ + sot_bytes(tile_no, tp_idx, nb_parts));
    start + 6
}

/// Overwrites the four bytes at `offset` with the big-endian `psot`.
pub fn patch_psot(out: &mut Vec<u8>, offset: usize, psot: u32)
    requires
        offset + 4 <= old(out)@.len(),
    ensures
        final(out)@ == old(out)@.subrange(0, offset as int) + be32(psot) + old(out)@.subrange(
            offset + 4,
            old(out)@.len() as int,
        ),
{
    let _n = out.len();
    out.set(offset, (psot / 0x100_0000) as u8);
    out.set(offset + 1, ((psot / 0x1_0000) % 256) as u8);
    out.set(offset + 2, ((psot / 256) % 256) as u8);
    out.set(offset + 3, (psot % 256) as u8);
    assert(out@ =~= old(out)@.subrange(0, offset as int) + be32(psot) + old(out)@.subrange(
        offset + 4,
        old(out)@.len() as int,
    ));
}

/// Appends the SOD marker.
pub fn write_sod(out: &mut Vec<u8>)
    ensures
        final(out)@ == old(out)@ + be16(0xFF93),
{
    push_be16(out, 0xFF93);
}

/// Appends the EOC marker.
pub fn write_eoc(out: &mut Vec<u8>)
    ensures
        final(out)@ == old(out)@ + be16(0xFFD9),
{
    push_be16(out, 0xFFD9);
}

/// Reading back two bytes written for `v` gives `v`.
#[verifier::spinoff_prover]
pub proof fn lemma_be16_value(v: u16)
    ensures
        be_value(be16(v)) == v,
{
    let s = be16(v);
    let s1 = s.drop_last();
    assert(s1.drop_last().len() == 0);
    assert(be_value(s1.drop_last()) == 0);
    assert(s1.last() == (v / 256) as u8);
    assert(be_value(s1) == (v / 256) as u8);
    assert(be_value(s) == ((v / 256) as u8) as nat * 256 + ((v % 256) as u8) as nat);
}

/// Reading back four bytes written for `v` gives `v`.
#[verifier::spinoff_prover]
pub proof fn lemma_be32_value(v: u32)
    ensures
        be_value(be32(v)) == v,
{
    let s = be32(v);
    let a = v / 0x100_0000;
    let b = (v / 0x1_0000) % 256;
    let c = (v / 256) % 256;
    let d = v % 256;
    let s3 = s.drop_last().drop_last().drop_last();
    assert(s3.drop_last().len() == 0);
    assert(be_value(s3.drop_last()) == 0);
    assert(s3.last() == a as u8);
    assert(be_value(s3) == a);
    assert(be_value(s.drop_last().drop_last()) == a * 256 + b);
    assert(be_value(s.drop_last()) == (a * 256 + b) * 256 + c);
    assert(be_value(s) == ((a * 256 + b) * 256 + c) * 256 + d);
    assert(((a * 256 + b) * 256 + c) * 256 + d == v) by (nonlinear_arith)
        requires
            a == v / 0x100_0000,
            b == (v / 0x1_0000) % 256,
            c == (v / 256) % 256,
            d == v % 256,
    {
        assert(v == (v / 256) * 256 + v % 256);
        assert(v / 256 == (v / 0x1_0000) * 256 + (v / 256) % 256);
        assert(v / 0x1_0000 == (v / 0x100_0000) * 256 + (v / 0x1_0000) % 256);
    }
}

/// The tile-part header written for a tile reads back: an SOT marker, a segment length
/// of 10, then the tile index (cut to 16 bits), the tile-part length (header, SOD and
/// data) and the tile-part index and count.
#[verifier::spinoff_prover]
pub proof fn lemma_sot_roundtrip(tile_no: u32, data: Seq<u8>, tp_idx: u8, nb_parts: u8)
    requires
        14 + data.len() <= u32::MAX,
    ensures
        ({
            let b = crate::j2k::write::tile_part_bytes(tile_no, data, tp_idx, nb_parts);
            let payload = b.subrange(4, 12);
            &&& be_at(b, 0, 2) == 0xFF90
            &&& be_at(b, 2, 2) == 10
            &&& be_at(payload, 0, 2) == tile_no as u16
            &&& be_at(payload, 2, 4) == 14 + data.len()
            &&& payload[6] == tp_idx && payload[7] == nb_parts
            &&& be_at(b, 12, 2) == 0xFF93
            &&& b.subrange(14, b.len() as int) == data
        }),
{
    let b = crate::j2k::write::tile_part_bytes(tile_no, data, tp_idx, nb_parts);
    let payload = b.subrange(4, 12);
    assert(b.subrange(0, 2) =~= be16(0xFF90));
    assert(b.subrange(2, 4) =~= be16(10));
    assert(payload.subrange(0, 2) =~= be16(tile_no as u16));
    assert(payload.subrange(2, 6) =~= be32((14 + data.len()) as u32));
    assert(b.subrange(12, 14) =~= be16(0xFF93));
    assert(b.subrange(14, b.len() as int) =~= data);
    lemma_be16_value(0xFF90);
    lemma_be16_value(10);
    lemma_be16_value(tile_no as u16);
    lemma_be32_value((14 + data.len()) as u32);
    lemma_be16_value(0xFF93);
}

#[verifier::spinoff_prover]
proof fn lemma_siz_comps_bytes(comps: Seq<ImageComp>)
    ensures
        siz_comps_bytes(comps).len() == 3 * comps.len(),
        forall|i: int, k: int|
            0 <= i < comps.len() && 0 <= k < 3 ==> #[trigger] siz_comps_bytes(comps)[3 * i + k] == siz_comp_bytes(
                comps[i],
            )[k],
    decreases comps.len(),
{
    if comps.len() > 0 {
        lemma_siz_comps_bytes(comps.drop_last());
        let pre = siz_comps_bytes(comps.drop_last());
        assert forall|i: int, k: int| 0 <= i < comps.len() && 0 <= k < 3 implies #[trigger] siz_comps_bytes(
            comps,
        )[3 * i + k] == siz_comp_bytes(comps[i])[k] by {
            if i < comps.len() - 1 {
                assert(comps.drop_last()[i] == comps[i]);
                assert(pre[3 * i + k] == siz_comp_bytes(comps.drop_last()[i])[k]);
            }
        }
    }
}

/// Whether `image` on the grid of `cp` can be written as a SIZ segment and read back as
/// it is: 1 to 16384 components, a non-empty image area, non-zero tile sizes, a tile
/// origin within the image's far corner, and components of precision 1 to 128 and
/// subsampling 1 to 255.
pub open spec fn siz_describable(image: Image, cp: CodingParameters) -> bool {
    &&& 1 <= image.comps@.len() <= 16384
    &&& image.x0 < image.x1 && image.y0 < image.y1
    &&& cp.tdx != 0 && cp.tdy != 0
    &&& cp.tx0 <= image.x1 && cp.ty0 <= image.y1
    &&& forall|i: int|
        0 <= i < image.comps@.len() ==> 1 <= #[trigger] image.comps@[i].prec <= 128 && 1 <= image.comps@[i].dx <= 255
            && 1 <= image.comps@[i].dy <= 255
}

#[verifier::spinoff_prover]
proof fn lemma_siz_fields(image: Image, cp: CodingParameters)
    requires
        image.comps@.len() <= 16384,
    ensures
        ({
            let d = siz_payload(image, cp);
            &&& d.len() == 36 + 3 * image.comps@.len()
            &&& be_at(d, 0, 2) == cp.rsiz
            &&& be_at(d, 2, 4) == image.x1 && be_at(d, 6, 4) == image.y1
            &&& be_at(d, 10, 4) == image.x0 && be_at(d, 14, 4) == image.y0
            &&& be_at(d, 18, 4) == cp.tdx && be_at(d, 22, 4) == cp.tdy
            &&& be_at(d, 26, 4) == cp.tx0 && be_at(d, 30, 4) == cp.ty0
            &&& siz_numcomps(d) == image.comps@.len()
        }),
{
    let d = siz_payload(image, cp);
    let nc = image.comps@.len();
    lemma_siz_comps_bytes(image.comps@);
    assert(d.subrange(0, 2) =~= be16(cp.rsiz));
    assert(d.subrange(2, 6) =~= be32(image.x1));
    assert(d.subrange(6, 10) =~= be32(image.y1));
    assert(d.subrange(10, 14) =~= be32(image.x0));
    assert(d.subrange(14, 18) =~= be32(image.y0));
    assert(d.subrange(18, 22) =~= be32(cp.tdx));
    assert(d.subrange(22, 26) =~= be32(cp.tdy));
    assert(d.subrange(26, 30) =~= be32(cp.tx0));
    assert(d.subrange(30, 34) =~= be32(cp.ty0));
    assert(d.subrange(34, 36) =~= be16(nc as u16));
    lemma_be16_value(cp.rsiz);
    lemma_be32_value(image.x1);
    lemma_be32_value(image.y1);
    lemma_be32_value(image.x0);
    lemma_be32_value(image.y0);
    lemma_be32_value(cp.tdx);
    lemma_be32_value(cp.tdy);
    lemma_be32_value(cp.tx0);
    lemma_be32_value(cp.ty0);
    lemma_be16_value(nc as u16);
}

#[verifier::spinoff_prover]
proof fn lemma_siz_comp_fields(image: Image, cp: CodingParameters, i: int)
    requires
        siz_describable(image, cp),
        0 <= i < image.comps@.len(),
    ensures
        ({
            let d = siz_payload(image, cp);
            &&& d[36 + 3 * i] % 128 + 1 == image.comps@[i].prec
            &&& (d[36 + 3 * i] / 128 != 0) == image.comps@[i].sgnd
            &&& d[36 + 3 * i + 1] == image.comps@[i].dx
            &&& d[36 + 3 * i + 2] == image.comps@[i].dy
        }),
{
    let d = siz_payload(image, cp);
    lemma_siz_comps_bytes(image.comps@);
    let tail = siz_comps_bytes(image.comps@);
    let head = siz_head(image, cp);
    assert(head.len() == 36);
    let c = image.comps@[i];
    assert(1 <= c.prec <= 128);
    assert(tail[3 * i + 0] == siz_comp_bytes(c)[0]);
    assert(tail[3 * i + 1] == siz_comp_bytes(c)[1]);
    assert(tail[3 * i + 2] == siz_comp_bytes(c)[2]);
    assert(d[36 + 3 * i] == tail[3 * i + 0]);
    assert(d[36 + 3 * i + 1] == tail[3 * i + 1]);
    assert(d[36 + 3 * i + 2] == tail[3 * i + 2]);
    lemma_bpc_byte(c.prec, c.sgnd);
}

proof fn lemma_bpc_byte(prec: u32, sgnd: bool)
    requires
        1 <= prec <= 128,
    ensures
        bpc_byte(prec, sgnd) % 128 + 1 == prec,
        (bpc_byte(prec, sgnd) / 128 != 0) == sgnd,
{
}

/// A SIZ segment written for an image reads back: it is accepted, and gives back the
/// profile, image area, tile size and origin, number of components and each component's
/// precision, sign and subsampling.
#[verifier::spinoff_prover]
pub proof fn lemma_siz_roundtrip(image: Image, cp: CodingParameters)
    requires
        siz_describable(image, cp),
    ensures
        ({
            let d = siz_payload(image, cp);
            &&& siz_ok(d)
            &&& be_at(d, 0, 2) == cp.rsiz
            &&& be_at(d, 2, 4) == image.x1 && be_at(d, 6, 4) == image.y1
            &&& be_at(d, 10, 4) == image.x0 && be_at(d, 14, 4) == image.y0
            &&& be_at(d, 18, 4) == cp.tdx && be_at(d, 22, 4) == cp.tdy
            &&& be_at(d, 26, 4) == cp.tx0 && be_at(d, 30, 4) == cp.ty0
            &&& siz_numcomps(d) == image.comps@.len()
            &&& forall|i: int|
                0 <= i < image.comps@.len() ==> {
                    &&& #[trigger] d[36 + 3 * i] % 128 + 1 == image.comps@[i].prec
                    &&& (d[36 + 3 * i] / 128 != 0) == image.comps@[i].sgnd
                    &&& d[36 + 3 * i + 1] == image.comps@[i].dx
                    &&& d[36 + 3 * i + 2] == image.comps@[i].dy
                }
        }),
{
    let d = siz_payload(image, cp);
    lemma_siz_fields(image, cp);
    assert forall|i: int| 0 <= i < image.comps@.len() implies {
        &&& #[trigger] d[36 + 3 * i] % 128 + 1 == image.comps@[i].prec
        &&& (d[36 + 3 * i] / 128 != 0) == image.comps@[i].sgnd
        &&& d[36 + 3 * i + 1] == image.comps@[i].dx
        &&& d[36 + 3 * i + 2] == image.comps@[i].dy
    } by {
        lemma_siz_comp_fields(image, cp, i);
    }
    assert forall|i: int| 0 <= i < siz_numcomps(d) implies #[trigger] d[36 + 3 * i + 1] != 0 && d[36 + 3 * i + 2]
        != 0 by {
        lemma_siz_comp_fields(image, cp, i);
        assert(1 <= image.comps@[i].dx <= 255);
    }
}

} // verus!

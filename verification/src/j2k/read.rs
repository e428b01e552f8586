//! Decoding of a codestream: the main header and the tile-parts.
use vstd::prelude::*;
use crate::error::{Error, Result, invalid};
use crate::image::Image;
use crate::io::cio::MemoryStream;
use crate::j2k::markers::{
    be_at, be_at_exec, cod_fixed_ok, cod_rest, prg_of, read_cod, read_com, read_qcd, read_siz, read_sot,
    siz_comp, siz_numcomps, siz_ok, spcod_applied, spcod_applied_to_default, spcod_prch, spcod_prcw,
    sqcd_applied, sqcd_applied_to_default, sqcd_stepsize, tiles_across,
};
use crate::j2k::params::{CodingParameters, TileCodingParameters, TileCompCodingParameters};
use crate::types::J2K_MAXBANDS;
use crate::j2k::{J2kState, Marker, marker_of};
use crate::types::ColorSpace;

verus! {

/// Reads the next two bytes as a big-endian number; `None`, after consuming what is left,
/// when fewer than two remain.
fn read_two(stream: &mut MemoryStream) -> (r: Option<u16>)
    requires
        old(stream).wf(),
    ensures
        final(stream).wf(),
        final(stream).data == old(stream).data,
        final(stream).is_input == old(stream).is_input,
        old(stream).data@.len() - old(stream).position >= 2 ==> r == Some(
            be_at(old(stream).data@, old(stream).position as int, 2) as u16,
        ) && final(stream).position == old(stream).position + 2 && be_at(
            old(stream).data@,
            old(stream).position as int,
            2,
        ) < 0x1_0000,
        old(stream).data@.len() - old(stream).position < 2 ==> r is None && final(stream).position
            == old(stream).data@.len(),
{
    let ghost d = stream.data@;
    let ghost p = stream.position as int;
    let mut buf = [0u8; 2];
    let n = match stream.read(&mut buf) {
        Ok(n) => n,
        Err(_) => 0,
    };
    if n < 2 {
        return None;
    }
    let v = be_at_exec(buf.as_slice(), 0, 2);
    assert(buf@.subrange(0, 2) =~= d.subrange(p, p + 2));
    Some(v as u16)
}

/// Reads the next `n` bytes; refused with `EndOfStream`, after consuming what is left,
/// when fewer remain.
fn read_exact(stream: &mut MemoryStream, n: usize) -> (r: Result<Vec<u8>>)
    requires
        old(stream).wf(),
    ensures
        final(stream).wf(),
        final(stream).data == old(stream).data,
        final(stream).is_input == old(stream).is_input,
        r is Ok <==> n <= old(stream).data@.len() - old(stream).position,
        r matches Ok(v) ==> v@ == old(stream).data@.subrange(
            old(stream).position as int,
            old(stream).position + n,
        ) && final(stream).position == old(stream).position + n,
        r is Err ==> (r matches Err(Error::EndOfStream)) && final(stream).position == old(stream).data@.len(),
{
    let mut payload = vec![0u8; n];
    let got = stream.read(payload.as_mut_slice())?;
    if got < n {
        return Err(Error::EndOfStream);
    }
    assert(payload@ =~= stream.data@.subrange(old(stream).position as int, old(stream).position + n));
    Ok(payload)
}

proof fn lemma_tile_count_fits(tw: u32, th: u32)
    ensures
        (tw as int) * (th as int) <= 0xffff_ffff * 0xffff_ffff,
{
    assert((tw as int) * (th as int) <= 0xffff_ffff * 0xffff_ffff) by (nonlinear_arith)
        requires
            tw <= 0xffff_ffff,
            th <= 0xffff_ffff,
    ;
}

/// Whether `d` holds a marker with code `code` at `pos`.
pub open spec fn marker_at(d: Seq<u8>, pos: int, code: u16) -> bool {
    0 <= pos && pos + 2 <= d.len() && be_at(d, pos, 2) == code
}

/// A tile-part at `p` whose SOT segment is whole (length 10, a tile index within a grid of
/// `tiles` tiles, a length of 0 or one that leaves room for the SOD marker) and whose
/// header is the SOD marker alone.
pub open spec fn plain_tile_part(d: Seq<u8>, p: int, tiles: int) -> bool {
    let psot = be_at(d, p + 6, 4);
    &&& 0 <= p
    &&& p + 14 <= d.len()
    &&& marker_at(d, p, 0xFF90)
    &&& be_at(d, p + 2, 2) == 10
    &&& be_at(d, p + 4, 2) < tiles
    &&& (psot == 0 || psot >= 14)
    &&& marker_at(d, p + 12, 0xFF93)
}

/// Whether `image` is what the SIZ payload `s` describes: an accepted payload, its image
/// area and its components.
pub open spec fn image_from_siz(image: Image, s: Seq<u8>) -> bool {
    &&& siz_ok(s)
    &&& image.x1 == be_at(s, 2, 4) && image.y1 == be_at(s, 6, 4)
    &&& image.x0 == be_at(s, 10, 4) && image.y0 == be_at(s, 14, 4)
    &&& image.comps@.len() == siz_numcomps(s)
    &&& forall|i: int| 0 <= i < siz_numcomps(s) ==> siz_comp(#[trigger] image.comps@[i], s, i)
}

/// The payload of the marker segment that starts at `q` in `d`.
pub open spec fn segment_payload(d: Seq<u8>, q: int) -> Seq<u8> {
    d.subrange(q + 4, q + 2 + be_at(d, q + 2, 2))
}

/// Whether `image` and `cp` hold what the SIZ payload `s` gives: the image area, the
/// components, the profile, and the tile grid's size, origin and extent.
pub open spec fn siz_applied(image: Image, cp: CodingParameters, s: Seq<u8>) -> bool {
    &&& image_from_siz(image, s)
    &&& cp.rsiz == be_at(s, 0, 2)
    &&& cp.tdx == be_at(s, 18, 4) && cp.tdy == be_at(s, 22, 4)
    &&& cp.tx0 == be_at(s, 26, 4) && cp.ty0 == be_at(s, 30, 4)
    &&& cp.tw == tiles_across(be_at(s, 2, 4) - be_at(s, 26, 4), be_at(s, 18, 4) as int)
    &&& cp.th == tiles_across(be_at(s, 6, 4) - be_at(s, 30, 4), be_at(s, 22, 4) as int)
}

/// Whether a SIZ marker segment starts at `q` in `d` and ends by `pos`, and `image` and
/// `cp` hold what its payload gives.
pub open spec fn siz_segment_read(d: Seq<u8>, q: int, pos: int, image: Image, cp: CodingParameters) -> bool {
    let end = q + 2 + be_at(d, q + 2, 2);
    &&& marker_at(d, q, 0xFF51)
    &&& q + 4 <= end <= pos
    &&& siz_applied(image, cp, segment_payload(d, q))
}

/// Whether a marker segment with code `code` starts at `q` in `d` and ends by `pos`.
pub open spec fn segment_within(d: Seq<u8>, q: int, code: u16, pos: int) -> bool {
    let end = q + 2 + be_at(d, q + 2, 2);
    &&& marker_at(d, q, code)
    &&& q + 4 <= end <= pos
}

/// Whether the quantization of `t` is what the SQcd payload `d` gives: its style and
/// guard bits, and the step size of every band (`sqcd_stepsize` gives back the step
/// size of a band that `d` does not cover unchanged).
pub open spec fn qcd_in_effect(t: TileCompCodingParameters, d: Seq<u8>) -> bool {
    &&& t.qntsty == d[0] % 32
    &&& t.numgbits == d[0] / 32
    &&& forall|i: int| 0 <= i < J2K_MAXBANDS ==> #[trigger] t.stepsizes@[i] == sqcd_stepsize(t.stepsizes@, d, i)
}

/// Whether the code-block coding of `t` is what the SPCod payload `d` gives under coding
/// style `csty`: the resolutions, code-block size and style, the wavelet filter and the
/// precinct exponents of every resolution.
pub open spec fn spcod_in_effect(t: TileCompCodingParameters, d: Seq<u8>, csty: u32) -> bool {
    &&& t.numresolutions == d[0] + 1
    &&& t.cblkw == d[1] + 2 && t.cblkh == d[2] + 2
    &&& t.cblksty == d[3] && t.qmfbid == d[4]
    &&& forall|i: int| 0 <= i < d[0] + 1 ==> #[trigger] t.prcw@[i] == spcod_prcw(d, csty, i)
    &&& forall|i: int| 0 <= i < d[0] + 1 ==> #[trigger] t.prch@[i] == spcod_prch(d, csty, i)
}

/// Whether the tile-level coding of `t` is what the COD payload `d` gives: coding style,
/// progression order, layers (also as layers to decode) and transform flag.
pub open spec fn cod_in_effect(t: TileCodingParameters, d: Seq<u8>) -> bool {
    &&& t.csty == d[0] && t.prg == prg_of(d[1])
    &&& t.numlayers == be_at(d, 2, 2) && t.num_layers_to_decode == be_at(d, 2, 2)
    &&& t.mct == d[4]
}

/// Whether a QCD segment starts at `q` in `d`, ends by `pos`, and its quantization is
/// that of the first `n` components of `tcp`.
pub open spec fn qcd_segment_read(d: Seq<u8>, q: int, pos: int, tcp: TileCodingParameters, n: int) -> bool {
    &&& segment_within(d, q, 0xFF5C, pos)
    &&& 0 <= n <= tcp.tccps@.len()
    &&& forall|c: int| 0 <= c < n ==> qcd_in_effect(#[trigger] tcp.tccps@[c], segment_payload(d, q))
}

/// Whether an accepted COD segment starts at `q` in `d`, ends by `pos`, its tile-level
/// coding is that of `tcp`, and its SPCod part that of the first `n` components of `tcp`.
pub open spec fn cod_segment_read(d: Seq<u8>, q: int, pos: int, tcp: TileCodingParameters, n: int) -> bool {
    let s = segment_payload(d, q);
    &&& segment_within(d, q, 0xFF52, pos)
    &&& cod_fixed_ok(s)
    &&& cod_in_effect(tcp, s)
    &&& 0 <= n <= tcp.tccps@.len()
    &&& forall|c: int| 0 <= c < n ==> spcod_in_effect(#[trigger] tcp.tccps@[c], cod_rest(s), s[0] as u32)
}

proof fn lemma_sqcd_in_effect(t0: TileCompCodingParameters, t: TileCompCodingParameters, d: Seq<u8>)
    requires
        sqcd_applied(t0, t, d),
    ensures
        qcd_in_effect(t, d),
{
    assert forall|i: int| 0 <= i < J2K_MAXBANDS implies #[trigger] t.stepsizes@[i] == sqcd_stepsize(t.stepsizes@, d, i) by {
        assert(t.stepsizes@[i] == sqcd_stepsize(t0.stepsizes@, d, i));
    }
}

/// After a QCD payload `d` was read from `t0` into `t`, its quantization is that of every
/// component, and the COD parameters of `t0` are kept.
proof fn lemma_qcd_read(t0: TileCodingParameters, t: TileCodingParameters, d: Seq<u8>, dc: Seq<u8>, n: int)
    requires
        t0.tccps@.len() <= t.tccps@.len(),
        forall|i: int| 0 <= i < t0.tccps@.len() ==> sqcd_applied(t0.tccps@[i], #[trigger] t.tccps@[i], d),
        forall|i: int| t0.tccps@.len() <= i < t.tccps@.len() ==> sqcd_applied_to_default(#[trigger] t.tccps@[i], d),
        0 <= n <= t0.tccps@.len(),
        forall|c: int| 0 <= c < n ==> spcod_in_effect(#[trigger] t0.tccps@[c], cod_rest(dc), dc[0] as u32),
    ensures
        forall|c: int| 0 <= c < t.tccps@.len() ==> qcd_in_effect(#[trigger] t.tccps@[c], d),
        forall|c: int| 0 <= c < n ==> spcod_in_effect(#[trigger] t.tccps@[c], cod_rest(dc), dc[0] as u32),
{
    assert forall|c: int| 0 <= c < t.tccps@.len() implies qcd_in_effect(#[trigger] t.tccps@[c], d) by {
        if c < t0.tccps@.len() {
            lemma_sqcd_in_effect(t0.tccps@[c], t.tccps@[c], d);
        } else {
            assert(sqcd_applied_to_default(t.tccps@[c], d));
            let u = choose|u: TileCompCodingParameters| crate::j2k::params::is_default_tccp(u) && sqcd_applied(u, t.tccps@[c], d);
            lemma_sqcd_in_effect(u, t.tccps@[c], d);
        }
    }
    assert forall|c: int| 0 <= c < n implies spcod_in_effect(#[trigger] t.tccps@[c], cod_rest(dc), dc[0] as u32) by {
        assert(sqcd_applied(t0.tccps@[c], t.tccps@[c], d));
        assert(spcod_in_effect(t0.tccps@[c], cod_rest(dc), dc[0] as u32));
    }
}

/// After a COD payload `d` was read from `t0` into `t`, its SPCod part is that of every
/// component, and the quantization of `t0`'s components is kept.
proof fn lemma_cod_read(t0: TileCodingParameters, t: TileCodingParameters, d: Seq<u8>, dq: Seq<u8>, n: int)
    requires
        t0.tccps@.len() <= t.tccps@.len(),
        forall|i: int|
            0 <= i < t0.tccps@.len() ==> spcod_applied(t0.tccps@[i], #[trigger] t.tccps@[i], cod_rest(d), d[0] as u32),
        forall|i: int|
            t0.tccps@.len() <= i < t.tccps@.len() ==> spcod_applied_to_default(#[trigger] t.tccps@[i], cod_rest(d), d[0] as u32),
        0 <= n <= t0.tccps@.len(),
        forall|c: int| 0 <= c < n ==> qcd_in_effect(#[trigger] t0.tccps@[c], dq),
    ensures
        forall|c: int| 0 <= c < t.tccps@.len() ==> spcod_in_effect(#[trigger] t.tccps@[c], cod_rest(d), d[0] as u32),
        forall|c: int| 0 <= c < n ==> qcd_in_effect(#[trigger] t.tccps@[c], dq),
{
    assert forall|c: int| 0 <= c < t.tccps@.len() implies spcod_in_effect(#[trigger] t.tccps@[c], cod_rest(d), d[0] as u32) by {
        if c < t0.tccps@.len() {
            assert(spcod_applied(t0.tccps@[c], t.tccps@[c], cod_rest(d), d[0] as u32));
        } else {
            assert(spcod_applied_to_default(t.tccps@[c], cod_rest(d), d[0] as u32));
        }
    }
    assert forall|c: int| 0 <= c < n implies qcd_in_effect(#[trigger] t.tccps@[c], dq) by {
        assert(spcod_applied(t0.tccps@[c], t.tccps@[c], cod_rest(d), d[0] as u32));
        assert(qcd_in_effect(t0.tccps@[c], dq));
        assert(t.tccps@[c].stepsizes@ == t0.tccps@[c].stepsizes@);
    }
}

/// Decoder of a codestream held in a stream.
pub struct J2kDecoder {
    /// Where the decoder stands in the codestream.
    pub state: J2kState,
    /// Coding parameters (from SIZ, COD and QCD).
    pub cp: CodingParameters,
    /// Tile coding parameters of the main header.
    pub default_tcp: TileCodingParameters,
    /// The image described by the main header.
    pub image: Image,
    /// Tile of the last tile-part read.
    pub current_tile_no: u32,
    /// Length of the tile-part data after its SOT segment.
    pub sot_length: u32,
    /// Compressed data of each tile, its tile-parts appended in order.
    pub tile_data: Vec<Vec<u8>>,
    /// Whether a SIZ marker was read.
    pub siz_found: bool,
    /// Whether a COD marker was read.
    pub cod_found: bool,
    /// Whether a QCD marker was read.
    pub qcd_found: bool,
}

impl Default for J2kDecoder {
    fn default() -> (r: Self)
        ensures
            r.is_fresh(),
    {
        Self::new()
    }
}

/// Whether `tiles` is `old` with `bytes` appended to tile `t`, tiles added empty up to
/// `t` where needed, and every other tile unchanged.
pub open spec fn tile_appended(old: Seq<Vec<u8>>, tiles: Seq<Vec<u8>>, t: int, bytes: Seq<u8>) -> bool {
    &&& tiles.len() == (if t < old.len() { old.len() as int } else { t + 1 })
    &&& forall|i: int| 0 <= i < old.len() && i != t ==> #[trigger] tiles[i]@ == old[i]@
    &&& forall|i: int| old.len() <= i < tiles.len() && i != t ==> #[trigger] tiles[i]@.len() == 0
    &&& tiles[t]@ == (if t < old.len() { old[t]@ } else { Seq::empty() }) + bytes
}

impl J2kDecoder {
    /// Whether the decoder is as made: initial state, fresh decoding parameters, an empty
    /// image, no tile data and no marker seen.
    pub open spec fn is_fresh(self) -> bool {
        &&& self.state == J2kState::Initial
        &&& self.cp.is_fresh()
        &&& self.cp.mode is Decoder
        &&& self.image.comps@.len() == 0
        &&& self.image.x0 == 0 && self.image.y0 == 0 && self.image.x1 == 0 && self.image.y1 == 0
        &&& self.image.color_space == ColorSpace::Unknown
        &&& self.current_tile_no == 0 && self.sot_length == 0
        &&& self.tile_data@.len() == 0
        &&& !self.siz_found && !self.cod_found && !self.qcd_found
    }

    /// A decoder that has read nothing.
    pub fn new() -> (r: Self)
        ensures
            r.is_fresh(),
    {
        J2kDecoder {
            state: J2kState::Initial,
            cp: CodingParameters::new_decoder(),
            default_tcp: TileCodingParameters::default(),
            image: Image::new_tile(&[], ColorSpace::Unknown),
            current_tile_no: 0,
            sot_length: 0,
            tile_data: Vec::new(),
            siz_found: false,
            cod_found: false,
            qcd_found: false,
        }
    }

    /// Whether the main header was read to its end: either up to a tile-part (state
    /// `TphSot`, SIZ, COD and QCD seen, one copy of the main header's tile parameters per
    /// tile, and the stream left at the SOT marker) or up to the end of the codestream
    /// (state `Eoc`, just after an EOC marker).
    pub open spec fn header_read(self, d: Seq<u8>, pos: int) -> bool {
        ||| {
            &&& self.state == J2kState::TphSot
            &&& self.siz_found && self.cod_found && self.qcd_found
            &&& self.cp.tcps@.len() == self.cp.tw * self.cp.th
            &&& forall|i: int| 0 <= i < self.cp.tcps@.len() ==> self.default_tcp.same_as(#[trigger] self.cp.tcps@[i])
            &&& marker_at(d, pos, 0xFF90)
        }
        ||| {
            &&& self.state == J2kState::Eoc
            &&& marker_at(d, pos - 2, 0xFFD9)
        }
    }

    /// Reads the main header: the SOC marker, then marker segments (SIZ, COD, QCD and COM
    /// parsed, others skipped) up to the first SOT, where the stream is left, or an EOC.
    /// A stream that does not start with SOC is refused, as is an SOT before SIZ, COD and
    /// QCD were all seen, or more tiles than a 32-bit count holds. Once a SIZ segment was
    /// read, the image and the tile grid are those that it gives (`siz_segment_read`);
    /// once a COD or QCD segment was read, the main header's tile coding parameters carry
    /// what it gives (`cod_segment_read`, `qcd_segment_read`), for every component unless
    /// a SIZ segment came after it.
    pub fn read_header(&mut self, stream: &mut MemoryStream) -> (r: Result<()>)
        requires
            old(stream).wf(),
        ensures
            final(stream).wf(),
            final(stream).data == old(stream).data,
            final(stream).is_input == old(stream).is_input,
            old(stream).data@.len() - old(stream).position < 2 ==> r matches Err(Error::EndOfStream),
            old(stream).data@.len() - old(stream).position >= 2 && !marker_at(
                old(stream).data@,
                old(stream).position as int,
                0xFF4F,
            ) ==> r matches Err(Error::InvalidInput(_)),
            r is Ok ==> final(self).header_read(old(stream).data@, final(stream).position as int),
            r is Ok ==> final(stream).position >= old(stream).position + 2,
            marker_at(old(stream).data@, old(stream).position as int, 0xFF4F) && marker_at(
                old(stream).data@,
                old(stream).position + 2,
                0xFFD9,
            ) ==> r is Ok && final(self).state == J2kState::Eoc && final(self).image == old(self).image
                && final(stream).position == old(stream).position + 4,
            r is Ok && final(self).siz_found && !old(self).siz_found ==> exists|q: int|
                old(stream).position <= q && #[trigger] siz_segment_read(
                    old(stream).data@,
                    q,
                    final(stream).position as int,
                    final(self).image,
                    final(self).cp,
                ),
            r is Ok && !final(self).siz_found ==> final(self).image == old(self).image,
            r is Ok && final(self).cod_found && !old(self).cod_found ==> exists|q: int, n: int|
                old(stream).position <= q && #[trigger] cod_segment_read(
                    old(stream).data@,
                    q,
                    final(stream).position as int,
                    final(self).default_tcp,
                    n,
                ) && (n == final(self).default_tcp.tccps@.len() || exists|s: int|
                    q < s && #[trigger] marker_at(old(stream).data@, s, 0xFF51)),
            r is Ok && final(self).qcd_found && !old(self).qcd_found ==> exists|q: int, n: int|
                old(stream).position <= q && #[trigger] qcd_segment_read(
                    old(stream).data@,
                    q,
                    final(stream).position as int,
                    final(self).default_tcp,
                    n,
                ) && (n == final(self).default_tcp.tccps@.len() || exists|s: int|
                    q < s && #[trigger] marker_at(old(stream).data@, s, 0xFF51)),
    {
        self.state = J2kState::MhSoc;
        let soc = match read_two(stream) {
            Some(v) => v,
            None => {
                return Err(Error::EndOfStream);
            },
        };
        if Marker::from_u16(soc) != Marker::Soc {
            return Err(invalid("expected SOC marker"));
        }
        self.state = J2kState::MhSiz;
        let ghost d = stream.data@;
        let ghost p0 = old(stream).position as int;
        let ghost mut siz_here: bool = false;
        let ghost mut sq: int = 0;
        let ghost mut qcd_here: bool = false;
        let ghost mut qq: int = 0;
        let ghost mut qn: int = 0;
        let ghost mut qsiz: bool = false;
        let ghost mut cod_here: bool = false;
        let ghost mut cq: int = 0;
        let ghost mut cn: int = 0;
        let ghost mut csiz: bool = false;
        loop
            invariant
                qcd_here ==> p0 <= qq && qcd_segment_read(d, qq, stream.position as int, self.default_tcp, qn),
                qcd_here && !qsiz ==> qn == self.default_tcp.tccps@.len() && self.default_tcp.tccps@.len()
                    >= self.image.comps@.len() as u32,
                qcd_here && qsiz ==> siz_here && qq < sq,
                self.qcd_found ==> old(self).qcd_found || qcd_here,
                cod_here ==> p0 <= cq && cod_segment_read(d, cq, stream.position as int, self.default_tcp, cn),
                cod_here && !csiz ==> cn == self.default_tcp.tccps@.len() && self.default_tcp.tccps@.len()
                    >= self.image.comps@.len() as u32,
                cod_here && csiz ==> siz_here && cq < sq,
                self.cod_found ==> old(self).cod_found || cod_here,
                siz_here ==> p0 <= sq && siz_segment_read(d, sq, stream.position as int, self.image, self.cp),
                self.siz_found ==> old(self).siz_found || siz_here,
                !self.siz_found ==> self.image == old(self).image,
                stream.wf(),
                stream.data == old(stream).data,
                d == old(stream).data@,
                stream.is_input == old(stream).is_input,
                stream.position >= p0 + 2,
                marker_at(d, p0, 0xFF4F),
                p0 == old(stream).position,
                old(stream).data@.len() - old(stream).position >= 2,
                marker_at(d, p0 + 2, 0xFFD9) ==> stream.position == p0 + 2 && self.image == old(self).image,
            decreases stream.data@.len() - stream.position,
        {
            let ghost mpos = stream.position as int;
            let m = match read_two(stream) {
                Some(v) => v,
                None => {
                    return Err(Error::EndOfStream);
                },
            };
            let marker = Marker::from_u16(m);
            if marker == Marker::Sot {
                if !self.siz_found {
                    return Err(invalid("missing SIZ marker"));
                }
                if !self.cod_found {
                    return Err(invalid("missing COD marker"));
                }
                if !self.qcd_found {
                    return Err(invalid("missing QCD marker"));
                }
                self.copy_default_tcp_to_tiles()?;
                self.state = J2kState::TphSot;
                match stream.skip(-2) {
                    Ok(()) => {},
                    Err(e) => {
                        return Err(e);
                    },
                }
                proof {
                    if siz_here {
                        assert(siz_segment_read(d, sq, stream.position as int, self.image, self.cp));
                    }
                    if qcd_here {
                        assert(qcd_segment_read(d, qq, stream.position as int, self.default_tcp, qn));
                        if qsiz {
                            assert(marker_at(d, sq, 0xFF51));
                        }
                    }
                    if cod_here {
                        assert(cod_segment_read(d, cq, stream.position as int, self.default_tcp, cn));
                        if csiz {
                            assert(marker_at(d, sq, 0xFF51));
                        }
                    }
                }
                return Ok(());
            }
            if marker == Marker::Eoc {
                self.state = J2kState::Eoc;
                proof {
                    if siz_here {
                        assert(siz_segment_read(d, sq, stream.position as int, self.image, self.cp));
                    }
                    if qcd_here {
                        assert(qcd_segment_read(d, qq, stream.position as int, self.default_tcp, qn));
                        if qsiz {
                            assert(marker_at(d, sq, 0xFF51));
                        }
                    }
                    if cod_here {
                        assert(cod_segment_read(d, cq, stream.position as int, self.default_tcp, cn));
                        if csiz {
                            assert(marker_at(d, sq, 0xFF51));
                        }
                    }
                }
                return Ok(());
            }
            let seg_len = match read_two(stream) {
                Some(v) => v as usize,
                None => {
                    return Err(Error::EndOfStream);
                },
            };
            if seg_len < 2 {
                return Err(invalid("invalid marker segment length"));
            }
            let payload = read_exact(stream, seg_len - 2)?;
            if marker == Marker::Siz {
                read_siz(payload.as_slice(), &mut self.image, &mut self.cp)?;
                proof {
                    assert(payload@ =~= d.subrange(mpos + 4, mpos + 2 + be_at(d, mpos + 2, 2)));
                    siz_here = true;
                    sq = mpos;
                    qsiz = true;
                    csiz = true;
                }
                self.siz_found = true;
                self.state = J2kState::Mh;
            } else if marker == Marker::Cod {
                let numcomps = self.image.comps.len() as u32;
                let ghost t0 = self.default_tcp;
                read_cod(payload.as_slice(), &mut self.default_tcp, numcomps)?;
                proof {
                    assert(payload@ =~= segment_payload(d, mpos));
                    if qcd_here {
                        lemma_cod_read(t0, self.default_tcp, payload@, segment_payload(d, qq), qn);
                    } else {
                        lemma_cod_read(t0, self.default_tcp, payload@, payload@, 0);
                    }
                    cod_here = true;
                    cq = mpos;
                    cn = self.default_tcp.tccps@.len() as int;
                    csiz = false;
                }
                self.cod_found = true;
            } else if marker == Marker::Qcd {
                let numcomps = self.image.comps.len() as u32;
                let ghost t0 = self.default_tcp;
                read_qcd(payload.as_slice(), &mut self.default_tcp, numcomps)?;
                proof {
                    assert(payload@ =~= segment_payload(d, mpos));
                    if cod_here {
                        lemma_qcd_read(t0, self.default_tcp, payload@, segment_payload(d, cq), cn);
                    } else {
                        lemma_qcd_read(t0, self.default_tcp, payload@, payload@, 0);
                    }
                    qcd_here = true;
                    qq = mpos;
                    qn = self.default_tcp.tccps@.len() as int;
                    qsiz = false;
                }
                self.qcd_found = true;
            } else if marker == Marker::Com {
                let _ = read_com(payload.as_slice())?;
            }
        }
    }

    /// Sets the per-tile parameters to one copy of the main header's per tile; refused
    /// when the number of tiles does not fit in 32 bits.
    fn copy_default_tcp_to_tiles(&mut self) -> (r: Result<()>)
        ensures
            r is Ok <==> old(self).cp.tw * old(self).cp.th <= u32::MAX,
            r is Ok ==> final(self).cp.tcps@.len() == old(self).cp.tw * old(self).cp.th,
            r is Ok ==> forall|i: int|
                0 <= i < final(self).cp.tcps@.len() ==> old(self).default_tcp.same_as(#[trigger] final(self).cp.tcps@[i]),
            final(self).state == old(self).state,
            final(self).default_tcp == old(self).default_tcp,
            final(self).cp.tw == old(self).cp.tw && final(self).cp.th == old(self).cp.th,
            final(self).cp.rsiz == old(self).cp.rsiz,
            final(self).cp.tdx == old(self).cp.tdx && final(self).cp.tdy == old(self).cp.tdy,
            final(self).cp.tx0 == old(self).cp.tx0 && final(self).cp.ty0 == old(self).cp.ty0,
            final(self).image == old(self).image,
            final(self).siz_found == old(self).siz_found,
            final(self).cod_found == old(self).cod_found,
            final(self).qcd_found == old(self).qcd_found,
    {
        proof {
            lemma_tile_count_fits(self.cp.tw, self.cp.th);
        }
        let nt = self.cp.tw as u64 * self.cp.th as u64;
        if nt > 0xffff_ffff {
            return Err(invalid("too many tiles"));
        }
        let n = nt as usize;
        let mut tcps: Vec<TileCodingParameters> = Vec::new();
        while tcps.len() < n
            invariant
                tcps@.len() <= n,
                forall|i: int| 0 <= i < tcps@.len() ==> self.default_tcp.same_as(#[trigger] tcps@[i]),
            decreases n - tcps@.len(),
        {
            tcps.push(self.default_tcp.duplicate());
        }
        self.cp.tcps = tcps;
        Ok(())
    }

    /// Reads one tile-part: its SOT segment, the tile-part header markers up to SOD,
    /// skipped, and its data, which is appended to its tile's data. Returns the tile's
    /// index, or `None` at an EOC marker or when the stream has ended. The tile-part data
    /// runs to the end of the tile-part as its length gives it, or to the end of the
    /// stream for a length of 0, and never past the stream's end. Refused on another
    /// marker than SOT or EOC, an SOT segment length other than 10, a tile index beyond
    /// the tile grid, or header markers that overrun the tile-part.
    pub fn read_tile_part(&mut self, stream: &mut MemoryStream) -> (r: Result<Option<u32>>)
        requires
            old(stream).wf(),
        ensures
            final(stream).wf(),
            final(stream).data == old(stream).data,
            final(stream).is_input == old(stream).is_input,
            ({
                let d = old(stream).data@;
                let p = old(stream).position as int;
                &&& d.len() - p < 2 ==> (r matches Ok(None)) && final(self).state == J2kState::Neoc
                &&& marker_at(d, p, 0xFFD9) ==> (r matches Ok(None)) && final(self).state == J2kState::Eoc
                &&& d.len() - p >= 2 && marker_of(be_at(d, p, 2) as u16) != Marker::Sot && !marker_at(d, p, 0xFFD9)
                    ==> r is Err
                &&& r matches Ok(Some(t)) ==> {
                    let psot = be_at(d, p + 6, 4);
                    let fin = final(stream).position as int;
                    let appended = final(self).tile_data@[t as int]@.len() - (if t < old(self).tile_data@.len() {
                        old(self).tile_data@[t as int]@.len() as int
                    } else {
                        0int
                    });
                    &&& marker_at(d, p, 0xFF90)
                    &&& be_at(d, p + 2, 2) == 10
                    &&& t == be_at(d, p + 4, 2)
                    &&& t < old(self).cp.tw * old(self).cp.th
                    &&& final(self).current_tile_no == t
                    &&& final(self).state == J2kState::TphSot
                    &&& fin == (if psot == 0 { d.len() as int } else if p + psot < d.len() { p + psot } else { d.len() as int })
                    &&& 0 <= appended
                    &&& p + 14 <= fin - appended
                    &&& marker_at(d, fin - appended - 2, 0xFF93)
                    &&& tile_appended(old(self).tile_data@, final(self).tile_data@, t as int, d.subrange(fin - appended, fin))
                }
                &&& r matches Ok(None) ==> final(self).tile_data == old(self).tile_data && (final(self).state
                    == J2kState::Eoc || final(self).state == J2kState::Neoc)
                &&& marker_at(d, p, 0xFF90) && d.len() - p >= 4 && be_at(d, p + 2, 2) != 10 ==> r is Err
                &&& marker_at(d, p, 0xFF90) && d.len() - p >= 12 && be_at(d, p + 2, 2) == 10 && be_at(d, p + 4, 2)
                    >= old(self).cp.tw * old(self).cp.th ==> r is Err
                &&& plain_tile_part(d, p, old(self).cp.tw * old(self).cp.th) ==> r == Ok::<Option<u32>, Error>(
                    Some(be_at(d, p + 4, 2) as u32),
                )
            }),
            final(self).cp == old(self).cp,
            final(self).image == old(self).image,
            final(self).default_tcp == old(self).default_tcp,
    {
        let ghost d = stream.data@;
        let ghost p = stream.position as int;
        let m = match read_two(stream) {
            Some(v) => v,
            None => {
                self.state = J2kState::Neoc;
                return Ok(None);
            },
        };
        let marker = Marker::from_u16(m);
        if marker == Marker::Eoc {
            self.state = J2kState::Eoc;
            return Ok(None);
        }
        if marker != Marker::Sot {
            return Err(invalid("expected SOT or EOC"));
        }
        let lsot = match read_two(stream) {
            Some(v) => v,
            None => {
                return Err(Error::EndOfStream);
            },
        };
        if lsot != 10 {
            return Err(invalid("SOT segment length must be 10"));
        }
        let sot_data = read_exact(stream, 8)?;
        let sot = read_sot(sot_data.as_slice())?;
        proof {
            assert(sot_data@.subrange(0, 2) =~= d.subrange(p + 4, p + 6));
            assert(sot_data@.subrange(2, 6) =~= d.subrange(p + 6, p + 10));
        }
        proof {
            lemma_tile_count_fits(self.cp.tw, self.cp.th);
        }
        let total = self.cp.tw as u64 * self.cp.th as u64;
        if sot.tile_no as u64 >= total {
            return Err(invalid("SOT tile index beyond the tile grid"));
        }
        self.current_tile_no = sot.tile_no;
        self.state = J2kState::Tph;
        let q0 = stream.position;
        let remaining: usize = if sot.psot == 0 {
            stream.bytes_left()
        } else if sot.psot >= 12 {
            (sot.psot - 12) as usize
        } else {
            0
        };
        let mut header_consumed: usize = 0;
        loop
            invariant_except_break
                stream.position == q0 + header_consumed,
                plain_tile_part(d, p, old(self).cp.tw * old(self).cp.th) ==> header_consumed == 0,
            invariant
                stream.wf(),
                stream.data == old(stream).data,
                d == old(stream).data@,
                stream.is_input == old(stream).is_input,
                q0 == p + 12,
                header_consumed <= stream.data@.len(),
                stream.position <= stream.data@.len(),
                self.cp == old(self).cp,
                self.image == old(self).image,
                self.default_tcp == old(self).default_tcp,
                self.tile_data == old(self).tile_data,
                self.current_tile_no == sot.tile_no,
                sot.tile_no == be_at(d, p + 4, 2),
                sot.psot == be_at(d, p + 6, 4),
                (sot.tile_no as int) < old(self).cp.tw * old(self).cp.th,
                marker_at(d, p, 0xFF90),
                p == old(stream).position,
                d.len() - p >= 12,
                be_at(d, p + 2, 2) == 10,
                remaining == (if sot.psot == 0 { d.len() - q0 } else if sot.psot >= 12 { sot.psot - 12 } else { 0 }),
            ensures
                stream.position == q0 + header_consumed,
                header_consumed <= remaining,
                header_consumed >= 2,
                marker_at(d, stream.position - 2, 0xFF93),
                self.state == J2kState::Data,
            decreases stream.data@.len() - stream.position,
        {
            if remaining < header_consumed || remaining - header_consumed < 2 {
                return Err(invalid("tile-part too short for SOD"));
            }
            let mb = match read_two(stream) {
                Some(v) => v,
                None => {
                    return Err(Error::EndOfStream);
                },
            };
            header_consumed += 2;
            if Marker::from_u16(mb) == Marker::Sod {
                self.state = J2kState::Data;
                break;
            }
            let ml = match read_two(stream) {
                Some(v) => v as usize,
                None => {
                    return Err(Error::EndOfStream);
                },
            };
            header_consumed += 2;
            if ml < 2 {
                return Err(invalid("invalid tile marker length"));
            }
            let skip = ml - 2;
            match stream.skip(skip as i64) {
                Ok(()) => {},
                Err(e) => {
                    return Err(e);
                },
            }
            header_consumed += skip;
        }
        let data_len = remaining - header_consumed;
        let left = stream.bytes_left();
        let n = if data_len < left { data_len } else { left };
        let tile_bytes = read_exact(stream, n)?;
        let tile_idx = sot.tile_no as usize;
        while self.tile_data.len() <= tile_idx
            invariant
                self.cp == old(self).cp,
                self.image == old(self).image,
                self.default_tcp == old(self).default_tcp,
                self.current_tile_no == sot.tile_no,
                old(self).tile_data@.len() <= self.tile_data@.len(),
                self.tile_data@.len() == old(self).tile_data@.len() || self.tile_data@.len() <= tile_idx + 1,
                forall|i: int| 0 <= i < old(self).tile_data@.len() ==> #[trigger] self.tile_data@[i] == old(self).tile_data@[i],
                forall|i: int| old(self).tile_data@.len() <= i < self.tile_data@.len() ==> #[trigger] self.tile_data@[i]@.len() == 0,
            decreases tile_idx + 1 - self.tile_data@.len(),
        {
            self.tile_data.push(Vec::new());
        }
        let ghost before = self.tile_data@;
        let mut cur = self.tile_data.remove(tile_idx);
        let ghost cur0 = cur@;
        let mut k: usize = 0;
        while k < tile_bytes.len()
            invariant
                k <= tile_bytes@.len(),
                cur@ == cur0 + tile_bytes@.take(k as int),
            decreases tile_bytes@.len() - k,
        {
            cur.push(tile_bytes[k]);
            k += 1;
        }
        self.tile_data.insert(tile_idx, cur);
        self.state = J2kState::TphSot;
        proof {
            assert(tile_bytes@.take(tile_bytes@.len() as int) =~= tile_bytes@);
            assert(self.tile_data@ =~= before.update(tile_idx as int, self.tile_data@[tile_idx as int]));
        }
        Ok(Some(sot.tile_no))
    }

    /// Reads tile-parts until the codestream ends.
    pub fn read_all_tiles(&mut self, stream: &mut MemoryStream) -> (r: Result<()>)
        requires
            old(stream).wf(),
        ensures
            final(stream).wf(),
            final(stream).data == old(stream).data,
            r is Ok ==> final(self).state == J2kState::Eoc || final(self).state == J2kState::Neoc,
            old(stream).data@.len() - old(stream).position < 2 || marker_at(
                old(stream).data@,
                old(stream).position as int,
                0xFFD9,
            ) ==> r is Ok,
            final(self).cp == old(self).cp,
            final(self).image == old(self).image,
    {
        loop
            invariant
                stream.wf(),
                stream.data == old(stream).data,
                self.cp == old(self).cp,
                self.image == old(self).image,
                old(stream).data@.len() - old(stream).position < 2 || marker_at(
                    old(stream).data@,
                    old(stream).position as int,
                    0xFFD9,
                ) ==> stream.position == old(stream).position,
            decreases stream.data@.len() - stream.position,
        {
            let ghost p = stream.position;
            match self.read_tile_part(stream)? {
                Some(_) => {
                    assert(stream.position > p);
                },
                None => {
                    return Ok(());
                },
            }
        }
    }

    /// Number of tiles of the grid.
    pub fn num_tiles(&self) -> (r: u32)
        requires
            self.cp.tw * self.cp.th <= u32::MAX,
        ensures
            r == self.cp.tw * self.cp.th,
    {
        self.cp.tw * self.cp.th
    }
}

} // verus!

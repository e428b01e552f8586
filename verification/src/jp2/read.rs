//! Reading of JP2 files: box headers, the header boxes, then the codestream.
use vstd::prelude::*;
use crate::error::{Error, Result, invalid};
use crate::io::cio::{MemoryStream, be_value, read_bytes_be};
use crate::j2k::markers::{be_at, be_at_exec};
use crate::j2k::read::{J2kDecoder, image_from_siz, marker_at, segment_payload};
use crate::jp2::{
    ColourMethod, JP2_BPCC, JP2_COLR, JP2_FTYP, JP2_IHDR, JP2_JP, JP2_JP2_BRAND, JP2_JP2C, JP2_JP2H, JP2_MAGIC,
    Jp2Box, Jp2Colour, Jp2CompInfo, Jp2State,
};
use crate::types::ColorSpace;

verus! {

/// Reads a box header from the stream: its length and type, a length of 0 standing for
/// "up to the end of the stream" and a length of 1 for an extended 8-byte length, which
/// must fit in 32 bits.
pub fn read_box_header(stream: &mut MemoryStream) -> (r: Result<Jp2Box>)
    requires
        old(stream).wf(),
    ensures
        final(stream).wf(),
        final(stream).data == old(stream).data,
        ({
            let d = old(stream).data@;
            let p = old(stream).position as int;
            let left = d.len() - p;
            let length = be_value(d.subrange(p, p + 4));
            let box_type = be_value(d.subrange(p + 4, p + 8));
            if left < 8 {
                r matches Err(Error::EndOfStream)
            } else if length == 0 {
                &&& left > u32::MAX ==> r is Err
                &&& left <= u32::MAX ==> (r matches Ok(b) && b.length == left && b.box_type == box_type
                    && b.header_len == 8)
                &&& final(stream).position == p + 8
            } else if length == 1 {
                if left < 16 {
                    r matches Err(Error::EndOfStream)
                } else if be_value(d.subrange(p + 8, p + 12)) != 0 {
                    r matches Err(Error::InvalidInput(_))
                } else {
                    &&& (r matches Ok(b) && b.length == be_value(d.subrange(p + 12, p + 16)) && b.box_type == box_type
                        && b.header_len == 16)
                    &&& final(stream).position == p + 16
                }
            } else {
                &&& (r matches Ok(b) && b.length == length && b.box_type == box_type && b.header_len == 8)
                &&& final(stream).position == p + 8
            }
        }),
{
    let ghost d = stream.data@;
    let ghost p = stream.position as int;
    let mut buf = [0u8; 8];
    let n = stream.read(&mut buf)?;
    if n < 8 {
        return Err(Error::EndOfStream);
    }
    assert(buf@.subrange(0, 4).take(4) =~= d.subrange(p, p + 4));
    assert(buf@.subrange(4, 8).take(4) =~= d.subrange(p + 4, p + 8));
    let length = read_bytes_be(slice_from(&buf, 0), 4);
    let box_type = read_bytes_be(slice_from(&buf, 4), 4);
    if length == 0 {
        let remaining = stream.bytes_left();
        if remaining > 0xffff_ffff - 8 {
            return Err(invalid("last box too long for a 32-bit length"));
        }
        return Ok(Jp2Box { length: (remaining + 8) as u32, box_type, header_len: 8 });
    }
    if length == 1 {
        let mut xlbuf = [0u8; 8];
        let m = stream.read(&mut xlbuf)?;
        if m < 8 {
            return Err(Error::EndOfStream);
        }
        assert(xlbuf@.subrange(0, 4).take(4) =~= d.subrange(p + 8, p + 12));
        assert(xlbuf@.subrange(4, 8).take(4) =~= d.subrange(p + 12, p + 16));
        let xl_high = read_bytes_be(slice_from(&xlbuf, 0), 4);
        if xl_high != 0 {
            return Err(invalid("box size exceeds 4GB, not supported"));
        }
        let xl_low = read_bytes_be(slice_from(&xlbuf, 4), 4);
        return Ok(Jp2Box { length: xl_low, box_type, header_len: 16 });
    }
    Ok(Jp2Box { length, box_type, header_len: 8 })
}

/// The four bytes of `buf` from `start` on.
fn slice_from(buf: &[u8; 8], start: usize) -> (r: &[u8])
    requires
        start <= 4,
    ensures
        r@ == buf@.subrange(start as int, start + 4),
{
    let s: &[u8] = buf.as_slice();
    vstd::slice::slice_subrange(s, start, start + 4)
}

/// The component information that a raw BPC or BPCC byte gives: precision from the low
/// 7 bits plus one, signedness from the high bit.
pub open spec fn comp_info_from(raw: u8) -> Jp2CompInfo {
    Jp2CompInfo { prec: (raw % 128 + 1) as u8, sgnd: raw >= 128 }
}

fn comp_info_of(raw: u8) -> (r: Jp2CompInfo)
    ensures
        r == comp_info_from(raw),
{
    Jp2CompInfo { prec: raw % 128 + 1, sgnd: raw >= 128 }
}

/// The colour space that an enumerated colour space code stands for.
pub open spec fn enumcs_colour_space(enumcs: u32) -> ColorSpace {
    if enumcs == 16 {
        ColorSpace::Srgb
    } else if enumcs == 17 {
        ColorSpace::Gray
    } else if enumcs == 18 {
        ColorSpace::Sycc
    } else if enumcs == 24 {
        ColorSpace::Eycc
    } else {
        ColorSpace::Unknown
    }
}

/// The enumerated colour spaces of a JP2 colour specification: code 16 is sRGB, 17
/// greyscale, 18 sYCC and 24 e-sYCC; every other code gives an unknown colour space.
pub proof fn lemma_enumcs_table()
    ensures
        enumcs_colour_space(16) == ColorSpace::Srgb,
        enumcs_colour_space(17) == ColorSpace::Gray,
        enumcs_colour_space(18) == ColorSpace::Sycc,
        enumcs_colour_space(24) == ColorSpace::Eycc,
        forall|e: u32| e != 16 && e != 17 && e != 18 && e != 24 ==> #[trigger] enumcs_colour_space(e) == ColorSpace::Unknown,
{
}

/// Whether `d` from `off` on is a sequence of whole sub-boxes, each with a length of at
/// least its 8-byte header.
pub open spec fn sub_boxes_ok(d: Seq<u8>, off: int) -> bool
    decreases d.len() - off,
{
    if off < 0 || off >= d.len() {
        off == d.len()
    } else if off + 8 > d.len() {
        false
    } else {
        let len = be_at(d, off, 4);
        8 <= len && off + len <= d.len() && sub_boxes_ok(d, off + len)
    }
}

/// Whether a sub-box of type `ty` starts at `q` in `d`, with a length that covers its
/// 8-byte header and stays within `d`.
pub open spec fn sub_box_at(d: Seq<u8>, q: int, ty: u32) -> bool {
    &&& 0 <= q && q + 8 <= d.len()
    &&& 8 <= be_at(d, q, 4) && q + be_at(d, q, 4) <= d.len()
    &&& be_at(d, q + 4, 4) == ty
}

/// The payload of the sub-box at `q` in `d`.
pub open spec fn sub_box_payload(d: Seq<u8>, q: int) -> Seq<u8> {
    d.subrange(q + 8, q + be_at(d, q, 4))
}

/// Whether the image header fields of `dec` are those of the image header payload `d`.
pub open spec fn ihdr_applied(dec: Jp2Decoder, d: Seq<u8>) -> bool {
    &&& d.len() == 14
    &&& dec.height == be_at(d, 0, 4) && dec.width == be_at(d, 4, 4)
    &&& dec.numcomps == be_at(d, 8, 2)
    &&& dec.bpc == d[10] && dec.compression_type == d[11]
}

/// Whether the colour specification `c` is the one the payload `d` gives: precedence and
/// approximation, then the enumerated colour space code or the ICC profile.
pub open spec fn colr_applied(c: Jp2Colour, d: Seq<u8>) -> bool {
    &&& d.len() >= 3
    &&& c.precedence == d[1] && c.approx == d[2]
    &&& d[0] == 1 || d[0] == 2
    &&& d[0] == 1 ==> d.len() >= 7 && c.meth == ColourMethod::Enumerated && c.enumcs == be_at(d, 3, 4)
    &&& d[0] == 2 ==> c.meth == ColourMethod::Icc && c.icc_profile@ == d.subrange(3, d.len() as int)
}

/// Whether a header box starts at `p` in `d` and its payload is `d[a..b]`, after a
/// header of 8 bytes or of 16 (extended length).
pub open spec fn jp2h_box_at(d: Seq<u8>, p: int, a: int, b: int) -> bool {
    &&& 0 <= p && p + 8 <= d.len()
    &&& be_value(d.subrange(p + 4, p + 8)) == JP2_JP2H
    &&& a == p + 8 || a == p + 16
    &&& a <= b <= d.len()
}

/// Whether a header box at `p` in `d`, with payload `d[a..b]`, holds at `q` an image
/// header sub-box whose fields are those of `dec`.
pub open spec fn header_ihdr_at(d: Seq<u8>, p: int, a: int, b: int, q: int, dec: Jp2Decoder) -> bool {
    &&& jp2h_box_at(d, p, a, b)
    &&& sub_box_at(d.subrange(a, b), q, JP2_IHDR)
    &&& ihdr_applied(dec, sub_box_payload(d.subrange(a, b), q))
}

/// Whether a header box at `p` in `d`, with payload `d[a..b]`, holds at `q` a colour
/// specification sub-box that gives `c`.
pub open spec fn header_colr_at(d: Seq<u8>, p: int, a: int, b: int, q: int, c: Jp2Colour) -> bool {
    &&& jp2h_box_at(d, p, a, b)
    &&& sub_box_at(d.subrange(a, b), q, JP2_COLR)
    &&& colr_applied(c, sub_box_payload(d.subrange(a, b), q))
}

/// Decoder of a JP2 file: the header boxes, then the codestream.
pub struct Jp2Decoder {
    /// Where the decoder stands among the boxes.
    pub state: Jp2State,
    /// Decoder of the embedded codestream.
    pub j2k: J2kDecoder,
    /// Image width (image header box).
    pub width: u32,
    /// Image height (image header box).
    pub height: u32,
    /// Number of components (image header box).
    pub numcomps: u32,
    /// Bits per component (image header box; 255 when the components differ).
    pub bpc: u8,
    /// Compression type (image header box; 7 for JPEG 2000).
    pub compression_type: u8,
    /// Colour specification.
    pub colour: Jp2Colour,
    /// Precision and signedness of each component.
    pub comp_info: Vec<Jp2CompInfo>,
    /// Whether an image header box was read.
    pub ihdr_found: bool,
    /// Whether a colour specification box was read.
    pub colr_found: bool,
}

impl Default for Jp2Decoder {
    fn default() -> (r: Self)
        ensures
            r.is_fresh(),
    {
        Self::new()
    }
}

impl Jp2Decoder {
    /// Whether the component information matches the image header once one was read.
    pub open spec fn wf(self) -> bool {
        self.ihdr_found ==> self.comp_info@.len() == self.numcomps
    }

    /// Whether the decoder is as made: nothing read, default colour.
    pub open spec fn is_fresh(self) -> bool {
        &&& self.state == Jp2State::Initial
        &&& self.j2k.is_fresh()
        &&& self.width == 0 && self.height == 0 && self.numcomps == 0
        &&& self.bpc == 0 && self.compression_type == 0
        &&& self.colour.meth == ColourMethod::Enumerated && self.colour.enumcs == 0
        &&& self.colour.precedence == 0 && self.colour.approx == 0
        &&& self.colour.icc_profile@.len() == 0
        &&& self.comp_info@.len() == 0
        &&& !self.ihdr_found && !self.colr_found
    }

    /// A decoder that has read nothing.
    pub fn new() -> (r: Self)
        ensures
            r.is_fresh(),
            r.wf(),
    {
        Jp2Decoder {
            state: Jp2State::Initial,
            j2k: J2kDecoder::new(),
            width: 0,
            height: 0,
            numcomps: 0,
            bpc: 0,
            compression_type: 0,
            colour: Jp2Colour::default(),
            comp_info: Vec::new(),
            ihdr_found: false,
            colr_found: false,
        }
    }

    /// Reads the signature box's payload: accepted only as the first box and when it is
    /// the 4-byte signature.
    pub fn read_jp(&mut self, data: &[u8]) -> (r: Result<()>)
        ensures
            r is Ok <==> old(self).state == Jp2State::Initial && data@.len() == 4 && be_value(data@) == JP2_MAGIC,
            r is Ok ==> final(self).state == Jp2State::Signature,
            r is Err ==> *final(self) == *old(self),
            final(self).state != old(self).state ==> r is Ok,
            *final(self) == (Jp2Decoder { state: final(self).state, ..*old(self) }),
    {
        if self.state != Jp2State::Initial {
            return Err(invalid("JP signature box must be first box"));
        }
        if data.len() != 4 {
            return Err(invalid("JP signature box payload must be 4 bytes"));
        }
        let magic = read_bytes_be(data, 4);
        assert(data@.take(4) =~= data@);
        if magic != JP2_MAGIC {
            return Err(invalid("bad JP2 magic number"));
        }
        self.state = Jp2State::Signature;
        Ok(())
    }

    /// Reads the file type box's payload: accepted only after the signature and when its
    /// 4-byte brand is "jp2 " and at least the minor version follows.
    pub fn read_ftyp(&mut self, data: &[u8]) -> (r: Result<()>)
        ensures
            r is Ok <==> old(self).state == Jp2State::Signature && data@.len() >= 8 && be_at(data@, 0, 4)
                == JP2_JP2_BRAND,
            r is Ok ==> final(self).state == Jp2State::FileType,
            r is Err ==> *final(self) == *old(self),
            *final(self) == (Jp2Decoder { state: final(self).state, ..*old(self) }),
    {
        if self.state != Jp2State::Signature {
            return Err(invalid("FTYP box must follow JP signature box"));
        }
        if data.len() < 8 {
            return Err(invalid("FTYP box too short"));
        }
        let brand = be_at_exec(data, 0, 4);
        if brand != JP2_JP2_BRAND {
            return Err(invalid("unsupported JP2 brand"));
        }
        self.state = Jp2State::FileType;
        Ok(())
    }

    /// Reads an image header payload of 14 bytes: height, width, number of components,
    /// bits per component and compression type, and sets the component information, the
    /// same for every component unless the bits per component are 255. A second image
    /// header is ignored. Refused, after storing the read fields, for a zero dimension or
    /// component count or more than 16384 components; refused, changing nothing, for
    /// another length.
    pub fn read_ihdr(&mut self, data: &[u8]) -> (r: Result<()>)
        requires
            old(self).wf(),
        ensures
            final(self).wf(),
            old(self).ihdr_found ==> r is Ok && *final(self) == *old(self),
            !old(self).ihdr_found ==> {
                let d = data@;
                &&& r is Ok <==> d.len() == 14 && be_at(d, 0, 4) != 0 && be_at(d, 4, 4) != 0 && 1 <= be_at(d, 8, 2)
                    <= 16384
                &&& d.len() != 14 ==> *final(self) == *old(self)
                &&& d.len() == 14 ==> {
                    &&& final(self).height == be_at(d, 0, 4) && final(self).width == be_at(d, 4, 4)
                    &&& final(self).numcomps == be_at(d, 8, 2)
                    &&& final(self).bpc == d[10] && final(self).compression_type == d[11]
                }
                &&& r is Ok ==> {
                    &&& final(self).ihdr_found
                    &&& final(self).comp_info@.len() == be_at(d, 8, 2)
                    &&& forall|i: int|
                        0 <= i < final(self).comp_info@.len() ==> #[trigger] final(self).comp_info@[i] == (if d[10]
                            == 255 {
                            Jp2CompInfo { prec: 0, sgnd: false }
                        } else {
                            comp_info_from(d[10])
                        })
                }
                &&& r is Err ==> final(self).comp_info == old(self).comp_info && !final(self).ihdr_found
            },
            final(self).state == old(self).state,
            final(self).j2k == old(self).j2k,
            final(self).colour == old(self).colour,
            final(self).colr_found == old(self).colr_found,
    {
        if self.ihdr_found {
            return Ok(());
        }
        if data.len() != 14 {
            return Err(invalid("IHDR box must be 14 bytes"));
        }
        self.height = be_at_exec(data, 0, 4);
        self.width = be_at_exec(data, 4, 4);
        self.numcomps = be_at_exec(data, 8, 2);
        self.bpc = data[10];
        self.compression_type = data[11];
        if self.height == 0 || self.width == 0 || self.numcomps == 0 {
            return Err(invalid("IHDR: invalid dimensions"));
        }
        if self.numcomps > 16384 {
            return Err(invalid("IHDR: too many components"));
        }
        let n = self.numcomps as usize;
        let info = if self.bpc != 255 { comp_info_of(self.bpc) } else { Jp2CompInfo::default() };
        let mut comp_info: Vec<Jp2CompInfo> = Vec::new();
        while comp_info.len() < n
            invariant
                comp_info@.len() <= n,
                forall|i: int| 0 <= i < comp_info@.len() ==> #[trigger] comp_info@[i] == info,
            decreases n - comp_info@.len(),
        {
            comp_info.push(Jp2CompInfo { prec: info.prec, sgnd: info.sgnd });
        }
        self.comp_info = comp_info;
        self.ihdr_found = true;
        Ok(())
    }

    /// Reads a colour specification payload: method, precedence and approximation, then
    /// for the enumerated method a 4-byte colour space code and for the ICC method the
    /// profile bytes that follow. A second colour specification is ignored. Refused for
    /// fewer than 3 bytes (changing nothing), for an enumerated method with fewer than 7
    /// bytes or another method than 1 or 2 (after storing precedence and approximation).
    pub fn read_colr(&mut self, data: &[u8]) -> (r: Result<()>)
        ensures
            old(self).colr_found ==> r is Ok && *final(self) == *old(self),
            !old(self).colr_found ==> {
                let d = data@;
                &&& r is Ok <==> d.len() >= 3 && (d[0] == 1 && d.len() >= 7 || d[0] == 2)
                &&& d.len() < 3 ==> *final(self) == *old(self)
                &&& d.len() >= 3 ==> final(self).colour.precedence == d[1] && final(self).colour.approx == d[2]
                &&& r is Ok && d[0] == 1 ==> final(self).colour.meth == ColourMethod::Enumerated
                    && final(self).colour.enumcs == be_at(d, 3, 4) && final(self).colour.icc_profile
                    == old(self).colour.icc_profile
                &&& r is Ok && d[0] == 2 ==> final(self).colour.meth == ColourMethod::Icc
                    && final(self).colour.icc_profile@ == d.subrange(3, d.len() as int) && final(self).colour.enumcs
                    == old(self).colour.enumcs
                &&& r is Ok ==> final(self).colr_found
                &&& r is Err ==> !final(self).colr_found && final(self).colour.meth == old(self).colour.meth
                    && final(self).colour.enumcs == old(self).colour.enumcs && final(self).colour.icc_profile
                    == old(self).colour.icc_profile
            },
            final(self).state == old(self).state,
            final(self).j2k == old(self).j2k,
            final(self).comp_info == old(self).comp_info,
            final(self).ihdr_found == old(self).ihdr_found,
            final(self).numcomps == old(self).numcomps,
            final(self).width == old(self).width && final(self).height == old(self).height,
            final(self).bpc == old(self).bpc && final(self).compression_type == old(self).compression_type,
    {
        if self.colr_found {
            return Ok(());
        }
        if data.len() < 3 {
            return Err(invalid("COLR box too short"));
        }
        let meth = data[0];
        self.colour.precedence = data[1];
        self.colour.approx = data[2];
        if meth == 1 {
            if data.len() < 7 {
                return Err(invalid("COLR box too short for enumerated colour space"));
            }
            self.colour.meth = ColourMethod::Enumerated;
            self.colour.enumcs = be_at_exec(data, 3, 4);
        } else if meth == 2 {
            self.colour.meth = ColourMethod::Icc;
            let mut profile: Vec<u8> = Vec::new();
            let mut i: usize = 3;
            while i < data.len()
                invariant
                    3 <= i <= data@.len(),
                    profile@ == data@.subrange(3, i as int),
                decreases data@.len() - i,
            {
                profile.push(data[i]);
                i += 1;
            }
            self.colour.icc_profile = profile;
        } else {
            return Err(invalid("COLR: unsupported method"));
        }
        self.colr_found = true;
        Ok(())
    }

    /// Reads a bits-per-component payload, one byte per component. Refused, changing
    /// nothing, before an image header or when its length is not the number of
    /// components.
    pub fn read_bpcc(&mut self, data: &[u8]) -> (r: Result<()>)
        requires
            old(self).wf(),
        ensures
            final(self).wf(),
            r is Ok <==> old(self).ihdr_found && data@.len() == old(self).numcomps,
            r is Err ==> *final(self) == *old(self),
            r is Ok ==> final(self).comp_info@ == Seq::new(data@.len(), |i: int| comp_info_from(data@[i])),
            *final(self) == (Jp2Decoder { comp_info: final(self).comp_info, ..*old(self) }),
    {
        if !self.ihdr_found {
            return Err(invalid("BPCC box found before IHDR"));
        }
        if data.len() != self.numcomps as usize {
            return Err(invalid("BPCC: wrong number of components"));
        }
        let mut i: usize = 0;
        while i < data.len()
            invariant
                i <= data@.len(),
                self.comp_info@.len() == data@.len(),
                forall|k: int| 0 <= k < i ==> #[trigger] self.comp_info@[k] == comp_info_from(data@[k]),
                self.state == old(self).state,
                self.j2k == old(self).j2k,
                self.width == old(self).width && self.height == old(self).height,
                self.numcomps == old(self).numcomps && self.bpc == old(self).bpc,
                self.compression_type == old(self).compression_type,
                self.colour == old(self).colour,
                self.ihdr_found == old(self).ihdr_found && self.colr_found == old(self).colr_found,
            decreases data@.len() - i,
        {
            self.comp_info.set(i, comp_info_of(data[i]));
            i += 1;
        }
        assert(self.comp_info@ =~= Seq::new(data@.len(), |i: int| comp_info_from(data@[i])));
        Ok(())
    }

    /// Reads the payload of the header super-box: a sequence of sub-boxes, the image
    /// header, colour specification and bits-per-component boxes read, others skipped.
    /// Accepted only after the file type box; refused when the sub-boxes do not tile the
    /// payload, when a sub-box is refused, or when there is no image header. The image
    /// header fields and the colour specification are those of their sub-boxes.
    pub fn read_jp2h(&mut self, data: &[u8]) -> (r: Result<()>)
        requires
            old(self).wf(),
        ensures
            final(self).wf(),
            old(self).state != Jp2State::FileType ==> r is Err && *final(self) == *old(self),
            r is Ok ==> old(self).state == Jp2State::FileType && final(self).state == Jp2State::Header
                && final(self).ihdr_found && sub_boxes_ok(data@, 0),
            old(self).state == Jp2State::FileType && !sub_boxes_ok(data@, 0) ==> r is Err,
            final(self).j2k == old(self).j2k,
            r is Ok && !old(self).ihdr_found ==> exists|q: int|
                sub_box_at(data@, q, JP2_IHDR) && ihdr_applied(*final(self), #[trigger] sub_box_payload(data@, q)),
            r is Ok && final(self).colr_found && !old(self).colr_found ==> exists|q: int|
                sub_box_at(data@, q, JP2_COLR) && colr_applied(final(self).colour, #[trigger] sub_box_payload(data@, q)),
    {
        if self.state != Jp2State::FileType {
            return Err(invalid("JP2H box must follow FTYP box"));
        }
        let mut offset: usize = 0;
        let mut has_ihdr = false;
        let len = data.len();
        let ghost mut iq: int = 0;
        let ghost mut cq: int = 0;
        let ghost mut colr_here: bool = false;
        while offset < len
            invariant
                !old(self).ihdr_found && self.ihdr_found ==> sub_box_at(data@, iq, JP2_IHDR) && ihdr_applied(
                    *self,
                    sub_box_payload(data@, iq),
                ),
                !old(self).colr_found && self.colr_found ==> colr_here,
                colr_here ==> sub_box_at(data@, cq, JP2_COLR) && colr_applied(self.colour, sub_box_payload(data@, cq)),
                len == data@.len(),
                offset <= len,
                self.wf(),
                self.state == Jp2State::FileType,
                old(self).state == Jp2State::FileType,
                self.j2k == old(self).j2k,
                has_ihdr ==> self.ihdr_found,
                sub_boxes_ok(data@, 0) <==> sub_boxes_ok(data@, offset as int),
            decreases len - offset,
        {
            if len - offset < 8 {
                return Err(invalid("JP2H: truncated sub-box header"));
            }
            let sub_len = be_at_exec(data, offset, 4);
            let sub_type = be_at_exec(data, offset + 4, 4);
            if sub_len < 8 || sub_len as usize > len - offset {
                return Err(invalid("JP2H: invalid sub-box length"));
            }
            let sub_payload = vstd::slice::slice_subrange(data, offset + 8, offset + sub_len as usize);
            proof {
                assert(sub_payload@ =~= sub_box_payload(data@, offset as int));
            }
            if sub_type == JP2_IHDR {
                let ghost had = self.ihdr_found;
                self.read_ihdr(sub_payload)?;
                proof {
                    if !had {
                        iq = offset as int;
                    }
                }
                has_ihdr = true;
            } else if sub_type == JP2_COLR {
                let ghost had = self.colr_found;
                self.read_colr(sub_payload)?;
                proof {
                    if !had {
                        cq = offset as int;
                        colr_here = true;
                    }
                }
            } else if sub_type == JP2_BPCC {
                self.read_bpcc(sub_payload)?;
            }
            offset += sub_len as usize;
        }
        if !has_ihdr {
            return Err(invalid("JP2H: missing IHDR box"));
        }
        self.state = Jp2State::Header;
        proof {
            if !old(self).ihdr_found {
                assert(sub_box_at(data@, iq, JP2_IHDR) && ihdr_applied(*self, sub_box_payload(data@, iq)));
            }
            if colr_here {
                assert(sub_box_at(data@, cq, JP2_COLR) && colr_applied(self.colour, sub_box_payload(data@, cq)));
            }
        }
        Ok(())
    }

    /// Reads the boxes up to the codestream box, whose payload the stream is left at:
    /// signature, file type and header boxes read, others skipped. Refused when a box
    /// header or payload is cut short, a box is refused, or the codestream box comes before
    /// the header box. The image header fields and the colour specification are those of
    /// the sub-boxes of the header box (`header_ihdr_at`, `header_colr_at`).
    pub fn read_header(&mut self, stream: &mut MemoryStream) -> (r: Result<()>)
        requires
            old(self).wf(),
            old(stream).wf(),
        ensures
            final(self).wf(),
            final(stream).wf(),
            final(stream).data == old(stream).data,
            r is Ok ==> final(self).state == Jp2State::Codestream,
            old(stream).data@.len() - old(stream).position < 8 ==> r is Err,
            final(self).j2k == old(self).j2k,
            ({
                let d = old(stream).data@;
                let p = old(stream).position as int;
                let length = be_value(d.subrange(p, p + 4));
                old(self).state == Jp2State::Header && d.len() - p >= 8 && length != 0 && length != 1
                    && be_value(d.subrange(p + 4, p + 8)) == JP2_JP2C ==> r is Ok && final(stream).position == p + 8
            }),
            r is Ok && old(self).state != Jp2State::Header ==> final(self).ihdr_found,
            r is Ok && final(self).ihdr_found && !old(self).ihdr_found ==> exists|p: int, a: int, b: int, q: int|
                old(stream).position <= p && #[trigger] header_ihdr_at(old(stream).data@, p, a, b, q, *final(self)),
            r is Ok && final(self).colr_found && !old(self).colr_found ==> exists|p: int, a: int, b: int, q: int|
                old(stream).position <= p && #[trigger] header_colr_at(
                    old(stream).data@,
                    p,
                    a,
                    b,
                    q,
                    final(self).colour,
                ),
    {
        let ghost d = old(stream).data@;
        let ghost p0 = old(stream).position as int;
        let ghost mut ip: int = 0;
        let ghost mut ia: int = 0;
        let ghost mut ib: int = 0;
        let ghost mut iq: int = 0;
        let ghost mut cp: int = 0;
        let ghost mut ca: int = 0;
        let ghost mut cb: int = 0;
        let ghost mut cq: int = 0;
        loop
            invariant
                d == old(stream).data@,
                p0 == old(stream).position,
                p0 <= stream.position,
                self.state == Jp2State::Header ==> old(self).state == Jp2State::Header || self.ihdr_found,
                self.ihdr_found && !old(self).ihdr_found ==> self.state == Jp2State::Header,
                self.colr_found && !old(self).colr_found ==> self.state == Jp2State::Header,
                self.ihdr_found && !old(self).ihdr_found ==> p0 <= ip && header_ihdr_at(d, ip, ia, ib, iq, *self),
                self.colr_found && !old(self).colr_found ==> p0 <= cp && header_colr_at(d, cp, ca, cb, cq, self.colour),
                self.wf(),
                stream.wf(),
                stream.data == old(stream).data,
                self.j2k == old(self).j2k,
                old(stream).data@.len() - old(stream).position < 8 ==> stream.position == old(stream).position,
                ({
                    let d = old(stream).data@;
                    let p = old(stream).position as int;
                    let length = be_value(d.subrange(p, p + 4));
                    old(self).state == Jp2State::Header && d.len() - p >= 8 && length != 0 && length != 1
                        && be_value(d.subrange(p + 4, p + 8)) == JP2_JP2C
                }) ==> stream.position == old(stream).position && self.state == old(self).state,
            decreases stream.data@.len() - stream.position,
        {
            let ghost p = stream.position;
            let box_hdr = read_box_header(stream)?;
            if box_hdr.box_type == JP2_JP2C {
                if self.state != Jp2State::Header {
                    return Err(invalid("JP2C box found before JP2 header"));
                }
                self.state = Jp2State::Codestream;
                proof {
                    if self.ihdr_found && !old(self).ihdr_found {
                        assert(header_ihdr_at(d, ip, ia, ib, iq, *self));
                    }
                    if self.colr_found && !old(self).colr_found {
                        assert(header_colr_at(d, cp, ca, cb, cq, self.colour));
                    }
                }
                return Ok(());
            }
            let payload_len: usize = if box_hdr.length > box_hdr.header_len {
                (box_hdr.length - box_hdr.header_len) as usize
            } else {
                0
            };
            if payload_len > stream.bytes_left() {
                return Err(invalid("box payload exceeds available data"));
            }
            let ghost a = stream.position as int;
            let payload = read_payload(stream, payload_len);
            if box_hdr.box_type == JP2_JP {
                self.read_jp(payload.as_slice())?;
            } else if box_hdr.box_type == JP2_FTYP {
                self.read_ftyp(payload.as_slice())?;
            } else if box_hdr.box_type == JP2_JP2H {
                let ghost had_ihdr = self.ihdr_found;
                let ghost had_colr = self.colr_found;
                self.read_jp2h(payload.as_slice())?;
                proof {
                    let b = a + payload_len;
                    assert(payload@ =~= d.subrange(a, b));
                    if !had_ihdr {
                        let q = choose|q: int|
                            sub_box_at(payload@, q, JP2_IHDR) && ihdr_applied(*self, #[trigger] sub_box_payload(payload@, q));
                        ip = p as int;
                        ia = a;
                        ib = b;
                        iq = q;
                    }
                    if !had_colr && self.colr_found {
                        let q = choose|q: int|
                            sub_box_at(payload@, q, JP2_COLR) && colr_applied(self.colour, #[trigger] sub_box_payload(payload@, q));
                        cp = p as int;
                        ca = a;
                        cb = b;
                        cq = q;
                    }
                }
            }
            assert(stream.position > p);
        }
    }

    /// Reads the codestream after the header boxes: its main header, then, with the
    /// colour information applied to the image, its tile-parts. Refused before the header
    /// boxes were read.
    pub fn read_codestream(&mut self, stream: &mut MemoryStream) -> (r: Result<()>)
        requires
            old(stream).wf(),
        ensures
            final(stream).wf(),
            final(stream).data == old(stream).data,
            old(self).state != Jp2State::Codestream ==> r is Err && *final(self) == *old(self),
            old(self).state == Jp2State::Codestream && old(stream).data@.len() == old(stream).position + 4
                && marker_at(old(stream).data@, old(stream).position as int, 0xFF4F) && marker_at(
                old(stream).data@,
                old(stream).position + 2,
                0xFFD9,
            ) ==> r is Ok,
            r is Ok && old(self).j2k.is_fresh() ==> final(self).j2k.image.comps@.len() == 0 || exists|q: int|
                marker_at(old(stream).data@, q, 0xFF51) && image_from_siz(
                    final(self).j2k.image,
                    #[trigger] segment_payload(old(stream).data@, q),
                ),
    {
        if self.state != Jp2State::Codestream {
            return Err(invalid("read_header must come before read_codestream"));
        }
        self.j2k.read_header(stream)?;
        self.apply_colour();
        self.j2k.read_all_tiles(stream)?;
        Ok(())
    }

    /// Sets the image's colour space from the colour specification: the enumerated code's
    /// colour space, or unknown with the ICC profile copied to the image.
    pub fn apply_colour(&mut self)
        ensures
            old(self).colour.meth == ColourMethod::Enumerated ==> final(self).j2k.image.color_space == enumcs_colour_space(
                old(self).colour.enumcs,
            ) && final(self).j2k.image.icc_profile == old(self).j2k.image.icc_profile,
            old(self).colour.meth == ColourMethod::Enumerated ==> {
                let e = old(self).colour.enumcs;
                &&& e == 16 ==> final(self).j2k.image.color_space == ColorSpace::Srgb
                &&& e == 17 ==> final(self).j2k.image.color_space == ColorSpace::Gray
                &&& e == 18 ==> final(self).j2k.image.color_space == ColorSpace::Sycc
                &&& e == 24 ==> final(self).j2k.image.color_space == ColorSpace::Eycc
                &&& e != 16 && e != 17 && e != 18 && e != 24 ==> final(self).j2k.image.color_space == ColorSpace::Unknown
            },
            old(self).colour.meth == ColourMethod::Icc ==> final(self).j2k.image.color_space == ColorSpace::Unknown
                && final(self).j2k.image.icc_profile@ == old(self).colour.icc_profile@,
            final(self).colour == old(self).colour,
            final(self).state == old(self).state,
            final(self).j2k.image.comps == old(self).j2k.image.comps,
            final(self).j2k.image.x0 == old(self).j2k.image.x0 && final(self).j2k.image.y0 == old(self).j2k.image.y0,
            final(self).j2k.image.x1 == old(self).j2k.image.x1 && final(self).j2k.image.y1 == old(self).j2k.image.y1,
            final(self).j2k.state == old(self).j2k.state,
    {
        let cs = match self.colour.meth {
            ColourMethod::Enumerated => {
                let e = self.colour.enumcs;
                if e == 16 {
                    ColorSpace::Srgb
                } else if e == 17 {
                    ColorSpace::Gray
                } else if e == 18 {
                    ColorSpace::Sycc
                } else if e == 24 {
                    ColorSpace::Eycc
                } else {
                    ColorSpace::Unknown
                }
            },
            ColourMethod::Icc => {
                let mut profile: Vec<u8> = Vec::new();
                let mut i: usize = 0;
                while i < self.colour.icc_profile.len()
                    invariant
                        i <= self.colour.icc_profile@.len(),
                        profile@ == self.colour.icc_profile@.take(i as int),
                    decreases self.colour.icc_profile@.len() - i,
                {
                    profile.push(self.colour.icc_profile[i]);
                    i += 1;
                }
                assert(profile@ =~= self.colour.icc_profile@);
                self.j2k.image.icc_profile = profile;
                ColorSpace::Unknown
            },
        };
        self.j2k.image.color_space = cs;
    }
}

/// The next `n` bytes of the stream, which holds at least that many.
fn read_payload(stream: &mut MemoryStream, n: usize) -> (r: Vec<u8>)
    requires
        old(stream).wf(),
        n <= old(stream).data@.len() - old(stream).position,
    ensures
        final(stream).wf(),
        final(stream).data == old(stream).data,
        final(stream).position == old(stream).position + n,
        r@ == old(stream).data@.subrange(old(stream).position as int, old(stream).position + n),
{
    let mut payload: Vec<u8> = Vec::new();
    let _len = stream.data.len();
    let mut i: usize = 0;
    while i < n
        invariant
            stream.data@.len() <= usize::MAX,
            stream.wf(),
            stream.data == old(stream).data,
            n <= old(stream).data@.len() - old(stream).position,
            i <= n,
            stream.position == old(stream).position + i,
            payload@ == old(stream).data@.subrange(old(stream).position as int, old(stream).position + i),
        decreases n - i,
    {
        payload.push(stream.data[stream.position]);
        stream.position = stream.position + 1;
        i += 1;
    }
    payload
}

} // verus!

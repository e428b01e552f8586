//! Writing of JP2 files: the signature, file type and header boxes, and the box that
//! wraps a codestream.
use vstd::prelude::*;
use crate::error::{Error, Result, invalid};
use crate::image::{Image, ImageComp};
use crate::jp2::{
    CdefEntry, ColourMethod, JP2_BPCC, JP2_CDEF, JP2_COLR, JP2_FTYP, JP2_IHDR, JP2_JP, JP2_JP2C, JP2_JP2H,
    JP2_JP2_BRAND, JP2_MAGIC, Jp2Colour,
};

verus! {

/// Big-endian bytes of a 16-bit value.
pub open spec fn be16(v: u16) -> Seq<u8> {
    seq![(v / 256) as u8, (v % 256) as u8]
}

/// Big-endian bytes of a 32-bit value.
pub open spec fn be32(v: u32) -> Seq<u8> {
    seq![(v / 0x100_0000) as u8, ((v / 0x1_0000) % 256) as u8, ((v / 256) % 256) as u8, (v % 256) as u8]
}

/// Raw bits-per-component byte: bit 7 the signedness, bits 0 to 6 the precision minus one.
pub open spec fn bpc_byte(prec: u32, sgnd: bool) -> u8 {
    ((if prec == 0 { 0 } else { prec - 1 }) % 128 + (if sgnd { 128int } else { 0int })) as u8
}

/// The image header's bits per component: that of the first component when every
/// component has it, 255 otherwise.
pub open spec fn ihdr_bpc(comps: Seq<ImageComp>) -> u8 {
    if forall|i: int| 0 <= i < comps.len() ==> #[trigger] bpc_byte(comps[i].prec, comps[i].sgnd) == bpc_byte(
        comps[0].prec,
        comps[0].sgnd,
    ) {
        bpc_byte(comps[0].prec, comps[0].sgnd)
    } else {
        255
    }
}

/// The signature box.
pub open spec fn jp_box() -> Seq<u8> {
    be32(12) + be32(JP2_JP) + be32(JP2_MAGIC)
}

/// The file type box: brand "jp2 ", version 0, compatible with "jp2 ".
pub open spec fn ftyp_box() -> Seq<u8> {
    be32(20) + be32(JP2_FTYP) + be32(JP2_JP2_BRAND) + be32(0) + be32(JP2_JP2_BRAND)
}

/// The image header box.
pub open spec fn ihdr_box(image: Image) -> Seq<u8> {
    be32(22) + be32(JP2_IHDR) + be32((image.y1 - image.y0) as u32) + be32((image.x1 - image.x0) as u32) + be16(
        image.comps@.len() as u16,
    ) + seq![ihdr_bpc(image.comps@), 7u8, 0u8, 0u8]
}

/// The bits-per-component box, present when the components differ.
pub open spec fn bpcc_box(image: Image) -> Seq<u8> {
    if ihdr_bpc(image.comps@) == 255 {
        be32((8 + image.comps@.len()) as u32) + be32(JP2_BPCC) + Seq::new(
            image.comps@.len(),
            |i: int| bpc_byte(image.comps@[i].prec, image.comps@[i].sgnd),
        )
    } else {
        Seq::empty()
    }
}

/// The colour specification box.
pub open spec fn colr_box(colour: Jp2Colour) -> Seq<u8> {
    match colour.meth {
        ColourMethod::Enumerated => be32(15) + be32(JP2_COLR) + seq![1u8, colour.precedence, colour.approx] + be32(
            colour.enumcs,
        ),
        ColourMethod::Icc => be32((11 + colour.icc_profile@.len()) as u32) + be32(JP2_COLR) + seq![
            2u8,
            colour.precedence,
            colour.approx,
        ] + colour.icc_profile@,
    }
}

/// The channel definitions, six bytes each.
pub open spec fn cdef_entries(s: Seq<CdefEntry>) -> Seq<u8>
    decreases s.len(),
{
    if s.len() == 0 {
        Seq::empty()
    } else {
        cdef_entries(s.drop_last()) + be16(s.last().cn) + be16(s.last().typ) + be16(s.last().asoc)
    }
}

/// The channel definition box, when definitions are given.
pub open spec fn cdef_box(cdef: Option<Seq<CdefEntry>>) -> Seq<u8> {
    match cdef {
        Some(s) => be32((10 + 6 * s.len()) as u32) + be32(JP2_CDEF) + be16(s.len() as u16) + cdef_entries(s),
        None => Seq::empty(),
    }
}

/// The boxes inside the header box.
pub open spec fn jp2h_content(image: Image, colour: Jp2Colour, cdef: Option<Seq<CdefEntry>>) -> Seq<u8> {
    ihdr_box(image) + bpcc_box(image) + colr_box(colour) + cdef_box(cdef)
}

/// All header boxes of a JP2 file.
pub open spec fn header_bytes(image: Image, colour: Jp2Colour, cdef: Option<Seq<CdefEntry>>) -> Seq<u8> {
    jp_box() + ftyp_box() + be32((8 + jp2h_content(image, colour, cdef).len()) as u32) + be32(JP2_JP2H)
        + jp2h_content(image, colour, cdef)
}

/// The inputs the header boxes can describe: at least one and at most 65535 components, an
/// area that is not inverted, and box lengths within 32 bits.
pub open spec fn header_ok(image: Image, colour: Jp2Colour, cdef: Option<Seq<CdefEntry>>) -> bool {
    &&& 1 <= image.comps@.len() <= 0xffff
    &&& image.x0 <= image.x1
    &&& image.y0 <= image.y1
    &&& colour.meth == ColourMethod::Icc ==> 11 + colour.icc_profile@.len() <= u32::MAX
    &&& cdef matches Some(s) ==> s.len() <= 0xffff
    &&& 8 + jp2h_content(image, colour, cdef).len() <= u32::MAX
}

/// The bits-per-component byte of a precision and signedness.
pub fn encode_bpc(prec: u32, sgnd: bool) -> (r: u8)
    ensures
        r == bpc_byte(prec, sgnd),
{
    let p = if prec == 0 { 0 } else { prec - 1 };
    let val = (p % 128) as u8;
    if sgnd {
        val + 128
    } else {
        val
    }
}

pub(crate) fn push_be16(out: &mut Vec<u8>, v: u16)
    ensures
        final(out)@ == old(out)@ + be16(v),
{
    out.push((v / 256) as u8);
    out.push((v % 256) as u8);
    assert(final(out)@ =~= old(out)@ + be16(v));
}

pub(crate) fn push_be32(out: &mut Vec<u8>, v: u32)
    ensures
        final(out)@ == old(out)@ + be32(v),
{
    out.push((v / 0x100_0000) as u8);
    out.push(((v / 0x1_0000) % 256) as u8);
    out.push(((v / 256) % 256) as u8);
    out.push((v % 256) as u8);
    assert(final(out)@ =~= old(out)@ + be32(v));
}

pub(crate) fn push_bytes(out: &mut Vec<u8>, bytes: &[u8])
    ensures
        final(out)@ == old(out)@ + bytes@,
{
    let ghost o0 = out@;
    let mut i: usize = 0;
    while i < bytes.len()
        invariant
            i <= bytes@.len(),
            out@ == o0 + bytes@.take(i as int),
        decreases bytes@.len() - i,
    {
        out.push(bytes[i]);
        i += 1;
        assert(out@ =~= o0 + bytes@.take(i as int));
    }
    assert(bytes@.take(bytes@.len() as int) =~= bytes@);
}

/// The image header box and, when the components differ, the bits-per-component box.
fn image_boxes(image: &Image) -> (r: Vec<u8>)
    requires
        1 <= image.comps@.len() <= 0xffff,
        image.x0 <= image.x1,
        image.y0 <= image.y1,
    ensures
        r@ == ihdr_box(*image) + bpcc_box(*image),
{
    let nc = image.comps.len();
    let mut content: Vec<u8> = Vec::new();
    push_be32(&mut content, 22);
    push_be32(&mut content, JP2_IHDR);
    push_be32(&mut content, image.y1 - image.y0);
    push_be32(&mut content, image.x1 - image.x0);
    push_be16(&mut content, nc as u16);
    let bpc0 = encode_bpc(image.comps[0].prec, image.comps[0].sgnd);
    let mut same = true;
    let mut i: usize = 0;
    while i < nc
        invariant
            nc == image.comps@.len(),
            i <= nc,
            bpc0 == bpc_byte(image.comps@[0].prec, image.comps@[0].sgnd),
            same <==> forall|k: int| 0 <= k < i ==> #[trigger] bpc_byte(image.comps@[k].prec, image.comps@[k].sgnd) == bpc0,
        decreases nc - i,
    {
        let b = encode_bpc(image.comps[i].prec, image.comps[i].sgnd);
        proof {
            assert(b == bpc_byte(image.comps@[i as int].prec, image.comps@[i as int].sgnd));
        }
        if b != bpc0 {
            same = false;
        }
        i += 1;
    }
    let bpc: u8 = if same { bpc0 } else { 255 };
    assert(bpc == ihdr_bpc(image.comps@));
    content.push(bpc);
    content.push(7);
    content.push(0);
    content.push(0);
    assert(content@ =~= ihdr_box(*image));
    if bpc == 255 {
        push_be32(&mut content, (8 + nc) as u32);
        push_be32(&mut content, JP2_BPCC);
        let ghost c1 = content@;
        let mut i: usize = 0;
        while i < nc
            invariant
                nc == image.comps@.len(),
                i <= nc,
                content@ == c1 + Seq::new(i as nat, |k: int| bpc_byte(image.comps@[k].prec, image.comps@[k].sgnd)),
            decreases nc - i,
        {
            let b = encode_bpc(image.comps[i].prec, image.comps[i].sgnd);
            content.push(b);
            i += 1;
            assert(content@ =~= c1 + Seq::new(i as nat, |k: int| bpc_byte(image.comps@[k].prec, image.comps@[k].sgnd)));
        }
    }
    assert(content@ =~= ihdr_box(*image) + bpcc_box(*image));
    content
}

/// The colour specification box; refused when an ICC profile is too long for it.
fn colr_bytes(colour: &Jp2Colour) -> (r: Result<Vec<u8>>)
    ensures
        r is Ok <==> (colour.meth == ColourMethod::Icc ==> 11 + colour.icc_profile@.len() <= u32::MAX),
        r matches Ok(v) ==> v@ == colr_box(*colour),
{
    let mut content: Vec<u8> = Vec::new();
    match colour.meth {
        ColourMethod::Enumerated => {
            push_be32(&mut content, 15);
            push_be32(&mut content, JP2_COLR);
            content.push(1);
            content.push(colour.precedence);
            content.push(colour.approx);
            push_be32(&mut content, colour.enumcs);
        },
        ColourMethod::Icc => {
            let n = colour.icc_profile.len();
            if n > 0xffff_ffff - 11 {
                return Err(invalid("ICC profile too large for a colour box"));
            }
            push_be32(&mut content, (11 + n) as u32);
            push_be32(&mut content, JP2_COLR);
            content.push(2);
            content.push(colour.precedence);
            content.push(colour.approx);
            push_bytes(&mut content, colour.icc_profile.as_slice());
        },
    }
    assert(content@ =~= colr_box(*colour));
    Ok(content)
}

/// The channel definition box; refused with more than 65535 definitions.
fn cdef_bytes(entries: &[CdefEntry]) -> (r: Result<Vec<u8>>)
    ensures
        r is Ok <==> entries@.len() <= 0xffff,
        r matches Ok(v) ==> v@ == cdef_box(Some(entries@)),
{
    let n = entries.len();
    if n > 0xffff {
        return Err(invalid("too many channel definitions"));
    }
    let mut content: Vec<u8> = Vec::new();
    push_be32(&mut content, (10 + 6 * n) as u32);
    push_be32(&mut content, JP2_CDEF);
    push_be16(&mut content, n as u16);
    let ghost c4 = content@;
    let mut i: usize = 0;
    while i < n
        invariant
            n == entries@.len(),
            i <= n,
            content@ == c4 + cdef_entries(entries@.take(i as int)),
        decreases n - i,
    {
        push_be16(&mut content, entries[i].cn);
        push_be16(&mut content, entries[i].typ);
        push_be16(&mut content, entries[i].asoc);
        proof {
            assert(entries@.take(i + 1).drop_last() =~= entries@.take(i as int));
        }
        i += 1;
    }
    assert(entries@.take(n as int) =~= entries@);
    Ok(content)
}

/// Writer of a JP2 file.
pub struct Jp2Encoder {
    /// The bytes written so far.
    pub output: Vec<u8>,
}

impl Default for Jp2Encoder {
    fn default() -> (r: Self)
        ensures
            r.output@.len() == 0,
    {
        Jp2Encoder { output: Vec::new() }
    }
}

impl Jp2Encoder {
    /// A writer with nothing written.
    pub fn new() -> (r: Self)
        ensures
            r.output@.len() == 0,
    {
        Jp2Encoder { output: Vec::new() }
    }

    /// Writes the header boxes: signature, file type, and the header box holding the
    /// image header, the bits per component when the components differ, the colour
    /// specification and, when given, the channel definitions. Refuses, writing nothing,
    /// the inputs that `header_ok` leaves out.
    #[verifier::spinoff_prover]
    #[verifier::rlimit(40)]
    pub fn write_header(&mut self, image: &Image, colour: &Jp2Colour, cdef: Option<&[CdefEntry]>) -> (r: Result<()>)
        ensures
            ({
                let cd = match cdef {
                    Some(c) => Some(c@),
                    None => None,
                };
                &&& r is Ok <==> header_ok(*image, *colour, cd)
                &&& r is Ok ==> final(self).output@ == old(self).output@ + header_bytes(*image, *colour, cd)
                &&& r is Err ==> final(self).output@ == old(self).output@
            }),
    {
        let ghost cd = match cdef {
            Some(c) => Some(c@),
            None => None,
        };
        let nc = image.comps.len();
        if nc == 0 || nc > 0xffff {
            return Err(invalid("image needs between 1 and 65535 components"));
        }
        if image.x1 < image.x0 || image.y1 < image.y0 {
            return Err(invalid("image area is inverted"));
        }
        let mut content = image_boxes(image);
        let colr = colr_bytes(colour)?;
        push_bytes(&mut content, colr.as_slice());
        match cdef {
            Some(entries) => {
                let c = cdef_bytes(entries)?;
                push_bytes(&mut content, c.as_slice());
            },
            None => {},
        }
        assert(content@ =~= jp2h_content(*image, *colour, cd));
        let total = content.len();
        if total > 0xffff_ffff - 8 {
            return Err(invalid("header box too large"));
        }
        let ghost o0 = self.output@;
        push_be32(&mut self.output, 12);
        push_be32(&mut self.output, JP2_JP);
        push_be32(&mut self.output, JP2_MAGIC);
        push_be32(&mut self.output, 20);
        push_be32(&mut self.output, JP2_FTYP);
        push_be32(&mut self.output, JP2_JP2_BRAND);
        push_be32(&mut self.output, 0);
        push_be32(&mut self.output, JP2_JP2_BRAND);
        push_be32(&mut self.output, (8 + total) as u32);
        push_be32(&mut self.output, JP2_JP2H);
        push_bytes(&mut self.output, content.as_slice());
        assert(self.output@ =~= o0 + header_bytes(*image, *colour, cd));
        Ok(())
    }

    /// Writes the box wrapping the codestream `j2k_data`; refused, writing nothing, when
    /// its length does not fit the box's 32-bit length.
    pub fn write_codestream(&mut self, j2k_data: &[u8]) -> (r: Result<()>)
        ensures
            r is Ok <==> 8 + j2k_data@.len() <= u32::MAX,
            r is Ok ==> final(self).output@ == old(self).output@ + be32((8 + j2k_data@.len()) as u32) + be32(
                JP2_JP2C,
            ) + j2k_data@,
            r is Err ==> final(self).output@ == old(self).output@,
    {
        let n = j2k_data.len();
        if n > 0xffff_ffff - 8 {
            return Err(invalid("codestream too large for a box"));
        }
        let ghost o0 = self.output@;
        push_be32(&mut self.output, (8 + n) as u32);
        push_be32(&mut self.output, JP2_JP2C);
        push_bytes(&mut self.output, j2k_data);
        assert(self.output@ =~= o0 + be32((8 + j2k_data@.len()) as u32) + be32(JP2_JP2C) + j2k_data@);
        Ok(())
    }

    /// The bytes written.
    pub fn finalize(self) -> (r: Vec<u8>)
        ensures
            r@ == self.output@,
    {
        self.output
    }
}

} // verus!

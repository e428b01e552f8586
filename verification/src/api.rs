//! Recognition of the codec format of encoded data.
use vstd::prelude::*;
use crate::error::{Error, Result};
use crate::image::Image;
use crate::io::cio::{MemoryStream, be_value, read_bytes_be};
use crate::j2k::read::{J2kDecoder, image_from_siz, marker_at, segment_payload};
use crate::jp2::read::Jp2Decoder;
use crate::jp2::{JP2_JP, JP2_MAGIC};

verus! {

/// Codec format.
#[derive(Debug, Clone, Copy, PartialEq, Eq, Structural)]
pub enum CodecFormat {
    /// Raw codestream (.j2k, .j2c).
    J2k,
    /// JP2 file format (.jp2).
    Jp2,
}

/// The codec format that the first bytes of `data` announce: a codestream starts with the
/// start-of-codestream marker 0xFF4F, a JP2 file with a signature box (length 12, type
/// "jP  ", content 0x0D0A870A).
pub open spec fn format_of(data: Seq<u8>) -> Option<CodecFormat> {
    if data.len() >= 2 && data[0] == 0xff && data[1] == 0x4f {
        Some(CodecFormat::J2k)
    } else if data.len() >= 12 && be_value(data.subrange(0, 4)) == 12 && be_value(data.subrange(4, 8)) == JP2_JP
        && be_value(data.subrange(8, 12)) == JP2_MAGIC {
        Some(CodecFormat::Jp2)
    } else {
        None
    }
}

/// The codec format of `data`, from its first bytes (see `format_of`).
pub fn detect_format(data: &[u8]) -> (r: Option<CodecFormat>)
    ensures
        r == format_of(data@),
{
    if data.len() >= 2 && data[0] == 0xFF && data[1] == 0x4F {
        return Some(CodecFormat::J2k);
    }
    if data.len() >= 12 {
        let a = vstd::slice::slice_subrange(data, 0, 4);
        let b = vstd::slice::slice_subrange(data, 4, 8);
        let c = vstd::slice::slice_subrange(data, 8, 12);
        let box_len = read_bytes_be(a, 4);
        let box_type = read_bytes_be(b, 4);
        let magic = read_bytes_be(c, 4);
        proof {
            assert(a@.take(4) =~= data@.subrange(0, 4));
            assert(b@.take(4) =~= data@.subrange(4, 8));
            assert(c@.take(4) =~= data@.subrange(8, 12));
        }
        if box_len == 12 && box_type == JP2_JP && magic == JP2_MAGIC {
            return Some(CodecFormat::Jp2);
        }
    }
    None
}

/// Reads an image from encoded data of the given format: the codestream's main header,
/// then its tile-parts, directly for a codestream, after the JP2 header boxes (whose
/// colour information the image takes) for a JP2 file. The image is the one that the
/// codestream's SIZ segment describes (`image_from_siz`), or has no component when there
/// is none; the samples of its tiles are not decoded. Empty data is refused with
/// `EndOfStream`, and a codestream that does not start with the start-of-codestream
/// marker as invalid input.
pub fn decode(data: &[u8], format: CodecFormat) -> (r: Result<Image>)
    ensures
        data@.len() == 0 ==> r matches Err(Error::EndOfStream),
        format == CodecFormat::J2k && data@.len() == 1 ==> r matches Err(Error::EndOfStream),
        format == CodecFormat::J2k && data@.len() >= 2 && !marker_at(data@, 0, 0xFF4F) ==> r matches Err(
            Error::InvalidInput(_),
        ),
        format == CodecFormat::Jp2 && data@.len() < 8 ==> r is Err,
        format == CodecFormat::J2k && data@.len() == 4 && marker_at(data@, 0, 0xFF4F) && marker_at(data@, 2, 0xFFD9)
            ==> r is Ok,
        r is Ok ==> r->Ok_0.comps@.len() == 0 || exists|q: int|
            marker_at(data@, q, 0xFF51) && image_from_siz(r->Ok_0, #[trigger] segment_payload(data@, q)),
{
    if data.len() == 0 {
        return Err(Error::EndOfStream);
    }
    decode_owned(vstd::slice::slice_to_vec(data), format)
}

/// `decode` on data that it takes over.
pub fn decode_owned(data: Vec<u8>, format: CodecFormat) -> (r: Result<Image>)
    ensures
        data@.len() == 0 ==> r matches Err(Error::EndOfStream),
        format == CodecFormat::J2k && data@.len() == 1 ==> r matches Err(Error::EndOfStream),
        format == CodecFormat::J2k && data@.len() >= 2 && !marker_at(data@, 0, 0xFF4F) ==> r matches Err(
            Error::InvalidInput(_),
        ),
        format == CodecFormat::Jp2 && data@.len() < 8 ==> r is Err,
        format == CodecFormat::J2k && data@.len() == 4 && marker_at(data@, 0, 0xFF4F) && marker_at(data@, 2, 0xFFD9)
            ==> r is Ok,
        r is Ok ==> r->Ok_0.comps@.len() == 0 || exists|q: int|
            marker_at(data@, q, 0xFF51) && image_from_siz(r->Ok_0, #[trigger] segment_payload(data@, q)),
{
    if data.len() == 0 {
        return Err(Error::EndOfStream);
    }
    let mut stream = MemoryStream::new_input(data);
    match format {
        CodecFormat::J2k => {
            let mut dec = J2kDecoder::new();
            dec.read_header(&mut stream)?;
            dec.read_all_tiles(&mut stream)?;
            Ok(dec.image)
        },
        CodecFormat::Jp2 => {
            let mut dec = Jp2Decoder::new();
            dec.read_header(&mut stream)?;
            dec.read_codestream(&mut stream)?;
            Ok(dec.j2k.image)
        },
    }
}

} // verus!

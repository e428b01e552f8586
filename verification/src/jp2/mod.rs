//! The JP2 file format: box codes, colour information and the box structures.
pub mod read;
pub mod write;

use vstd::prelude::*;

verus! {

/// JPEG 2000 signature box.
pub const JP2_JP: u32 = 0x6A50_2020;
/// File type box.
pub const JP2_FTYP: u32 = 0x6674_7970;
/// JP2 header box (super-box).
pub const JP2_JP2H: u32 = 0x6A70_3268;
/// Image header box.
pub const JP2_IHDR: u32 = 0x6968_6472;
/// Colour specification box.
pub const JP2_COLR: u32 = 0x636F_6C72;
/// Contiguous codestream box.
pub const JP2_JP2C: u32 = 0x6A70_3263;
/// Palette box.
pub const JP2_PCLR: u32 = 0x7063_6C72;
/// Component mapping box.
pub const JP2_CMAP: u32 = 0x636D_6170;
/// Channel definition box.
pub const JP2_CDEF: u32 = 0x6364_6566;
/// Bits per component box.
pub const JP2_BPCC: u32 = 0x6270_6363;
/// File type brand "jp2 ".
pub const JP2_JP2_BRAND: u32 = 0x6A70_3220;
/// Content of the signature box.
pub const JP2_MAGIC: u32 = 0x0D0A_870A;

/// Decoder progress through the boxes of a JP2 file.
#[derive(Debug, Clone, Copy, PartialEq, Eq, Structural)]
pub enum Jp2State {
    /// Initial state.
    Initial,
    /// Signature box read.
    Signature,
    /// File type box read.
    FileType,
    /// Header box read.
    Header,
    /// Codestream box found.
    Codestream,
}

/// Colour specification method.
#[derive(Debug, Clone, Copy, PartialEq, Eq, Structural)]
pub enum ColourMethod {
    /// Enumerated colour space (method 1).
    Enumerated,
    /// ICC profile (method 2).
    Icc,
}

/// Colour information of a colour specification box.
#[derive(Debug, Clone)]
pub struct Jp2Colour {
    /// Colour method.
    pub meth: ColourMethod,
    /// Precedence.
    pub precedence: u8,
    /// Approximation accuracy.
    pub approx: u8,
    /// Enumerated colour space (with the enumerated method).
    pub enumcs: u32,
    /// ICC profile data (with the ICC method).
    pub icc_profile: Vec<u8>,
}

impl Default for Jp2Colour {
    fn default() -> (r: Self)
        ensures
            r.meth == ColourMethod::Enumerated,
            r.precedence == 0 && r.approx == 0 && r.enumcs == 0,
            r.icc_profile@.len() == 0,
    {
        Jp2Colour { meth: ColourMethod::Enumerated, precedence: 0, approx: 0, enumcs: 0, icc_profile: Vec::new() }
    }
}

/// Precision and signedness of a component.
#[derive(Debug, Clone)]
pub struct Jp2CompInfo {
    /// Bit precision.
    pub prec: u8,
    /// Whether the component is signed.
    pub sgnd: bool,
}

impl Default for Jp2CompInfo {
    fn default() -> (r: Self)
        ensures
            r.prec == 0 && !r.sgnd,
    {
        Jp2CompInfo { prec: 0, sgnd: false }
    }
}

/// Entry of a channel definition box.
#[derive(Debug, Clone, Copy, PartialEq, Eq, Structural)]
pub struct CdefEntry {
    /// Channel index.
    pub cn: u16,
    /// Channel type (0 colour, 1 opacity, 2 premultiplied opacity).
    pub typ: u16,
    /// Associated colour (1-based; 0 or 65535 for none).
    pub asoc: u16,
}

/// Content of a palette box.
#[derive(Debug, Clone)]
pub struct Pclr {
    /// Entries: `entries[entry * nr_channels + column]`.
    pub entries: Vec<u32>,
    /// Signedness of each column.
    pub channel_sign: Vec<bool>,
    /// Bit depth of each column.
    pub channel_size: Vec<u8>,
    /// Number of entries.
    pub nr_entries: u16,
    /// Number of columns.
    pub nr_channels: u8,
}

/// Entry of a component mapping box.
#[derive(Debug, Clone, Copy, PartialEq, Eq, Structural)]
pub struct CmapEntry {
    /// Source component.
    pub cmp: u16,
    /// Mapping type (0 direct, 1 through the palette).
    pub mtyp: u8,
    /// Palette column.
    pub pcol: u8,
}

/// Header of a box.
#[derive(Debug, Clone, Copy)]
pub struct Jp2Box {
    /// Box length, header included.
    pub length: u32,
    /// Box type code.
    pub box_type: u32,
    /// Header length: 8, or 16 with an extended length.
    pub header_len: u32,
}

} // verus!

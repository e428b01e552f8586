//! Tile coder data of the decoder: coding-pass segments and code blocks.
use vstd::prelude::*;

verus! {

/// A segment of coding passes of a code block.
#[derive(Debug, Clone)]
pub struct TcdSeg {
    /// Size of data in this segment.
    pub len: u32,
    /// Number of passes in this segment.
    pub numpasses: u32,
    /// Real number of passes (after correction).
    pub real_num_passes: u32,
    /// Maximum passes this segment can hold.
    pub maxpasses: u32,
    /// Number of new passes to add.
    pub numnewpasses: u32,
    /// New length to add.
    pub newlen: u32,
}

/// The segment with every count at zero.
pub open spec fn empty_seg() -> TcdSeg {
    TcdSeg { len: 0, numpasses: 0, real_num_passes: 0, maxpasses: 0, numnewpasses: 0, newlen: 0 }
}

impl Default for TcdSeg {
    fn default() -> (r: Self)
        ensures
            r == empty_seg(),
    {
        TcdSeg { len: 0, numpasses: 0, real_num_passes: 0, maxpasses: 0, numnewpasses: 0, newlen: 0 }
    }
}

/// A chunk of segment data.
#[derive(Debug, Clone)]
pub struct TcdSegDataChunk {
    /// Segment data (owned copy).
    pub data: Vec<u8>,
    /// Usable length.
    pub len: u32,
}

/// A code block of the decoder.
#[derive(Debug, Clone)]
pub struct TcdCblkDec {
    /// Segment information.
    pub segs: Vec<TcdSeg>,
    /// Data chunks.
    pub chunks: Vec<TcdSegDataChunk>,
    /// Bounding box.
    pub x0: i32,
    pub y0: i32,
    pub x1: i32,
    pub y1: i32,
    /// Maximum bit-planes (Mb).
    pub mb: u32,
    /// Number of significant bit-planes.
    pub numbps: u32,
    /// Number of length bits.
    pub numlenbits: u32,
    /// Number of new passes to add.
    pub numnewpasses: u32,
    /// Number of segments in use.
    pub numsegs: u32,
    /// Real number of segments.
    pub real_num_segs: u32,
    /// Decoded coefficient data (allocated on first decode).
    pub decoded_data: Option<Vec<i32>>,
    /// Whether data is corrupted.
    pub corrupted: bool,
}

impl Default for TcdCblkDec {
    fn default() -> (r: Self)
        ensures
            r.segs@.len() == 0,
            r.chunks@.len() == 0,
            r.x0 == 0 && r.y0 == 0 && r.x1 == 0 && r.y1 == 0,
            r.mb == 0 && r.numbps == 0 && r.numlenbits == 0 && r.numnewpasses == 0,
            r.numsegs == 0 && r.real_num_segs == 0,
            r.decoded_data is None,
            !r.corrupted,
    {
        TcdCblkDec {
            segs: Vec::new(),
            chunks: Vec::new(),
            x0: 0,
            y0: 0,
            x1: 0,
            y1: 0,
            mb: 0,
            numbps: 0,
            numlenbits: 0,
            numnewpasses: 0,
            numsegs: 0,
            real_num_segs: 0,
            decoded_data: None,
            corrupted: false,
        }
    }
}

} // verus!

//! Writing of a codestream: the main header, tile-parts and the end marker.
use vstd::prelude::*;
use crate::error::{Result, invalid};
use crate::image::Image;
use crate::j2k::markers::{
    cod_payload, cod_writable, patch_psot, qcd_payload, qcd_writable, siz_payload, write_cod, write_eoc, write_qcd,
    write_siz, write_soc, write_sod, write_sot,
};
use crate::j2k::params::{CodingParameters, TileCodingParameters};
use crate::jp2::write::{be16, be32};

verus! {

/// Whether a main header can be written for `image` and `tcp`: at most 16384 components
/// and writable COD and QCD segments.
pub open spec fn header_writable(image: Image, tcp: TileCodingParameters) -> bool {
    &&& image.comps@.len() <= 16384
    &&& cod_writable(tcp)
    &&& qcd_writable(tcp)
}

/// The main header: SOC, then the SIZ, COD and QCD segments.
pub open spec fn header_bytes(image: Image, cp: CodingParameters, tcp: TileCodingParameters) -> Seq<u8> {
    be16(0xFF4F) + be16(0xFF51) + be16((38 + 3 * image.comps@.len()) as u16) + siz_payload(image, cp) + be16(
        0xFF52,
    ) + be16((2 + cod_payload(tcp).len()) as u16) + cod_payload(tcp) + be16(0xFF5C) + be16(
        (2 + qcd_payload(tcp).len()) as u16,
    ) + qcd_payload(tcp)
}

/// A tile-part: its SOT segment with the tile-part length, SOD, then the data.
pub open spec fn tile_part_bytes(tile_no: u32, data: Seq<u8>, tp_idx: u8, nb_parts: u8) -> Seq<u8> {
    be16(0xFF90) + be16(10) + be16(tile_no as u16) + be32((14 + data.len()) as u32) + seq![tp_idx, nb_parts]
        + be16(0xFF93) + data
}

/// Writer of a codestream.
pub struct J2kEncoder {
    /// The bytes written so far.
    pub output: Vec<u8>,
}

impl Default for J2kEncoder {
    fn default() -> (r: Self)
        ensures
            r.output@.len() == 0,
    {
        Self::new()
    }
}

impl J2kEncoder {
    /// A writer with nothing written.
    pub fn new() -> (r: Self)
        ensures
            r.output@.len() == 0,
    {
        J2kEncoder { output: Vec::new() }
    }

    /// Writes the main header: SOC, SIZ (image area, tile grid, components), COD and QCD
    /// (from the first component's parameters). Refused, writing nothing, when
    /// `header_writable` fails.
    pub fn write_header(&mut self, image: &Image, cp: &CodingParameters, tcp: &TileCodingParameters) -> (r: Result<
        (),
    >)
        ensures
            r is Ok <==> header_writable(*image, *tcp),
            r is Ok ==> final(self).output@ == old(self).output@ + header_bytes(*image, *cp, *tcp),
            r is Err ==> final(self).output@ == old(self).output@,
    {
        if image.comps.len() > 16384 {
            return Err(invalid("too many components"));
        }
        if tcp.tccps.len() == 0 {
            return Err(invalid("no component coding parameters"));
        }
        let t = &tcp.tccps[0];
        if t.numresolutions == 0 || t.numresolutions > 33 || t.cblkw < 2 || t.cblkh < 2 {
            return Err(invalid("component coding parameters cannot be written"));
        }
        let ghost o0 = self.output@;
        write_soc(&mut self.output);
        write_siz(&mut self.output, image, cp);
        write_cod(&mut self.output, tcp);
        write_qcd(&mut self.output, tcp);
        assert(self.output@ =~= o0 + header_bytes(*image, *cp, *tcp));
        Ok(())
    }

    /// Writes a tile-part of tile `tile_no`: its SOT segment, whose tile-part length is set
    /// once the data is written, SOD and the data. Refused, writing nothing, when the
    /// tile-part length does not fit in 32 bits.
    pub fn write_tile(&mut self, tile_no: u32, tile_data: &[u8], tp_idx: u8, nb_parts: u8) -> (r: Result<()>)
        requires
            old(self).output@.len() + 14 + tile_data@.len() <= usize::MAX,
        ensures
            r is Ok <==> 14 + tile_data@.len() <= u32::MAX,
            r is Ok ==> final(self).output@ == old(self).output@ + tile_part_bytes(
                tile_no,
                tile_data@,
                tp_idx,
                nb_parts,
            ),
            r is Err ==> final(self).output@ == old(self).output@,
    {
        let n = tile_data.len();
        if n > 0xffff_ffff - 14 {
            return Err(invalid("tile-part too long for its 32-bit length"));
        }
        let ghost o0 = self.output@;
        let psot_offset = write_sot(&mut self.output, tile_no, tp_idx, nb_parts);
        write_sod(&mut self.output);
        let mut i: usize = 0;
        let ghost o1 = self.output@;
        while i < n
            invariant
                n == tile_data@.len(),
                i <= n,
                self.output@ == o1 + tile_data@.take(i as int),
            decreases n - i,
        {
            self.output.push(tile_data[i]);
            proof {
                assert(tile_data@.take(i + 1) =~= tile_data@.take(i as int).push(tile_data@[i as int]));
            }
            i += 1;
        }
        assert(tile_data@.take(n as int) =~= tile_data@);
        let psot = 14 + n as u32;
        patch_psot(&mut self.output, psot_offset, psot);
        assert(self.output@ =~= o0 + tile_part_bytes(tile_no, tile_data@, tp_idx, nb_parts));
        Ok(())
    }

    /// Writes the EOC marker and returns the codestream.
    pub fn finalize(self) -> (r: Vec<u8>)
        ensures
            r@ == self.output@ + be16(0xFFD9),
    {
        let mut out = self.output;
        write_eoc(&mut out);
        out
    }
}

} // verus!

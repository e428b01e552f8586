//! The JPEG 2000 codestream: markers, states and coding parameters.
pub mod markers;
pub mod params;
pub mod read;
pub mod write;

use vstd::prelude::*;

verus! {

/// JPEG 2000 marker codes.
#[derive(Debug, Clone, Copy, PartialEq, Eq, Structural)]
pub enum Marker {
    /// Start of codestream.
    Soc,
    /// Start of tile-part.
    Sot,
    /// Start of data.
    Sod,
    /// End of codestream.
    Eoc,
    /// Image and tile size.
    Siz,
    /// Coding style default.
    Cod,
    /// Coding style component.
    Coc,
    /// Region of interest.
    Rgn,
    /// Quantization default.
    Qcd,
    /// Quantization component.
    Qcc,
    /// Progression order change.
    Poc,
    /// Tile-part lengths.
    Tlm,
    /// Packet lengths (main header).
    Plm,
    /// Packet lengths (tile-part header).
    Plt,
    /// Packed packet headers (main).
    Ppm,
    /// Packed packet headers (tile-part).
    Ppt,
    /// Component registration.
    Crg,
    /// Comment.
    Com,
    /// Component bit depth (Part-2).
    Cbd,
    /// Extended capabilities (Part-2).
    Cap,
    /// Unknown marker.
    Unk,
}

/// The two-byte code of a marker; 0 for the unknown marker.
pub open spec fn marker_code(m: Marker) -> u16 {
    match m {
        Marker::Soc => 0xFF4F,
        Marker::Sot => 0xFF90,
        Marker::Sod => 0xFF93,
        Marker::Eoc => 0xFFD9,
        Marker::Siz => 0xFF51,
        Marker::Cod => 0xFF52,
        Marker::Coc => 0xFF53,
        Marker::Rgn => 0xFF5E,
        Marker::Qcd => 0xFF5C,
        Marker::Qcc => 0xFF5D,
        Marker::Poc => 0xFF5F,
        Marker::Tlm => 0xFF55,
        Marker::Plm => 0xFF57,
        Marker::Plt => 0xFF58,
        Marker::Ppm => 0xFF60,
        Marker::Ppt => 0xFF61,
        Marker::Crg => 0xFF63,
        Marker::Com => 0xFF64,
        Marker::Cbd => 0xFF78,
        Marker::Cap => 0xFF50,
        Marker::Unk => 0x0000,
    }
}

/// The marker with code `val`, or the unknown marker when no marker has it.
pub open spec fn marker_of(val: u16) -> Marker {
    match val {
        0xFF4F => Marker::Soc,
        0xFF90 => Marker::Sot,
        0xFF93 => Marker::Sod,
        0xFFD9 => Marker::Eoc,
        0xFF51 => Marker::Siz,
        0xFF52 => Marker::Cod,
        0xFF53 => Marker::Coc,
        0xFF5E => Marker::Rgn,
        0xFF5C => Marker::Qcd,
        0xFF5D => Marker::Qcc,
        0xFF5F => Marker::Poc,
        0xFF55 => Marker::Tlm,
        0xFF57 => Marker::Plm,
        0xFF58 => Marker::Plt,
        0xFF60 => Marker::Ppm,
        0xFF61 => Marker::Ppt,
        0xFF63 => Marker::Crg,
        0xFF64 => Marker::Com,
        0xFF78 => Marker::Cbd,
        0xFF50 => Marker::Cap,
        _ => Marker::Unk,
    }
}

impl Marker {
    /// The marker with code `val`; unknown codes give `Marker::Unk`.
    pub fn from_u16(val: u16) -> (r: Self)
        ensures
            r == marker_of(val),
    {
        match val {
            0xFF4F => Marker::Soc,
            0xFF90 => Marker::Sot,
            0xFF93 => Marker::Sod,
            0xFFD9 => Marker::Eoc,
            0xFF51 => Marker::Siz,
            0xFF52 => Marker::Cod,
            0xFF53 => Marker::Coc,
            0xFF5E => Marker::Rgn,
            0xFF5C => Marker::Qcd,
            0xFF5D => Marker::Qcc,
            0xFF5F => Marker::Poc,
            0xFF55 => Marker::Tlm,
            0xFF57 => Marker::Plm,
            0xFF58 => Marker::Plt,
            0xFF60 => Marker::Ppm,
            0xFF61 => Marker::Ppt,
            0xFF63 => Marker::Crg,
            0xFF64 => Marker::Com,
            0xFF78 => Marker::Cbd,
            0xFF50 => Marker::Cap,
            _ => Marker::Unk,
        }
    }

    /// The two-byte code of the marker.
    pub fn to_u16(self) -> (r: u16)
        ensures
            r == marker_code(self),
    {
        match self {
            Marker::Soc => 0xFF4F,
            Marker::Sot => 0xFF90,
            Marker::Sod => 0xFF93,
            Marker::Eoc => 0xFFD9,
            Marker::Siz => 0xFF51,
            Marker::Cod => 0xFF52,
            Marker::Coc => 0xFF53,
            Marker::Rgn => 0xFF5E,
            Marker::Qcd => 0xFF5C,
            Marker::Qcc => 0xFF5D,
            Marker::Poc => 0xFF5F,
            Marker::Tlm => 0xFF55,
            Marker::Plm => 0xFF57,
            Marker::Plt => 0xFF58,
            Marker::Ppm => 0xFF60,
            Marker::Ppt => 0xFF61,
            Marker::Crg => 0xFF63,
            Marker::Com => 0xFF64,
            Marker::Cbd => 0xFF78,
            Marker::Cap => 0xFF50,
            Marker::Unk => 0x0000,
        }
    }
}

/// Every known marker is read back from its code, and a code read as a known marker is
/// that marker's code.
pub proof fn lemma_marker_code_roundtrip(m: Marker, val: u16)
    ensures
        m != Marker::Unk ==> marker_of(marker_code(m)) == m,
        marker_of(val) != Marker::Unk ==> marker_code(marker_of(val)) == val,
{
}

/// Decoder state.
#[derive(Debug, Clone, Copy, PartialEq, Eq, Structural)]
pub enum J2kState {
    /// Initial state.
    Initial,
    /// Expecting SOC.
    MhSoc,
    /// SOC read, expecting SIZ.
    MhSiz,
    /// Reading main header markers.
    Mh,
    /// Expecting SOT.
    TphSot,
    /// Reading tile-part header markers.
    Tph,
    /// Reading tile data.
    Data,
    /// End of codestream reached.
    Eoc,
    /// Truncated codestream (no explicit EOC).
    Neoc,
    /// Error state.
    Error,
}

impl J2kState {
    /// Whether the state is one of the main header (`MhSoc`, `MhSiz`, `Mh`).
    pub fn is_main_header(self) -> (r: bool)
        ensures
            r <==> (self == J2kState::MhSoc || self == J2kState::MhSiz || self == J2kState::Mh),
    {
        matches!(self, J2kState::MhSoc | J2kState::MhSiz | J2kState::Mh)
    }

    /// Whether the state is one of a tile-part header (`TphSot`, `Tph`).
    pub fn is_tile_header(self) -> (r: bool)
        ensures
            r <==> (self == J2kState::TphSot || self == J2kState::Tph),
    {
        matches!(self, J2kState::TphSot | J2kState::Tph)
    }
}

} // verus!

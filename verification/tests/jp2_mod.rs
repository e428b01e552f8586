use openjpeg_rs::jp2::{
    ColourMethod, Jp2Box, Jp2Colour, Jp2State, JP2_BPCC, JP2_CDEF, JP2_CMAP, JP2_COLR, JP2_FTYP, JP2_IHDR, JP2_JP,
    JP2_JP2C, JP2_JP2H, JP2_JP2_BRAND, JP2_MAGIC, JP2_PCLR,
};


#[test]
fn box_type_constants() {
    assert_eq!(JP2_JP, 0x6A50_2020);
    assert_eq!(JP2_FTYP, 0x6674_7970);
    assert_eq!(JP2_JP2H, 0x6A70_3268);
    assert_eq!(JP2_IHDR, 0x6968_6472);
    assert_eq!(JP2_COLR, 0x636F_6C72);
    assert_eq!(JP2_JP2C, 0x6A70_3263);
    assert_eq!(JP2_PCLR, 0x7063_6C72);
    assert_eq!(JP2_CMAP, 0x636D_6170);
    assert_eq!(JP2_CDEF, 0x6364_6566);
    assert_eq!(JP2_BPCC, 0x6270_6363);
    assert_eq!(JP2_JP2_BRAND, 0x6A70_3220);
    assert_eq!(JP2_MAGIC, 0x0D0A_870A);
}

#[test]
fn jp2_state_variants() {
    let s = Jp2State::Initial;
    assert_eq!(s, Jp2State::Initial);
    let _ = Jp2State::Signature;
    let _ = Jp2State::FileType;
    let _ = Jp2State::Header;
    let _ = Jp2State::Codestream;
}

#[test]
fn jp2_colour_default() {
    let c = Jp2Colour::default();
    assert_eq!(c.meth, ColourMethod::Enumerated);
    assert_eq!(c.precedence, 0);
    assert_eq!(c.approx, 0);
    assert_eq!(c.enumcs, 0);
    assert!(c.icc_profile.is_empty());
}

#[test]
fn jp2_box_struct() {
    let b = Jp2Box {
        length: 22,
        box_type: JP2_IHDR,
        header_len: 8,
    };
    assert_eq!(b.length, 22);
    assert_eq!(b.box_type, JP2_IHDR);
    assert_eq!(b.header_len, 8);
}

use openjpeg_rs::j2k::{J2kState, Marker};


#[test]
fn marker_from_u16_known() {
    assert_eq!(Marker::from_u16(0xFF4F), Marker::Soc);
    assert_eq!(Marker::from_u16(0xFF51), Marker::Siz);
    assert_eq!(Marker::from_u16(0xFF52), Marker::Cod);
    assert_eq!(Marker::from_u16(0xFF5C), Marker::Qcd);
    assert_eq!(Marker::from_u16(0xFF90), Marker::Sot);
    assert_eq!(Marker::from_u16(0xFF93), Marker::Sod);
    assert_eq!(Marker::from_u16(0xFFD9), Marker::Eoc);
    assert_eq!(Marker::from_u16(0xFF64), Marker::Com);
}

#[test]
fn marker_from_u16_unknown() {
    assert_eq!(Marker::from_u16(0xFF00), Marker::Unk);
    assert_eq!(Marker::from_u16(0x0000), Marker::Unk);
}

#[test]
fn marker_as_u16() {
    assert_eq!(Marker::Soc.to_u16(), 0xFF4F);
    assert_eq!(Marker::Eoc.to_u16(), 0xFFD9);
}

#[test]
fn j2k_state_main_header() {
    assert!(J2kState::MhSoc.is_main_header());
    assert!(J2kState::MhSiz.is_main_header());
    assert!(J2kState::Mh.is_main_header());
    assert!(!J2kState::TphSot.is_main_header());
    assert!(!J2kState::Data.is_main_header());
}

#[test]
fn j2k_state_tile_header() {
    assert!(J2kState::TphSot.is_tile_header());
    assert!(J2kState::Tph.is_tile_header());
    assert!(!J2kState::Mh.is_tile_header());
    assert!(!J2kState::Data.is_tile_header());
}

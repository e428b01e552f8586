use openjpeg_rs::image::{Image, ImageCompParam};
use openjpeg_rs::types::ColorSpace;


fn rgb_params() -> Vec<ImageCompParam> {
    (0..3)
        .map(|_| ImageCompParam {
            dx: 1,
            dy: 1,
            w: 640,
            h: 480,
            x0: 0,
            y0: 0,
            prec: 8,
            sgnd: false,
        })
        .collect()
}

#[test]
fn image_new_creates_components() {
    let params = rgb_params();
    let img = Image::new(&params, ColorSpace::Srgb);
    assert_eq!(img.comps.len(), 3);
    assert_eq!(img.color_space, ColorSpace::Srgb);
}

#[test]
fn image_new_allocates_data() {
    let params = rgb_params();
    let img = Image::new(&params, ColorSpace::Srgb);
    for comp in &img.comps {
        assert_eq!(comp.data.len(), 640 * 480);
        assert_eq!(comp.dx, 1);
        assert_eq!(comp.dy, 1);
        assert_eq!(comp.prec, 8);
        assert!(!comp.sgnd);
    }
}

#[test]
fn image_new_tile_no_data() {
    let params = rgb_params();
    let img = Image::new_tile(&params, ColorSpace::Srgb);
    assert_eq!(img.comps.len(), 3);
    for comp in &img.comps {
        assert!(comp.data.is_empty());
    }
}

#[test]
fn clone_header_copies_metadata() {
    let params = rgb_params();
    let mut img = Image::new(&params, ColorSpace::Srgb);
    img.x0 = 10;
    img.y0 = 20;
    img.x1 = 650;
    img.y1 = 500;
    img.icc_profile = vec![1, 2, 3, 4];

    let cloned = img.clone_header();
    assert_eq!(cloned.x0, 10);
    assert_eq!(cloned.y0, 20);
    assert_eq!(cloned.x1, 650);
    assert_eq!(cloned.y1, 500);
    assert_eq!(cloned.color_space, ColorSpace::Srgb);
    assert_eq!(cloned.comps.len(), 3);
    assert_eq!(cloned.icc_profile, vec![1, 2, 3, 4]);
}

#[test]
fn clone_header_no_data() {
    let params = rgb_params();
    let img = Image::new(&params, ColorSpace::Srgb);
    let cloned = img.clone_header();
    for comp in &cloned.comps {
        assert!(comp.data.is_empty());
    }
}

#[test]
fn clone_header_independent() {
    let params = rgb_params();
    let img = Image::new(&params, ColorSpace::Srgb);
    let mut cloned = img.clone_header();
    cloned.x0 = 999;
    assert_ne!(img.x0, 999);
}

use openjpeg_rs::image::{Image, ImageCompParam};
use openjpeg_rs::image_io::{detect_output_format, pgx_bytes, pnm_bytes, ImageFormat};
use openjpeg_rs::types::ColorSpace;

fn make_gray_image(w: u32, h: u32, prec: u32, data: Vec<i32>) -> Image {
    let params = vec![ImageCompParam { dx: 1, dy: 1, w, h, x0: 0, y0: 0, prec, sgnd: false }];
    let mut img = Image::new(&params, ColorSpace::Gray);
    img.x1 = w;
    img.y1 = h;
    img.comps[0].data = data;
    img
}

fn make_rgb_image(w: u32, h: u32, r: Vec<i32>, g: Vec<i32>, b: Vec<i32>) -> Image {
    let params: Vec<_> = (0..3)
        .map(|_| ImageCompParam { dx: 1, dy: 1, w, h, x0: 0, y0: 0, prec: 8, sgnd: false })
        .collect();
    let mut img = Image::new(&params, ColorSpace::Srgb);
    img.x1 = w;
    img.y1 = h;
    img.comps[0].data = r;
    img.comps[1].data = g;
    img.comps[2].data = b;
    img
}

#[test]
fn detect_format_pgm() {
    assert_eq!(detect_output_format("test.pgm"), Some(ImageFormat::Pnm));
    assert_eq!(detect_output_format("test.ppm"), Some(ImageFormat::Pnm));
    assert_eq!(detect_output_format("test.pgx"), Some(ImageFormat::Pgx));
    assert_eq!(detect_output_format("test.jpg"), None);
}

#[test]
fn detect_format_path_forms() {
    assert_eq!(detect_output_format("dir/out.PGM"), Some(ImageFormat::Pnm));
    assert_eq!(detect_output_format("a/b/c.Pnm"), Some(ImageFormat::Pnm));
    assert_eq!(detect_output_format("out.pgx/"), Some(ImageFormat::Pgx));
    assert_eq!(detect_output_format("out.pgx/."), Some(ImageFormat::Pgx));
    assert_eq!(detect_output_format(".pgm"), None);
    assert_eq!(detect_output_format("dir.pgm/out"), None);
    assert_eq!(detect_output_format("x/.."), None);
    assert_eq!(detect_output_format(""), None);
    assert_eq!(detect_output_format("/"), None);
    assert_eq!(detect_output_format("a..pgm"), Some(ImageFormat::Pnm));
    assert_eq!(detect_output_format("a.pgmx"), None);
}

#[test]
fn write_pgm_2x2() {
    let img = make_gray_image(2, 2, 8, vec![10, 20, 30, 40]);
    let data = pnm_bytes(&img).unwrap();
    let text = String::from_utf8_lossy(&data);
    assert!(text.starts_with("P5\n2 2\n255\n"));
    let header_end = text.find("\n255\n").unwrap() + 5;
    assert_eq!(&data[header_end..], &[10, 20, 30, 40]);
}

#[test]
fn write_ppm_2x1() {
    let img = make_rgb_image(2, 1, vec![255, 0], vec![0, 255], vec![0, 0]);
    let data = pnm_bytes(&img).unwrap();
    let text = String::from_utf8_lossy(&data);
    assert!(text.starts_with("P6\n2 1\n255\n"));
    let header_end = text.find("\n255\n").unwrap() + 5;
    assert_eq!(&data[header_end..], &[255, 0, 0, 0, 255, 0]);
}

#[test]
fn write_pgx_2x2() {
    let img = make_gray_image(2, 2, 8, vec![10, 20, 30, 40]);
    let data = pgx_bytes(&img).unwrap();
    let text = String::from_utf8_lossy(&data);
    assert!(text.starts_with("PG ML +8 2 2\n"));
    let header_end = text.find("\n").unwrap() + 1;
    assert_eq!(&data[header_end..], &[10, 20, 30, 40]);
}

#[test]
fn pnm_clamps_and_widens() {
    // 10-bit samples: two bytes each, negatives to 0, values above 1023 to 1023.
    let img = make_gray_image(3, 1, 10, vec![-5, 1000, 5000]);
    let data = pnm_bytes(&img).unwrap();
    let header = b"P5\n3 1\n1023\n";
    assert_eq!(&data[..header.len()], header);
    assert_eq!(&data[header.len()..], &[0, 0, 0x03, 0xe8, 0x03, 0xff]);
}

#[test]
fn pnm_short_data_reads_zero() {
    let img = make_gray_image(2, 2, 8, vec![7]);
    let data = pnm_bytes(&img).unwrap();
    assert_eq!(&data[data.len() - 4..], &[7, 0, 0, 0]);
}

#[test]
fn pnm_refuses_two_components() {
    let params: Vec<_> = (0..2)
        .map(|_| ImageCompParam { dx: 1, dy: 1, w: 1, h: 1, x0: 0, y0: 0, prec: 8, sgnd: false })
        .collect();
    let img = Image::new(&params, ColorSpace::Srgb);
    assert!(pnm_bytes(&img).is_err());
    let empty = Image::new(&[], ColorSpace::Gray);
    assert!(pnm_bytes(&empty).is_err());
    assert!(pgx_bytes(&empty).is_err());
}

#[test]
fn pgx_signed_wide_samples() {
    let params = vec![ImageCompParam { dx: 1, dy: 1, w: 2, h: 1, x0: 0, y0: 0, prec: 12, sgnd: true }];
    let mut img = Image::new(&params, ColorSpace::Gray);
    img.comps[0].data = vec![-2, 300];
    let data = pgx_bytes(&img).unwrap();
    let header = b"PG ML -12 2 1\n";
    assert_eq!(&data[..header.len()], header);
    assert_eq!(&data[header.len()..], &[0xff, 0xfe, 0x01, 0x2c]);
}

#[test]
fn pgx_four_byte_samples() {
    let params = vec![ImageCompParam { dx: 1, dy: 1, w: 1, h: 1, x0: 0, y0: 0, prec: 20, sgnd: false }];
    let mut img = Image::new(&params, ColorSpace::Gray);
    img.comps[0].data = vec![0x0102_0304];
    let data = pgx_bytes(&img).unwrap();
    assert_eq!(&data[data.len() - 4..], &[1, 2, 3, 4]);
}

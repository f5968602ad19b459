use lol_live::raster::{GrayImage, Rgba, RgbaImage};

#[test]
fn gray_from_raw_checks_size() {
    assert!(GrayImage::from_raw(2, 2, vec![1, 2, 3]).is_none());
    assert!(GrayImage::from_raw(2, 2, vec![1, 2, 3, 4, 5]).is_none());
    let img = GrayImage::from_raw(2, 2, vec![1, 2, 3, 4]).unwrap();
    assert_eq!(img.get_pixel(1, 0), 2);
    assert_eq!(img.get_pixel(0, 1), 3);
    assert_eq!(img.to_raw(), vec![1, 2, 3, 4]);
}

#[test]
fn rgba_round_trip() {
    let bytes: Vec<u8> = (0..24).collect();
    assert!(RgbaImage::from_raw(3, 2, bytes[..20].to_vec()).is_none());
    let img = RgbaImage::from_raw(3, 2, bytes.clone()).unwrap();
    assert_eq!(img.get_pixel(1, 1), Rgba { r: 16, g: 17, b: 18, a: 19 });
    assert_eq!(img.to_raw(), bytes);
}

#[test]
fn threshold_inverts() {
    let img = GrayImage::from_raw(4, 1, vec![0, 100, 101, 255]).unwrap();
    assert_eq!(img.threshold_inverted(100).to_raw(), vec![255, 255, 0, 0]);
}

#[test]
fn crop_is_clamped_to_the_image() {
    let img = GrayImage::from_raw(3, 3, (0..9).collect()).unwrap();
    let c = img.crop(1, 1, 5, 5);
    assert_eq!((c.width(), c.height()), (2, 2));
    assert_eq!(c.to_raw(), vec![4, 5, 7, 8]);
    let c = img.crop(7, 0, 2, 2);
    assert_eq!((c.width(), c.height()), (0, 2));
}

#[test]
fn dark_bounds_box() {
    let img = GrayImage::from_raw(4, 3, vec![255, 255, 255, 255, 255, 127, 255, 255, 255, 255, 0, 255]).unwrap();
    assert_eq!(img.dark_bounds(), Some((1, 1, 2, 2)));
    let light = GrayImage::from_raw(2, 1, vec![128, 255]).unwrap();
    assert_eq!(light.dark_bounds(), None);
}

#[test]
fn luma_of_white_black_and_red() {
    let img = RgbaImage::from_raw(3, 1, vec![255, 255, 255, 255, 0, 0, 0, 255, 255, 0, 0, 255]).unwrap();
    let g = img.to_luma();
    assert_eq!((g.width(), g.height()), (3, 1));
    let px = g.to_raw();
    assert_eq!(px.len(), 3);
    assert!(px[0] >= 250);
    assert!(px[1] <= 5);
    assert!(px[2] > 20 && px[2] < 200);
}

#[test]
fn resize_changes_size() {
    let img = GrayImage::from_raw(2, 1, vec![0, 255]).unwrap();
    let r = img.resize_lanczos3(6, 3);
    assert_eq!((r.width(), r.height()), (6, 3));
    assert_eq!(r.to_raw().len(), 18);
}

#[test]
fn png_signature() {
    let img = GrayImage::from_raw(1, 1, vec![7]).unwrap();
    let png = img.encode_png().unwrap();
    assert_eq!(&png[..8], &[137, 80, 78, 71, 13, 10, 26, 10]);
}

#[test]
fn outline_paints_only_the_border() {
    let img = RgbaImage::from_raw(4, 4, vec![9u8; 64]).unwrap();
    let green = Rgba { r: 0, g: 255, b: 0, a: 255 };
    let o = img.with_outline(1, 1, 2, 3, green);
    assert_eq!(o.get_pixel(1, 1), green);
    assert_eq!(o.get_pixel(2, 2), green);
    assert_eq!(o.get_pixel(1, 3), green);
    assert_eq!(o.get_pixel(0, 0), Rgba { r: 9, g: 9, b: 9, a: 9 });
    assert_eq!(o.get_pixel(3, 2), Rgba { r: 9, g: 9, b: 9, a: 9 });
}

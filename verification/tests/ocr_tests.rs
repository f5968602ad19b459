use lol_live::ocr::{
    fits_preprocess, ocr_input, parse_ocr_text, preprocess, read_cs_next, read_cs_start,
    threshold_at, trim_whitespace, OcrStep,
};
use lol_live::raster::GrayImage;

fn gray(w: u32, h: u32, px: &[u8]) -> GrayImage {
    GrayImage::from_raw(w, h, px.to_vec()).expect("size matches")
}

#[test]
fn parses_trimmed_digits() {
    assert_eq!(parse_ocr_text("123"), Some(123));
    assert_eq!(parse_ocr_text(" 42\n"), Some(42));
    assert_eq!(parse_ocr_text("\u{3000}7\u{a0}"), Some(7));
    assert_eq!(parse_ocr_text("+8"), Some(8));
    assert_eq!(parse_ocr_text("-5"), Some(-5));
    assert_eq!(parse_ocr_text("-9223372036854775808"), Some(i64::MIN));
    assert_eq!(parse_ocr_text("9223372036854775807"), Some(i64::MAX));
}

#[test]
fn rejects_other_text() {
    assert_eq!(parse_ocr_text(""), None);
    assert_eq!(parse_ocr_text("   \n"), None);
    assert_eq!(parse_ocr_text("12a"), None);
    assert_eq!(parse_ocr_text("1 2"), None);
    assert_eq!(parse_ocr_text("-"), None);
    assert_eq!(parse_ocr_text("+"), None);
    assert_eq!(parse_ocr_text("+-1"), None);
    assert_eq!(parse_ocr_text("9223372036854775808"), None);
    assert_eq!(parse_ocr_text("٣"), None);
}

#[test]
fn thresholds_in_order() {
    assert_eq!((threshold_at(0), threshold_at(1), threshold_at(2)), (128, 100, 60));
}

#[test]
fn reading_takes_first_number() {
    assert_eq!(read_cs_start(), OcrStep::Attempt(0));
    assert_eq!(read_cs_next(0, Some("57")), OcrStep::Finished(Some(57)));
    assert_eq!(read_cs_next(0, Some("")), OcrStep::Attempt(1));
    assert_eq!(read_cs_next(1, None), OcrStep::Attempt(2));
    assert_eq!(read_cs_next(2, Some("5 7")), OcrStep::Finished(None));
    assert_eq!(read_cs_next(2, Some(" 9 ")), OcrStep::Finished(Some(9)));
}

#[test]
fn trim_keeps_dark_box_with_margin() {
    // 12x10 white image with a dark 2x3 block at columns 6..8, rows 4..7
    let mut px = vec![255u8; 120];
    for y in 4..7 {
        for x in 6..8 {
            px[y * 12 + x] = 10;
        }
    }
    let img = gray(12, 10, &px);
    let t = trim_whitespace(&img, 1);
    assert_eq!((t.width(), t.height()), (4, 5));
    assert_eq!(t.get_pixel(1, 1), 10);
    assert_eq!(t.get_pixel(0, 0), 255);
    // a margin wider than the image is cut back at the edges
    let t = trim_whitespace(&img, 5);
    assert_eq!((t.width(), t.height()), (11, 10));
    assert_eq!(t.get_pixel(6, 4), 10);
}

#[test]
fn trim_without_dark_pixels_is_identity() {
    let img = gray(3, 2, &[200, 201, 202, 203, 204, 205]);
    let t = trim_whitespace(&img, 5);
    assert_eq!(t.to_raw(), vec![200, 201, 202, 203, 204, 205]);
    let empty = gray(0, 0, &[]);
    assert_eq!(trim_whitespace(&empty, 5).width(), 0);
}

#[test]
fn preprocess_inverts_trims_and_upscales() {
    // light digit pixel (250) on a dark background (0)
    let mut px = vec![0u8; 40 * 20];
    px[10 * 40 + 20] = 250;
    let img = gray(40, 20, &px);
    assert!(fits_preprocess(&img, 128));
    let p = preprocess(&img, 128);
    // the light pixel becomes the only dark one; trimmed to 11x11, then scaled 3x
    assert_eq!((p.width(), p.height()), (33, 33));
}

#[test]
fn preprocess_keeps_tall_images() {
    let mut px = vec![0u8; 20 * 40];
    for y in 0..40 {
        px[y * 20 + 10] = 255;
    }
    let img = gray(20, 40, &px);
    let p = preprocess(&img, 100);
    assert_eq!((p.width(), p.height()), (11, 40));
    assert_eq!(p.get_pixel(5, 0), 0);
    assert_eq!(p.get_pixel(0, 0), 255);
}

#[test]
fn ocr_input_is_a_png() {
    let img = gray(4, 4, &[0, 255, 0, 255, 255, 0, 255, 0, 0, 255, 0, 255, 255, 0, 255, 0]);
    assert!(fits_preprocess(&img, 128));
    let png = ocr_input(&img, 0).expect("encodes");
    assert_eq!(&png[..8], &[137, 80, 78, 71, 13, 10, 26, 10]);
}

#[test]
fn zero_width_image_with_rows_does_not_fit() {
    let img = gray(0, 3, &[]);
    assert!(!fits_preprocess(&img, 128));
}

#[test]
fn light_image_is_copied_at_any_margin() {
    let img = gray(2, 2, &[128, 200, 255, 130]);
    let t = trim_whitespace(&img, u32::MAX);
    assert_eq!((t.width(), t.height()), (2, 2));
    assert_eq!(t.to_raw(), vec![128, 200, 255, 130]);
}

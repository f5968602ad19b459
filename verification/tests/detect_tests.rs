use lol_live::detect::{detect_cs_region, is_valid_cs};
use lol_live::types::CsRegion;

fn region(x: u32, y: u32, width: u32, height: u32) -> CsRegion {
    CsRegion { x, y, width, height }
}

#[test]
fn region_at_1080p() {
    assert_eq!(detect_cs_region(1920, 1080), region(1777, 3, 50, 20));
}

#[test]
fn region_at_1440p() {
    // scale 4/3: 143 * 4/3 = 190.67, 3 * 4/3 = 4, 50 * 4/3 = 66.67, 20 * 4/3 = 26.67
    assert_eq!(detect_cs_region(2560, 1440), region(2369, 4, 66, 26));
}

#[test]
fn region_at_2160p() {
    assert_eq!(detect_cs_region(3840, 2160), region(3554, 6, 100, 40));
}

#[test]
fn region_at_16_by_10() {
    // 2560x1600: the scale follows the height alone (1600 / 1080)
    assert_eq!(detect_cs_region(2560, 1600), region(2348, 4, 74, 29));
}

#[test]
fn region_of_narrow_screen_starts_at_left_edge() {
    assert_eq!(detect_cs_region(100, 1080), region(0, 3, 50, 20));
    assert_eq!(detect_cs_region(0, 0), region(0, 0, 0, 0));
}

#[test]
fn region_follows_right_edge() {
    let a = detect_cs_region(1920, 1440);
    let b = detect_cs_region(2560, 1440);
    assert_eq!(b.x, a.x + 640);
    assert_eq!((a.y, a.width, a.height), (b.y, b.width, b.height));
}

#[test]
fn region_of_largest_screen() {
    assert_eq!(detect_cs_region(u32::MAX, u32::MAX), region(3726281810, 11930464, 198841078, 79536431));
}

#[test]
fn region_follows_double_precision_rounding() {
    // 2484 / 1080 rounds to 2.3 - 2^-51, and 50 times that to 114.99999999999999
    assert_eq!(detect_cs_region(1920, 2484), region(1591, 6, 114, 46));
}

#[test]
fn region_of_zero_height_screen() {
    assert_eq!(detect_cs_region(7, 0), region(7, 0, 0, 0));
    assert_eq!(detect_cs_region(1, 1), region(0, 0, 0, 0));
    assert_eq!(detect_cs_region(143, 1080), region(0, 3, 50, 20));
}

#[test]
fn valid_cs_bounds() {
    assert!(!is_valid_cs(-1));
    assert!(is_valid_cs(0));
    assert!(is_valid_cs(523));
    assert!(is_valid_cs(999));
    assert!(!is_valid_cs(1000));
    assert!(!is_valid_cs(i64::MIN));
    assert!(!is_valid_cs(i64::MAX));
}

#[test]
fn region_lies_inside_the_screen() {
    for &(w, h) in &[(143u32, 1080u32), (200, 1500), (1280, 720), (1920, 1080), (2560, 1080), (2560, 1600), (3840, 2160), (7680, 4320)] {
        let r = detect_cs_region(w, h);
        assert!(r.x + r.width <= w);
        assert!(r.y + r.height <= h);
    }
}
